//! Properties of the engine that relate several operations or every reachable
//! board.
use vstd::prelude::*;
use crate::bits::lemma_zero_bit;
use crate::game::{cell_index, has_disc, has_four, line_at, on_board, Direction, Game, Outcome, HEIGHT, WIDTH};

verus! {

/// A move request is well formed: an existing column and a player tag.
pub open spec fn valid_move(m: (int, u8)) -> bool {
    0 <= m.0 < WIDTH && (m.1 == 1 || m.1 == 2)
}

/// The board after the move `m`: a drop, or nothing when the column is full.
pub open spec fn after_move(g: Game, m: (int, u8)) -> Game {
    if g.height(m.0) < HEIGHT {
        g.dropped(m.0, m.1)
    } else {
        g
    }
}

/// The board after the moves in order.
pub open spec fn after_moves(g: Game, moves: Seq<(int, u8)>) -> Game
    decreases moves.len(),
{
    if moves.len() == 0 {
        g
    } else {
        after_move(after_moves(g, moves.drop_last()), moves.last())
    }
}

/// In a well-formed board no cell holds a disc of both players.
pub proof fn lemma_players_disjoint(g: Game)
    requires
        g.wf(),
    ensures
        forall|c: int, r: int| !(#[trigger] has_disc(g.player1, c, r) && has_disc(g.player2, c, r)),
{
    assert forall|c: int, r: int| !(#[trigger] has_disc(g.player1, c, r) && has_disc(g.player2, c, r)) by {
        if on_board(c, r) {
            crate::bits::lemma_and_bit(g.player1, g.player2, cell_index(c, r) as u64);
            lemma_zero_bit(cell_index(c, r) as u64);
        }
    }
}

/// Any sequence of valid moves from a well-formed board, in particular from
/// the empty one, keeps the two players' discs disjoint at every step.
pub proof fn lemma_moves_keep_disjoint(g: Game, moves: Seq<(int, u8)>)
    requires
        g.wf(),
        forall|k: int| 0 <= k < moves.len() ==> valid_move(#[trigger] moves[k]),
    ensures
        after_moves(g, moves).wf(),
        forall|c: int, r: int|
            !(#[trigger] has_disc(after_moves(g, moves).player1, c, r) && has_disc(
                after_moves(g, moves).player2,
                c,
                r,
            )),
    decreases moves.len(),
{
    if moves.len() > 0 {
        let prefix = moves.drop_last();
        assert forall|k: int| 0 <= k < prefix.len() implies valid_move(#[trigger] prefix[k]) by {
            assert(prefix[k] == moves[k]);
        }
        lemma_moves_keep_disjoint(g, prefix);
        let before = after_moves(g, prefix);
        let m = moves.last();
        assert(valid_move(moves[moves.len() - 1]));
        if before.height(m.0) < HEIGHT {
            before.lemma_drop(m.0, m.1);
        }
    }
    lemma_players_disjoint(after_moves(g, moves));
}

/// Four drops in a row by one player into one column win for that player,
/// unless player 1, who is looked at first, already had four in a line.
pub proof fn lemma_vertical_four_wins(g: Game, c: int, p: u8)
    requires
        g.wf(),
        0 <= c < WIDTH,
        p == 1 || p == 2,
        g.height(c) + 4 <= HEIGHT,
        p == 2 ==> !has_four(g.player1),
    ensures
        g.dropped(c, p).dropped(c, p).dropped(c, p).dropped(c, p).outcome() == Outcome::Win(p),
{
    let h = g.height(c) as int;
    let g1 = g.dropped(c, p);
    g.lemma_drop(c, p);
    let g2 = g1.dropped(c, p);
    g1.lemma_drop(c, p);
    let g3 = g2.dropped(c, p);
    g2.lemma_drop(c, p);
    let g4 = g3.dropped(c, p);
    g3.lemma_drop(c, p);
    assert(g4.owner(c, h) == p);
    assert(g4.owner(c, h + 1) == p);
    assert(g4.owner(c, h + 2) == p);
    assert(g4.owner(c, h + 3) == p);
    let b = if p == 1 {
        g4.player1
    } else {
        g4.player2
    };
    assert(line_at(b, Direction::Vertical, c, h));
}

/// Four discs of one player side by side in one row win for that player,
/// unless player 1, who is looked at first, has four in a line too.
pub proof fn lemma_horizontal_four_wins(g: Game, c: int, r: int, p: u8)
    requires
        g.wf(),
        0 <= c && c + 3 < WIDTH,
        0 <= r < HEIGHT,
        p == 1 || p == 2,
        g.owner(c, r) == p,
        g.owner(c + 1, r) == p,
        g.owner(c + 2, r) == p,
        g.owner(c + 3, r) == p,
        p == 2 ==> !has_four(g.player1),
    ensures
        g.outcome() == Outcome::Win(p),
{
    let b = if p == 1 {
        g.player1
    } else {
        g.player2
    };
    assert(line_at(b, Direction::Horizontal, c, r));
}

/// A board with every cell taken and no four in a line for either player is
/// a draw.
pub proof fn lemma_full_board_draw(g: Game)
    requires
        g.wf(),
        forall|c: int, r: int| on_board(c, r) ==> #[trigger] g.occupied(c, r),
        !has_four(g.player1),
        !has_four(g.player2),
    ensures
        g.outcome() == Outcome::Draw,
{
    assert forall|c: int| 0 <= c < WIDTH implies #[trigger] g.height(c) == HEIGHT by {
        g.lemma_height(c);
        assert(g.occupied(c, HEIGHT - 1));
    }
}

/// The empty board is still going on.
pub proof fn lemma_empty_ongoing(g: Game)
    requires
        g.player1 == 0,
        g.player2 == 0,
    ensures
        g.outcome() == Outcome::Ongoing,
{
    assert forall|c: int, r: int| !#[trigger] has_disc(0u64, c, r) by {
        if on_board(c, r) {
            lemma_zero_bit(cell_index(c, r) as u64);
        }
    }
    assert(!has_four(0u64));
    assert(0u64 & 0u64 == 0 && 0u64 >> 42u64 == 0) by (bit_vector);
    g.lemma_height(0);
    assert(!g.occupied(0, 0));
}

/// A move that neither gives the mover four in a line nor fills the board
/// leaves a game that was going on still going on.
pub proof fn lemma_quiet_move_ongoing(g: Game, c: int, p: u8)
    requires
        g.wf(),
        g.outcome() == Outcome::Ongoing,
        0 <= c < WIDTH,
        p == 1 || p == 2,
        g.height(c) < HEIGHT,
        !has_four(if p == 1 {
            g.dropped(c, p).player1
        } else {
            g.dropped(c, p).player2
        }),
        !g.dropped(c, p).is_full(),
    ensures
        g.dropped(c, p).outcome() == Outcome::Ongoing,
{
    g.lemma_drop(c, p);
}

} // verus!

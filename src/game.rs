//! The board: two disjoint bit-sets over a `WIDTH` x `HEIGHT` grid, with
//! gravity placement and four-in-a-row detection.
use vstd::prelude::*;
use crate::bits::{
    bit, lemma_and_bit, lemma_mask_test, lemma_nonzero_bit, lemma_or_bit, lemma_set_bit,
    lemma_set_bit_below, lemma_set_bit_disjoint, lemma_shr_bit, lemma_zero_bit,
};

verus! {

/// Number of columns.
pub const WIDTH: usize = 7;

/// Number of rows in each column.
pub const HEIGHT: usize = 6;

/// Number of cells on the board.
pub const CELLS: usize = WIDTH * HEIGHT;

/// The bit index of the cell at column `c`, row `r` (row 0 at the bottom).
pub open spec fn cell_index(c: int, r: int) -> int {
    c * HEIGHT + r
}

/// `(c, r)` names a cell of the board.
pub open spec fn on_board(c: int, r: int) -> bool {
    0 <= c < WIDTH && 0 <= r < HEIGHT
}

/// The bit-set `b` holds a disc at column `c`, row `r`.
pub open spec fn has_disc(b: u64, c: int, r: int) -> bool {
    on_board(c, r) && bit(b, cell_index(c, r) as u64)
}

/// The error of a move into a column with no free cell.
#[derive(PartialEq, Eq, Structural, Clone, Copy, Debug)]
pub struct ColumnFull;

/// The state of the game as a whole.
#[derive(PartialEq, Eq, Structural, Clone, Copy, Debug)]
pub enum Outcome {
    Ongoing,
    Win(u8),
    Draw,
}

/// The four directions along which a line of four can run.
#[derive(PartialEq, Eq, Structural, Clone, Copy, Debug)]
pub enum Direction {
    /// One column to the right, same row.
    Horizontal,
    /// Same column, one row up.
    Vertical,
    /// One column to the right, one row up.
    DiagUp,
    /// One column to the right, one row down.
    DiagDown,
}

impl Direction {
    /// Column step of one move along the direction.
    pub open spec fn dc(self) -> int {
        match self {
            Direction::Vertical => 0,
            _ => 1,
        }
    }

    /// Row step of one move along the direction.
    pub open spec fn dr(self) -> int {
        match self {
            Direction::Horizontal => 0,
            Direction::DiagDown => -1,
            _ => 1,
        }
    }

    /// Bit-index difference between two cells adjacent along the direction.
    pub open spec fn stride_spec(self) -> int {
        self.dc() * HEIGHT + self.dr()
    }

    /// A line of four along the direction fits on the board from `(c, r)`.
    pub open spec fn starts_line(self, c: int, r: int) -> bool {
        on_board(c, r) && on_board(c + 3 * self.dc(), r + 3 * self.dr())
    }

    /// The bit stride of the direction.
    pub fn stride(self) -> (s: u64)
        ensures
            s == self.stride_spec(),
    {
        match self {
            Direction::Horizontal => HEIGHT as u64,
            Direction::Vertical => 1,
            Direction::DiagUp => HEIGHT as u64 + 1,
            Direction::DiagDown => HEIGHT as u64 - 1,
        }
    }

    /// Whether a line of four along the direction fits from column `c`, row `r`.
    pub fn starts_at(self, c: usize, r: usize) -> (b: bool)
        requires
            c < WIDTH,
            r < HEIGHT,
        ensures
            b == self.starts_line(c as int, r as int),
    {
        match self {
            Direction::Horizontal => c + 3 < WIDTH,
            Direction::Vertical => r + 3 < HEIGHT,
            Direction::DiagUp => c + 3 < WIDTH && r + 3 < HEIGHT,
            Direction::DiagDown => c + 3 < WIDTH && r >= 3,
        }
    }

    /// The set of cells from which a line of four along the direction fits:
    /// the guard that keeps a shifted run from wrapping between columns.
    pub fn start_mask(self) -> (m: u64)
        ensures
            forall|j: u64|
                j < 64 ==> (#[trigger] bit(m, j) <==> (j < CELLS && self.starts_line(
                    (j as int) / (HEIGHT as int),
                    (j as int) % (HEIGHT as int),
                ))),
    {
        let mut m: u64 = 0;
        let mut i: usize = 0;
        proof {
            assert forall|j: u64| j < 64 implies !#[trigger] bit(m, j) by {
                lemma_zero_bit(j);
            }
        }
        while i < CELLS
            invariant
                i <= CELLS,
                forall|j: u64|
                    j < 64 ==> (#[trigger] bit(m, j) <==> (j < i && self.starts_line(
                        (j as int) / (HEIGHT as int),
                        (j as int) % (HEIGHT as int),
                    ))),
            decreases CELLS - i,
        {
            let c = i / HEIGHT;
            let r = i % HEIGHT;
            let starts = self.starts_at(c, r);
            let old_m = m;
            if starts {
                m = m | (1u64 << (i as u64));
            }
            proof {
                assert forall|j: u64| j < 64 implies (#[trigger] bit(m, j) <==> (j < i + 1
                    && self.starts_line((j as int) / (HEIGHT as int), (j as int) % (HEIGHT as int)))) by {
                    if starts {
                        lemma_set_bit(old_m, i as u64, j);
                    }
                }
            }
            i = i + 1;
        }
        m
    }
}

/// The bit-set `b` holds four discs in a line along `d` starting at `(c, r)`.
pub open spec fn line_at(b: u64, d: Direction, c: int, r: int) -> bool {
    &&& d.starts_line(c, r)
    &&& has_disc(b, c, r)
    &&& has_disc(b, c + d.dc(), r + d.dr())
    &&& has_disc(b, c + 2 * d.dc(), r + 2 * d.dr())
    &&& has_disc(b, c + 3 * d.dc(), r + 3 * d.dr())
}

/// The bit-set `b` holds four in a line along `d` somewhere.
pub open spec fn has_four_along(b: u64, d: Direction) -> bool {
    exists|c: int, r: int| #[trigger] line_at(b, d, c, r)
}

/// The bit-set `b` holds four in a line in some direction.
pub open spec fn has_four(b: u64) -> bool {
    ||| has_four_along(b, Direction::Horizontal)
    ||| has_four_along(b, Direction::Vertical)
    ||| has_four_along(b, Direction::DiagUp)
    ||| has_four_along(b, Direction::DiagDown)
}

/// The cells at which a line of four along `d` starts in `b`, as a bit-set:
/// a cell survives when it and the next three cells along `d` are all set.
/// Nonzero exactly when `b` holds such a line.
pub fn runs_along(b: u64, d: Direction) -> (bb: u64)
    ensures
        forall|j: u64|
            j < 64 ==> (#[trigger] bit(bb, j) <==> (j < CELLS && line_at(
                b,
                d,
                (j as int) / (HEIGHT as int),
                (j as int) % (HEIGHT as int),
            ))),
        (bb != 0) == has_four_along(b, d),
{
    let s = d.stride();
    let mask = d.start_mask();
    let mut bb = mask & b;
    proof {
        assert forall|j: u64| j < 64 implies #[trigger] bit(bb, j) == (bit(mask, j) && bit(b, j)) by {
            lemma_and_bit(mask, b, j);
        }
    }
    let mut k: u64 = 1;
    while k <= 3
        invariant
            1 <= k <= 4,
            s == d.stride_spec(),
            1 <= s <= 7,
            forall|j: u64|
                j < CELLS ==> (#[trigger] bit(bb, j) <==> (bit(mask, j) && bit(b, j) && (k > 1
                    ==> bit(b, (j + s) as u64)) && (k > 2 ==> bit(b, (j + 2 * s) as u64)) && (k
                    > 3 ==> bit(b, (j + 3 * s) as u64)))),
            forall|j: u64| CELLS <= j < 64 ==> !#[trigger] bit(bb, j),
        decreases 4 - k,
    {
        assert(s * k <= 21) by (nonlinear_arith)
            requires
                s <= 7,
                k <= 3,
        ;
        let sk = s * k;
        assert(sk == k * s);
        assert(k == 1 || k == 2 || k == 3);
        let shifted = b >> sk;
        let old_bb = bb;
        bb = bb & shifted;
        proof {
            assert forall|j: u64| j < 64 implies #[trigger] bit(bb, j) == (bit(old_bb, j) && bit(
                shifted,
                j,
            )) by {
                lemma_and_bit(old_bb, shifted, j);
            }
            assert forall|j: u64| j < CELLS implies #[trigger] bit(shifted, j) == bit(
                b,
                (j + sk) as u64,
            ) by {
                lemma_shr_bit(b, sk, j);
            }
        }
        k = k + 1;
    }
    proof {
        lemma_runs_along(b, d, mask, bb);
    }
    bb
}

proof fn lemma_runs_along(b: u64, d: Direction, mask: u64, bb: u64)
    requires
        forall|j: u64|
            j < 64 ==> (#[trigger] bit(mask, j) <==> (j < CELLS && d.starts_line(
                (j as int) / (HEIGHT as int),
                (j as int) % (HEIGHT as int),
            ))),
        forall|j: u64|
            j < CELLS ==> (#[trigger] bit(bb, j) <==> (bit(mask, j) && bit(b, j) && bit(
                b,
                (j + d.stride_spec()) as u64,
            ) && bit(b, (j + 2 * d.stride_spec()) as u64) && bit(
                b,
                (j + 3 * d.stride_spec()) as u64,
            ))),
        forall|j: u64| CELLS <= j < 64 ==> !#[trigger] bit(bb, j),
    ensures
        forall|j: u64|
            j < 64 ==> (#[trigger] bit(bb, j) <==> (j < CELLS && line_at(
                b,
                d,
                (j as int) / (HEIGHT as int),
                (j as int) % (HEIGHT as int),
            ))),
        (bb != 0) == has_four_along(b, d),
{
    assert forall|j: u64| j < CELLS implies (#[trigger] bit(bb, j) <==> line_at(
        b,
        d,
        (j as int) / (HEIGHT as int),
        (j as int) % (HEIGHT as int),
    )) by {
        let c = (j as int) / (HEIGHT as int);
        let r = (j as int) % (HEIGHT as int);
        assert(j == c * HEIGHT + r);
    }
    lemma_nonzero_bit(bb);
    if bb != 0 {
        let j = choose|j: u64| j < 64 && #[trigger] bit(bb, j);
        let c = (j as int) / (HEIGHT as int);
        let r = (j as int) % (HEIGHT as int);
        assert(j == c * HEIGHT + r);
        assert(line_at(b, d, c, r));
    }
    if has_four_along(b, d) {
        let (c, r) = choose|c: int, r: int| #[trigger] line_at(b, d, c, r);
        let j = cell_index(c, r) as u64;
        assert((j as int) / (HEIGHT as int) == c && (j as int) % (HEIGHT as int) == r);
        assert(bit(bb, j));
    }
}

/// Whether the bit-set `b` holds four in a line in some direction.
pub fn has_run(b: u64) -> (r: bool)
    ensures
        r == has_four(b),
{
    runs_along(b, Direction::Horizontal) != 0 || runs_along(b, Direction::Vertical) != 0
        || runs_along(b, Direction::DiagUp) != 0 || runs_along(b, Direction::DiagDown) != 0
}

/// The board state: one bit-set per player, bit `cell_index(c, r)` set
/// when that player's disc sits at column `c`, row `r`.
#[derive(PartialEq, Eq, Structural, Clone, Copy, Debug)]
pub struct Game {
    pub player1: u64,
    pub player2: u64,
}

impl Game {
    /// Some disc sits at column `c`, row `r`.
    pub open spec fn occupied(self, c: int, r: int) -> bool {
        has_disc(self.player1, c, r) || has_disc(self.player2, c, r)
    }

    /// Who holds the cell: 1, 2, or 0 when it is empty.
    pub open spec fn owner(self, c: int, r: int) -> u8 {
        if has_disc(self.player1, c, r) {
            1
        } else if has_disc(self.player2, c, r) {
            2
        } else {
            0
        }
    }

    /// Number of occupied cells among rows `0 .. n` of column `c`.
    pub open spec fn count_rows(self, c: int, n: nat) -> nat
        decreases n,
    {
        if n == 0 {
            0
        } else {
            self.count_rows(c, (n - 1) as nat) + if self.occupied(c, n - 1) {
                1nat
            } else {
                0nat
            }
        }
    }

    /// Number of discs in column `c`.
    pub open spec fn height(self, c: int) -> nat {
        self.count_rows(c, HEIGHT as nat)
    }

    /// Every column is full.
    pub open spec fn is_full(self) -> bool {
        forall|c: int| 0 <= c < WIDTH ==> #[trigger] self.height(c) == HEIGHT
    }

    /// The two bit-sets are disjoint, use no bit beyond the board, and
    /// every column is filled from the bottom without gaps.
    pub open spec fn wf(self) -> bool {
        &&& self.player1 & self.player2 == 0
        &&& self.player1 >> 42u64 == 0
        &&& self.player2 >> 42u64 == 0
        &&& forall|c: int, r1: int, r2: int|
            #![trigger self.occupied(c, r1), self.occupied(c, r2)]
            0 <= c < WIDTH && 0 <= r1 < r2 < HEIGHT && self.occupied(c, r2) ==> self.occupied(
                c,
                r1,
            )
    }

    /// In a well-formed board, row `r` of column `c` is occupied exactly
    /// below the column's height.
    pub proof fn lemma_height(self, c: int)
        requires
            self.wf(),
            0 <= c < WIDTH,
        ensures
            self.height(c) <= HEIGHT,
            forall|r: int| 0 <= r < HEIGHT ==> (#[trigger] self.occupied(c, r) <==> r < self.height(c)),
    {
        self.lemma_count_rows(c, HEIGHT as nat);
    }

    proof fn lemma_count_rows(self, c: int, n: nat)
        requires
            self.wf(),
            0 <= c < WIDTH,
            n <= HEIGHT,
        ensures
            self.count_rows(c, n) <= n,
            forall|r: int| 0 <= r < n ==> (#[trigger] self.occupied(c, r) <==> r < self.count_rows(c, n)),
        decreases n,
    {
        if n > 0 {
            let m = (n - 1) as nat;
            self.lemma_count_rows(c, m);
            if self.occupied(c, m as int) {
                assert forall|r: int| 0 <= r < m implies #[trigger] self.occupied(c, r) by {
                    assert(self.occupied(c, r) && self.occupied(c, m as int) ==> self.occupied(c, r));
                }
                if m > 0 {
                    assert(self.occupied(c, m - 1));
                }
            }
        }
    }

    /// An empty board.
    pub fn new() -> (g: Game)
        ensures
            g.wf(),
            g.player1 == 0 && g.player2 == 0,
            forall|c: int, r: int| #[trigger] g.owner(c, r) == 0,
            forall|c: int| 0 <= c < WIDTH ==> #[trigger] g.height(c) == 0,
    {
        let g = Game { player1: 0, player2: 0 };
        assert(0u64 & 0u64 == 0 && 0u64 >> 42u64 == 0) by (bit_vector);
        assert forall|c: int, r: int| !#[trigger] g.occupied(c, r) by {
            if on_board(c, r) {
                lemma_zero_bit(cell_index(c, r) as u64);
            }
        }
        assert forall|c: int, r: int| #[trigger] g.owner(c, r) == 0 by {
            assert(!g.occupied(c, r));
        }
        assert forall|c: int| 0 <= c < WIDTH implies #[trigger] g.height(c) == 0 by {
            g.lemma_height(c);
            assert(!g.occupied(c, 0));
        }
        g
    }

    /// Whether the top cell of column `col` is taken.
    pub fn is_column_full(&self, col: usize) -> (r: bool)
        requires
            self.wf(),
            col < WIDTH,
        ensures
            r == self.occupied(col as int, HEIGHT - 1),
            r == (self.height(col as int) == HEIGHT),
    {
        let combined_board = self.player1 | self.player2;
        let i = col * HEIGHT + (HEIGHT - 1);
        proof {
            lemma_mask_test(combined_board, i as u64);
            lemma_or_bit(self.player1, self.player2, i as u64);
            self.lemma_height(col as int);
            assert(self.occupied(col as int, HEIGHT - 1) == bit(combined_board, i as u64));
        }
        combined_board & (1u64 << (i as u64)) != 0
    }
    /// The classification of the position: a player with four in a line
    /// wins (player 1 is looked at first), a full board is a draw, and
    /// anything else is still going on.
    pub open spec fn outcome(self) -> Outcome {
        if has_four(self.player1) {
            Outcome::Win(1)
        } else if has_four(self.player2) {
            Outcome::Win(2)
        } else if self.is_full() {
            Outcome::Draw
        } else {
            Outcome::Ongoing
        }
    }

    /// The board after player `p` drops a disc into column `c`: the disc
    /// lands on the lowest free cell of the column.
    pub open spec fn dropped(self, c: int, p: u8) -> Game {
        let m = 1u64 << (cell_index(c, self.height(c) as int) as u64);
        if p == 1 {
            Game { player1: self.player1 | m, player2: self.player2 }
        } else {
            Game { player1: self.player1, player2: self.player2 | m }
        }
    }

    /// Dropping into a column that is not full keeps the board well formed,
    /// puts the mover's disc on top of the column's stack, and changes no
    /// other cell.
    pub proof fn lemma_drop(self, c: int, p: u8)
        requires
            self.wf(),
            0 <= c < WIDTH,
            p == 1 || p == 2,
            self.height(c) < HEIGHT,
        ensures
            self.dropped(c, p).wf(),
            forall|c2: int, r2: int|
                #[trigger] self.dropped(c, p).owner(c2, r2) == if c2 == c && r2 == self.height(c) {
                    p
                } else {
                    self.owner(c2, r2)
                },
            forall|c2: int, r2: int|
                #[trigger] self.dropped(c, p).occupied(c2, r2) == (self.occupied(c2, r2) || (c2
                    == c && r2 == self.height(c))),
            self.dropped(c, p).height(c) == self.height(c) + 1,
            forall|c2: int|
                0 <= c2 < WIDTH && c2 != c ==> #[trigger] self.dropped(c, p).height(c2)
                    == self.height(c2),
            p == 1 ==> self.dropped(c, p).player2 == self.player2,
            p == 2 ==> self.dropped(c, p).player1 == self.player1,
    {
        let g = self.dropped(c, p);
        let h = self.height(c) as int;
        let i = cell_index(c, h) as u64;
        self.lemma_height(c);
        assert(!self.occupied(c, h));
        assert forall|c2: int, r2: int| on_board(c2, r2) implies (cell_index(c2, r2) == i <==> (c2
            == c && r2 == h)) by {
            if cell_index(c2, r2) == i {
                assert(c2 * HEIGHT + r2 == c * HEIGHT + h);
                assert(c2 == c);
            }
        }
        assert forall|c2: int, r2: int|
            #[trigger] has_disc(g.player1, c2, r2) == (has_disc(self.player1, c2, r2) || (p == 1
                && c2 == c && r2 == h)) && has_disc(g.player2, c2, r2) == (has_disc(
                self.player2,
                c2,
                r2,
            ) || (p == 2 && c2 == c && r2 == h)) by {
            if on_board(c2, r2) {
                lemma_set_bit(self.player1, i, cell_index(c2, r2) as u64);
                lemma_set_bit(self.player2, i, cell_index(c2, r2) as u64);
            }
        }
        assert forall|c2: int, r2: int| #[trigger] g.occupied(c2, r2) == (self.occupied(c2, r2) || (
        c2 == c && r2 == h)) by {
            assert(has_disc(g.player1, c2, r2) == (has_disc(self.player1, c2, r2) || (p == 1 && c2
                == c && r2 == h)));
        }
        assert forall|c2: int, r2: int| #[trigger]
            g.owner(c2, r2) == if c2 == c && r2 == h {
                p
            } else {
                self.owner(c2, r2)
            } by {
            assert(has_disc(g.player1, c2, r2) == (has_disc(self.player1, c2, r2) || (p == 1 && c2
                == c && r2 == h)));
            assert(self.occupied(c2, r2) == (has_disc(self.player1, c2, r2) || has_disc(
                self.player2,
                c2,
                r2,
            )));
        }
        lemma_or_bit(self.player1, self.player2, i);
        if p == 1 {
            lemma_set_bit_disjoint(self.player1, self.player2, i);
            lemma_set_bit_below(self.player1, i, 42);
        } else {
            let (x, y) = (self.player1, self.player2);
            assert(y & x == 0) by (bit_vector)
                requires
                    x & y == 0,
            ;
            lemma_set_bit_disjoint(self.player2, self.player1, i);
            lemma_set_bit_below(self.player2, i, 42);
        }
        assert(g.wf());
        g.lemma_height(c);
        assert(g.occupied(c, h));
        if h + 1 < HEIGHT {
            assert(!g.occupied(c, h + 1));
        }
        assert forall|c2: int| 0 <= c2 < WIDTH && c2 != c implies #[trigger] g.height(c2)
            == self.height(c2) by {
            self.lemma_height(c2);
            g.lemma_height(c2);
            let a = self.height(c2) as int;
            let b = g.height(c2) as int;
            if a < b {
                assert(g.occupied(c2, a) && !self.occupied(c2, a));
            } else if b < a {
                assert(self.occupied(c2, b) && !g.occupied(c2, b));
            }
        }
    }

    /// Classifies the position.
    pub fn judge(&self) -> (r: Outcome)
        requires
            self.wf(),
        ensures
            r == self.outcome(),
    {
        if has_run(self.player1) {
            return Outcome::Win(1);
        }
        if has_run(self.player2) {
            return Outcome::Win(2);
        }
        let mut col: usize = 0;
        while col < WIDTH
            invariant
                self.wf(),
                !has_four(self.player1),
                !has_four(self.player2),
                col <= WIDTH,
                forall|c: int| 0 <= c < col ==> #[trigger] self.height(c) == HEIGHT,
            decreases WIDTH - col,
        {
            if !self.is_column_full(col) {
                assert(self.height(col as int) != HEIGHT);
                assert(!self.is_full());
                return Outcome::Ongoing;
            }
            col = col + 1;
        }
        Outcome::Draw
    }

    /// Drops a disc of `player` (1 or 2) into column `col`: it lands on
    /// the lowest free cell of the column. A full column is refused and
    /// the board left as it was.
    pub fn drop_disc(&mut self, col: usize, player: u8) -> (r: Result<(), ColumnFull>)
        requires
            old(self).wf(),
            col < WIDTH,
            player == 1 || player == 2,
        ensures
            final(self).wf(),
            old(self).height(col as int) == HEIGHT ==> r == Err::<(), ColumnFull>(ColumnFull)
                && *final(self) == *old(self),
            old(self).height(col as int) < HEIGHT ==> r == Ok::<(), ColumnFull>(())
                && *final(self) == old(self).dropped(col as int, player),
            old(self).height(col as int) < HEIGHT ==> forall|c: int, row: int|
                #[trigger] final(self).owner(c, row) == if c == col && row == old(self).height(
                    col as int,
                ) {
                    player
                } else {
                    old(self).owner(c, row)
                },
            old(self).height(col as int) < HEIGHT ==> final(self).height(col as int) == old(
                self,
            ).height(col as int) + 1,
            forall|c: int|
                0 <= c < WIDTH && c != col ==> #[trigger] final(self).height(c) == old(self).height(
                    c,
                ),
    {
        if self.is_column_full(col) {
            return Err(ColumnFull);
        }
        let ghost h = self.height(col as int) as int;
        proof {
            self.lemma_height(col as int);
            self.lemma_drop(col as int, player);
        }
        let combined_board = self.player1 | self.player2;
        let mut bit_position = col * HEIGHT;
        loop
            invariant
                self.wf(),
                col < WIDTH,
                h == self.height(col as int),
                h < HEIGHT,
                forall|r: int| 0 <= r < HEIGHT ==> (#[trigger] self.occupied(col as int, r) <==> r < h),
                combined_board == self.player1 | self.player2,
                col * HEIGHT <= bit_position <= col * HEIGHT + h,
            ensures
                bit_position == col * HEIGHT + h,
            decreases col * HEIGHT + h - bit_position,
        {
            let row = bit_position - col * HEIGHT;
            proof {
                lemma_mask_test(combined_board, bit_position as u64);
                lemma_or_bit(self.player1, self.player2, bit_position as u64);
                assert(self.occupied(col as int, row as int) == bit(combined_board, bit_position as u64));
            }
            if combined_board & (1u64 << (bit_position as u64)) == 0 {
                break;
            }
            bit_position = bit_position + 1;
        }
        if player == 1 {
            self.player1 = self.player1 | (1u64 << (bit_position as u64));
        } else {
            self.player2 = self.player2 | (1u64 << (bit_position as u64));
        }
        Ok(())
    }
    /// Who holds column `col`, row `row`: 1, 2, or 0 when it is empty.
    pub fn cell(&self, col: usize, row: usize) -> (r: u8)
        requires
            col < WIDTH,
            row < HEIGHT,
        ensures
            r == self.owner(col as int, row as int),
    {
        let i = (col * HEIGHT + row) as u64;
        proof {
            lemma_mask_test(self.player1, i);
            lemma_mask_test(self.player2, i);
        }
        if self.player1 & (1u64 << i) != 0 {
            1
        } else if self.player2 & (1u64 << i) != 0 {
            2
        } else {
            0
        }
    }
}

} // verus!

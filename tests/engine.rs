use connect_four::game::{has_run, runs_along};
use connect_four::{ColumnFull, Direction, Game, Outcome, CELLS, HEIGHT, WIDTH};

fn play(g: &mut Game, moves: &[(usize, u8)]) {
    for &(col, player) in moves {
        assert_eq!(g.drop_disc(col, player), Ok(()));
    }
}

#[test]
fn empty_board_is_ongoing() {
    let g = Game::new();
    assert_eq!(g.player1, 0);
    assert_eq!(g.player2, 0);
    assert_eq!(g.judge(), Outcome::Ongoing);
    for col in 0..WIDTH {
        assert!(!g.is_column_full(col));
    }
}

#[test]
fn disc_lands_on_top_of_stack() {
    let mut g = Game::new();
    play(&mut g, &[(3, 1), (3, 2), (3, 1)]);
    assert_eq!(g.cell(3, 0), 1);
    assert_eq!(g.cell(3, 1), 2);
    assert_eq!(g.cell(3, 2), 1);
    assert_eq!(g.cell(3, 3), 0);
    assert_eq!(g.player1, (1u64 << 18) | (1u64 << 20));
    assert_eq!(g.player2, 1u64 << 19);
    assert_eq!(g.drop_disc(3, 2), Ok(()));
    assert_eq!(g.cell(3, 3), 2);
    assert_eq!(g.player2, (1u64 << 19) | (1u64 << 21));
}

#[test]
fn full_column_is_refused_and_board_kept() {
    let mut g = Game::new();
    for k in 0..HEIGHT {
        assert!(!g.is_column_full(5));
        let player = if k % 2 == 0 { 1 } else { 2 };
        assert_eq!(g.drop_disc(5, player), Ok(()));
    }
    assert!(g.is_column_full(5));
    let (p1, p2) = (g.player1, g.player2);
    assert_eq!(g.drop_disc(5, 1), Err(ColumnFull));
    assert_eq!(g.drop_disc(5, 2), Err(ColumnFull));
    assert_eq!(g.player1, p1);
    assert_eq!(g.player2, p2);
    assert_eq!(p1 & p2, 0);
}

#[test]
fn vertical_four_in_one_column_wins() {
    let mut g = Game::new();
    play(&mut g, &[(2, 2), (2, 2), (2, 2), (2, 2)]);
    assert_eq!(g.judge(), Outcome::Win(2));
}

#[test]
fn vertical_win_with_opponent_elsewhere() {
    let mut g = Game::new();
    play(&mut g, &[(0, 1), (6, 2), (0, 1), (6, 2), (0, 1), (6, 2)]);
    assert_eq!(g.judge(), Outcome::Ongoing);
    assert_eq!(g.drop_disc(0, 1), Ok(()));
    assert_eq!(g.judge(), Outcome::Win(1));
}

#[test]
fn horizontal_bottom_row_wins() {
    let mut g = Game::new();
    play(&mut g, &[(0, 1), (1, 1), (2, 1)]);
    assert_eq!(g.judge(), Outcome::Ongoing);
    assert_eq!(g.drop_disc(3, 1), Ok(()));
    assert_eq!(g.judge(), Outcome::Win(1));
}

#[test]
fn horizontal_upper_row_wins() {
    let mut g = Game::new();
    play(&mut g, &[(3, 1), (4, 1), (5, 2), (6, 2)]);
    play(&mut g, &[(3, 2), (4, 2), (5, 2)]);
    assert_eq!(g.judge(), Outcome::Ongoing);
    assert_eq!(g.drop_disc(6, 2), Ok(()));
    assert_eq!(g.cell(6, 1), 2);
    assert_eq!(g.judge(), Outcome::Win(2));
}

#[test]
fn rising_diagonal_wins() {
    let mut g = Game::new();
    play(&mut g, &[(1, 1), (2, 2), (2, 1), (3, 2), (3, 2), (3, 1), (4, 2), (4, 2), (4, 2)]);
    assert_eq!(g.judge(), Outcome::Ongoing);
    assert_eq!(g.drop_disc(4, 1), Ok(()));
    assert_eq!(g.judge(), Outcome::Win(1));
}

#[test]
fn falling_diagonal_wins() {
    let mut g = Game::new();
    play(&mut g, &[(0, 1), (0, 1), (0, 1), (1, 1), (1, 1), (2, 1)]);
    play(&mut g, &[(0, 2), (1, 2), (2, 2)]);
    assert_eq!(g.judge(), Outcome::Ongoing);
    assert_eq!(g.drop_disc(3, 2), Ok(()));
    assert_eq!(g.judge(), Outcome::Win(2));
}

#[test]
fn no_vertical_run_across_columns() {
    // Top three cells of column 0 and the bottom cell of column 1 are
    // consecutive bit indices but not a line on the board.
    let mut g = Game::new();
    play(&mut g, &[(0, 2), (0, 2), (0, 2), (0, 1), (0, 1), (0, 1), (1, 1)]);
    assert_eq!(g.player1 >> 3, 0b1111);
    assert_eq!(g.judge(), Outcome::Ongoing);
}

#[test]
fn no_diagonal_run_across_columns() {
    // Cells at indices 1, 6, 11, 16 are a stride-5 run in the bits that
    // wraps from the bottom of one column to the top of the same column.
    let b: u64 = (1 << 1) | (1 << 6) | (1 << 11) | (1 << 16);
    assert_eq!(runs_along(b, Direction::DiagDown), 0);
    assert!(!has_run(b));
    // Indices 4, 11, 18, 25 are a stride-7 run that wraps past a column top.
    let c: u64 = (1 << 4) | (1 << 11) | (1 << 18) | (1 << 25);
    assert_eq!(runs_along(c, Direction::DiagUp), 0);
    assert!(!has_run(c));
}

#[test]
fn full_board_without_line_is_draw() {
    let a = [1u8, 1, 2, 2, 1, 1];
    let b = [2u8, 2, 1, 1, 2, 2];
    let mut g = Game::new();
    for col in 0..WIDTH {
        let column = if col == 3 { b } else { a };
        for row in 0..HEIGHT {
            if col == WIDTH - 1 && row == HEIGHT - 1 {
                assert_eq!(g.judge(), Outcome::Ongoing);
            }
            assert_eq!(g.drop_disc(col, column[row]), Ok(()));
        }
    }
    for col in 0..WIDTH {
        assert!(g.is_column_full(col));
    }
    assert_eq!((g.player1 | g.player2).count_ones() as usize, CELLS);
    assert_eq!(g.judge(), Outcome::Draw);
}

#[test]
fn quiet_moves_stay_ongoing() {
    let mut g = Game::new();
    let moves = [(3usize, 1u8), (3, 2), (2, 1), (4, 2), (0, 1), (6, 2), (1, 2), (5, 1)];
    for &(col, player) in moves.iter() {
        assert_eq!(g.drop_disc(col, player), Ok(()));
        assert_eq!(g.judge(), Outcome::Ongoing);
    }
}

#[test]
fn player_one_is_reported_first() {
    let mut g = Game::new();
    play(&mut g, &[(0, 1), (0, 1), (0, 1), (0, 1), (1, 2), (1, 2), (1, 2), (1, 2)]);
    assert_eq!(g.judge(), Outcome::Win(1));
}

#[test]
fn direction_strides() {
    assert_eq!(Direction::Horizontal.stride(), 6);
    assert_eq!(Direction::Vertical.stride(), 1);
    assert_eq!(Direction::DiagUp.stride(), 7);
    assert_eq!(Direction::DiagDown.stride(), 5);
}

#[test]
fn start_masks() {
    // Horizontal: columns 0..=3, every row.
    assert_eq!(Direction::Horizontal.start_mask(), (1u64 << 24) - 1);
    // Vertical: rows 0..=2 of every column.
    let mut v: u64 = 0;
    for col in 0..WIDTH {
        v |= 0b111 << (col * HEIGHT);
    }
    assert_eq!(Direction::Vertical.start_mask(), v);
    // Diagonals: columns 0..=3, low or high rows.
    let mut up: u64 = 0;
    let mut down: u64 = 0;
    for col in 0..4 {
        up |= 0b000111 << (col * HEIGHT);
        down |= 0b111000 << (col * HEIGHT);
    }
    assert_eq!(Direction::DiagUp.start_mask(), up);
    assert_eq!(Direction::DiagDown.start_mask(), down);
}

#[test]
fn runs_mark_line_starts() {
    let b: u64 = 0b1111;
    assert_eq!(runs_along(b, Direction::Vertical), 1);
    assert_eq!(runs_along(b, Direction::Horizontal), 0);
    let h: u64 = (1 << 2) | (1 << 8) | (1 << 14) | (1 << 20) | (1 << 26);
    assert_eq!(runs_along(h, Direction::Horizontal), (1 << 2) | (1 << 8));
    assert!(has_run(h));
}

#[test]
fn starts_at_matches_board_edges() {
    assert!(Direction::Horizontal.starts_at(3, 5));
    assert!(!Direction::Horizontal.starts_at(4, 0));
    assert!(Direction::Vertical.starts_at(6, 2));
    assert!(!Direction::Vertical.starts_at(0, 3));
    assert!(Direction::DiagUp.starts_at(3, 2));
    assert!(!Direction::DiagUp.starts_at(3, 3));
    assert!(Direction::DiagDown.starts_at(0, 3));
    assert!(!Direction::DiagDown.starts_at(0, 2));
}

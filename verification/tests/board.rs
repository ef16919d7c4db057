use coursework::board::{Board, Cell, Player};

fn grid(rows: &[&str]) -> Board {
    let cells = rows
        .iter()
        .map(|r| {
            r.chars()
                .map(|c| match c {
                    'X' => Cell::X,
                    'O' => Cell::O,
                    '#' => Cell::Wall,
                    _ => Cell::Empty,
                })
                .collect()
        })
        .collect();
    Board::from_cells(cells)
}

#[test]
fn new_board_is_empty() {
    let b = Board::new(3);
    assert_eq!(b.size(), 3);
    assert_eq!(b.moves().len(), 9);
    assert!(!b.game_over());
    assert_eq!(b.score(), 0);
}

#[test]
fn moves_are_listed_row_by_row() {
    let b = grid(&["X.O", "..#", "OXX"]);
    assert_eq!(b.moves(), vec![(0, 1), (1, 0), (1, 1)]);
}

#[test]
fn score_counts_runs_of_three() {
    assert_eq!(grid(&["XXX", "...", "..."]).score(), 1);
    assert_eq!(grid(&["XXX", "OOO", "..."]).score(), 0);
    assert_eq!(grid(&["X..", ".X.", "..X"]).score(), 1);
    assert_eq!(grid(&["..O", ".O.", "O.."]).score(), -1);
    assert_eq!(grid(&["XXXX.", ".....", ".....", ".....", "....."]).score(), 2);
    assert_eq!(grid(&["XX#X.", ".....", ".....", ".....", "....."]).score(), 0);
    assert_eq!(grid(&["XXX", "XXX", "XXX"]).score(), 8);
}

#[test]
fn apply_then_undo_restores_the_board() {
    let mut b = grid(&["X.O", "...", "..."]);
    let before = b.get_cells().clone();
    b.apply_move((1, 1), Player::O);
    assert_eq!(b.get_cells()[1][1], Cell::O);
    assert_eq!(b.moves().len(), 6);
    b.undo_move((1, 1), Player::O);
    assert_eq!(b.get_cells(), &before);
}

#[test]
fn game_over_when_full() {
    assert!(grid(&["XOX", "OXO", "O#X"]).game_over());
    assert!(!grid(&["XOX", "OXO", "O.X"]).game_over());
}

#[test]
fn boards_larger_than_the_game_sizes_work() {
    let mut b = Board::new(40);
    assert_eq!(b.size(), 40);
    assert_eq!(b.moves().len(), 1600);
    for j in 0..40 {
        b.apply_move((39, j), Player::X);
    }
    // Thirty-eight runs of three along the bottom row.
    assert_eq!(b.score(), 38);
    // Each run along the row holds three X; each column and diagonal run
    // ending on the row holds one.
    assert_eq!(coursework::agent5::SolutionAgent::evaluate(&b), 38 * 1000 + 38 * 120 + (40 + 38 + 38) * 10);
}

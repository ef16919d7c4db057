use coursework::agent3;
use coursework::agent5;
use coursework::board::{Agent, Board, Cell, Player};

fn grid(rows: &[&str]) -> Board {
    let cells = rows
        .iter()
        .map(|r| {
            r.chars()
                .map(|c| match c {
                    'X' => Cell::X,
                    'O' => Cell::O,
                    '#' => Cell::Wall,
                    _ => Cell::Empty,
                })
                .collect()
        })
        .collect();
    Board::from_cells(cells)
}

fn cells(b: &Board) -> Vec<Vec<Cell>> {
    b.get_cells().clone()
}

// An independent statement of the rules: runs of three X minus runs of three O.
fn reference_score(c: &Vec<Vec<Cell>>) -> i32 {
    let n = c.len() as i64;
    let mut s = 0;
    for i in 0..n {
        for j in 0..n {
            for (di, dj) in [(0i64, 1i64), (1, 0), (1, 1), (1, -1)] {
                let ends = (i + 2 * di, j + 2 * dj);
                if ends.0 >= n || ends.1 < 0 || ends.1 >= n {
                    continue;
                }
                let run: Vec<Cell> = (0..3).map(|k| c[(i + k * di) as usize][(j + k * dj) as usize]).collect();
                if run.iter().all(|x| *x == Cell::X) {
                    s += 1;
                } else if run.iter().all(|x| *x == Cell::O) {
                    s -= 1;
                }
            }
        }
    }
    s
}

fn reference_minimax(c: &mut Vec<Vec<Cell>>, p: Player, maximizing: bool) -> i32 {
    let n = c.len();
    let empties: Vec<(usize, usize)> =
        (0..n).flat_map(|i| (0..n).map(move |j| (i, j))).filter(|&(i, j)| c[i][j] == Cell::Empty).collect();
    if empties.is_empty() {
        return reference_score(c);
    }
    let mut best = if maximizing { i32::MIN } else { i32::MAX };
    for (i, j) in empties {
        c[i][j] = if p == Player::X { Cell::X } else { Cell::O };
        let q = if p == Player::X { Player::O } else { Player::X };
        let v = reference_minimax(c, q, !maximizing);
        c[i][j] = Cell::Empty;
        best = if maximizing { best.max(v) } else { best.min(v) };
    }
    best
}

#[test]
fn score_matches_the_rules() {
    for rows in [
        vec!["XXX", "OO.", "..."],
        vec!["XOX", "OXO", "XOX"],
        vec!["XX#XX", "OOOO.", "X#O#X", ".X.O.", "XXXXX"],
    ] {
        let b = grid(&rows);
        assert_eq!(b.score(), reference_score(&cells(&b)));
    }
}

#[test]
fn full_search_agent_values_positions_as_minimax() {
    let boards = [vec!["XX.", "OO.", "..."], vec!["X.O", ".X.", "O.."], vec!["XOX", ".O.", "..X"]];
    for rows in boards.iter() {
        for &p in [Player::X, Player::O].iter() {
            for &m in [true, false].iter() {
                let mut b = grid(rows);
                let before = cells(&b);
                let v = agent3::SolutionAgent::minimax(&mut b, p, m, 0);
                assert_eq!(cells(&b), before);
                let mut c = before.clone();
                assert_eq!(v, reference_minimax(&mut c, p, m));
            }
        }
    }
}

#[test]
fn full_search_agent_completes_its_row() {
    let mut b = grid(&["XX.", "OO.", "X.O"]);
    let (v, i, j) = agent3::SolutionAgent::solve(&mut b, Player::X, 1000);
    assert_eq!((i, j), (0, 2));
    assert_eq!(v, 0);
}

#[test]
fn full_search_agent_picks_an_empty_square() {
    let mut b = grid(&["X..", ".O.", "..."]);
    let before = cells(&b);
    let (_, i, j) = agent3::SolutionAgent::solve(&mut b, Player::X, 1000);
    assert_eq!(before[i][j], Cell::Empty);
    assert_eq!(cells(&b), before);
}

#[test]
fn window_score_table() {
    assert_eq!(agent5::SolutionAgent::window_score(3, 0), 120);
    assert_eq!(agent5::SolutionAgent::window_score(0, 3), -120);
    assert_eq!(agent5::SolutionAgent::window_score(2, 0), 35);
    assert_eq!(agent5::SolutionAgent::window_score(0, 2), -35);
    assert_eq!(agent5::SolutionAgent::window_score(1, 0), 10);
    assert_eq!(agent5::SolutionAgent::window_score(0, 1), -10);
    assert_eq!(agent5::SolutionAgent::window_score(0, 0), 0);
    assert_eq!(agent5::SolutionAgent::window_score(1, 1), 0);
    assert_eq!(agent5::SolutionAgent::window_score(2, 1), 0);
}

#[test]
fn evaluation_of_small_boards() {
    // One X in a corner starts three open runs.
    assert_eq!(agent5::SolutionAgent::evaluate(&grid(&["X..", "...", "..."])), 30);
    // A wall blocks every run through it.
    assert_eq!(agent5::SolutionAgent::evaluate(&grid(&["X#.", "#..", "..."])), 10);
    // A complete run weighs a thousand and its window 120.
    assert_eq!(agent5::SolutionAgent::evaluate(&grid(&["XXX", "###", "###"])), 1120);
    assert_eq!(agent5::SolutionAgent::evaluate(&grid(&["OOO", "###", "###"])), -1120);
}

#[test]
fn best_immediate_swing_of_each_player() {
    let mut b = grid(&["XX.", "OO.", "..."]);
    assert_eq!(agent5::SolutionAgent::best_immediate_swing(&mut b, Player::X), 1);
    assert_eq!(agent5::SolutionAgent::best_immediate_swing(&mut b, Player::O), -1);
    let mut full = grid(&["XOX", "OXO", "OXO"]);
    assert_eq!(agent5::SolutionAgent::best_immediate_swing(&mut full, Player::X), 0);
}

#[test]
fn ordered_moves_put_gains_first_and_keep_ties_in_board_order() {
    let mut b = grid(&["XX.", "...", "OO."]);
    assert_eq!(
        agent5::SolutionAgent::ordered_moves(&mut b, Player::X),
        vec![(0, 2), (1, 0), (1, 1), (1, 2), (2, 2)]
    );
    assert_eq!(
        agent5::SolutionAgent::ordered_moves(&mut b, Player::O),
        vec![(2, 2), (0, 2), (1, 0), (1, 1), (1, 2)]
    );
}

#[test]
fn move_score_counts_the_opponents_best_reply_against_the_mover() {
    // X has just moved; O can complete the middle row in reply.
    let mut b = grid(&["XX.", "OO.", "X.."]);
    let base = b.score();
    let e = agent5::SolutionAgent::evaluate(&b);
    let swing = agent5::SolutionAgent::best_immediate_swing(&mut b, Player::O);
    assert_eq!(swing, -1);
    let before = cells(&b);
    let v = agent5::SolutionAgent::move_score(&mut b, Player::X, base, 0, i32::MIN, i32::MAX);
    assert_eq!(cells(&b), before);
    assert_eq!(v, 5 * e + 2 * e - 180);
    // The same value when O has just moved: O's opponent X can complete the top row.
    let mut b = grid(&["XX.", "OO.", "O.."]);
    let base = b.score();
    let e = agent5::SolutionAgent::evaluate(&b);
    assert_eq!(agent5::SolutionAgent::best_immediate_swing(&mut b, Player::X), 1);
    let v = agent5::SolutionAgent::move_score(&mut b, Player::O, base, 0, i32::MIN, i32::MAX);
    assert_eq!(v, 5 * e + 2 * e + 180);
}

#[test]
fn depth_limited_agent_takes_the_completing_square() {
    let mut b = grid(&["XX.##", "#####", "##.##", "#####", "##..."]);
    let before = cells(&b);
    let (_, i, j) = agent5::SolutionAgent::solve(&mut b, Player::X, 3000);
    assert_eq!((i, j), (0, 2));
    assert_eq!(cells(&b), before);
}

#[test]
fn depth_limited_search_at_depth_zero_is_the_evaluation() {
    let mut b = grid(&["X..", ".O.", "..."]);
    let e = agent5::SolutionAgent::evaluate(&b);
    assert_eq!(agent5::SolutionAgent::minimax(&mut b, Player::X, 0, i32::MIN, i32::MAX), e);
}

fn layout(seed: u64) -> Board {
    // Five walls at places picked by a fixed linear congruential sequence.
    let mut c = vec![vec![Cell::Empty; 5]; 5];
    let mut x = seed;
    let mut walls = 0;
    while walls < 5 {
        x = x.wrapping_mul(6364136223846793005).wrapping_add(1442695040888963407);
        let k = ((x >> 33) % 25) as usize;
        if c[k / 5][k % 5] == Cell::Empty {
            c[k / 5][k % 5] = Cell::Wall;
            walls += 1;
        }
    }
    Board::from_cells(c)
}

#[test]
fn self_play_solution_vs_solution() {
    let mut x_wins = 0;
    let mut o_wins = 0;
    let mut draws = 0;

    for game in 0..46u64 {
        let mut board = layout(game);
        let mut player = Player::X;
        while !board.game_over() {
            let before = board.get_cells().clone();
            let (_, i, j) = agent5::SolutionAgent::solve(&mut board, player, 3000);
            assert_eq!(board.get_cells(), &before);
            assert_eq!(before[i][j], Cell::Empty);
            board.apply_move((i, j), player);
            player = if player == Player::X { Player::O } else { Player::X };
        }
        let s = board.score();
        if s > 0 {
            x_wins += 1;
        } else if s < 0 {
            o_wins += 1;
        } else {
            draws += 1;
        }
    }

    println!("Self-play results:");
    println!("X wins: {}", x_wins);
    println!("O wins: {}", o_wins);
    println!("Draws : {}", draws);

    assert!(true);
}

// Plain minimax over all moves with the agent's evaluation at the leaves.
fn reference_plain(b: &mut Board, p: Player, depth: i32) -> i32 {
    let moves = b.moves();
    if depth == 0 || moves.is_empty() {
        return agent5::SolutionAgent::evaluate(b);
    }
    let q = if p == Player::X { Player::O } else { Player::X };
    let mut best = if p == Player::X { i32::MIN } else { i32::MAX };
    for m in moves {
        b.apply_move(m, p);
        let v = reference_plain(b, q, depth - 1);
        b.undo_move(m, p);
        best = if p == Player::X { best.max(v) } else { best.min(v) };
    }
    best
}

#[test]
fn alpha_beta_with_full_window_is_minimax() {
    let boards = [
        vec!["XX.##", "O.O##", "..X##", "#####", "#####"],
        vec!["X.O..", ".#...", "O.X#.", "..#..", "X...O"],
        vec!["XO.", ".X.", "..O"],
    ];
    for rows in boards.iter() {
        for &p in [Player::X, Player::O].iter() {
            for depth in 0..4 {
                let mut b = grid(rows);
                let v = agent5::SolutionAgent::minimax(&mut b, p, depth, i32::MIN, i32::MAX);
                assert_eq!(v, reference_plain(&mut b, p, depth));
            }
        }
    }
}

#[test]
fn alpha_beta_with_a_narrow_window_bounds_minimax() {
    let rows = vec!["X.O..", ".#...", "O.X#.", "..#..", "X...O"];
    for &p in [Player::X, Player::O].iter() {
        let mut b = grid(&rows);
        let m = reference_plain(&mut b, p, 2);
        for (alpha, beta) in [(m - 50, m + 50), (m + 10, m + 500), (m - 500, m - 10)] {
            let r = agent5::SolutionAgent::minimax(&mut b, p, 2, alpha, beta);
            if alpha < r && r < beta {
                assert_eq!(r, m);
            }
            if r <= alpha {
                assert!(m <= r);
            }
            if r >= beta {
                assert!(m >= r);
            }
        }
    }
}

fn swapped(b: &Board) -> Board {
    let c = cells(b)
        .into_iter()
        .map(|r| {
            r.into_iter()
                .map(|x| match x {
                    Cell::X => Cell::O,
                    Cell::O => Cell::X,
                    other => other,
                })
                .collect()
        })
        .collect();
    Board::from_cells(c)
}

#[test]
fn exchanging_x_and_o_negates_score_and_evaluation() {
    for rows in [vec!["XX.##", "O.O##", "..X##", "#####", "##OOO"], vec!["X.O..", ".#...", "O.X#.", "..#..", "X...O"]] {
        let b = grid(&rows);
        let s = swapped(&b);
        assert_eq!(s.score(), -b.score());
        assert_eq!(agent5::SolutionAgent::evaluate(&s), -agent5::SolutionAgent::evaluate(&b));
    }
}

#[test]
fn full_search_agent_takes_a_best_move() {
    for rows in [vec!["X..", ".O.", "..."], vec!["XO.", "..X", "O.."]] {
        for &p in [Player::X, Player::O].iter() {
            let mut b = grid(&rows);
            let (v, i, j) = agent3::SolutionAgent::solve(&mut b, p, 0);
            let q = if p == Player::X { Player::O } else { Player::X };
            let mut values = Vec::new();
            for m in b.moves() {
                let mut c = cells(&b);
                c[m.0][m.1] = if p == Player::X { Cell::X } else { Cell::O };
                values.push((m, reference_minimax(&mut c, q, false)));
            }
            let best = if p == Player::X {
                values.iter().map(|x| x.1).max().unwrap()
            } else {
                values.iter().map(|x| x.1).min().unwrap()
            };
            assert_eq!(v, best);
            // The first move of that value, in board order.
            let first = values.iter().find(|x| x.1 == best).unwrap().0;
            assert_eq!((i, j), first);
        }
    }
}

use projects_lib::tictactoe::agent3;
use projects_lib::tictactoe::agent5;
use projects_lib::tictactoe::board::{Board, Cell, Player};

fn board(rows: &[&str]) -> Board {
    let cells: Vec<Vec<Cell>> = rows
        .iter()
        .map(|r| {
            r.chars()
                .map(|c| match c {
                    'X' => Cell::X,
                    'O' => Cell::O,
                    '#' => Cell::Wall,
                    _ => Cell::Empty,
                })
                .collect()
        })
        .collect();
    Board::from_cells(cells).unwrap()
}

#[test]
fn board_basics() {
    let mut b = Board::new(3);
    assert_eq!(b.moves().len(), 9);
    assert!(!b.game_over());
    b.apply_move((1, 2), Player::X);
    assert_eq!(b.get_cell(1, 2), Cell::X);
    assert_eq!(b.moves().len(), 8);
    assert_eq!(b.moves()[5], (2, 0));
    assert!(Board::from_cells(vec![vec![Cell::Empty; 2]; 3]).is_none());
}

#[test]
fn score_counts_lines() {
    assert_eq!(board(&["XXX", "...", "OOO"]).score(), 0);
    assert_eq!(board(&["XXX", "X..", "X.."]).score(), 2);
    assert_eq!(board(&["O..", ".O.", "..O"]).score(), -1);
    assert_eq!(board(&["..O", ".O.", "O.."]).score(), -1);
    assert_eq!(board(&["XXXX", "....", "....", "...."]).score(), 2);
    assert_eq!(board(&["X"]).score(), 0);
}

#[test]
fn full_board_is_over() {
    assert!(board(&["XOX", "OXO", "O#X"]).game_over());
    assert!(!board(&["XOX", "OXO", "O.X"]).game_over());
}

#[test]
fn agent3_takes_the_win() {
    let mut b = board(&["XX.", "OO.", "..."]);
    let before = b.clone();
    let (score, r, c) = agent3::SolutionAgent::solve(&mut b, Player::X, 0);
    assert_eq!((r, c), (0, 2));
    // O completes its own row afterwards: the game is played until the board is full
    assert_eq!(score, 0);
    assert_eq!(b.moves(), before.moves());
}

#[test]
fn agent3_blocks_as_o() {
    let mut b = board(&["XX.", "O..", "..."]);
    let (_, r, c) = agent3::SolutionAgent::solve(&mut b, Player::O, 0);
    assert_eq!((r, c), (0, 2));
}

#[test]
fn agent3_finished_game() {
    let mut b = board(&["XXX", "OOX", "XOO"]);
    assert_eq!(agent3::SolutionAgent::solve(&mut b, Player::O, 0), (1, 0, 0));
}

#[test]
fn evaluate_window_values() {
    let b = board(&["XX.#.", "OOO..", "X....", ".O...", "....."]);
    assert_eq!(agent5::evaluate_window(&b, &[(0, 0), (0, 1), (0, 2)]), 3);
    assert_eq!(agent5::evaluate_window(&b, &[(0, 1), (0, 2), (0, 3)]), 0);
    assert_eq!(agent5::evaluate_window(&b, &[(1, 0), (1, 1), (1, 2)]), -10);
    assert_eq!(agent5::evaluate_window(&b, &[(0, 0), (1, 0), (2, 0)]), 0);
    assert_eq!(agent5::evaluate_window(&b, &[(2, 0), (3, 0), (4, 0)]), 1);
    assert_eq!(agent5::evaluate_window(&b, &[(3, 1), (4, 1), (4, 2)]), -1);
    assert_eq!(agent5::evaluate_window(&b, &[(4, 2), (4, 3), (4, 4)]), 0);
}

#[test]
fn heuristic_values() {
    let empty = Board::new(5);
    assert_eq!(agent5::heuristic(&empty), 0);
    let b = board(&["X....", ".....", ".....", ".....", "....."]);
    // windows through the corner: one row, one column, one diagonal
    assert_eq!(agent5::heuristic(&b), 3);
    let b = board(&["XXX..", ".....", ".....", ".....", "....."]);
    assert_eq!(agent5::heuristic(&b), 100 + 10 + 3 + 1 + 1 + 1 + 1 + 1 + 1 + 1 + 1);
}

#[test]
fn minimax_full_window_is_plain_minimax() {
    let mut b = board(&["XX#..", "OO...", "#....", ".....", "....O"]);
    let full = agent5::minimax(&mut b, Player::X, 0, 2, i32::MIN, i32::MAX);
    let narrow = agent5::minimax(&mut b, Player::X, 0, 2, full - 1, full + 1);
    assert_eq!(full, narrow);
    let low = agent5::minimax(&mut b, Player::X, 0, 2, full, full + 5);
    assert!(low <= full);
    let high = agent5::minimax(&mut b, Player::X, 0, 2, full - 5, full);
    assert!(high >= full);
}

#[test]
fn agent5_completes_a_line() {
    let mut b = board(&["XX...", "OO...", "#####", "#####", "#####"]);
    let (_, r, c) = agent5::SolutionAgent::solve(&mut b, Player::X, 0);
    assert_eq!((r, c), (0, 2));
}

#[test]
fn agent3_stops_at_first_winning_move() {
    // (0, 0) wins by one line; (1, 1) would make two, but the search has stopped by then
    let mut b = board(&[".XX", "O.X", "XXO"]);
    assert_eq!(agent3::SolutionAgent::solve(&mut b, Player::X, 0), (1, 0, 0));
}

fn swapped(rows: &[&str]) -> Vec<String> {
    rows.iter()
        .map(|r| r.chars().map(|c| match c { 'X' => 'O', 'O' => 'X', o => o }).collect())
        .collect()
}

#[test]
fn swapping_marks_negates_heuristic() {
    let rows = ["XX#..", "OO...", "#..X.", ".O...", "....O"];
    let sw = swapped(&rows);
    let sw_ref: Vec<&str> = sw.iter().map(|s| s.as_str()).collect();
    let h = agent5::heuristic(&board(&rows));
    assert_eq!(agent5::heuristic(&board(&sw_ref)), -h);
    assert_eq!(board(&sw_ref).score(), -board(&rows).score());
}

#[test]
fn minimax_base_case_ignores_window() {
    let mut b = board(&["XX#..", "OO...", "#....", ".....", "....O"]);
    let h = agent5::heuristic(&b);
    assert_eq!(agent5::minimax(&mut b, Player::O, 3, 3, h + 10, h + 20), h);
    assert_eq!(agent5::minimax(&mut b, Player::X, 3, 3, h - 20, h - 10), h);
}

#[test]
fn minimax_empty_window_follows_first_moves() {
    let rows = ["XX#..", "OO...", "#....", ".....", "....O"];
    let mut b = board(&rows);
    // two plies along the first listed move of each side
    let mut line = board(&rows);
    let m1 = line.moves()[0];
    line.apply_move(m1, Player::X);
    let m2 = line.moves()[0];
    line.apply_move(m2, Player::O);
    let expected = agent5::heuristic(&line);
    assert_eq!(agent5::minimax(&mut b, Player::X, 0, 2, 5, 5), expected);
    assert_eq!(agent5::minimax(&mut b, Player::X, 0, 2, 40, -40), expected);
}

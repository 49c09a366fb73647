use gomoku::bot::{bot_move, move_gen};
use gomoku::eval::{eval, eval_line};
use gomoku::state::Tile::{Empty, O, X};
use gomoku::state::{GameState, Tile};
use gomoku::wincheck::check_win;

fn board_with(stones: &[(usize, usize, Tile)], x_turn: bool) -> GameState {
    let mut s = GameState::new(x_turn);
    for &(x, y, t) in stones {
        s.board[x][y] = t;
    }
    s
}

#[test]
fn new_board_is_empty() {
    let s = GameState::new(true);
    assert!(s.x_turn);
    for x in 0..15 {
        for y in 0..15 {
            assert_eq!(s.board[x][y], Tile::Empty);
        }
    }
    assert!(!GameState::new(false).x_turn);
}

#[test]
fn win_in_a_row_of_the_board() {
    let s = board_with(&[(3, 2, Tile::X), (3, 3, Tile::X), (3, 4, Tile::X), (3, 5, Tile::X), (3, 6, Tile::X)], false);
    assert!(check_win(&s));
}

#[test]
fn win_in_a_column_of_the_board() {
    let s = board_with(&[(10, 14, Tile::O), (11, 14, Tile::O), (12, 14, Tile::O), (13, 14, Tile::O), (14, 14, Tile::O)], true);
    assert!(check_win(&s));
}

#[test]
fn win_on_a_diagonal() {
    let stones: Vec<(usize, usize, Tile)> = (0..5).map(|k| (2 + k, 5 + k, Tile::O)).collect();
    assert!(check_win(&board_with(&stones, true)));
}

#[test]
fn win_on_an_anti_diagonal() {
    let stones: Vec<(usize, usize, Tile)> = (0..5).map(|k| (14 - k, 10 + k, Tile::X)).collect();
    assert!(check_win(&board_with(&stones, true)));
}

#[test]
fn four_or_mixed_stones_are_no_win() {
    assert!(!check_win(&GameState::new(true)));
    let four = board_with(&[(7, 4, Tile::X), (7, 5, Tile::X), (7, 6, Tile::X), (7, 7, Tile::X)], true);
    assert!(!check_win(&four));
    let mixed = board_with(
        &[(7, 4, Tile::X), (7, 5, Tile::X), (7, 6, Tile::O), (7, 7, Tile::X), (7, 8, Tile::X)],
        true,
    );
    assert!(!check_win(&mixed));
}

#[test]
fn six_in_a_row_is_a_win() {
    let stones: Vec<(usize, usize, Tile)> = (0..6).map(|k| (k, 0, Tile::X)).collect();
    assert!(check_win(&board_with(&stones, true)));
}

#[test]
fn win_detector_on_single_lines() {
    assert!(gomoku::wincheck::eval_line(vec![Empty, O, O, O, O, O, Empty]));
    assert!(!gomoku::wincheck::eval_line(vec![O, O, O, O, X, O]));
    assert!(!gomoku::wincheck::eval_line(vec![Empty, Empty, Empty, Empty, Empty, Empty]));
    assert!(!gomoku::wincheck::eval_line(vec![X, X, X, X]));
}

#[test]
fn empty_board_scores_zero() {
    let s = GameState::new(true);
    assert_eq!(eval(&s, true), 0);
    assert_eq!(eval(&s, false), 0);
}

#[test]
fn single_centre_stone_scores_on_four_lines() {
    // Row, column and both diagonals through the centre: 0.3 each.
    let s = board_with(&[(7, 7, Tile::O)], true);
    assert_eq!(eval(&s, true), 12);
    let s = board_with(&[(7, 7, Tile::X)], true);
    assert_eq!(eval(&s, false), -12);
}

#[test]
fn single_corner_stone_is_open_on_one_side() {
    // Row, column and long diagonal, each open on one side only: 0.1 each;
    // the one-cell anti-diagonal scores nothing.
    let s = board_with(&[(0, 0, Tile::O)], false);
    assert_eq!(eval(&s, false), 3);
}

#[test]
fn open_four_to_move_is_decisive() {
    let s = board_with(&[(7, 5, Tile::O), (7, 6, Tile::O), (7, 7, Tile::O), (7, 8, Tile::O)], false);
    let v = eval(&s, false);
    assert_eq!(v, 100_000_036);
    assert!(v > 10_000);
}

#[test]
fn open_four_not_to_move_scores_a_hundred() {
    let s = board_with(&[(7, 5, Tile::O), (7, 6, Tile::O), (7, 7, Tile::O), (7, 8, Tile::O)], true);
    assert_eq!(eval(&s, true), 1036);
}

#[test]
fn swapping_stones_and_side_negates_the_score() {
    let stones = [(7, 5, Tile::O), (7, 6, Tile::O), (7, 7, Tile::X), (3, 3, Tile::X), (8, 8, Tile::O), (0, 14, Tile::X)];
    let swapped: Vec<(usize, usize, Tile)> = stones
        .iter()
        .map(|&(x, y, t)| (x, y, if t == Tile::X { Tile::O } else { Tile::X }))
        .collect();
    let a = board_with(&stones, true);
    let b = board_with(&swapped, false);
    assert_eq!(eval(&b, false), -eval(&a, true));
    assert_eq!(eval(&b, true), -eval(&a, false));
    assert_ne!(eval(&a, true), 0);
}

#[test]
fn line_scores_follow_the_table() {
    assert_eq!(eval_line(vec![O, O, O, Empty, Empty], true), 10);
    assert_eq!(eval_line(vec![Empty, O, O, O, Empty, Empty], true), 70);
    assert_eq!(eval_line(vec![Empty, X, X, X, Empty], true), -30);
    assert_eq!(eval_line(vec![Empty, X, X, Empty, Empty], true), -7);
    assert_eq!(eval_line(vec![X, X, Empty, Empty, Empty], true), -4);
    assert_eq!(eval_line(vec![O, O, O, O, Empty], true), 100);
    assert_eq!(eval_line(vec![O, O, O, O, Empty], false), 100_000_000);
    assert_eq!(eval_line(vec![Empty, X, X, X, X, Empty], false), -1000);
    assert_eq!(eval_line(vec![O, O, O, O, O, X], true), 1_000_000_000);
    // No room to reach five, or a line too short.
    assert_eq!(eval_line(vec![X, O, O, O, X, Empty], true), 0);
    assert_eq!(eval_line(vec![O, O, O, O], false), 0);
}

#[test]
fn empty_board_offers_every_cell() {
    let moves = move_gen(&GameState::new(true));
    assert_eq!(moves.len(), 225);
    let mut seen = [[false; 15]; 15];
    for (x, y) in moves {
        assert!(!seen[x][y]);
        seen[x][y] = true;
    }
}

#[test]
fn corner_stone_offers_cells_within_two() {
    let s = board_with(&[(0, 0, Tile::X)], false);
    let mut moves = move_gen(&s);
    moves.sort();
    let mut expected = vec![];
    for x in 0..3 {
        for y in 0..3 {
            if (x, y) != (0, 0) {
                expected.push((x, y));
            }
        }
    }
    assert_eq!(moves, expected);
    assert!(!moves.contains(&(3, 3)));
    assert!(!moves.contains(&(0, 3)));
}

#[test]
fn full_board_offers_nothing() {
    let mut s = GameState::new(true);
    for x in 0..15 {
        for y in 0..15 {
            s.board[x][y] = if (x + 2 * y) % 3 == 0 { Tile::X } else { Tile::O };
        }
    }
    assert!(move_gen(&s).is_empty());
}

#[test]
fn moves_never_target_occupied_cells() {
    let s = board_with(&[(7, 7, Tile::X), (7, 8, Tile::O), (8, 7, Tile::X), (6, 6, Tile::O)], true);
    let moves = move_gen(&s);
    assert!(!moves.is_empty());
    for (x, y) in moves {
        assert_eq!(s.board[x][y], Tile::Empty);
    }
}

fn snapshot(s: &GameState) -> Vec<Tile> {
    s.board.iter().flat_map(|r| r.iter().copied()).collect()
}

#[test]
fn search_completes_a_four_open_on_one_side() {
    let mut s = board_with(&[(7, 0, Tile::X), (7, 1, Tile::X), (7, 2, Tile::X), (7, 3, Tile::X)], true);
    let before = snapshot(&s);
    let (mv, value) = bot_move(&mut s);
    assert_eq!(mv, (7, 4));
    assert!(value < -10_000);
    assert_eq!(snapshot(&s), before);
    assert!(s.x_turn);
}

#[test]
fn search_blocks_an_open_four_threat() {
    let mut s = board_with(&[(7, 0, Tile::X), (7, 1, Tile::X), (7, 2, Tile::X), (7, 3, Tile::X), (9, 9, Tile::O)], false);
    let (mv, _) = bot_move(&mut s);
    assert_eq!(mv, (7, 4));
}

#[test]
fn search_leaves_the_board_and_picks_an_empty_cell() {
    let mut s = board_with(&[(7, 7, Tile::X), (7, 8, Tile::O), (8, 8, Tile::X)], false);
    let before = snapshot(&s);
    let (mv, _) = bot_move(&mut s);
    assert_eq!(snapshot(&s), before);
    assert!(!s.x_turn);
    assert!(mv.0 < 15 && mv.1 < 15);
    assert_eq!(s.board[mv.0][mv.1], Tile::Empty);
}

#[test]
fn search_on_an_empty_board_plays_somewhere() {
    let mut s = GameState::new(true);
    let (mv, _) = bot_move(&mut s);
    assert!(mv.0 < 15 && mv.1 < 15);
    assert_eq!(snapshot(&s), snapshot(&GameState::new(true)));
}


#[test]
fn candidate_order_is_shuffled() {
    let moves = move_gen(&GameState::new(true));
    let mut sorted = moves.clone();
    sorted.sort();
    assert_ne!(moves, sorted);
}

#[test]
fn seeded_shuffle_is_reproducible() {
    let s = board_with(&[(7, 7, Tile::X), (8, 8, Tile::O)], true);
    macroquad::rand::srand(42);
    let first = move_gen(&s);
    macroquad::rand::srand(42);
    let second = move_gen(&s);
    assert_eq!(first, second);
}

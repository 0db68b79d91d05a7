use connect_four::ai::{heuristic_evaluation, order_moves, pick_best_move, search, INFINITY};
use connect_four::bitboard::{
    create_game_state, get_legal_moves, is_consistent, play_move, GameState, LeafValue,
};

fn play_all(columns: &[usize]) -> GameState {
    let mut state = create_game_state(0, 0);
    for &c in columns {
        state = play_move(&state, c);
    }
    state
}

#[test]
fn opens_in_middle_column() {
    let blank_board = create_game_state(0, 0);
    let opening_move = pick_best_move(&blank_board, 9);
    assert_eq!(opening_move, 3)
}

#[test]
fn test_heuristic_evaluation() {
    assert_eq!(heuristic_evaluation(0, 0), 0);
    assert_eq!(heuristic_evaluation(1, 0), 3);
    assert_eq!(heuristic_evaluation(0, 1), -3);
    assert_eq!(heuristic_evaluation(1, 1), 0);
    assert_eq!(heuristic_evaluation(3, 0), 7);
    assert_eq!(heuristic_evaluation(1 << 21, 0), 7);
}

#[test]
fn heuristic_ignores_guard_cells() {
    assert_eq!(heuristic_evaluation(1 << 6, 0), 0);
    assert_eq!(heuristic_evaluation(0, 1 << 48), 0);
    assert_eq!(heuristic_evaluation(1 << 24, 1 << 23), 0);
    assert_eq!(heuristic_evaluation(1 << 24, 0), 13);
}

#[test]
fn seven_legal_moves() {
    assert_eq!(get_legal_moves([0, 7, 14, 21, 28, 35, 42]), [0, 1, 2, 3, 4, 5, 6])
}

#[test]
fn zero_legal_moves() {
    assert_eq!(get_legal_moves([6, 13, 20, 27, 34, 41, 48]), [])
}

#[test]
fn legal_moves_skip_full_columns() {
    assert_eq!(get_legal_moves([6, 7, 20, 24, 34, 35, 48]), [1, 3, 5]);
}

#[test]
fn empty_board_state() {
    let s = create_game_state(0, 0);
    assert_eq!(s.bitboard, [0, 0]);
    assert_eq!(s.height, [0, 7, 14, 21, 28, 35, 42]);
    assert!(s.to_play);
    assert!(s.leaf_value == LeafValue::InProgress);
}

#[test]
fn play_move_sets_one_cell() {
    let s = create_game_state(0, 0);
    let t = play_move(&s, 3);
    assert_eq!(t.bitboard, [1 << 21, 0]);
    assert_eq!(t.height, [0, 7, 14, 22, 28, 35, 42]);
    assert!(!t.to_play);
    assert_eq!(s.height, [0, 7, 14, 21, 28, 35, 42]);
    let u = play_move(&t, 3);
    assert_eq!(u.bitboard, [1 << 21, 1 << 22]);
    assert_eq!(u.height, [0, 7, 14, 23, 28, 35, 42]);
    assert!(u.to_play);
    let combined_before = t.bitboard[0] | t.bitboard[1];
    let combined_after = u.bitboard[0] | u.bitboard[1];
    assert_eq!((combined_before ^ combined_after).count_ones(), 1);
}

#[test]
fn derived_state_matches_played_state() {
    let s = play_all(&[3, 3, 2, 4, 0, 6, 6, 6, 1]);
    let d = create_game_state(s.bitboard[0], s.bitboard[1]);
    assert_eq!(d.height, s.height);
    assert_eq!(d.to_play, s.to_play);
    assert!(d.leaf_value == s.leaf_value);
}

#[test]
fn vertical_win_detected() {
    let s = play_all(&[0, 1, 0, 1, 0, 1, 0]);
    assert!(s.leaf_value == LeafValue::Win);
    let d = create_game_state(s.bitboard[0], s.bitboard[1]);
    assert!(d.leaf_value == LeafValue::Win);
}

#[test]
fn horizontal_and_diagonal_wins_detected() {
    // second player completes a row
    let s = play_all(&[0, 1, 0, 2, 0, 3, 6, 4]);
    assert!(s.leaf_value == LeafValue::Loss);
    // first player: cells 0, 8, 16, 24 form a rising diagonal
    assert!(create_game_state(1 | 1 << 8 | 1 << 16 | 1 << 24, 0).leaf_value == LeafValue::Win);
    // second player: cells 5, 11, 17, 23 form a falling diagonal
    assert!(create_game_state(0, 1 << 5 | 1 << 11 | 1 << 17 | 1 << 23).leaf_value == LeafValue::Loss);
    // cells 5, 6, 7, 8 are not a line: the guard bit breaks the column
    assert!(create_game_state(1 << 5 | 1 << 7 | 1 << 8, 0).leaf_value == LeafValue::InProgress);
}

#[test]
fn full_board_is_draw() {
    // rows alternate in pairs and columns alternate: no four line up anywhere
    let s = create_game_state(224726405137971, 54532233173388);
    assert!(s.leaf_value == LeafValue::Draw);
    assert_eq!(s.height, [6, 13, 20, 27, 34, 41, 48]);
    assert!(get_legal_moves(s.height).is_empty());
    assert_eq!(connect_four::pick_best_move(224726405137971, 54532233173388, 4), None);
}

#[test]
fn search_at_depth_zero_is_static_score() {
    let s = play_all(&[3, 2, 4]);
    assert_eq!(search(&s, 0), heuristic_evaluation(s.bitboard[0], s.bitboard[1]));
}

#[test]
fn search_of_decided_positions() {
    let win = play_all(&[0, 1, 0, 1, 0, 1, 0]);
    assert_eq!(search(&win, 5), INFINITY);
    let loss = play_all(&[0, 1, 0, 1, 0, 1, 2, 1]);
    assert_eq!(search(&loss, 5), -INFINITY);
}

#[test]
fn takes_immediate_win() {
    let s = play_all(&[0, 1, 0, 1, 0, 1]);
    let c = pick_best_move(&s, 1);
    assert!(play_move(&s, c).leaf_value == LeafValue::Win);
    let t = play_all(&[6, 0, 1, 0, 1, 0, 5]);
    let c2 = pick_best_move(&t, 2);
    assert!(play_move(&t, c2).leaf_value == LeafValue::Loss);
}

#[test]
fn ordering_puts_center_first() {
    let s = create_game_state(0, 0);
    let order = order_moves(&s, &get_legal_moves(s.height));
    assert_eq!(order, vec![3, 2, 4, 1, 5, 0, 6]);
    let t = play_move(&s, 3);
    let order2 = order_moves(&t, &get_legal_moves(t.height));
    assert_eq!(order2, vec![3, 2, 4, 1, 5, 0, 6]);
}

#[test]
fn top_level_rejects_decided_positions() {
    assert_eq!(connect_four::pick_best_move(0, 0, 3), Some(3));
    let win = play_all(&[0, 1, 0, 1, 0, 1, 0]);
    assert_eq!(connect_four::pick_best_move(win.bitboard[0], win.bitboard[1], 3), None);
}

fn full_width(state: &GameState, depth: u8) -> i32 {
    match state.leaf_value {
        LeafValue::Win => return INFINITY,
        LeafValue::Loss => return -INFINITY,
        LeafValue::Draw => return 0,
        LeafValue::InProgress => {}
    }
    if depth == 0 {
        return heuristic_evaluation(state.bitboard[0], state.bitboard[1]);
    }
    let values = get_legal_moves(state.height)
        .into_iter()
        .map(|c| full_width(&play_move(state, c), depth - 1));
    if state.to_play {
        values.max().unwrap()
    } else {
        values.min().unwrap()
    }
}

#[test]
fn pruned_search_equals_full_width() {
    let positions: [&[usize]; 4] = [&[], &[3, 3, 2], &[0, 1, 0, 1, 0], &[3, 4, 3, 4, 2, 2, 5]];
    for moves in positions {
        let s = play_all(moves);
        for depth in 0..4u8 {
            assert_eq!(search(&s, depth), full_width(&s, depth));
        }
    }
}

#[test]
fn top_level_rejects_malformed_occupancies() {
    // overlapping bits
    assert_eq!(connect_four::pick_best_move(1, 1, 2), None);
    // a piece above an empty cell
    assert_eq!(connect_four::pick_best_move(1 << 1, 0, 2), None);
    // a piece on a guard cell
    assert_eq!(connect_four::pick_best_move(1 | 1 << 6, 1 << 7, 2), None);
    // a piece beyond the last column
    assert_eq!(connect_four::pick_best_move(1 << 49, 0, 2), None);
    // second player ahead
    assert_eq!(connect_four::pick_best_move(0, 1, 2), None);
    // first player two ahead
    assert_eq!(connect_four::pick_best_move(1 | 1 << 7, 0, 2), None);
    // a well-formed position after two moves is accepted
    let s = play_all(&[3, 3]);
    assert!(connect_four::pick_best_move(s.bitboard[0], s.bitboard[1], 2).is_some());
}

#[test]
fn consistency_check() {
    assert!(is_consistent(&play_all(&[0, 1, 2, 3, 3, 3])));
    assert!(is_consistent(&create_game_state(0, 0)));
    assert!(!is_consistent(&create_game_state(1, 1)));
    assert!(!is_consistent(&create_game_state(1 << 2, 0)));
    assert!(!is_consistent(&create_game_state(0, 1 << 63)));
}

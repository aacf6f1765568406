use reversi::board::Board;
use reversi::game::{GameInstance, MoveSelector, PLAYER_BLACK, PLAYER_WHITE};

const FULL_BOARD: u64 = u64::MAX;

struct FixedMoveSelector {
    mv: usize,
}

impl MoveSelector for FixedMoveSelector {
    fn select_move(&self, _board: &Board, _is_black: bool, _level: u8) -> Option<usize> {
        Some(self.mv)
    }
}

struct NoMoveSelector;

impl MoveSelector for NoMoveSelector {
    fn select_move(&self, _board: &Board, _is_black: bool, _level: u8) -> Option<usize> {
        None
    }
}

fn bit(row: usize, col: usize) -> u64 {
    1u64 << (row * 8 + col)
}

#[test]
fn initial_state_is_correct() {
    let game = GameInstance::new_with_default_selector(3);
    let state = game.to_game_state();

    assert_eq!(state.current_player, PLAYER_BLACK);
    assert_eq!(state.black_count, 2);
    assert_eq!(state.white_count, 2);
    assert!(!state.is_game_over);
    assert!(!state.is_pass);
    assert!(state.flipped.is_empty());
    assert_eq!(game.get_legal_moves().len(), 4);
}

#[test]
fn t02_illegal_player_move_returns_error() {
    let mut game = GameInstance::new_with_default_selector(1);
    let err = game.place(0, 0).unwrap_err();

    assert!(err.contains("illegal move"));
}

#[test]
fn t03_pass_occurrence_switches_turn() {
    let mut game = GameInstance::new_with_default_selector(1);
    let black = bit(0, 1);
    let white = FULL_BOARD ^ bit(0, 0) ^ black;
    game.set_board(Board::from_bitboards(black, white), PLAYER_BLACK);

    assert!(!game.has_legal_moves_for_current());
    game.pass();

    assert_eq!(game.current_player, PLAYER_WHITE);
    assert!(game.is_pass);
    assert!(game.flipped.is_empty());
    assert!(!game.is_game_over);
    assert!(game.has_legal_moves_for_current());
}

#[test]
fn t04_both_passes_end_game() {
    let mut game = GameInstance::new_with_default_selector(1);
    let black = FULL_BOARD ^ bit(0, 0);
    game.set_board(Board::from_bitboards(black, 0), PLAYER_BLACK);

    assert!(!game.has_legal_moves_for_current());
    game.pass();
    assert_eq!(game.current_player, PLAYER_WHITE);
    assert!(!game.has_legal_moves_for_current());

    game.end_game();
    assert!(game.is_game_over);
}

#[test]
fn t05_full_board_after_move_sets_game_over() {
    let mut game = GameInstance::new(1, FixedMoveSelector { mv: 0 });
    let black = bit(0, 1);
    let white = FULL_BOARD ^ bit(0, 0) ^ black;
    game.set_board(Board::from_bitboards(black, white), PLAYER_WHITE);

    game.do_ai_move().unwrap();
    let state = game.to_game_state();

    assert!(state.is_game_over);
    assert_eq!(state.current_player, PLAYER_BLACK);
    assert_eq!(state.black_count, 0);
    assert_eq!(state.white_count, 64);
    assert_eq!(state.flipped, vec![1]);
}

#[test]
fn place_when_game_over_returns_error() {
    let mut game = GameInstance::new_with_default_selector(1);
    game.end_game();
    let err = game.place(2, 3).unwrap_err();
    assert!(err.contains("game is already over"));
}

#[test]
fn place_out_of_range_returns_error() {
    let mut game = GameInstance::new_with_default_selector(1);
    let err = game.place(8, 0).unwrap_err();
    assert!(err.contains("row/col out of range"));
}

#[test]
fn place_on_whites_turn_returns_error() {
    let mut game = GameInstance::new_with_default_selector(1);
    game.set_board(Board::new(), PLAYER_WHITE);
    let err = game.place(2, 3).unwrap_err();
    assert!(err.contains("it is not the player's turn"));
}

#[test]
fn valid_player_move_flips_and_hands_over_the_turn() {
    let mut game = GameInstance::new_with_default_selector(1);
    game.place(2, 3).unwrap();
    let state = game.to_game_state();

    assert_eq!(state.current_player, PLAYER_WHITE);
    assert!(!state.is_pass);
    assert_eq!(state.flipped, vec![27]);
    assert_eq!(state.black_count, 4);
    assert_eq!(state.white_count, 1);
}

#[test]
fn do_ai_move_when_game_over_returns_error() {
    let mut game = GameInstance::new_with_default_selector(1);
    game.end_game();
    let err = game.do_ai_move().unwrap_err();
    assert!(err.contains("game is already over"));
}

#[test]
fn do_ai_move_on_blacks_turn_returns_error() {
    let mut game = GameInstance::new_with_default_selector(1);
    let err = game.do_ai_move().unwrap_err();
    assert!(err.contains("it is not AI's turn"));
}

#[test]
fn do_ai_move_without_legal_moves_returns_error() {
    let mut game = GameInstance::new_with_default_selector(1);
    let black = FULL_BOARD ^ bit(0, 0);
    game.set_board(Board::from_bitboards(black, 0), PLAYER_WHITE);
    let err = game.do_ai_move().unwrap_err();
    assert!(err.contains("AI has no legal moves"));
}

#[test]
fn do_ai_move_rejects_selector_without_move() {
    let mut game = GameInstance::new(1, NoMoveSelector);
    game.set_board(Board::new(), PLAYER_WHITE);
    let err = game.do_ai_move().unwrap_err();
    assert!(err.contains("AI could not select a move"));
}

#[test]
fn do_ai_move_rejects_out_of_range_selection() {
    let mut game = GameInstance::new(1, FixedMoveSelector { mv: 64 });
    game.set_board(Board::new(), PLAYER_WHITE);
    let err = game.do_ai_move().unwrap_err();
    assert!(err.contains("AI selected an out-of-range move"));
}

#[test]
fn do_ai_move_rejects_illegal_selection() {
    let mut game = GameInstance::new(1, FixedMoveSelector { mv: 0 });
    game.set_board(Board::new(), PLAYER_WHITE);
    let err = game.do_ai_move().unwrap_err();
    assert!(err.contains("AI selected an illegal move"));
}

#[test]
fn default_selector_plays_smallest_indexed_legal_move() {
    let mut game = GameInstance::new_with_default_selector(1);
    game.set_board(Board::new(), PLAYER_WHITE);
    game.do_ai_move().unwrap();
    let state = game.to_game_state();
    // White's legal opening moves are 20, 29, 34, 43; the selector takes 20.
    assert_eq!(state.board[20], PLAYER_WHITE);
}

#[test]
fn to_game_result_names_the_leader_or_a_draw() {
    let mut game = GameInstance::new_with_default_selector(1);
    let result = game.to_game_result();
    assert_eq!(result.winner, 0);
    assert_eq!(result.black_count, 2);
    assert_eq!(result.white_count, 2);

    game.set_board(Board::from_bitboards(bit(0, 0) | bit(0, 1), bit(7, 7)), PLAYER_BLACK);
    let result = game.to_game_result();
    assert_eq!(result.winner, PLAYER_BLACK);

    game.set_board(Board::from_bitboards(bit(0, 0), bit(7, 7) | bit(7, 6)), PLAYER_BLACK);
    let result = game.to_game_result();
    assert_eq!(result.winner, PLAYER_WHITE);
}

#[test]
fn get_legal_moves_lists_positions_in_ascending_order() {
    let game = GameInstance::new_with_default_selector(1);
    let moves = game.get_legal_moves();
    let cells: Vec<usize> = moves
        .iter()
        .map(|p| (p.row as usize) * 8 + p.col as usize)
        .collect();
    assert_eq!(cells, vec![19, 26, 37, 44]);
}

#[test]
fn pass_if_no_moves_does_nothing_when_a_move_exists() {
    let mut game = GameInstance::new_with_default_selector(1);
    assert!(!game.pass_if_no_moves());
    assert!(!game.is_pass);
    assert_eq!(game.current_player, PLAYER_BLACK);
}

#[test]
fn pass_if_no_moves_passes_a_stuck_side() {
    let mut game = GameInstance::new_with_default_selector(1);
    let black = bit(0, 1);
    let white = FULL_BOARD ^ bit(0, 0) ^ black;
    game.set_board(Board::from_bitboards(black, white), PLAYER_BLACK);

    assert!(game.pass_if_no_moves());
    assert!(game.is_pass);
    assert_eq!(game.current_player, PLAYER_WHITE);
    assert!(!game.is_game_over);
}

#[test]
fn pass_if_no_moves_ends_a_dead_game() {
    let mut game = GameInstance::new_with_default_selector(1);
    let black = FULL_BOARD ^ bit(0, 0);
    game.set_board(Board::from_bitboards(black, 0), PLAYER_BLACK);

    assert!(game.pass_if_no_moves());
    assert!(game.is_pass);
    assert_eq!(game.current_player, PLAYER_WHITE);
    assert!(game.is_game_over);
}

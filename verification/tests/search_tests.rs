use std::time::Duration;

use reversi::board::Board;
use reversi::game::{GameInstance, SearchMoveSelector, PLAYER_BLACK, PLAYER_WHITE};
use reversi::ntuple::NTupleEvaluator;
use reversi::search::{ScoreOracle, SearchResult, Searcher};

const FULL_BOARD: u64 = u64::MAX;
const BOARD_CELLS: usize = 64;

fn bit(pos: usize) -> u64 {
    1u64 << pos
}

fn build_weights_blob(tuples: &[Vec<u8>], weights: &[Vec<f32>]) -> Vec<u8> {
    assert_eq!(tuples.len(), weights.len());

    let mut payload = Vec::new();
    for tuple in tuples {
        payload.push(tuple.len() as u8);
        payload.extend_from_slice(tuple);
    }
    for ws in weights {
        for w in ws {
            payload.extend_from_slice(&w.to_le_bytes());
        }
    }

    let crc = crc32fast::hash(&payload);
    let mut out = Vec::new();
    out.extend_from_slice(b"NTRV");
    out.extend_from_slice(&1u32.to_le_bytes());
    out.extend_from_slice(&(tuples.len() as u32).to_le_bytes());
    out.extend_from_slice(&crc.to_le_bytes());
    out.extend_from_slice(&0u32.to_le_bytes());
    out.extend_from_slice(&payload);
    out
}

/// An oracle that sums the selected N-Tuple weight words as single-precision
/// values and hands the searcher the sum's order key.
struct NTupleOracle {
    evaluator: NTupleEvaluator,
}

impl ScoreOracle for NTupleOracle {
    fn score(&self, board: &Board, is_black: bool) -> i64 {
        let mut sum = 0.0f32;
        for w in self.evaluator.selected_weights(board, is_black) {
            sum += f32::from_bits(w);
        }
        let bits = sum.to_bits();
        let magnitude = (bits & 0x7fff_ffff) as i64;
        if bits >> 31 == 0 {
            magnitude
        } else {
            -magnitude
        }
    }
}

fn build_constant_oracle() -> NTupleOracle {
    let tuples = vec![vec![0]];
    let weights = vec![vec![0.0, 0.0, 0.0]];
    let bytes = build_weights_blob(&tuples, &weights);
    NTupleOracle {
        evaluator: NTupleEvaluator::from_bytes(&bytes).expect(
            "constant evaluator must deserialize",
        ),
    }
}

fn board_with_empty_count(empty: u8) -> Board {
    let occupied = BOARD_CELLS - empty as usize;
    let black = if occupied == BOARD_CELLS {
        u64::MAX
    } else {
        (1u64 << occupied) - 1
    };
    Board::from_bitboards(black, 0)
}

#[test]
fn search_returns_single_legal_move_immediately() {
    let oracle = build_constant_oracle();
    let mut searcher = Searcher::new(&oracle, 6);

    let black = bit(1);
    let white = FULL_BOARD ^ bit(0) ^ black;
    let board = Board::from_bitboards(black, white);

    assert_eq!(searcher.search(&board, false), 0);
    assert!(!searcher.timed_out());
}

#[test]
fn search_tie_breaks_to_smallest_index_when_scores_equal() {
    let oracle = build_constant_oracle();
    let mut searcher = Searcher::new(&oracle, 1);
    let board = Board::new();

    // Initial legal moves are [19, 26, 37, 44].
    assert_eq!(searcher.search(&board, true), 19);
}

#[test]
fn search_depth_one_completes_before_timeout_cutoff() {
    let oracle = build_constant_oracle();
    let mut searcher = Searcher::with_timeout(&oracle, 6, Duration::from_nanos(1));
    let board = Board::new();

    let mv = searcher.search(&board, true);
    let legal = board.legal_moves(true);

    assert_ne!(legal & (1u64 << mv), 0);
    assert!(searcher.timed_out());
}

#[test]
fn should_exact_solve_threshold_matches_level_table() {
    let oracle = build_constant_oracle();
    let board_10 = board_with_empty_count(10);
    let board_11 = board_with_empty_count(11);
    let board_12 = board_with_empty_count(12);
    let board_13 = board_with_empty_count(13);
    let board_14 = board_with_empty_count(14);
    let board_15 = board_with_empty_count(15);
    let board_16 = board_with_empty_count(16);
    let board_17 = board_with_empty_count(17);

    assert!(Searcher::new(&oracle, 3).should_exact_solve(&board_10));
    assert!(!Searcher::new(&oracle, 3).should_exact_solve(&board_11));
    assert!(Searcher::new(&oracle, 4).should_exact_solve(&board_12));
    assert!(!Searcher::new(&oracle, 4).should_exact_solve(&board_13));
    assert!(Searcher::new(&oracle, 5).should_exact_solve(&board_14));
    assert!(!Searcher::new(&oracle, 5).should_exact_solve(&board_15));
    assert!(Searcher::new(&oracle, 6).should_exact_solve(&board_16));
    assert!(!Searcher::new(&oracle, 6).should_exact_solve(&board_17));
}

#[test]
fn should_exact_solve_never_at_low_levels() {
    let oracle = build_constant_oracle();
    let board_1 = board_with_empty_count(1);
    assert!(!Searcher::new(&oracle, 1).should_exact_solve(&board_1));
    assert!(!Searcher::new(&oracle, 2).should_exact_solve(&board_1));
}

#[test]
fn exact_solve_stops_when_deadline_is_already_exceeded() {
    let oracle = build_constant_oracle();
    // A zero time budget: the deadline has always already passed.
    let mut searcher = Searcher::with_timeout(&oracle, 6, Duration::ZERO);

    let result = searcher.exact_solve(&Board::new(), true);

    assert_eq!(result, SearchResult::TimedOut);
    assert!(searcher.timed_out());
}

#[test]
fn exact_solve_finishes_a_one_move_endgame() {
    let oracle = build_constant_oracle();
    let mut searcher = Searcher::new(&oracle, 6);

    // Only cell 0 is empty; white's sole move there flips cell 1.
    let black = bit(1);
    let white = FULL_BOARD ^ bit(0) ^ black;
    let board = Board::from_bitboards(black, white);

    match searcher.exact_solve(&board, false) {
        SearchResult::Complete(mv, _) => assert_eq!(mv, 0),
        SearchResult::TimedOut => panic!("a one-move endgame must solve in time"),
    }
    assert!(!searcher.timed_out());
}

#[test]
fn search_prefers_the_winning_endgame_move() {
    let oracle = build_constant_oracle();
    let mut searcher = Searcher::new(&oracle, 6);

    // Two empty cells (0 and 63); black at 1 and 62, white holds the rest.
    // White's moves at 0 and 63 each capture one black disc.
    let black = bit(1) | bit(62);
    let white = FULL_BOARD ^ bit(0) ^ bit(63) ^ black;
    let board = Board::from_bitboards(black, white);

    let mv = searcher.search(&board, false);
    let legal = board.legal_moves(false);
    assert_ne!(legal & (1u64 << mv), 0);
}

#[test]
fn search_selector_plays_a_legal_move_through_the_game() {
    let mut game = GameInstance::new(1, SearchMoveSelector::new(build_constant_oracle()));
    game.set_board(Board::new(), PLAYER_WHITE);

    game.do_ai_move().unwrap();
    let state = game.to_game_state();

    assert_eq!(state.current_player, PLAYER_BLACK);
    assert_eq!(state.white_count, 4);
    assert_eq!(state.black_count, 1);
    // With a constant evaluator the searcher tie-breaks to white's
    // smallest-indexed opening move.
    assert_eq!(state.board[20], PLAYER_WHITE);
}

use reversi::board::Board;

fn idx(row: usize, col: usize) -> usize {
    row * 8 + col
}

fn bit(pos: usize) -> u64 {
    1u64 << pos
}

#[test]
fn t01_initial_black_legal_moves_are_four_expected_squares() {
    let board = Board::new();

    let expected = bit(idx(2, 3)) | bit(idx(3, 2)) | bit(idx(4, 5)) | bit(idx(5, 4)); // d3,c4,f5,e6

    assert_eq!(board.legal_moves(true), expected);
}

#[test]
fn place_flips_opponent_stones_and_updates_counts() {
    let mut board = Board::new();

    let flips = board.place(idx(2, 3), true); // d3

    assert_eq!(flips, bit(idx(3, 3))); // d4
    assert_eq!(board.count(), (4, 1));
    assert_eq!(board.empty_count(), 59);

    let cells = board.to_array();
    assert_eq!(cells[idx(2, 3)], 1);
    assert_eq!(cells[idx(3, 3)], 1);
    assert_eq!(cells[idx(3, 4)], 1);
    assert_eq!(cells[idx(4, 3)], 1);
    assert_eq!(cells[idx(4, 4)], 2);
}

#[test]
fn illegal_place_returns_zero_and_keeps_board_unchanged() {
    let mut board = Board::new();
    let before = board;

    let flips = board.place(idx(0, 0), true);

    assert_eq!(flips, 0);
    assert_eq!(board, before);
}

#[test]
fn occupied_place_returns_zero_and_keeps_board_unchanged() {
    let mut board = Board::new();
    let before = board;

    let flips = board.place(idx(3, 3), true);

    assert_eq!(flips, 0);
    assert_eq!(board, before);
}

#[test]
fn out_of_range_place_returns_zero_and_keeps_board_unchanged() {
    let mut board = Board::new();
    let before = board;

    let flips = board.place(64, true);

    assert_eq!(flips, 0);
    assert_eq!(board, before);
}

#[test]
fn white_has_same_initial_legal_move_count() {
    let board = Board::new();
    let legal = board.legal_moves(false);
    assert_eq!(legal.count_ones(), 4);
}

#[test]
fn place_in_multiple_directions_flips_all_runs() {
    // Placing black at (0,2) captures leftwards ((0,1), bounded by (0,0))
    // and downwards ((1,2), bounded by (2,2)) at once.
    let black = bit(idx(0, 0)) | bit(idx(2, 2));
    let white = bit(idx(0, 1)) | bit(idx(1, 2));
    let mut board = Board::from_bitboards(black, white);

    let flips = board.place(idx(0, 2), true);

    assert_eq!(flips, bit(idx(0, 1)) | bit(idx(1, 2)));
    assert_eq!(board.count(), (5, 0));
}

#[test]
fn empty_count_of_initial_board_is_sixty() {
    let board = Board::new();
    assert_eq!(board.empty_count(), 60);
    assert_eq!(board.count(), (2, 2));
}

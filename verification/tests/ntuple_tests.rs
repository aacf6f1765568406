use reversi::board::Board;
use reversi::ntuple::{NTupleEvaluator, WeightsError};

const MAGIC: &[u8; 4] = b"NTRV";
const VERSION: u32 = 1;
const HEADER_SIZE: usize = 20;

fn build_weights_blob(tuples: &[Vec<u8>], weights: &[Vec<f32>]) -> Vec<u8> {
    assert_eq!(tuples.len(), weights.len());

    let mut payload = Vec::new();
    for tuple in tuples {
        payload.push(tuple.len() as u8);
        payload.extend_from_slice(tuple);
    }
    for w in weights {
        for value in w {
            payload.extend_from_slice(&value.to_le_bytes());
        }
    }

    let crc = crc32fast::hash(&payload);
    let mut out = Vec::new();
    out.extend_from_slice(MAGIC);
    out.extend_from_slice(&VERSION.to_le_bytes());
    out.extend_from_slice(&(tuples.len() as u32).to_le_bytes());
    out.extend_from_slice(&crc.to_le_bytes());
    out.extend_from_slice(&0u32.to_le_bytes());
    out.extend_from_slice(&payload);
    out
}

fn build_raw_blob(num_tuples: u32, payload: &[u8]) -> Vec<u8> {
    let crc = crc32fast::hash(payload);
    let mut out = Vec::new();
    out.extend_from_slice(MAGIC);
    out.extend_from_slice(&VERSION.to_le_bytes());
    out.extend_from_slice(&num_tuples.to_le_bytes());
    out.extend_from_slice(&crc.to_le_bytes());
    out.extend_from_slice(&0u32.to_le_bytes());
    out.extend_from_slice(payload);
    out
}

fn bit(pos: usize) -> u64 {
    1u64 << pos
}

/// Sums the selected weight words as single-precision values: the evaluator's
/// score for the board from one side's perspective.
fn evaluate(evaluator: &NTupleEvaluator, board: &Board, is_black: bool) -> f32 {
    let mut score = 0.0f32;
    for w in evaluator.selected_weights(board, is_black) {
        score += f32::from_bits(w);
    }
    score
}

#[test]
fn from_bytes_deserializes_tuple_defs_and_weights() {
    let tuples = vec![vec![0, 1], vec![63]];
    let weights = vec![
        vec![0.0, 0.5, 1.0, 1.5, 2.0, 2.5, 3.0, 3.5, 4.0],
        vec![-1.0, 2.0, 0.25],
    ];
    let bytes = build_weights_blob(&tuples, &weights);

    let evaluator = NTupleEvaluator::from_bytes(&bytes).expect("must parse");

    assert_eq!(evaluator.tuple_count(), tuples.len());
    for (t, tuple) in tuples.iter().enumerate() {
        assert_eq!(evaluator.tuple_at(t), tuple);
        let words = evaluator.weights_at(t);
        assert_eq!(words.len(), weights[t].len());
        for (i, value) in weights[t].iter().enumerate() {
            assert_eq!(words[i], value.to_bits());
        }
    }
}

#[test]
fn from_bytes_rejects_invalid_magic() {
    let tuples = vec![vec![0]];
    let weights = vec![vec![0.0, 1.0, -1.0]];
    let mut bytes = build_weights_blob(&tuples, &weights);
    bytes[0] = b'X';

    let err = NTupleEvaluator::from_bytes(&bytes).unwrap_err();
    assert!(err.message().contains("magic"));
    assert_eq!(err, WeightsError::BadMagic);
}

#[test]
fn from_bytes_rejects_unsupported_version() {
    let tuples = vec![vec![0]];
    let weights = vec![vec![0.0, 1.0, -1.0]];
    let mut bytes = build_weights_blob(&tuples, &weights);
    bytes[4..8].copy_from_slice(&2u32.to_le_bytes());

    let err = NTupleEvaluator::from_bytes(&bytes).unwrap_err();
    assert!(err.message().contains("version"));
    assert_eq!(err, WeightsError::BadVersion { version: 2 });
}

#[test]
fn from_bytes_rejects_crc_mismatch() {
    let tuples = vec![vec![0]];
    let weights = vec![vec![0.0, 1.0, -1.0]];
    let mut bytes = build_weights_blob(&tuples, &weights);
    let last = bytes.len() - 1;
    bytes[last] ^= 0x01;

    let err = NTupleEvaluator::from_bytes(&bytes).unwrap_err();
    assert!(err.message().contains("CRC32"));
    assert!(matches!(err, WeightsError::CrcMismatch { .. }));
}

#[test]
fn from_bytes_rejects_truncated_weights_payload() {
    let tuples = vec![vec![0, 1]];
    let weights = vec![vec![0.0; 9]];
    let mut bytes = build_weights_blob(&tuples, &weights);
    bytes.pop();
    let recalculated_crc = crc32fast::hash(&bytes[HEADER_SIZE..]);
    bytes[12..16].copy_from_slice(&recalculated_crc.to_le_bytes());

    let err = NTupleEvaluator::from_bytes(&bytes).unwrap_err();
    assert!(err.message().contains("unexpected EOF while reading weights"));
    assert_eq!(err, WeightsError::WeightsEof { index: 0 });
}

#[test]
fn from_bytes_rejects_short_header() {
    let err = NTupleEvaluator::from_bytes(&[0u8; 19]).unwrap_err();
    assert!(err.message().contains("too short"));
    assert_eq!(err, WeightsError::TooShort { len: 19 });
}

#[test]
fn from_bytes_rejects_missing_tuple_definition() {
    // One tuple announced, empty payload.
    let bytes = build_raw_blob(1, &[]);
    let err = NTupleEvaluator::from_bytes(&bytes).unwrap_err();
    assert!(err.message().contains("tuple definition"));
    assert_eq!(err, WeightsError::TupleLenEof { index: 0 });
}

#[test]
fn from_bytes_rejects_truncated_tuple_positions() {
    // A tuple of length 3 with only two position bytes behind it.
    let bytes = build_raw_blob(1, &[3, 0, 1]);
    let err = NTupleEvaluator::from_bytes(&bytes).unwrap_err();
    assert!(err.message().contains("tuple positions"));
    assert_eq!(err, WeightsError::TuplePositionsEof { index: 0 });
}

#[test]
fn from_bytes_rejects_out_of_range_position() {
    let mut payload = vec![1u8, 64u8];
    for _ in 0..3 {
        payload.extend_from_slice(&0.0f32.to_le_bytes());
    }
    let bytes = build_raw_blob(1, &payload);
    let err = NTupleEvaluator::from_bytes(&bytes).unwrap_err();
    assert!(err.message().contains("out-of-range"));
    assert_eq!(err, WeightsError::PositionOutOfRange { index: 0 });
}

#[test]
fn from_bytes_rejects_entry_count_overflow() {
    // 3^41 does not fit in a 64-bit usize.
    let mut payload = vec![41u8];
    payload.extend_from_slice(&[0u8; 41]);
    let bytes = build_raw_blob(1, &payload);
    let err = NTupleEvaluator::from_bytes(&bytes).unwrap_err();
    assert!(err.message().contains("3^tuple_size overflow"));
    assert_eq!(err, WeightsError::EntryCountOverflow { index: 0 });
}

#[test]
fn from_bytes_rejects_byte_length_overflow() {
    // 3^40 fits in a 64-bit usize but 4 * 3^40 does not.
    let mut payload = vec![40u8];
    payload.extend_from_slice(&[0u8; 40]);
    let bytes = build_raw_blob(1, &payload);
    let err = NTupleEvaluator::from_bytes(&bytes).unwrap_err();
    assert!(err.message().contains("byte length overflow"));
    assert_eq!(err, WeightsError::ByteLenOverflow { index: 0 });
}

#[test]
fn from_bytes_rejects_trailing_bytes() {
    let mut payload = vec![1u8, 0u8];
    for _ in 0..3 {
        payload.extend_from_slice(&0.0f32.to_le_bytes());
    }
    payload.push(0xaa);
    let bytes = build_raw_blob(1, &payload);
    let err = NTupleEvaluator::from_bytes(&bytes).unwrap_err();
    assert!(err.message().contains("trailing bytes"));
    assert_eq!(err, WeightsError::TrailingBytes);
}

#[test]
fn evaluate_applies_rotation_symmetry_and_player_view() {
    let tuples = vec![vec![0]];
    let weights = vec![vec![0.0, 1.0, -1.0]];
    let bytes = build_weights_blob(&tuples, &weights);
    let evaluator = NTupleEvaluator::from_bytes(&bytes).expect("must parse");

    let black = bit(0) | bit(7) | bit(56) | bit(63);
    let board = Board::from_bitboards(black, 0);

    let black_score = evaluate(&evaluator, &board, true);
    let white_score = evaluate(&evaluator, &board, false);

    assert_eq!(black_score, 4.0);
    assert_eq!(white_score, -4.0);
}

#[test]
fn selected_weights_follow_rotated_cells() {
    // A single-cell tuple at cell 1 (row 0, col 1). Under the four rotations
    // that cell reads board cells 1, 15, 62 and 48. Place a disc only at
    // cell 15 so exactly one rotation sees it.
    let tuples = vec![vec![1u8]];
    let weights = vec![vec![0.0f32, 5.0, -7.0]];
    let bytes = build_weights_blob(&tuples, &weights);
    let evaluator = NTupleEvaluator::from_bytes(&bytes).expect("must parse");

    let board = Board::from_bitboards(bit(15), 0);
    // Rotation 1 maps tuple cell 1 to board cell 15, an own black disc:
    // weight 5.0; the other three rotations read empty cells: weight 0.0.
    assert_eq!(evaluate(&evaluator, &board, true), 5.0);
    assert_eq!(evaluate(&evaluator, &board, false), -7.0);
}

//! Inference-time N-Tuple evaluator: an ordered sequence of tuples (short
//! lists of distinct board-cell indices) with one weight table per tuple of
//! exactly `3^len` entries. The evaluator is deserialized from a versioned,
//! CRC-checked little-endian binary blob.
//!
//! Weight-table entries are kept as the raw little-endian 32-bit words of the
//! blob. Scoring sums those entries as IEEE-754 single-precision values; that
//! numeric step is the caller's, while this module proves which entries a
//! board selects.

use vstd::prelude::*;

use crate::board::Board;

verus! {

broadcast use vstd::string::to_string_from_display_ensures_for_str;

/// The CRC-32 (IEEE) checksum of a byte sequence, as `crc32fast` computes it.
pub uninterp spec fn crc32_of(data: Seq<u8>) -> u32;

/// Relies on crc32fast::hash: the CRC-32 (IEEE) checksum, a pure function of
/// the bytes alone.
#[verifier::external_body]
fn crc32(data: &[u8]) -> (r: u32)
    ensures
        r == crc32_of(data@),
{
    crc32fast::hash(data)
}

/// The 4-byte signature that opens a weight blob: "NTRV".
pub open spec fn magic_seq() -> Seq<u8> {
    seq![0x4eu8, 0x54u8, 0x52u8, 0x56u8]
}

/// The little-endian 32-bit word at byte offset `off`.
pub open spec fn le_u32_at(data: Seq<u8>, off: int) -> u32 {
    (data[off] as int + data[off + 1] as int * 0x100 + data[off + 2] as int * 0x10000 + data[off
        + 3] as int * 0x1000000) as u32
}

pub open spec fn pow3(n: nat) -> nat
    decreases n,
{
    if n == 0 {
        1
    } else {
        3 * pow3((n - 1) as nat)
    }
}

pub proof fn lemma_pow3_monotone(a: nat, b: nat)
    requires
        a <= b,
    ensures
        pow3(a) <= pow3(b),
    decreases b,
{
    if a < b {
        lemma_pow3_monotone(a, (b - 1) as nat);
    }
}

/// Why deserialization of a weight blob was refused.
#[derive(Debug, Clone, Copy, PartialEq, Eq, Structural)]
pub enum WeightsError {
    /// The buffer is shorter than the 20-byte header.
    TooShort { len: usize },
    /// The first four bytes are not the expected signature.
    BadMagic,
    /// The version field holds something other than 1.
    BadVersion { version: u32 },
    /// The payload checksum does not match the stored one.
    CrcMismatch { expected: u32, actual: u32 },
    /// The payload ended before the length byte of this tuple.
    TupleLenEof { index: usize },
    /// The payload ended inside the cell indices of this tuple.
    TuplePositionsEof { index: usize },
    /// A cell index of this tuple is 64 or more.
    PositionOutOfRange { index: usize },
    /// `3^len` does not fit in a usize for this tuple.
    EntryCountOverflow { index: usize },
    /// The byte length of this tuple's weight table does not fit in a usize.
    ByteLenOverflow { index: usize },
    /// The payload ended inside this tuple's weight table.
    WeightsEof { index: usize },
    /// Bytes remain after the last weight table.
    TrailingBytes,
}

impl WeightsError {
    /// A human-readable reason for the failure.
    pub fn message(&self) -> (r: String)
        ensures
            (self is TooShort ==> r@ == "weights data too short"@),
            (self is BadMagic ==> r@ == "invalid weights magic (expected NTRV)"@),
            (self is BadVersion ==> r@ == "unsupported weights version"@),
            (self is CrcMismatch ==> r@ == "CRC32 mismatch"@),
            (self is TupleLenEof ==> r@ == "unexpected EOF while reading tuple definition"@),
            (self is TuplePositionsEof ==> r@ == "unexpected EOF while reading tuple positions"@),
            (self is PositionOutOfRange ==> r@ == "tuple contains out-of-range board position"@),
            (self is EntryCountOverflow ==> r@ == "3^tuple_size overflow"@),
            (self is ByteLenOverflow ==> r@ == "weights byte length overflow"@),
            (self is WeightsEof ==> r@ == "unexpected EOF while reading weights"@),
            (self is TrailingBytes ==> r@ == "weights payload has trailing bytes"@),
    {
        match self {
            WeightsError::TooShort { .. } => "weights data too short".to_string(),
            WeightsError::BadMagic => "invalid weights magic (expected NTRV)".to_string(),
            WeightsError::BadVersion { .. } => "unsupported weights version".to_string(),
            WeightsError::CrcMismatch { .. } => "CRC32 mismatch".to_string(),
            WeightsError::TupleLenEof { .. } => "unexpected EOF while reading tuple definition".to_string(),
            WeightsError::TuplePositionsEof { .. } => "unexpected EOF while reading tuple positions".to_string(),
            WeightsError::PositionOutOfRange { .. } => "tuple contains out-of-range board position".to_string(),
            WeightsError::EntryCountOverflow { .. } => "3^tuple_size overflow".to_string(),
            WeightsError::ByteLenOverflow { .. } => "weights byte length overflow".to_string(),
            WeightsError::WeightsEof { .. } => "unexpected EOF while reading weights".to_string(),
            WeightsError::TrailingBytes => "weights payload has trailing bytes".to_string(),
        }
    }
}

/// Parses the tuple-definition section of a payload: tuples `idx..count`,
/// starting at byte `off`. Returns the tuples and the offset past them.
pub open spec fn spec_parse_tuples(payload: Seq<u8>, off: int, idx: int, count: int) -> Result<
    (Seq<Seq<u8>>, int),
    WeightsError,
>
    decreases count - idx,
{
    if idx >= count {
        Ok((Seq::empty(), off))
    } else if off >= payload.len() {
        Err(WeightsError::TupleLenEof { index: idx as usize })
    } else {
        let l = payload[off] as int;
        if off + 1 + l > payload.len() {
            Err(WeightsError::TuplePositionsEof { index: idx as usize })
        } else if exists|k: int| 0 <= k < l && #[trigger] payload[off + 1 + k] >= 64 {
            Err(WeightsError::PositionOutOfRange { index: idx as usize })
        } else {
            match spec_parse_tuples(payload, off + 1 + l, idx + 1, count) {
                Ok(p) => Ok((seq![payload.subrange(off + 1, off + 1 + l)] + p.0, p.1)),
                Err(e) => Err(e),
            }
        }
    }
}

/// The `n` little-endian 32-bit words starting at byte `off`.
pub open spec fn le_words(payload: Seq<u8>, off: int, n: int) -> Seq<u32> {
    Seq::new(n as nat, |i: int| le_u32_at(payload, off + 4 * i))
}

/// Parses the weight tables for tuples `idx..`, starting at byte `off`.
/// Returns the tables and the offset past them.
pub open spec fn spec_parse_weights(payload: Seq<u8>, off: int, idx: int, tuples: Seq<Seq<u8>>) -> Result<
    (Seq<Seq<u32>>, int),
    WeightsError,
>
    decreases tuples.len() - idx,
{
    if idx >= tuples.len() {
        Ok((Seq::empty(), off))
    } else {
        let entries = pow3(tuples[idx].len()) as int;
        if entries > usize::MAX {
            Err(WeightsError::EntryCountOverflow { index: idx as usize })
        } else if entries * 4 > usize::MAX {
            Err(WeightsError::ByteLenOverflow { index: idx as usize })
        } else if off + entries * 4 > payload.len() {
            Err(WeightsError::WeightsEof { index: idx as usize })
        } else {
            match spec_parse_weights(payload, off + entries * 4, idx + 1, tuples) {
                Ok(p) => Ok((seq![le_words(payload, off, entries)] + p.0, p.1)),
                Err(e) => Err(e),
            }
        }
    }
}

/// The whole-blob parse: header checks, then tuples, then weight tables, and
/// no byte left over.
pub open spec fn parse_blob(data: Seq<u8>) -> Result<(Seq<Seq<u8>>, Seq<Seq<u32>>), WeightsError> {
    if data.len() < 20 {
        Err(WeightsError::TooShort { len: data.len() as usize })
    } else if data.subrange(0, 4) != magic_seq() {
        Err(WeightsError::BadMagic)
    } else if le_u32_at(data, 4) != 1 {
        Err(WeightsError::BadVersion { version: le_u32_at(data, 4) })
    } else if crc32_of(data.skip(20)) != le_u32_at(data, 12) {
        Err(
            WeightsError::CrcMismatch {
                expected: le_u32_at(data, 12),
                actual: crc32_of(data.skip(20)),
            },
        )
    } else {
        let payload = data.skip(20);
        let count = le_u32_at(data, 8) as int;
        match spec_parse_tuples(payload, 0, 0, count) {
            Err(e) => Err(e),
            Ok(t) => match spec_parse_weights(payload, t.1, 0, t.0) {
                Err(e) => Err(e),
                Ok(w) => if w.1 != payload.len() {
                    Err(WeightsError::TrailingBytes)
                } else {
                    Ok((t.0, w.0))
                },
            },
        }
    }
}

/// The four little-endian bytes of a 32-bit word.
pub open spec fn u32_le_bytes(v: u32) -> Seq<u8> {
    seq![
        (v & 0xff) as u8,
        ((v >> 8) & 0xff) as u8,
        ((v >> 16) & 0xff) as u8,
        ((v >> 24) & 0xff) as u8,
    ]
}

/// The tuple-definition section serialized: for each tuple its length byte,
/// then its cell indices.
pub open spec fn tuples_bytes(tuples: Seq<Seq<u8>>) -> Seq<u8>
    decreases tuples.len(),
{
    if tuples.len() == 0 {
        Seq::empty()
    } else {
        seq![tuples[0].len() as u8] + tuples[0] + tuples_bytes(tuples.drop_first())
    }
}

/// A weight table serialized: each word as four little-endian bytes.
pub open spec fn words_bytes(words: Seq<u32>) -> Seq<u8>
    decreases words.len(),
{
    if words.len() == 0 {
        Seq::empty()
    } else {
        u32_le_bytes(words[0]) + words_bytes(words.drop_first())
    }
}

/// The weight-table section serialized, one table per tuple in order.
pub open spec fn weights_bytes(weights: Seq<Seq<u32>>) -> Seq<u8>
    decreases weights.len(),
{
    if weights.len() == 0 {
        Seq::empty()
    } else {
        words_bytes(weights[0]) + weights_bytes(weights.drop_first())
    }
}

pub open spec fn payload_bytes(tuples: Seq<Seq<u8>>, weights: Seq<Seq<u32>>) -> Seq<u8> {
    tuples_bytes(tuples) + weights_bytes(weights)
}

/// A whole weight blob serialized: the 20-byte header (signature, version 1,
/// tuple count, payload checksum, reserved word), then the payload.
pub open spec fn blob_bytes(tuples: Seq<Seq<u8>>, weights: Seq<Seq<u32>>) -> Seq<u8> {
    magic_seq() + u32_le_bytes(1) + u32_le_bytes(tuples.len() as u32) + u32_le_bytes(
        crc32_of(payload_bytes(tuples, weights)),
    ) + u32_le_bytes(0) + payload_bytes(tuples, weights)
}

/// Tuples and tables that the format can carry: matching counts, tuple
/// lengths below 256, cell indices on the board, each table of exactly
/// `3^len` entries, and table byte sizes that fit in a usize.
pub open spec fn encodable(tuples: Seq<Seq<u8>>, weights: Seq<Seq<u32>>) -> bool {
    &&& tuples.len() == weights.len()
    &&& tuples.len() < 0x1_0000_0000
    &&& (forall|t: int| 0 <= t < tuples.len() ==> (#[trigger] tuples[t]).len() < 256)
    &&& (forall|t: int, k: int|
        0 <= t < tuples.len() && 0 <= k < tuples[t].len() ==> #[trigger] tuples[t][k] < 64)
    &&& (forall|t: int|
        0 <= t < tuples.len() ==> (#[trigger] weights[t]).len() == pow3(tuples[t].len()))
    &&& (forall|t: int| 0 <= t < tuples.len() ==> pow3((#[trigger] tuples[t]).len()) * 4 <= usize::MAX)
}

proof fn lemma_u32_le_roundtrip(v: u32)
    ensures
        le_u32_at(u32_le_bytes(v), 0) == v,
{
    assert((v & 0xff) < 256 && ((v >> 8) & 0xff) < 256 && ((v >> 16) & 0xff) < 256 && ((v >> 24)
        & 0xff) < 256) by (bit_vector);
    assert((v & 0xff) + ((v >> 8) & 0xff) * 0x100 + ((v >> 16) & 0xff) * 0x10000 + ((v >> 24)
        & 0xff) * 0x1000000 == v) by (bit_vector);
}

/// A 32-bit word read where its four little-endian bytes stand.
proof fn lemma_le_u32_at_of(data: Seq<u8>, off: int, v: u32)
    requires
        0 <= off,
        off + 4 <= data.len(),
        data.subrange(off, off + 4) == u32_le_bytes(v),
    ensures
        le_u32_at(data, off) == v,
{
    assert(data[off] == u32_le_bytes(v)[0]);
    assert(data[off + 1] == u32_le_bytes(v)[1]);
    assert(data[off + 2] == u32_le_bytes(v)[2]);
    assert(data[off + 3] == u32_le_bytes(v)[3]);
    lemma_u32_le_roundtrip(v);
    assert(le_u32_at(data, off) == le_u32_at(u32_le_bytes(v), 0));
}

proof fn lemma_words_bytes_len(words: Seq<u32>)
    ensures
        words_bytes(words).len() == 4 * words.len(),
    decreases words.len(),
{
    if words.len() > 0 {
        lemma_words_bytes_len(words.drop_first());
    }
}

proof fn lemma_words_bytes_at(words: Seq<u32>, i: int)
    requires
        0 <= i < words.len(),
    ensures
        words_bytes(words).subrange(4 * i, 4 * i + 4) =~= u32_le_bytes(words[i]),
    decreases i,
{
    lemma_words_bytes_len(words);
    lemma_words_bytes_len(words.drop_first());
    if i == 0 {
        assert(words_bytes(words).subrange(0, 4) =~= u32_le_bytes(words[0]));
    } else {
        lemma_words_bytes_at(words.drop_first(), i - 1);
        assert forall|j: int| 0 <= j < 4 implies words_bytes(words).subrange(4 * i, 4 * i + 4)[j]
            == u32_le_bytes(words[i])[j] by {
            assert(words_bytes(words)[4 * i + j] == words_bytes(words.drop_first())[4 * (i - 1)
                + j]);
            assert(words_bytes(words.drop_first()).subrange(4 * (i - 1), 4 * (i - 1) + 4)[j]
                == u32_le_bytes(words.drop_first()[i - 1])[j]);
        }
    }
}

/// Parsing the serialized tuple section of `ts` from `off` yields `ts` and
/// stops right after it.
proof fn lemma_parse_tuples_round(
    payload: Seq<u8>,
    off: int,
    idx: int,
    count: int,
    ts: Seq<Seq<u8>>,
)
    requires
        0 <= off,
        off + tuples_bytes(ts).len() <= payload.len(),
        0 <= idx <= count,
        count - idx == ts.len(),
        forall|t: int| 0 <= t < ts.len() ==> (#[trigger] ts[t]).len() < 256,
        forall|t: int, k: int|
            0 <= t < ts.len() && 0 <= k < ts[t].len() ==> #[trigger] ts[t][k] < 64,
        payload.subrange(off, off + tuples_bytes(ts).len()) == tuples_bytes(ts),
    ensures
        spec_parse_tuples(payload, off, idx, count) == Ok::<(Seq<Seq<u8>>, int), WeightsError>(
            (ts, off + tuples_bytes(ts).len()),
        ),
    decreases ts.len(),
{
    if ts.len() == 0 {
        assert(ts =~= Seq::<Seq<u8>>::empty());
    } else {
        let enc = tuples_bytes(ts);
        let head = ts[0];
        let l = head.len() as int;
        let rest_enc = tuples_bytes(ts.drop_first());
        assert(enc == seq![head.len() as u8] + head + rest_enc);
        assert(enc.len() == 1 + l + rest_enc.len());
        assert forall|j: int| 0 <= j < enc.len() implies payload[off + j] == enc[j] by {
            assert(payload.subrange(off, off + enc.len())[j] == payload[off + j]);
        }
        assert(payload[off] == enc[0]);
        assert(enc[0] == head.len() as u8);
        assert(payload[off] as int == l);
        assert(off < payload.len());
        assert(off + 1 + l <= payload.len());
        assert forall|k: int| 0 <= k < l implies #[trigger] payload[off + 1 + k] < 64 by {
            assert(payload[off + 1 + k] == enc[1 + k]);
            assert(enc[1 + k] == head[k]);
        }
        assert(payload.subrange(off + 1, off + 1 + l) =~= head) by {
            assert forall|k: int| 0 <= k < l implies payload.subrange(off + 1, off + 1 + l)[k]
                == head[k] by {
                assert(payload.subrange(off + 1, off + 1 + l)[k] == payload[off + 1 + k]);
                assert(payload[off + 1 + k] == enc[1 + k]);
                assert(enc[1 + k] == head[k]);
            }
        }
        assert(payload.subrange(off + 1 + l, off + 1 + l + rest_enc.len()) =~= rest_enc) by {
            assert forall|k: int| 0 <= k < rest_enc.len() implies payload.subrange(
                off + 1 + l,
                off + 1 + l + rest_enc.len(),
            )[k] == rest_enc[k] by {
                assert(payload.subrange(off + 1 + l, off + 1 + l + rest_enc.len())[k] == payload[off
                    + 1 + l + k]);
                assert(payload[off + 1 + l + k] == enc[1 + l + k]);
                assert(enc[1 + l + k] == rest_enc[k]);
            }
        }
        lemma_parse_tuples_round(payload, off + 1 + l, idx + 1, count, ts.drop_first());
        assert(seq![head] + ts.drop_first() =~= ts);
        assert(spec_parse_tuples(payload, off, idx, count) == Ok::<
            (Seq<Seq<u8>>, int),
            WeightsError,
        >((seq![payload.subrange(off + 1, off + 1 + l)] + ts.drop_first(), off + enc.len())));
        assert(seq![payload.subrange(off + 1, off + 1 + l)] + ts.drop_first() =~= ts);
    }
}

/// Parsing the serialized weight tables of `ws` from `off` yields `ws` and
/// stops right after them.
proof fn lemma_parse_weights_round(
    payload: Seq<u8>,
    off: int,
    idx: int,
    tuples: Seq<Seq<u8>>,
    ws: Seq<Seq<u32>>,
)
    requires
        0 <= off,
        off + weights_bytes(ws).len() <= payload.len(),
        0 <= idx <= tuples.len(),
        tuples.len() - idx == ws.len(),
        forall|t: int|
            0 <= t < ws.len() ==> (#[trigger] ws[t]).len() == pow3(tuples[idx + t].len()),
        forall|t: int|
            idx <= t < tuples.len() ==> pow3((#[trigger] tuples[t]).len()) * 4 <= usize::MAX,
        payload.subrange(off, off + weights_bytes(ws).len()) == weights_bytes(ws),
    ensures
        spec_parse_weights(payload, off, idx, tuples) == Ok::<(Seq<Seq<u32>>, int), WeightsError>(
            (ws, off + weights_bytes(ws).len()),
        ),
    decreases ws.len(),
{
    if ws.len() == 0 {
        assert(ws =~= Seq::<Seq<u32>>::empty());
    } else {
        let enc = weights_bytes(ws);
        let head = ws[0];
        let head_enc = words_bytes(head);
        let rest_enc = weights_bytes(ws.drop_first());
        assert(enc == head_enc + rest_enc);
        lemma_words_bytes_len(head);
        let entries = pow3(tuples[idx].len()) as int;
        assert(head.len() == entries);
        assert(entries * 4 <= usize::MAX);
        assert(entries <= usize::MAX);
        assert forall|j: int| 0 <= j < enc.len() implies payload[off + j] == enc[j] by {
            assert(payload.subrange(off, off + enc.len())[j] == payload[off + j]);
        }
        assert(off + entries * 4 <= payload.len());
        assert(le_words(payload, off, entries) =~= head) by {
            assert forall|i: int| 0 <= i < entries implies le_words(payload, off, entries)[i]
                == head[i] by {
                lemma_words_bytes_at(head, i);
                assert(payload.subrange(off + 4 * i, off + 4 * i + 4) =~= u32_le_bytes(head[i]))
                    by {
                    assert forall|j: int| 0 <= j < 4 implies payload.subrange(
                        off + 4 * i,
                        off + 4 * i + 4,
                    )[j] == u32_le_bytes(head[i])[j] by {
                        assert(payload.subrange(off + 4 * i, off + 4 * i + 4)[j] == payload[off + 4
                            * i + j]);
                        assert(payload[off + 4 * i + j] == enc[4 * i + j]);
                        assert(enc[4 * i + j] == head_enc[4 * i + j]);
                        assert(head_enc.subrange(4 * i, 4 * i + 4)[j] == head_enc[4 * i + j]);
                    }
                }
                lemma_le_u32_at_of(payload, off + 4 * i, head[i]);
            }
        }
        assert(payload.subrange(off + entries * 4, off + entries * 4 + rest_enc.len())
            =~= rest_enc) by {
            assert forall|k: int| 0 <= k < rest_enc.len() implies payload.subrange(
                off + entries * 4,
                off + entries * 4 + rest_enc.len(),
            )[k] == rest_enc[k] by {
                assert(payload.subrange(off + entries * 4, off + entries * 4 + rest_enc.len())[k]
                    == payload[off + entries * 4 + k]);
                assert(payload[off + entries * 4 + k] == enc[entries * 4 + k]);
                assert(enc[entries * 4 + k] == rest_enc[k]);
            }
        }
        assert forall|t: int| 0 <= t < ws.drop_first().len() implies (#[trigger] ws.drop_first()[
            t
        ]).len() == pow3(tuples[idx + 1 + t].len()) by {
            assert(ws.drop_first()[t] == ws[t + 1]);
        }
        lemma_parse_weights_round(payload, off + entries * 4, idx + 1, tuples, ws.drop_first());
        assert(seq![le_words(payload, off, entries)] + ws.drop_first() =~= ws);
    }
}

/// Round trip: a blob built from encodable tuples and weight tables parses
/// back to exactly those tuples and tables.
pub proof fn lemma_blob_round_trip(tuples: Seq<Seq<u8>>, weights: Seq<Seq<u32>>)
    requires
        encodable(tuples, weights),
    ensures
        parse_blob(blob_bytes(tuples, weights)) == Ok::<
            (Seq<Seq<u8>>, Seq<Seq<u32>>),
            WeightsError,
        >((tuples, weights)),
{
    let payload = payload_bytes(tuples, weights);
    let blob = blob_bytes(tuples, weights);
    let count_word = u32_le_bytes(tuples.len() as u32);
    let crc_word = u32_le_bytes(crc32_of(payload));
    assert(blob.len() == 20 + payload.len());
    assert(blob.subrange(0, 4) =~= magic_seq());
    assert(blob.subrange(4, 8) =~= u32_le_bytes(1u32));
    assert(blob.subrange(8, 12) =~= count_word);
    assert(blob.subrange(12, 16) =~= crc_word);
    lemma_le_u32_at_of(blob, 4, 1u32);
    lemma_le_u32_at_of(blob, 8, tuples.len() as u32);
    lemma_le_u32_at_of(blob, 12, crc32_of(payload));
    assert(blob.skip(20) =~= payload);
    assert(crc32_of(blob.skip(20)) == crc32_of(payload));
    assert((tuples.len() as u32) as int == tuples.len() as int);
    let tenc = tuples_bytes(tuples);
    let wenc = weights_bytes(weights);
    assert(payload.subrange(0, tenc.len() as int) =~= tenc);
    lemma_parse_tuples_round(payload, 0, 0, tuples.len() as int, tuples);
    assert(payload.subrange(tenc.len() as int, (tenc.len() + wenc.len()) as int) =~= wenc);
    assert forall|t: int| 0 <= t < weights.len() implies (#[trigger] weights[t]).len() == pow3(
        tuples[0 + t].len(),
    ) by {}
    lemma_parse_weights_round(payload, tenc.len() as int, 0, tuples, weights);
    assert(tenc.len() + wenc.len() == payload.len());
}

/// Combines an already-parsed tuple prefix with the rest of a tuple parse.
pub open spec fn with_tuple_prefix(prefix: Seq<Seq<u8>>, r: Result<(Seq<Seq<u8>>, int), WeightsError>) -> Result<
    (Seq<Seq<u8>>, int),
    WeightsError,
> {
    match r {
        Ok(p) => Ok((prefix + p.0, p.1)),
        Err(e) => Err(e),
    }
}

/// Combines an already-parsed weight-table prefix with the rest of a parse.
pub open spec fn with_weights_prefix(prefix: Seq<Seq<u32>>, r: Result<
    (Seq<Seq<u32>>, int),
    WeightsError,
>) -> Result<(Seq<Seq<u32>>, int), WeightsError> {
    match r {
        Ok(p) => Ok((prefix + p.0, p.1)),
        Err(e) => Err(e),
    }
}

/// Inference-time N-Tuple evaluator loaded from a weight blob.
#[derive(Debug, Clone)]
pub struct NTupleEvaluator {
    tuples: Vec<Vec<u8>>,
    weights: Vec<Vec<u32>>,
}

impl NTupleEvaluator {
    pub closed spec fn spec_tuples(self) -> Seq<Seq<u8>> {
        self.tuples.deep_view()
    }

    pub closed spec fn spec_weights(self) -> Seq<Seq<u32>> {
        self.weights.deep_view()
    }

    /// Tuple count equals table count, table `t` has exactly `3^len(tuple_t)`
    /// entries, and every cell index is on the board.
    pub open spec fn wf(self) -> bool {
        &&& self.spec_tuples().len() == self.spec_weights().len()
        &&& (forall|t: int|
            0 <= t < self.spec_tuples().len() ==> (#[trigger] self.spec_weights()[t]).len()
                == pow3(self.spec_tuples()[t].len()))
        &&& (forall|t: int, k: int|
            0 <= t < self.spec_tuples().len() && 0 <= k < self.spec_tuples()[t].len()
                ==> #[trigger] self.spec_tuples()[t][k] < 64)
    }

    pub fn tuple_count(&self) -> (n: usize)
        ensures
            n == self.spec_tuples().len(),
    {
        self.tuples.len()
    }

    /// The cell indices of tuple `t`.
    pub fn tuple_at(&self, t: usize) -> (r: &Vec<u8>)
        requires
            t < self.spec_tuples().len(),
        ensures
            r@ == self.spec_tuples()[t as int],
    {
        proof {
            assert(self.tuples@[t as int]@ =~= self.spec_tuples()[t as int]);
        }
        &self.tuples[t]
    }

    /// The raw 32-bit words of the weight table of tuple `t`.
    pub fn weights_at(&self, t: usize) -> (r: &Vec<u32>)
        requires
            t < self.spec_weights().len(),
        ensures
            r@ == self.spec_weights()[t as int],
    {
        proof {
            assert(self.weights@[t as int]@ =~= self.spec_weights()[t as int]);
        }
        &self.weights[t]
    }

    /// Deserializes evaluator data from the weight-blob format. Succeeds
    /// exactly when `parse_blob` does, with the parsed tuples and tables;
    /// otherwise returns exactly the failure that `parse_blob` names.
    pub fn from_bytes(data: &[u8]) -> (r: Result<NTupleEvaluator, WeightsError>)
        ensures
            r matches Ok(e) ==> parse_blob(data@) matches Ok(m) && e.spec_tuples() == m.0
                && e.spec_weights() == m.1 && e.wf(),
            r matches Err(err) ==> parse_blob(data@) matches Err(e2) && err == e2,
    {
        let n = data.len();
        if n < 20 {
            return Err(WeightsError::TooShort { len: n });
        }
        if data[0] != 0x4e || data[1] != 0x54 || data[2] != 0x52 || data[3] != 0x56 {
            proof {
                assert(data@.subrange(0, 4)[0] == data@[0]);
                assert(data@.subrange(0, 4)[1] == data@[1]);
                assert(data@.subrange(0, 4)[2] == data@[2]);
                assert(data@.subrange(0, 4)[3] == data@[3]);
            }
            return Err(WeightsError::BadMagic);
        }
        proof {
            assert(data@.subrange(0, 4) =~= magic_seq());
        }
        let version = read_u32_le(data, 4);
        if version != 1 {
            return Err(WeightsError::BadVersion { version });
        }
        let num_tuples = read_u32_le(data, 8) as usize;
        let expected_crc = read_u32_le(data, 12);
        let payload: &[u8] = &data[20..n];
        proof {
            assert(payload@ =~= data@.skip(20));
        }
        let actual_crc = crc32(payload);
        if actual_crc != expected_crc {
            return Err(WeightsError::CrcMismatch { expected: expected_crc, actual: actual_crc });
        }
        let (tuples, tuples_end) = match parse_tuple_section(payload, num_tuples) {
            Ok(p) => p,
            Err(e) => {
                return Err(e);
            },
        };
        let (weights, end) = match parse_weights_section(payload, &tuples, tuples_end) {
            Ok(p) => p,
            Err(e) => {
                return Err(e);
            },
        };
        if end != payload.len() {
            return Err(WeightsError::TrailingBytes);
        }
        let e = NTupleEvaluator { tuples, weights };
        proof {
            assert(e.wf());
        }
        Ok(e)
    }
}

/// Reads the tuple definitions of a payload: for each tuple one length byte,
/// then that many cell indices, each below 64. Returns the tuples and the
/// offset just past them, exactly as `spec_parse_tuples` has them.
fn parse_tuple_section(payload: &[u8], num_tuples: usize) -> (r: Result<
    (Vec<Vec<u8>>, usize),
    WeightsError,
>)
    ensures
        r matches Ok(p) ==> spec_parse_tuples(payload@, 0, 0, num_tuples as int) == Ok::<
            _,
            WeightsError,
        >((p.0.deep_view(), p.1 as int)) && p.1 <= payload@.len() && p.0@.len() == num_tuples && (
        forall|t: int, k: int|
            0 <= t < num_tuples && 0 <= k < p.0.deep_view()[t].len()
                ==> #[trigger] p.0.deep_view()[t][k] < 64),
        r matches Err(err) ==> spec_parse_tuples(payload@, 0, 0, num_tuples as int) == Err::<
            (Seq<Seq<u8>>, int),
            _,
        >(err),
{
    let ghost count = num_tuples as int;
    let plen = payload.len();
    let mut offset: usize = 0;
    let mut tuples: Vec<Vec<u8>> = Vec::new();
    let mut tuple_idx: usize = 0;
    proof {
        assert(tuples.deep_view() =~~= Seq::<Seq<u8>>::empty());
        let r0 = spec_parse_tuples(payload@, 0, 0, count);
        if r0 is Ok {
            assert(tuples.deep_view() + r0->Ok_0.0 =~= r0->Ok_0.0);
        }
    }
    while tuple_idx < num_tuples
        invariant
            tuple_idx <= num_tuples,
            offset <= plen,
            plen == payload@.len(),
            count == num_tuples as int,
            tuples.deep_view().len() == tuple_idx,
            tuples@.len() == tuple_idx,
            spec_parse_tuples(payload@, 0, 0, count) == with_tuple_prefix(
                tuples.deep_view(),
                spec_parse_tuples(payload@, offset as int, tuple_idx as int, count),
            ),
            forall|t: int, k: int|
                0 <= t < tuple_idx && 0 <= k < tuples.deep_view()[t].len()
                    ==> #[trigger] tuples.deep_view()[t][k] < 64,
        decreases num_tuples - tuple_idx,
    {
        if offset >= plen {
            return Err(WeightsError::TupleLenEof { index: tuple_idx });
        }
        let tuple_size = payload[offset] as usize;
        let base = offset + 1;
        if tuple_size > plen - base {
            return Err(WeightsError::TuplePositionsEof { index: tuple_idx });
        }
        let mut tuple: Vec<u8> = Vec::new();
        let mut k: usize = 0;
        while k < tuple_size
            invariant
                k <= tuple_size,
                base + tuple_size <= plen,
                plen == payload@.len(),
                tuple@.len() == k,
                forall|j: int| 0 <= j < k ==> tuple@[j] == payload@[base + j],
            decreases tuple_size - k,
        {
            let b = payload[base + k];
            tuple.push(b);
            k = k + 1;
        }
        proof {
            assert(tuple@ =~= payload@.subrange(offset + 1, offset + 1 + tuple_size as int));
        }
        if any_ge_64(&tuple) {
            proof {
                let j = choose|j: int| 0 <= j < tuple@.len() && tuple@[j] >= 64;
                assert(payload@[offset + 1 + j] >= 64);
            }
            return Err(WeightsError::PositionOutOfRange { index: tuple_idx });
        }
        proof {
            assert(!(exists|j: int|
                0 <= j < tuple_size && #[trigger] payload@[offset + 1 + j] >= 64)) by {
                assert forall|j: int| 0 <= j < tuple_size implies #[trigger] payload@[offset + 1
                    + j] < 64 by {
                    assert(tuple@[j] == payload@[base + j]);
                }
            }
        }
        let ghost old_dv = tuples.deep_view();
        tuples.push(tuple);
        proof {
            assert(tuples.deep_view() =~~= old_dv.push(tuple@));
            let rest = spec_parse_tuples(
                payload@,
                offset as int + 1 + tuple_size as int,
                tuple_idx as int + 1,
                count,
            );
            if rest is Ok {
                assert(old_dv + (seq![tuple@] + rest->Ok_0.0) =~= tuples.deep_view()
                    + rest->Ok_0.0);
            }
        }
        offset = base + tuple_size;
        tuple_idx = tuple_idx + 1;
    }
    proof {
        let tail = spec_parse_tuples(payload@, offset as int, tuple_idx as int, count);
        assert(tail == Ok::<(Seq<Seq<u8>>, int), WeightsError>((Seq::empty(), offset as int)));
        if tail is Ok {
            assert(tuples.deep_view() + tail->Ok_0.0 =~= tuples.deep_view());
        }
    }
    Ok((tuples, offset))
}

/// Reads the weight tables that follow the tuple definitions: for tuple `t`,
/// `3^len(tuple_t)` little-endian 32-bit words. Returns the tables and the
/// offset just past them, exactly as `spec_parse_weights` has them.
fn parse_weights_section(payload: &[u8], tuples: &Vec<Vec<u8>>, start: usize) -> (r: Result<
    (Vec<Vec<u32>>, usize),
    WeightsError,
>)
    requires
        start <= payload@.len(),
    ensures
        r matches Ok(p) ==> spec_parse_weights(payload@, start as int, 0, tuples.deep_view())
            == Ok::<_, WeightsError>((p.0.deep_view(), p.1 as int)) && p.1 <= payload@.len()
            && p.0@.len() == tuples@.len() && (forall|t: int|
            0 <= t < tuples@.len() ==> (#[trigger] p.0.deep_view()[t]).len() == pow3(
                tuples.deep_view()[t].len(),
            )),
        r matches Err(err) ==> spec_parse_weights(payload@, start as int, 0, tuples.deep_view())
            == Err::<(Seq<Seq<u32>>, int), _>(err),
{
    let ghost tdv = tuples.deep_view();
    let plen = payload.len();
    let num_tuples = tuples.len();
    let mut offset: usize = start;
    let mut weights: Vec<Vec<u32>> = Vec::new();
    let mut widx: usize = 0;
    proof {
        assert(tdv.len() == num_tuples as int);
        let r0 = spec_parse_weights(payload@, start as int, 0, tdv);
        if r0 is Ok {
            assert(weights.deep_view() + r0->Ok_0.0 =~= r0->Ok_0.0);
        }
    }
    while widx < num_tuples
        invariant
            widx <= num_tuples,
            offset <= plen,
            plen == payload@.len(),
            tdv == tuples.deep_view(),
            tdv.len() == num_tuples as int,
            tuples@.len() == num_tuples,
            weights.deep_view().len() == widx,
            weights@.len() == widx,
            spec_parse_weights(payload@, start as int, 0, tdv) == with_weights_prefix(
                weights.deep_view(),
                spec_parse_weights(payload@, offset as int, widx as int, tdv),
            ),
            forall|t: int|
                0 <= t < widx ==> (#[trigger] weights.deep_view()[t]).len() == pow3(tdv[t].len()),
        decreases num_tuples - widx,
    {
        let tuple_len = tuples[widx].len();
        proof {
            assert(tdv[widx as int].len() == tuples@[widx as int]@.len());
        }
        let entries = match pow3_checked(tuple_len) {
            Some(e) => e,
            None => {
                return Err(WeightsError::EntryCountOverflow { index: widx });
            },
        };
        if entries > usize::MAX / 4 {
            proof {
                assert(entries * 4 > usize::MAX);
            }
            return Err(WeightsError::ByteLenOverflow { index: widx });
        }
        let bytes_len = entries * 4;
        if bytes_len > plen - offset {
            return Err(WeightsError::WeightsEof { index: widx });
        }
        let mut words: Vec<u32> = Vec::new();
        let mut i: usize = 0;
        while i < entries
            invariant
                i <= entries,
                offset + entries * 4 <= plen,
                plen == payload@.len(),
                words@.len() == i,
                forall|j: int| 0 <= j < i ==> words@[j] == le_u32_at(payload@, offset + 4 * j),
            decreases entries - i,
        {
            let w = read_u32_le(payload, offset + 4 * i);
            words.push(w);
            i = i + 1;
        }
        proof {
            assert(words@ =~= le_words(payload@, offset as int, entries as int));
        }
        let ghost old_dv = weights.deep_view();
        weights.push(words);
        proof {
            assert(weights.deep_view() =~~= old_dv.push(words@));
            let rest = spec_parse_weights(
                payload@,
                offset as int + entries as int * 4,
                widx as int + 1,
                tdv,
            );
            if rest is Ok {
                assert(old_dv + (seq![words@] + rest->Ok_0.0) =~= weights.deep_view()
                    + rest->Ok_0.0);
            }
        }
        offset = offset + bytes_len;
        widx = widx + 1;
    }
    proof {
        let tail = spec_parse_weights(payload@, offset as int, widx as int, tdv);
        assert(tail == Ok::<(Seq<Seq<u32>>, int), WeightsError>((Seq::empty(), offset as int)));
        if tail is Ok {
            assert(weights.deep_view() + tail->Ok_0.0 =~= weights.deep_view());
        }
    }
    Ok((weights, offset))
}

/// Where cell `pos` lands under a quarter-turn rotation of the board:
/// 0 is the identity and each step turns the board by 90 degrees.
pub open spec fn rotate_cell(pos: int, rotation: int) -> int {
    let r = pos / 8;
    let c = pos % 8;
    if rotation % 4 == 0 {
        r * 8 + c
    } else if rotation % 4 == 1 {
        c * 8 + (7 - r)
    } else if rotation % 4 == 2 {
        (7 - r) * 8 + (7 - c)
    } else {
        (7 - c) * 8 + r
    }
}

/// A raw cell state (0 empty, 1 black, 2 white) seen from one side:
/// 0 empty, 1 own disc, 2 opponent disc.
pub open spec fn player_view(cell: u8, is_black: bool) -> int {
    if cell == 1 {
        if is_black {
            1
        } else {
            2
        }
    } else if cell == 2 {
        if is_black {
            2
        } else {
            1
        }
    } else {
        0
    }
}

/// The base-3 number formed by the first `k` cells of `tuple` under the given
/// rotation, first cell most significant.
pub open spec fn feature_prefix(
    cells: Seq<u8>,
    tuple: Seq<u8>,
    rotation: int,
    is_black: bool,
    k: int,
) -> int
    decreases k,
{
    if k <= 0 {
        0
    } else {
        feature_prefix(cells, tuple, rotation, is_black, k - 1) * 3 + player_view(
            cells[rotate_cell(tuple[k - 1] as int, rotation)],
            is_black,
        )
    }
}

/// The index into a tuple's weight table for a flattened board under one
/// rotation, from one side's perspective.
pub open spec fn feature_index(cells: Seq<u8>, tuple: Seq<u8>, rotation: int, is_black: bool) -> int {
    feature_prefix(cells, tuple, rotation, is_black, tuple.len() as int)
}

/// The flattened cell states of a board, one byte per cell.
pub open spec fn board_cells(b: Board) -> Seq<u8> {
    Seq::new(64, |i: int| b.cell_state(i))
}

/// A feature prefix of `k` base-3 digits stays below `3^k`.
pub proof fn lemma_feature_prefix_bound(
    cells: Seq<u8>,
    tuple: Seq<u8>,
    rotation: int,
    is_black: bool,
    k: int,
)
    ensures
        0 <= feature_prefix(cells, tuple, rotation, is_black, k) < pow3(
            if k <= 0 {
                0
            } else {
                k as nat
            },
        ),
    decreases k,
{
    if k > 0 {
        lemma_feature_prefix_bound(cells, tuple, rotation, is_black, k - 1);
    }
}

/// The entries of one rotation's pass over the first `k` tuples.
pub open spec fn sel_rot_prefix(
    e: NTupleEvaluator,
    cells: Seq<u8>,
    rot: int,
    is_black: bool,
    k: int,
) -> Seq<u32> {
    Seq::new(
        k as nat,
        |t: int|
            e.spec_weights()[t][feature_index(cells, e.spec_tuples()[t], rot, is_black)],
    )
}

/// The entries one rotation's pass selects, one per tuple, in tuple order.
pub open spec fn sel_rot(e: NTupleEvaluator, cells: Seq<u8>, rot: int, is_black: bool) -> Seq<u32> {
    sel_rot_prefix(e, cells, rot, is_black, e.spec_tuples().len() as int)
}

/// The entries the first `rot` rotations select, in rotation order.
pub open spec fn selected_upto(e: NTupleEvaluator, cells: Seq<u8>, is_black: bool, rot: int) -> Seq<u32>
    decreases rot,
{
    if rot <= 0 {
        Seq::empty()
    } else {
        selected_upto(e, cells, is_black, rot - 1) + sel_rot(e, cells, rot - 1, is_black)
    }
}

/// Every weight-table entry a board selects: the 4 rotations in order, and
/// within each rotation one entry per tuple, in tuple order.
pub open spec fn selected_of(e: NTupleEvaluator, cells: Seq<u8>, is_black: bool) -> Seq<u32> {
    selected_upto(e, cells, is_black, 4)
}

impl NTupleEvaluator {
    /// The weight-table entries a board selects: for each of the 4 rotations
    /// and each tuple, in that order, the entry of the tuple's table at the
    /// board's feature index. Scoring a board is summing these 32-bit words
    /// as IEEE-754 single-precision values.
    pub fn selected_weights(&self, board: &Board, is_black: bool) -> (r: Vec<u32>)
        requires
            self.wf(),
        ensures
            r@ == selected_of(*self, board_cells(*board), is_black),
    {
        let cells = board.to_array();
        proof {
            assert(cells@ =~= board_cells(*board));
        }
        let n = self.tuples.len();
        let mut out: Vec<u32> = Vec::new();
        let mut rot: usize = 0;
        proof {
            assert(out@ =~= selected_upto(*self, cells@, is_black, 0));
        }
        while rot < 4
            invariant
                rot <= 4,
                self.wf(),
                cells@ == board_cells(*board),
                n == self.spec_tuples().len(),
                out@ == selected_upto(*self, cells@, is_black, rot as int),
            decreases 4 - rot,
        {
            let mut t: usize = 0;
            proof {
                assert(out@ =~= selected_upto(*self, cells@, is_black, rot as int) + sel_rot_prefix(
                    *self,
                    cells@,
                    rot as int,
                    is_black,
                    0,
                ));
            }
            while t < n
                invariant
                    rot < 4,
                    t <= n,
                    self.wf(),
                    cells@ == board_cells(*board),
                    n == self.spec_tuples().len(),
                    out@ == selected_upto(*self, cells@, is_black, rot as int) + sel_rot_prefix(
                        *self,
                        cells@,
                        rot as int,
                        is_black,
                        t as int,
                    ),
                decreases n - t,
            {
                let idx = self.feature_of(&cells, t, rot, is_black);
                proof {
                    assert(self.weights@[t as int]@ =~= self.spec_weights()[t as int]);
                    lemma_feature_prefix_bound(
                        cells@,
                        self.spec_tuples()[t as int],
                        rot as int,
                        is_black,
                        self.spec_tuples()[t as int].len() as int,
                    );
                }
                let w = self.weights[t][idx];
                out.push(w);
                proof {
                    assert(out@ =~= selected_upto(*self, cells@, is_black, rot as int)
                        + sel_rot_prefix(*self, cells@, rot as int, is_black, t as int + 1));
                }
                t = t + 1;
            }
            proof {
                assert(sel_rot_prefix(*self, cells@, rot as int, is_black, n as int) == sel_rot(
                    *self,
                    cells@,
                    rot as int,
                    is_black,
                ));
                assert(selected_upto(*self, cells@, is_black, rot as int + 1) == selected_upto(
                    *self,
                    cells@,
                    is_black,
                    rot as int,
                ) + sel_rot(*self, cells@, rot as int, is_black));
            }
            rot = rot + 1;
        }
        proof {
            assert(selected_of(*self, cells@, is_black) == selected_upto(*self, cells@, is_black, 4));
        }
        out
    }

    /// The feature index of tuple `t` for flattened cells under one rotation.
    fn feature_of(&self, cells: &Vec<u8>, t: usize, rotation: usize, is_black: bool) -> (idx: usize)
        requires
            self.wf(),
            t < self.spec_tuples().len(),
            rotation < 4,
            cells@.len() == 64,
        ensures
            idx == feature_index(cells@, self.spec_tuples()[t as int], rotation as int, is_black),
            idx < pow3(self.spec_tuples()[t as int].len()),
    {
        let tuple = &self.tuples[t];
        let table_len = self.weights[t].len();
        proof {
            assert(tuple@ =~= self.spec_tuples()[t as int]);
            assert(self.weights@[t as int]@ =~= self.spec_weights()[t as int]);
        }
        let len = tuple.len();
        let mut idx: usize = 0;
        let mut k: usize = 0;
        while k < len
            invariant
                k <= len,
                self.wf(),
                t < self.spec_tuples().len(),
                rotation < 4,
                cells@.len() == 64,
                tuple@ == self.spec_tuples()[t as int],
                len == tuple@.len(),
                table_len == self.spec_weights()[t as int].len(),
                idx == feature_prefix(cells@, tuple@, rotation as int, is_black, k as int),
                idx < pow3(k as nat),
            decreases len - k,
        {
            proof {
                lemma_pow3_monotone((k + 1) as nat, len as nat);
                assert(pow3(len as nat) == self.spec_weights()[t as int].len());
            }
            let pos = tuple[k];
            let rotated = rotate_cell_exec(pos, rotation);
            let cell = cells[rotated];
            let v: usize = if cell == 1 {
                if is_black {
                    1
                } else {
                    2
                }
            } else if cell == 2 {
                if is_black {
                    2
                } else {
                    1
                }
            } else {
                0
            };
            idx = idx * 3 + v;
            k = k + 1;
        }
        idx
    }
}

/// Where cell `pos` lands under `rotation` quarter-turns of the board.
fn rotate_cell_exec(pos: u8, rotation: usize) -> (r: usize)
    requires
        pos < 64,
        rotation < 4,
    ensures
        r == rotate_cell(pos as int, rotation as int),
        r < 64,
{
    let row = (pos / 8) as usize;
    let col = (pos % 8) as usize;
    if rotation == 0 {
        row * 8 + col
    } else if rotation == 1 {
        col * 8 + (7 - row)
    } else if rotation == 2 {
        (7 - row) * 8 + (7 - col)
    } else {
        (7 - col) * 8 + row
    }
}

/// True when some entry of `v` is 64 or more.
fn any_ge_64(v: &Vec<u8>) -> (b: bool)
    ensures
        b == exists|k: int| 0 <= k < v@.len() && #[trigger] v@[k] >= 64,
{
    let mut k: usize = 0;
    while k < v.len()
        invariant
            k <= v@.len(),
            forall|j: int| 0 <= j < k ==> #[trigger] v@[j] < 64,
        decreases v@.len() - k,
    {
        if v[k] >= 64 {
            return true;
        }
        k = k + 1;
    }
    false
}

/// Reads the little-endian 32-bit word at `offset`.
fn read_u32_le(data: &[u8], offset: usize) -> (r: u32)
    requires
        offset + 4 <= data@.len(),
    ensures
        r == le_u32_at(data@, offset as int),
{
    let b0 = data[offset] as u32;
    let b1 = data[offset + 1] as u32;
    let b2 = data[offset + 2] as u32;
    let b3 = data[offset + 3] as u32;
    b0 + b1 * 0x100 + b2 * 0x10000 + b3 * 0x1000000
}

/// `3^e` when it fits in a usize, `None` when it overflows.
fn pow3_checked(e: usize) -> (r: Option<usize>)
    ensures
        r matches Some(v) ==> v == pow3(e as nat) && pow3(e as nat) <= usize::MAX,
        r is None ==> pow3(e as nat) > usize::MAX,
{
    let mut out: usize = 1;
    let mut k: usize = 0;
    while k < e
        invariant
            k <= e,
            out == pow3(k as nat),
        decreases e - k,
    {
        if out > usize::MAX / 3 {
            proof {
                assert(pow3((k + 1) as nat) == 3 * pow3(k as nat));
                lemma_pow3_monotone((k + 1) as nat, e as nat);
            }
            return None;
        }
        out = out * 3;
        k = k + 1;
    }
    Some(out)
}

} // verus!

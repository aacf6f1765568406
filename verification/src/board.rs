//! Reversi board state: two disjoint 64-bit occupancy masks, one per side,
//! indexed `row * 8 + col`. Legality and capture resolution are specified by
//! `scan_flips`, a directional scan over the rays leaving a cell.

use vstd::prelude::*;

use crate::bits::{
    bit_mask, bit_set, count_bits_below, lemma_and_comm, lemma_bit_mask_bit, lemma_bit_or,
    lemma_bit_subset, lemma_count_bits_disjoint, lemma_count_bits_le, lemma_count_bits_missing,
    lemma_count_single_bit, lemma_or_comm, lemma_or_mask_nonzero, lemma_or_rearrange,
    lemma_or_zero, lemma_place_disjoint, lemma_single_bit_test, lemma_subset_or, lemma_zero_bits,
};

verus! {

pub open spec fn in_bounds(r: int, c: int) -> bool {
    0 <= r < 8 && 0 <= c < 8
}

pub open spec fn cell_index(r: int, c: int) -> int {
    r * 8 + c
}

/// Steps left before a walk in direction (dr, dc) leaves the board.
pub open spec fn scan_measure(r: int, c: int, dr: int, dc: int) -> int {
    if dr > 0 {
        8 - r
    } else if dr < 0 {
        r + 1
    } else if dc > 0 {
        8 - c
    } else {
        c + 1
    }
}

/// Walks from (r, c) in direction (dr, dc). Returns the mask of the
/// contiguous run of `opp` cells starting at (r, c) when that run is
/// terminated by a `me` cell, and `None` when it ends at an empty cell or at
/// the board edge (then nothing is captured in this direction).
pub open spec fn scan_flips(me: u64, opp: u64, r: int, c: int, dr: int, dc: int) -> Option<u64>
    decreases scan_measure(r, c, dr, dc),
{
    if !(-1 <= dr <= 1 && -1 <= dc <= 1) || (dr == 0 && dc == 0) || !in_bounds(r, c) {
        None
    } else if bit_set(opp, cell_index(r, c) as u64) {
        match scan_flips(me, opp, r + dr, c + dc, dr, dc) {
            Some(m) => Some(m | bit_mask(cell_index(r, c) as u64)),
            None => None,
        }
    } else if bit_set(me, cell_index(r, c) as u64) {
        Some(0u64)
    } else {
        None
    }
}

/// The cells captured in direction (dr, dc) by placing a `me` disc at (r, c).
pub open spec fn dir_flips_at(me: u64, opp: u64, r: int, c: int, dr: int, dc: int) -> u64 {
    match scan_flips(me, opp, r + dr, c + dc, dr, dc) {
        Some(m) => m,
        None => 0u64,
    }
}

/// The full flip mask for placing a `me` disc at `pos`: the union over the 8
/// compass directions. Zero when `pos` is out of range or already occupied.
pub open spec fn flips_for(me: u64, opp: u64, pos: int) -> u64 {
    if !(0 <= pos < 64) || bit_set(me | opp, pos as u64) {
        0u64
    } else {
        let r = pos / 8;
        let c = pos % 8;
        dir_flips_at(me, opp, r, c, -1, -1) | dir_flips_at(me, opp, r, c, -1, 0) | dir_flips_at(
            me,
            opp,
            r,
            c,
            -1,
            1,
        ) | dir_flips_at(me, opp, r, c, 0, -1) | dir_flips_at(me, opp, r, c, 0, 1) | dir_flips_at(
            me,
            opp,
            r,
            c,
            1,
            -1,
        ) | dir_flips_at(me, opp, r, c, 1, 0) | dir_flips_at(me, opp, r, c, 1, 1)
    }
}

/// Every cell captured by a directional scan holds an opponent disc.
pub proof fn lemma_scan_flips_subset(me: u64, opp: u64, r: int, c: int, dr: int, dc: int)
    ensures
        scan_flips(me, opp, r, c, dr, dc) matches Some(m) ==> m & !opp == 0,
    decreases scan_measure(r, c, dr, dc),
{
    if -1 <= dr <= 1 && -1 <= dc <= 1 && !(dr == 0 && dc == 0) && in_bounds(r, c) {
        let i = cell_index(r, c) as u64;
        if bit_set(opp, i) {
            lemma_scan_flips_subset(me, opp, r + dr, c + dc, dr, dc);
            let rest = scan_flips(me, opp, r + dr, c + dc, dr, dc);
            if rest is Some {
                lemma_bit_subset(opp, i);
                lemma_subset_or(rest.unwrap(), bit_mask(i), opp);
            }
        } else {
            assert(0u64 & !opp == 0) by (bit_vector);
        }
    }
}

/// The full flip mask holds only opponent discs.
pub proof fn lemma_flips_subset(me: u64, opp: u64, pos: int)
    ensures
        flips_for(me, opp, pos) & !opp == 0,
{
    assert(0u64 & !opp == 0) by (bit_vector);
    if 0 <= pos < 64 && !bit_set(me | opp, pos as u64) {
        let r = pos / 8;
        let c = pos % 8;
        let d1 = dir_flips_at(me, opp, r, c, -1, -1);
        let d2 = dir_flips_at(me, opp, r, c, -1, 0);
        let d3 = dir_flips_at(me, opp, r, c, -1, 1);
        let d4 = dir_flips_at(me, opp, r, c, 0, -1);
        let d5 = dir_flips_at(me, opp, r, c, 0, 1);
        let d6 = dir_flips_at(me, opp, r, c, 1, -1);
        let d7 = dir_flips_at(me, opp, r, c, 1, 0);
        let d8 = dir_flips_at(me, opp, r, c, 1, 1);
        lemma_scan_flips_subset(me, opp, r - 1, c - 1, -1, -1);
        lemma_scan_flips_subset(me, opp, r - 1, c, -1, 0);
        lemma_scan_flips_subset(me, opp, r - 1, c + 1, -1, 1);
        lemma_scan_flips_subset(me, opp, r, c - 1, 0, -1);
        lemma_scan_flips_subset(me, opp, r, c + 1, 0, 1);
        lemma_scan_flips_subset(me, opp, r + 1, c - 1, 1, -1);
        lemma_scan_flips_subset(me, opp, r + 1, c, 1, 0);
        lemma_scan_flips_subset(me, opp, r + 1, c + 1, 1, 1);
        lemma_subset_or(d1, d2, opp);
        lemma_subset_or(d1 | d2, d3, opp);
        lemma_subset_or(d1 | d2 | d3, d4, opp);
        lemma_subset_or(d1 | d2 | d3 | d4, d5, opp);
        lemma_subset_or(d1 | d2 | d3 | d4 | d5, d6, opp);
        lemma_subset_or(d1 | d2 | d3 | d4 | d5 | d6, d7, opp);
        lemma_subset_or(d1 | d2 | d3 | d4 | d5 | d6 | d7, d8, opp);
    }
}

/// A capture-resolving placement fills exactly one cell: the mover gains the
/// placed bit and the flipped run, the opponent loses the run, and the total
/// disc count grows by one.
proof fn lemma_place_counts(me: u64, opp: u64, p: u64, f: u64, i: u64)
    requires
        me & opp == 0,
        f & !opp == 0,
        (me | opp) & p == 0,
        p == bit_mask(i),
        i < 64,
    ensures
        count_bits_below(me | p | f, 64) + count_bits_below(opp & !f, 64) == count_bits_below(
            me,
            64,
        ) + count_bits_below(opp, 64) + 1,
{
    assert(me & (p | f) == 0) by (bit_vector)
        requires
            me & opp == 0,
            f & !opp == 0,
            (me | opp) & p == 0,
    ;
    assert(p & f == 0) by (bit_vector)
        requires
            f & !opp == 0,
            (me | opp) & p == 0,
    ;
    assert(opp == (opp & !f) | f) by (bit_vector)
        requires
            f & !opp == 0,
    ;
    assert((opp & !f) & f == 0) by (bit_vector);
    assert(me | p | f == me | (p | f)) by (bit_vector);
    lemma_count_bits_disjoint(me, p | f, 64);
    lemma_count_bits_disjoint(p, f, 64);
    lemma_count_bits_disjoint(opp & !f, f, 64);
    lemma_count_single_bit(i, 64);
}

/// Reversi board state represented by two bitboards.
#[derive(Debug, Clone, Copy, PartialEq, Eq, Structural)]
pub struct Board {
    black: u64,
    white: u64,
}

impl Board {
    pub closed spec fn black_mask(self) -> u64 {
        self.black
    }

    pub closed spec fn white_mask(self) -> u64 {
        self.white
    }

    /// The two sides never share a cell.
    pub open spec fn wf(self) -> bool {
        self.black_mask() & self.white_mask() == 0
    }

    pub open spec fn side_mask(self, is_black: bool) -> u64 {
        if is_black {
            self.black_mask()
        } else {
            self.white_mask()
        }
    }

    pub open spec fn occupied_mask(self) -> u64 {
        self.black_mask() | self.white_mask()
    }

    /// The mask of cells captured by placing a disc of `is_black` at `pos`.
    pub open spec fn move_flips(self, pos: int, is_black: bool) -> u64 {
        flips_for(self.side_mask(is_black), self.side_mask(!is_black), pos)
    }

    /// A placement is legal exactly when it captures at least one disc.
    pub open spec fn is_legal(self, pos: int, is_black: bool) -> bool {
        self.move_flips(pos, is_black) != 0
    }

    pub open spec fn has_legal(self, is_black: bool) -> bool {
        exists|i: int| 0 <= i < 64 && self.is_legal(i, is_black)
    }

    pub open spec fn black_count(self) -> nat {
        count_bits_below(self.black_mask(), 64)
    }

    pub open spec fn white_count(self) -> nat {
        count_bits_below(self.white_mask(), 64)
    }

    /// The board after a capture-resolving placement at `pos` by `is_black`:
    /// unchanged when the move captures nothing, else the mover's mask gains
    /// the placed cell and the flipped run and the opponent loses the run.
    pub closed spec fn spec_place(self, pos: int, is_black: bool) -> Board {
        let flips = self.move_flips(pos, is_black);
        if flips == 0 {
            self
        } else if is_black {
            Board { black: self.black | bit_mask(pos as u64) | flips, white: self.white & !flips }
        } else {
            Board { black: self.black & !flips, white: self.white | bit_mask(pos as u64) | flips }
        }
    }

    /// Cell state as exposed to callers: 0 empty, 1 black, 2 white.
    pub open spec fn cell_state(self, i: int) -> u8 {
        if bit_set(self.black_mask(), i as u64) {
            1u8
        } else if bit_set(self.white_mask(), i as u64) {
            2u8
        } else {
            0u8
        }
    }

    /// Creates the initial board: d4=white, e4=black, d5=black, e5=white.
    pub fn new() -> (b: Board)
        ensures
            b.black_mask() == (1u64 << 28) | (1u64 << 35),
            b.white_mask() == (1u64 << 27) | (1u64 << 36),
            b.wf(),
    {
        let b = Board { black: (1u64 << 28) | (1u64 << 35), white: (1u64 << 27) | (1u64 << 36) };
        proof {
            assert(((1u64 << 28) | (1u64 << 35)) & ((1u64 << 27) | (1u64 << 36)) == 0)
                by (bit_vector);
        }
        b
    }

    /// Builds a board directly from two disjoint occupancy masks.
    pub fn from_bitboards(black: u64, white: u64) -> (b: Board)
        requires
            black & white == 0,
        ensures
            b.black_mask() == black,
            b.white_mask() == white,
            b.wf(),
    {
        Board { black, white }
    }

    /// Returns the legal move mask for the given side: bit `i` is set exactly
    /// when placing at `i` would capture at least one disc.
    pub fn legal_moves(&self, is_black: bool) -> (legal: u64)
        ensures
            forall|i: int| 0 <= i < 64 ==> bit_set(legal, i as u64) == self.is_legal(i, is_black),
            (legal == 0) == !self.has_legal(is_black),
    {
        let (me, opp) = if is_black {
            (self.black, self.white)
        } else {
            (self.white, self.black)
        };
        let mut legal: u64 = 0;
        let mut pos: usize = 0;
        proof {
            assert forall|i: int| 0 <= i < 64 implies !#[trigger] bit_set(0u64, i as u64) by {
                lemma_zero_bits(i as u64);
            }
        }
        while pos < 64
            invariant
                pos <= 64,
                me == self.side_mask(is_black),
                opp == self.side_mask(!is_black),
                forall|i: int|
                    0 <= i < 64 ==> #[trigger] bit_set(legal, i as u64) == (i < pos
                        && self.is_legal(i, is_black)),
                (legal == 0) == (forall|i: int| 0 <= i < pos ==> !self.is_legal(i, is_black)),
            decreases 64 - pos,
        {
            let flips = collect_flips(pos, me, opp);
            let ghost old_legal = legal;
            if flips != 0 {
                legal = legal | bit(pos);
            }
            proof {
                assert forall|i: int| 0 <= i < 64 implies #[trigger] bit_set(legal, i as u64) == (i
                    < pos + 1 && self.is_legal(i, is_black)) by {
                    if flips != 0 {
                        lemma_bit_or(old_legal, bit_mask(pos as u64), i as u64);
                        lemma_bit_mask_bit(i as u64, pos as u64);
                    }
                    assert(bit_set(old_legal, i as u64) == (i < pos && self.is_legal(i, is_black)));
                }
                if flips != 0 {
                    assert(self.is_legal(pos as int, is_black));
                    lemma_or_mask_nonzero(old_legal, pos as u64);
                } else {
                    assert(!self.is_legal(pos as int, is_black));
                }
            }
            pos = pos + 1;
        }
        legal
    }

    /// Places one stone and flips the captured run. Returns the flip mask;
    /// a zero return means the move was illegal and the board is unchanged.
    pub fn place(&mut self, pos: usize, is_black: bool) -> (flips: u64)
        requires
            old(self).wf(),
        ensures
            final(self).wf(),
            flips == old(self).move_flips(pos as int, is_black),
            flips == 0 ==> *final(self) == *old(self),
            flips != 0 ==> final(self).side_mask(is_black) == old(self).side_mask(is_black)
                | bit_mask(pos as u64) | flips,
            flips != 0 ==> final(self).side_mask(!is_black) == old(self).side_mask(!is_black)
                & !flips,
            flips != 0 ==> final(self).black_count() + final(self).white_count() == old(
                self,
            ).black_count() + old(self).white_count() + 1,
            *final(self) == old(self).spec_place(pos as int, is_black),
    {
        let (me, opp) = if is_black {
            (self.black, self.white)
        } else {
            (self.white, self.black)
        };
        let flips = collect_flips(pos, me, opp);
        if flips == 0 {
            return 0;
        }
        let move_bit = bit(pos);
        let next_me = me | move_bit | flips;
        let next_opp = opp & !flips;
        proof {
            if !is_black {
                lemma_and_comm(old(self).black_mask(), old(self).white_mask());
            }
            lemma_flips_subset(me, opp, pos as int);
            lemma_single_bit_test(me | opp, pos as u64);
            assert((me | opp) & bit_mask(pos as u64) == 0) by {
                assert(!bit_set(me | opp, pos as u64));
                if pos < 64 {
                    let occ = me | opp;
                    let sh = pos as u64;
                    assert(sh < 64 && !(((occ >> sh) & 1u64) == 1u64) ==> occ & (1u64 << sh) == 0)
                        by (bit_vector);
                }
            }
            lemma_place_disjoint(me, opp, bit_mask(pos as u64), flips);
            lemma_and_comm(me | bit_mask(pos as u64) | flips, opp & !flips);
            lemma_place_counts(me, opp, bit_mask(pos as u64), flips, pos as u64);
        }
        if is_black {
            self.black = next_me;
            self.white = next_opp;
        } else {
            self.white = next_me;
            self.black = next_opp;
        }
        flips
    }

    /// Returns `(black_count, white_count)`.
    pub fn count(&self) -> (r: (u8, u8))
        ensures
            r.0 == self.black_count(),
            r.1 == self.white_count(),
    {
        (count_mask(self.black), count_mask(self.white))
    }

    /// Returns the number of empty squares.
    pub fn empty_count(&self) -> (r: u8)
        requires
            self.wf(),
        ensures
            r == 64 - self.black_count() - self.white_count(),
    {
        proof {
            lemma_count_bits_disjoint(self.black_mask(), self.white_mask(), 64);
            lemma_count_bits_le(self.black_mask() | self.white_mask(), 64);
        }
        let (black_count, white_count) = self.count();
        64 - black_count - white_count
    }

    /// Flattens the board to one byte per cell: 0=empty, 1=black, 2=white.
    pub fn to_array(&self) -> (cells: Vec<u8>)
        ensures
            cells@.len() == 64,
            forall|i: int| 0 <= i < 64 ==> cells@[i] == self.cell_state(i),
    {
        let mut cells: Vec<u8> = Vec::new();
        let mut pos: usize = 0;
        while pos < 64
            invariant
                pos <= 64,
                cells@.len() == pos,
                forall|i: int| 0 <= i < pos ==> cells@[i] == self.cell_state(i),
            decreases 64 - pos,
        {
            let square = 1u64 << pos;
            proof {
                lemma_single_bit_test(self.black_mask(), pos as u64);
                lemma_single_bit_test(self.white_mask(), pos as u64);
            }
            let cell = if self.black & square != 0 {
                1u8
            } else if self.white & square != 0 {
                2u8
            } else {
                0u8
            };
            cells.push(cell);
            pos = pos + 1;
        }
        cells
    }
}

impl Default for Board {
    /// The initial position.
    fn default() -> (b: Board)
        ensures
            b.black_mask() == (1u64 << 28) | (1u64 << 35),
            b.white_mask() == (1u64 << 27) | (1u64 << 36),
            b.wf(),
    {
        Board::new()
    }
}

/// A board with a legal move has an empty cell, so the discs do not fill it.
pub proof fn lemma_has_legal_leaves_empty(b: Board, is_black: bool)
    requires
        b.wf(),
        b.has_legal(is_black),
    ensures
        b.black_count() + b.white_count() < 64,
{
    let i = choose|i: int| 0 <= i < 64 && b.is_legal(i, is_black);
    let me = b.side_mask(is_black);
    let opp = b.side_mask(!is_black);
    assert(!bit_set(me | opp, i as u64));
    lemma_or_comm(b.black_mask(), b.white_mask());
    lemma_bit_or(b.black_mask(), b.white_mask(), i as u64);
    lemma_count_bits_disjoint(b.black_mask(), b.white_mask(), 64);
    lemma_count_bits_missing(b.black_mask() | b.white_mask(), 64, i as u64);
}

fn bit(pos: usize) -> (r: u64)
    ensures
        r == bit_mask(pos as u64),
{
    if pos < 64 {
        1u64 << pos
    } else {
        0
    }
}

/// Scans one direction from (row, col) and returns the captured run, or 0
/// when the run is not terminated by a same-side disc.
fn scan_dir(me: u64, opp: u64, row: i32, col: i32, dr: i32, dc: i32) -> (m: u64)
    requires
        -1 <= dr <= 1,
        -1 <= dc <= 1,
        !(dr == 0 && dc == 0),
        0 <= row < 8,
        0 <= col < 8,
    ensures
        m == dir_flips_at(me, opp, row as int, col as int, dr as int, dc as int),
{
    let mut r = row + dr;
    let mut c = col + dc;
    let mut line: u64 = 0;
    proof {
        lemma_or_zero_option(scan_flips(me, opp, r as int, c as int, dr as int, dc as int));
    }
    while 0 <= r && r < 8 && 0 <= c && c < 8
        invariant
            -1 <= dr <= 1,
            -1 <= dc <= 1,
            !(dr == 0 && dc == 0),
            -1 <= r <= 8,
            -1 <= c <= 8,
            scan_flips(me, opp, (row + dr) as int, (col + dc) as int, dr as int, dc as int)
                == match scan_flips(me, opp, r as int, c as int, dr as int, dc as int) {
                Some(m) => Some(m | line),
                None => None::<u64>,
            },
        decreases scan_measure(r as int, c as int, dr as int, dc as int),
    {
        let idx = (r * 8 + c) as usize;
        let square = 1u64 << idx;
        proof {
            lemma_single_bit_test(opp, idx as u64);
            lemma_single_bit_test(me, idx as u64);
            assert(cell_index(r as int, c as int) == idx);
        }
        if opp & square != 0 {
            proof {
                let rest = scan_flips(
                    me,
                    opp,
                    (r + dr) as int,
                    (c + dc) as int,
                    dr as int,
                    dc as int,
                );
                if rest is Some {
                    lemma_or_rearrange(rest.unwrap(), bit_mask(idx as u64), line);
                }
            }
            line = line | square;
            r = r + dr;
            c = c + dc;
        } else if me & square != 0 {
            proof {
                lemma_or_zero(line);
            }
            return line;
        } else {
            return 0;
        }
    }
    0
}

proof fn lemma_or_zero_option(o: Option<u64>)
    ensures
        o == match o {
            Some(m) => Some(m | 0u64),
            None => None::<u64>,
        },
{
    if o is Some {
        lemma_or_zero(o.unwrap());
    }
}

/// The flip mask for placing a `me` disc at `pos`, the union over all 8
/// directions; zero when `pos` is out of range, occupied, or captures nothing.
fn collect_flips(pos: usize, me: u64, opp: u64) -> (flips: u64)
    ensures
        flips == flips_for(me, opp, pos as int),
{
    if pos >= 64 {
        return 0;
    }
    let move_bit = 1u64 << pos;
    proof {
        lemma_single_bit_test(me | opp, pos as u64);
    }
    if (me | opp) & move_bit != 0 {
        return 0;
    }
    let row = (pos / 8) as i32;
    let col = (pos % 8) as i32;
    let mut flips = scan_dir(me, opp, row, col, -1, -1);
    flips = flips | scan_dir(me, opp, row, col, -1, 0);
    flips = flips | scan_dir(me, opp, row, col, -1, 1);
    flips = flips | scan_dir(me, opp, row, col, 0, -1);
    flips = flips | scan_dir(me, opp, row, col, 0, 1);
    flips = flips | scan_dir(me, opp, row, col, 1, -1);
    flips = flips | scan_dir(me, opp, row, col, 1, 0);
    flips = flips | scan_dir(me, opp, row, col, 1, 1);
    flips
}

/// Counts the set bits of a mask.
fn count_mask(m: u64) -> (r: u8)
    ensures
        r == count_bits_below(m, 64),
{
    let mut count: u8 = 0;
    let mut pos: usize = 0;
    while pos < 64
        invariant
            pos <= 64,
            count == count_bits_below(m, pos as int),
            count <= pos,
        decreases 64 - pos,
    {
        proof {
            lemma_single_bit_test(m, pos as u64);
        }
        if m & (1u64 << pos) != 0 {
            count = count + 1;
        }
        pos = pos + 1;
    }
    count
}

} // verus!

//! Time-bounded iterative-deepening negamax with alpha-beta pruning, and an
//! exact full-depth endgame solver.
//!
//! Scores are `i64` order keys: the key of a finite IEEE-754 single-precision
//! score is its sign times the bit pattern of its magnitude, so comparing keys
//! compares the scores and negating a key negates the score. Exact disc
//! differentials are mapped through the same encoding (`score_key_of_diff`),
//! so exact and heuristic scores share one scale, as they do when both are
//! summed and compared as single-precision values.

use vstd::prelude::*;

use std::time::{Duration, Instant};

use crate::bits::bit_set;
use crate::board::{lemma_has_legal_leaves_empty, Board};

verus! {

/// The score key of negative infinity, the initial alpha-beta window bottom.
pub const MIN_SCORE: i64 = -0x7f80_0000;

/// The score key of positive infinity, the initial alpha-beta window top.
pub const MAX_SCORE: i64 = 0x7f80_0000;

const DEFAULT_TIMEOUT_SECS: u64 = 5;

/// Declares std's opaque monotonic timestamp to the verifier; the searcher
/// only carries such values and compares them through `deadline_expired`.
#[verifier::external_type_specification]
#[verifier::external_body]
pub struct ExInstant(Instant);

/// Relies on Instant::now for the search start timestamp. Nothing is promised
/// of the clock.
#[verifier::external_body]
fn instant_now() -> Instant {
    Instant::now()
}

/// Relies on Instant::elapsed and Duration's ordering: true when at least
/// `timeout` has passed since `start`. The outcome depends on the clock, so
/// nothing is promised of it.
#[verifier::external_body]
fn deadline_expired(start: &Instant, timeout: &Duration) -> bool {
    start.elapsed() >= *timeout
}

/// Relies on Duration::from_secs to build the default search time budget.
#[verifier::external_body]
fn duration_from_secs(secs: u64) -> Duration {
    Duration::from_secs(secs)
}

/// The bit pattern of `m` as an IEEE-754 single-precision value, for the
/// disc-differential magnitudes 0..=64 (all exactly representable).
pub open spec fn small_float_bits(m: int) -> int {
    if m <= 0 {
        0
    } else if m == 1 {
        0x3f80_0000
    } else if m < 4 {
        128 * 0x80_0000 + (m - 2) * 0x40_0000
    } else if m < 8 {
        129 * 0x80_0000 + (m - 4) * 0x20_0000
    } else if m < 16 {
        130 * 0x80_0000 + (m - 8) * 0x10_0000
    } else if m < 32 {
        131 * 0x80_0000 + (m - 16) * 0x8_0000
    } else if m < 64 {
        132 * 0x80_0000 + (m - 32) * 0x4_0000
    } else {
        133int * 0x80_0000
    }
}

/// The score key of an exact disc differential `d`, with -64 <= d <= 64:
/// sign times the single-precision bit pattern of the magnitude.
pub open spec fn score_key_of_diff(d: int) -> int {
    if d >= 0 {
        small_float_bits(d)
    } else {
        -small_float_bits(-d)
    }
}

/// The key order matches the numeric order of disc differentials: the key of
/// a larger differential is strictly larger.
pub proof fn lemma_score_key_monotone(a: int, b: int)
    requires
        -64 <= a < b <= 64,
    ensures
        score_key_of_diff(a) < score_key_of_diff(b),
{
}

/// Negating a differential negates its key, so one negation serves for both
/// sides of a negamax node.
pub proof fn lemma_score_key_odd(d: int)
    requires
        -64 <= d <= 64,
    ensures
        score_key_of_diff(-d) == -score_key_of_diff(d),
{
}

/// The exact terminal score of a board for one side: the disc differential
/// oriented to that side, as a score key.
pub open spec fn spec_exact_score(b: Board, is_black: bool) -> int {
    if is_black {
        score_key_of_diff(b.black_count() - b.white_count())
    } else {
        score_key_of_diff(b.white_count() - b.black_count())
    }
}

/// The negated exact value of the position after playing `mv`: what the
/// mover stands to gain by that move, one budget step deeper.
pub open spec fn exact_child_value(b: Board, is_black: bool, n: nat, mv: int) -> int {
    -exact_value(b.spec_place(mv, is_black), !is_black, (n - 1) as nat)
}

/// The full-depth negamax value of a position under a budget of `n`
/// placements: an exhausted budget or a double pass scores as the exact disc
/// differential; a stuck side passes at no budget cost; otherwise the best
/// over all legal moves of the value one move deeper, negated. At a budget
/// equal to the empty-cell count every line of play reaches a terminal
/// board, so this is the position's outcome under optimal play.
pub open spec fn exact_value(b: Board, is_black: bool, n: nat) -> int
    decreases n, (if b.has_legal(is_black) {
        1int
    } else {
        2int
    }), 0int,
{
    if n == 0 {
        spec_exact_score(b, is_black)
    } else if !b.has_legal(is_black) {
        if !b.has_legal(!is_black) {
            spec_exact_score(b, is_black)
        } else {
            -exact_value(b, !is_black, n)
        }
    } else {
        exact_value_moves(b, is_black, n, 0)
    }
}

/// The best value over the legal moves at cells `i..64`; the window bottom
/// when none is legal there (or for a zero budget, which `exact_value`
/// never passes down).
pub open spec fn exact_value_moves(b: Board, is_black: bool, n: nat, i: int) -> int
    decreases n, 0int, 64 - i,
{
    if n == 0 || i < 0 || i >= 64 {
        MIN_SCORE as int
    } else {
        let rest = exact_value_moves(b, is_black, n, i + 1);
        if b.is_legal(i, is_black) {
            let v = -exact_value(b.spec_place(i, is_black), !is_black, (n - 1) as nat);
            if v > rest {
                v
            } else {
                rest
            }
        } else {
            rest
        }
    }
}

/// How a fail-soft alpha-beta result `s` relates to the true value `v`:
/// exact inside the window, an upper bound on `v` when failing low, a lower
/// bound when failing high.
pub open spec fn value_bound(s: int, alpha: int, beta: int, v: int) -> bool {
    &&& (s <= alpha ==> v <= s)
    &&& (s >= beta ==> v >= s)
    &&& (alpha < s < beta ==> s == v)
}

/// The move-best over `i..64` dominates any single legal move there.
pub proof fn lemma_moves_ge_child(b: Board, is_black: bool, n: nat, i: int, mv: int)
    requires
        n >= 1,
        0 <= i <= mv < 64,
        b.is_legal(mv, is_black),
    ensures
        exact_value_moves(b, is_black, n, i) >= exact_child_value(b, is_black, n, mv),
    decreases 64 - i,
{
    if i < mv {
        lemma_moves_ge_child(b, is_black, n, i + 1, mv);
    }
}

/// The move-best over `i..64` is at most any bound that dominates every
/// legal move there.
pub proof fn lemma_moves_le_bound(b: Board, is_black: bool, n: nat, i: int, bound: int)
    requires
        n >= 1,
        bound >= MIN_SCORE,
        forall|j: int|
            i <= j < 64 && #[trigger] b.is_legal(j, is_black) ==> exact_child_value(
                b,
                is_black,
                n,
                j,
            ) <= bound,
    ensures
        exact_value_moves(b, is_black, n, i) <= bound,
    decreases 64 - i,
{
    if 0 <= i < 64 {
        lemma_moves_le_bound(b, is_black, n, i + 1, bound);
    }
}

/// The static exact score stays within the keys of the extreme
/// disc differentials.
proof fn lemma_static_range(b: Board, is_black: bool)
    ensures
        -0x4280_0000 <= spec_exact_score(b, is_black) <= 0x4280_0000,
{
    crate::bits::lemma_count_bits_le(b.black_mask(), 64);
    crate::bits::lemma_count_bits_le(b.white_mask(), 64);
}

/// Exact values stay within the keys of the extreme disc differentials,
/// strictly inside the initial alpha-beta window bounds.
pub proof fn lemma_exact_value_range(b: Board, is_black: bool, n: nat)
    ensures
        -0x4280_0000 <= exact_value(b, is_black, n) <= 0x4280_0000,
    decreases n, (if b.has_legal(is_black) {
        1int
    } else {
        2int
    }), 0int,
{
    lemma_static_range(b, is_black);
    if n == 0 {
    } else if !b.has_legal(is_black) {
        if b.has_legal(!is_black) {
            lemma_exact_value_range(b, !is_black, n);
        }
    } else {
        let w = choose|i: int| 0 <= i < 64 && b.is_legal(i, is_black);
        lemma_moves_upper(b, is_black, n, 0);
        lemma_moves_ge_child(b, is_black, n, 0, w);
        lemma_exact_value_range(b.spec_place(w, is_black), !is_black, (n - 1) as nat);
    }
}

/// The move-best never exceeds the key range's top.
proof fn lemma_moves_upper(b: Board, is_black: bool, n: nat, i: int)
    ensures
        exact_value_moves(b, is_black, n, i) <= 0x4280_0000,
    decreases n, 0int, 64 - i,
{
    if n >= 1 && 0 <= i < 64 {
        lemma_moves_upper(b, is_black, n, i + 1);
        if b.is_legal(i, is_black) {
            lemma_exact_value_range(b.spec_place(i, is_black), !is_black, (n - 1) as nat);
        }
    }
}

pub open spec fn spec_neg_score(s: i64) -> i64 {
    if s == i64::MIN {
        i64::MAX
    } else {
        (-s) as i64
    }
}

/// Exactly one cell is a legal move for the side.
pub open spec fn sole_legal(b: Board, is_black: bool, i: int) -> bool {
    &&& 0 <= i < 64
    &&& b.is_legal(i, is_black)
    &&& forall|j: int| 0 <= j < 64 && j != i ==> !b.is_legal(j, is_black)
}

/// When the exact endgame solve is attempted: never below level 3, and then
/// only once few enough cells are empty for the level.
pub open spec fn exact_threshold(level: u8, empty: int) -> bool {
    if level == 3 {
        empty <= 10
    } else if level == 4 {
        empty <= 12
    } else if level == 5 {
        empty <= 14
    } else if level == 6 {
        empty <= 16
    } else {
        false
    }
}

/// A leaf or move score for one side of a board: a total-order key, higher is
/// better. Negamax negates keys when switching sides, so an implementation
/// should value opposite perspectives as opposite keys.
pub trait ScoreOracle {
    fn score(&self, board: &Board, is_black: bool) -> i64;
}

/// The outcome of one bounded negamax pass: the best move with its score, or
/// the news that the deadline cut the pass short.
#[derive(Debug, Clone, Copy, PartialEq, Eq, Structural)]
pub enum SearchResult {
    Complete(usize, i64),
    TimedOut,
}

impl SearchResult {
    /// Negates the score, keeping the move: one negamax side switch.
    pub fn negate(self) -> (r: Self)
        ensures
            self is TimedOut <==> r is TimedOut,
            self matches SearchResult::Complete(mv, s) ==> r == SearchResult::Complete(
                mv,
                spec_neg_score(s),
            ),
    {
        match self {
            SearchResult::Complete(mv, score) => SearchResult::Complete(mv, neg_score(score)),
            SearchResult::TimedOut => SearchResult::TimedOut,
        }
    }
}

/// Transient state of one top-level search: the deadline, the nominal depth,
/// and whether the deadline was hit.
pub struct Searcher<'a, E: ScoreOracle> {
    evaluator: &'a E,
    start_time: Instant,
    timeout: Duration,
    max_depth: u8,
    timed_out: bool,
}

impl<'a, E: ScoreOracle> Searcher<'a, E> {
    pub closed spec fn spec_timed_out(self) -> bool {
        self.timed_out
    }

    pub closed spec fn spec_max_depth(self) -> u8 {
        self.max_depth
    }

    pub closed spec fn spec_evaluator(self) -> &'a E {
        self.evaluator
    }

    pub closed spec fn spec_timeout(self) -> Duration {
        self.timeout
    }

    /// The evaluator, deadline and depth bound of `post` are those of `pre`.
    pub closed spec fn config_unchanged(pre: Self, post: Self) -> bool {
        &&& post.evaluator == pre.evaluator
        &&& post.start_time == pre.start_time
        &&& post.timeout == pre.timeout
        &&& post.max_depth == pre.max_depth
    }

    pub fn new(evaluator: &'a E, max_depth: u8) -> (s: Self)
        ensures
            s.spec_max_depth() == max_depth,
            s.spec_evaluator() == evaluator,
            !s.spec_timed_out(),
    {
        Self::with_timeout(evaluator, max_depth, duration_from_secs(DEFAULT_TIMEOUT_SECS))
    }

    pub fn with_timeout(evaluator: &'a E, max_depth: u8, timeout: Duration) -> (s: Self)
        ensures
            s.spec_max_depth() == max_depth,
            s.spec_evaluator() == evaluator,
            s.spec_timeout() == timeout,
            !s.spec_timed_out(),
    {
        Searcher { evaluator, start_time: instant_now(), timeout, max_depth, timed_out: false }
    }

    /// Whether the last search hit its deadline.
    pub fn timed_out(&self) -> (r: bool)
        ensures
            r == self.spec_timed_out(),
    {
        self.timed_out
    }

    /// Whether an exact endgame solve is attempted after iterative deepening:
    /// exactly the level-by-empty-count table of `exact_threshold`.
    pub fn should_exact_solve(&self, board: &Board) -> (r: bool)
        requires
            board.wf(),
        ensures
            r == exact_threshold(
                self.spec_max_depth(),
                64 - board.black_count() - board.white_count(),
            ),
    {
        let empty = board.empty_count();
        match self.max_depth {
            1 | 2 => false,
            3 => empty <= 10,
            4 => empty <= 12,
            5 => empty <= 14,
            6 => empty <= 16,
            _ => false,
        }
    }

    /// Searches the best move for `is_black`, which must have at least one
    /// legal move. The returned cell is always legal; when it is the only
    /// legal cell it is returned at once, without tree search and with the
    /// timed-out flag clear.
    pub fn search(&mut self, board: &Board, is_black: bool) -> (mv: usize)
        requires
            board.wf(),
            board.has_legal(is_black),
        ensures
            board.is_legal(mv as int, is_black),
            final(self).spec_max_depth() == old(self).spec_max_depth(),
            final(self).spec_evaluator() == old(self).spec_evaluator(),
            final(self).spec_timeout() == old(self).spec_timeout(),
            old(self).spec_max_depth() <= 1 ==> !final(self).spec_timed_out(),
            forall|i: int|
                sole_legal(*board, is_black, i) ==> mv as int == i && !final(self).spec_timed_out(),
    {
        self.start_time = instant_now();
        self.timed_out = false;
        let legal = board.legal_moves(is_black);
        let moves = bitboard_to_positions(legal);
        proof {
            let w = choose|i: int| 0 <= i < 64 && board.is_legal(i, is_black);
            assert(bit_set(legal, w as u64));
            assert(moves@.contains(w as usize));
            assert(moves@.len() >= 1);
        }
        if moves.len() == 1 {
            let mv = moves[0];
            proof {
                assert(board.is_legal(mv as int, is_black));
            }
            return mv;
        }
        proof {
            assert(moves@.len() >= 2);
            assert(moves@[0] != moves@[1]);
            assert forall|i: int| !sole_legal(*board, is_black, i) by {
                if sole_legal(*board, is_black, i) {
                    assert(board.is_legal(moves@[0] as int, is_black));
                    assert(board.is_legal(moves@[1] as int, is_black));
                }
            }
        }
        let mut best_move = moves[0];
        let mut d: u8 = 0;
        let mut stopped = false;
        while d < self.max_depth && !stopped
            invariant
                board.wf(),
                board.has_legal(is_black),
                board.is_legal(best_move as int, is_black),
                self.spec_max_depth() == old(self).spec_max_depth(),
                self.spec_evaluator() == old(self).spec_evaluator(),
                self.spec_timeout() == old(self).spec_timeout(),
                self.spec_max_depth() <= 1 ==> !self.spec_timed_out(),
            decreases self.max_depth - d, (if stopped {
                0int
            } else {
                1int
            }),
        {
            let depth = d + 1;
            match self.negaalpha(board, is_black, depth, depth, MIN_SCORE, MAX_SCORE) {
                SearchResult::Complete(mv2, _) => {
                    proof {
                        assert(board.is_legal(mv2 as int, is_black));
                    }
                    best_move = mv2;
                    d = d + 1;
                },
                SearchResult::TimedOut => {
                    stopped = true;
                },
            }
        }
        if self.should_exact_solve(board) {
            if !self.timed_out {
                match self.exact_solve(board, is_black) {
                    SearchResult::Complete(mv2, _) => {
                        best_move = mv2;
                    },
                    SearchResult::TimedOut => {},
                }
            }
        }
        best_move
    }

    /// One depth-bounded negamax pass. A `Complete` result leaves the
    /// timed-out flag as it was and, at a node with a legal move and depth to
    /// spend, names a legal move; `TimedOut` means the deadline was hit.
    fn negaalpha(
        &mut self,
        board: &Board,
        is_black: bool,
        depth: u8,
        root_depth: u8,
        alpha: i64,
        beta: i64,
    ) -> (r: SearchResult)
        requires
            board.wf(),
        ensures
            Self::config_unchanged(*old(self), *final(self)),
            r is TimedOut ==> final(self).spec_timed_out(),
            r is Complete ==> final(self).spec_timed_out() == old(self).spec_timed_out(),
            root_depth <= 1 ==> r is Complete,
            r matches SearchResult::Complete(mv, _) ==> ((depth > 0 && board.has_legal(is_black))
                ==> board.is_legal(mv as int, is_black)),
            r matches SearchResult::Complete(mv, s) ==> ((depth > 0 && !board.has_legal(is_black)
                && !board.has_legal(!is_black)) ==> mv == 0 && s == spec_exact_score(
                *board,
                is_black,
            )),
        decreases depth as int, (if board.has_legal(is_black) {
            0int
        } else {
            1int
        }),
    {
        // The depth-1 root ply is exempt from the deadline, so a search
        // always completes at least one ply.
        if root_depth > 1 && deadline_expired(&self.start_time, &self.timeout) {
            self.timed_out = true;
            return SearchResult::TimedOut;
        }
        if depth == 0 {
            let ev = self.evaluator;
            return SearchResult::Complete(0, ev.score(board, is_black));
        }
        let legal = board.legal_moves(is_black);
        if legal == 0 {
            let opp_legal = board.legal_moves(!is_black);
            if opp_legal == 0 {
                // Double pass: terminal, scored exactly.
                return SearchResult::Complete(0, exact_score(board, is_black));
            }
            // A pass does not cost a ply.
            let r = self.negaalpha(
                board,
                !is_black,
                depth,
                root_depth,
                neg_score(beta),
                neg_score(alpha),
            );
            return r.negate();
        }
        let ev = self.evaluator;
        let moves = sorted_moves(legal, board, is_black, ev);
        let mut best_move = moves[0];
        let mut best_score = MIN_SCORE;
        let mut alpha_cur = alpha;
        let mut k: usize = 0;
        let mut cut = false;
        proof {
            assert(board.is_legal(moves@[0] as int, is_black));
        }
        while k < moves.len() && !cut
            invariant
                board.wf(),
                depth > 0,
                moves@.len() >= 1,
                forall|j: int| 0 <= j < moves@.len() ==> board.is_legal(moves@[j] as int, is_black),
                board.is_legal(best_move as int, is_black),
                Self::config_unchanged(*old(self), *self),
                self.spec_timed_out() == old(self).spec_timed_out(),
            decreases moves@.len() - k,
        {
            let mv = moves[k];
            let mut next = *board;
            let _ = next.place(mv, is_black);
            let result = self.negaalpha(
                &next,
                !is_black,
                depth - 1,
                root_depth,
                neg_score(beta),
                neg_score(alpha_cur),
            );
            match result {
                SearchResult::TimedOut => {
                    return SearchResult::TimedOut;
                },
                SearchResult::Complete(_, sc) => {
                    let score = neg_score(sc);
                    if is_better_move(score, mv, best_score, best_move) {
                        best_score = score;
                        best_move = mv;
                    }
                    if score > alpha_cur {
                        alpha_cur = score;
                    }
                    if alpha_cur >= beta {
                        cut = true;
                    }
                },
            }
            k = k + 1;
        }
        SearchResult::Complete(best_move, best_score)
    }

    /// The exact endgame solve: a full negamax to terminal positions, bounded
    /// by the remaining empty-cell count and scored by exact disc
    /// differentials. The same deadline and flag discipline as `negaalpha`,
    /// with no root-ply exemption.
    pub fn exact_solve(&mut self, board: &Board, is_black: bool) -> (r: SearchResult)
        requires
            board.wf(),
        ensures
            Self::config_unchanged(*old(self), *final(self)),
            r is TimedOut ==> final(self).spec_timed_out(),
            r is Complete ==> final(self).spec_timed_out() == old(self).spec_timed_out(),
            r matches SearchResult::Complete(mv, _) ==> (board.has_legal(is_black)
                ==> board.is_legal(mv as int, is_black)),
            r matches SearchResult::Complete(mv, s) ==> ((!board.has_legal(is_black)
                && !board.has_legal(!is_black)) ==> mv == 0 && s == spec_exact_score(
                *board,
                is_black,
            )),
            r matches SearchResult::Complete(mv, s) ==> s == exact_value(
                *board,
                is_black,
                (64 - board.black_count() - board.white_count()) as nat,
            ),
    {
        proof {
            if board.has_legal(is_black) {
                lemma_has_legal_leaves_empty(*board, is_black);
            }
        }
        let empties = board.empty_count();
        let r = self.negaalpha_exact(board, is_black, empties, MIN_SCORE, MAX_SCORE);
        proof {
            // At the full window a completed solve is exact: the value range
            // lies strictly inside the window, so neither bound can be hit.
            if r is Complete {
                lemma_exact_value_range(*board, is_black, empties as nat);
            }
        }
        r
    }

    /// One pass of the exact solver: negamax bounded by `empties`, checked
    /// against the deadline at every node. A completed pass relates its score
    /// to the position's exact value in the fail-soft way: exact inside the
    /// window, a bound on the value when outside it.
    fn negaalpha_exact(
        &mut self,
        board: &Board,
        is_black: bool,
        empties: u8,
        alpha: i64,
        beta: i64,
    ) -> (r: SearchResult)
        requires
            board.wf(),
            MIN_SCORE <= alpha < beta <= MAX_SCORE,
        ensures
            Self::config_unchanged(*old(self), *final(self)),
            r is TimedOut ==> final(self).spec_timed_out(),
            r is Complete ==> final(self).spec_timed_out() == old(self).spec_timed_out(),
            r matches SearchResult::Complete(mv, _) ==> ((empties > 0 && board.has_legal(
                is_black,
            )) ==> board.is_legal(mv as int, is_black)),
            r matches SearchResult::Complete(mv, s) ==> ((!board.has_legal(is_black)
                && !board.has_legal(!is_black)) ==> mv == 0 && s == spec_exact_score(
                *board,
                is_black,
            )),
            r matches SearchResult::Complete(mv, s) ==> (empties == 0 ==> mv == 0 && s
                == spec_exact_score(*board, is_black)),
            r matches SearchResult::Complete(mv, s) ==> MIN_SCORE <= s <= MAX_SCORE,
            r matches SearchResult::Complete(mv, s) ==> value_bound(
                s as int,
                alpha as int,
                beta as int,
                exact_value(*board, is_black, empties as nat),
            ),
        decreases empties as int, (if board.has_legal(is_black) {
            0int
        } else {
            1int
        }),
    {
        let ghost n = empties as nat;
        if deadline_expired(&self.start_time, &self.timeout) {
            self.timed_out = true;
            return SearchResult::TimedOut;
        }
        if empties == 0 {
            proof {
                lemma_static_range(*board, is_black);
            }
            return SearchResult::Complete(0, exact_score(board, is_black));
        }
        let legal = board.legal_moves(is_black);
        if legal == 0 {
            let opp_legal = board.legal_moves(!is_black);
            if opp_legal == 0 {
                proof {
                    lemma_static_range(*board, is_black);
                }
                return SearchResult::Complete(0, exact_score(board, is_black));
            }
            let r = self.negaalpha_exact(
                board,
                !is_black,
                empties,
                neg_score(beta),
                neg_score(alpha),
            );
            proof {
                // The pass flips sign and window: each fail-soft case of the
                // child maps to the corresponding case here.
                if r is Complete {
                    let sc = r->Complete_1;
                    assert(exact_value(*board, is_black, n) == -exact_value(*board, !is_black, n));
                    assert(spec_neg_score(sc) == -sc);
                }
            }
            return r.negate();
        }
        let ev = self.evaluator;
        let moves = sorted_moves(legal, board, is_black, ev);
        let mut best_move = moves[0];
        let mut best_score = MIN_SCORE;
        let mut alpha_cur = alpha;
        let mut k: usize = 0;
        let mut cut = false;
        proof {
            assert(board.is_legal(moves@[0] as int, is_black));
            assert(exact_value(*board, is_black, n) == exact_value_moves(*board, is_black, n, 0));
        }
        while k < moves.len() && !cut
            invariant
                board.wf(),
                empties > 0,
                n == empties as nat,
                MIN_SCORE <= alpha < beta <= MAX_SCORE,
                moves@.len() >= 1,
                k <= moves@.len(),
                forall|j: int| 0 <= j < moves@.len() ==> board.is_legal(moves@[j] as int, is_black),
                board.is_legal(best_move as int, is_black),
                Self::config_unchanged(*old(self), *self),
                self.spec_timed_out() == old(self).spec_timed_out(),
                MIN_SCORE <= best_score <= MAX_SCORE,
                alpha_cur == (if best_score > alpha {
                    best_score
                } else {
                    alpha
                }),
                !cut ==> alpha_cur < beta,
                !cut ==> forall|j: int|
                    0 <= j < k ==> exact_child_value(
                        *board,
                        is_black,
                        n,
                        #[trigger] moves@[j] as int,
                    ) <= best_score,
                (!cut && best_score > alpha) ==> exists|j: int|
                    0 <= j < k && exact_child_value(*board, is_black, n, #[trigger] moves@[j] as int)
                        >= best_score,
                cut ==> best_score >= beta && (exists|j: int|
                    0 <= j < k && exact_child_value(*board, is_black, n, #[trigger] moves@[j] as int)
                        >= best_score),
            decreases moves@.len() - k,
        {
            let mv = moves[k];
            let mut next = *board;
            let _ = next.place(mv, is_black);
            let result = self.negaalpha_exact(
                &next,
                !is_black,
                empties - 1,
                neg_score(beta),
                neg_score(alpha_cur),
            );
            match result {
                SearchResult::TimedOut => {
                    return SearchResult::TimedOut;
                },
                SearchResult::Complete(_, sc) => {
                    let score = neg_score(sc);
                    let ghost old_best = best_score;
                    let ghost old_alpha_cur = alpha_cur;
                    if is_better_move(score, mv, best_score, best_move) {
                        best_score = score;
                        best_move = mv;
                    }
                    if score > alpha_cur {
                        alpha_cur = score;
                    }
                    if alpha_cur >= beta {
                        cut = true;
                    }
                    proof {
                        let v_c = exact_child_value(*board, is_black, n, mv as int);
                        assert(next == board.spec_place(mv as int, is_black));
                        assert(v_c == -exact_value(next, !is_black, (empties - 1) as nat));
                        assert(score == -sc);
                        // The child ran at window (-beta, -old_alpha_cur), so
                        // fail-soft gives: below the window top the observed
                        // score bounds the child value from above; above it,
                        // from below; inside, exactly.
                        if score >= beta {
                            assert(v_c >= score);
                        } else {
                            assert(v_c <= score);
                        }
                        if !cut {
                            assert forall|j: int| 0 <= j < k + 1 implies exact_child_value(
                                *board,
                                is_black,
                                n,
                                #[trigger] moves@[j] as int,
                            ) <= best_score by {
                                if j < k {
                                    assert(exact_child_value(
                                        *board,
                                        is_black,
                                        n,
                                        moves@[j] as int,
                                    ) <= old_best);
                                }
                            }
                            if best_score > alpha {
                                if best_score == score && score > old_alpha_cur {
                                    assert(v_c == score);
                                    assert(exact_child_value(
                                        *board,
                                        is_black,
                                        n,
                                        moves@[k as int] as int,
                                    ) >= best_score);
                                } else {
                                    assert(best_score == old_best);
                                    let j0 = choose|j: int|
                                        0 <= j < k && exact_child_value(
                                            *board,
                                            is_black,
                                            n,
                                            #[trigger] moves@[j] as int,
                                        ) >= old_best;
                                    assert(exact_child_value(
                                        *board,
                                        is_black,
                                        n,
                                        moves@[j0] as int,
                                    ) >= best_score);
                                }
                            }
                        } else {
                            assert(score >= beta);
                            assert(best_score == score);
                            assert(exact_child_value(
                                *board,
                                is_black,
                                n,
                                moves@[k as int] as int,
                            ) >= best_score);
                        }
                    }
                },
            }
            k = k + 1;
        }
        proof {
            if cut {
                let j0 = choose|j: int|
                    0 <= j < k && exact_child_value(*board, is_black, n, #[trigger] moves@[j] as int)
                        >= best_score;
                lemma_moves_ge_child(*board, is_black, n, 0, moves@[j0] as int);
            } else {
                assert forall|c: int| 0 <= c < 64 && #[trigger] board.is_legal(
                    c,
                    is_black,
                ) implies exact_child_value(*board, is_black, n, c) <= best_score by {
                    assert(bit_set(legal, c as u64));
                    assert(moves@.contains(c as usize));
                    let j = choose|j: int| 0 <= j < moves@.len() && moves@[j] == c as usize;
                    assert(exact_child_value(*board, is_black, n, moves@[j] as int) <= best_score);
                }
                lemma_moves_le_bound(*board, is_black, n, 0, best_score as int);
                if best_score > alpha {
                    let j0 = choose|j: int|
                        0 <= j < k && exact_child_value(
                            *board,
                            is_black,
                            n,
                            #[trigger] moves@[j] as int,
                        ) >= best_score;
                    lemma_moves_ge_child(*board, is_black, n, 0, moves@[j0] as int);
                }
            }
        }
        SearchResult::Complete(best_move, best_score)
    }
}

/// Order-reversing negation of a score key, total on all of `i64`.
fn neg_score(s: i64) -> (r: i64)
    ensures
        r == spec_neg_score(s),
{
    if s == i64::MIN {
        i64::MAX
    } else {
        -s
    }
}

/// Strictly higher score wins; on equal scores the smaller cell index wins.
fn is_better_move(score: i64, mv: usize, best_score: i64, best_move: usize) -> (r: bool)
    ensures
        r == (score > best_score || (score == best_score && mv < best_move)),
{
    score > best_score || (score == best_score && mv < best_move)
}

/// The exact disc differential of a board, oriented to `is_black`, as a
/// score key.
fn exact_score(board: &Board, is_black: bool) -> (s: i64)
    ensures
        s == spec_exact_score(*board, is_black),
{
    proof {
        crate::bits::lemma_count_bits_le(board.black_mask(), 64);
        crate::bits::lemma_count_bits_le(board.white_mask(), 64);
    }
    let (black, white) = board.count();
    let diff: i64 = if is_black {
        black as i64 - white as i64
    } else {
        white as i64 - black as i64
    };
    score_key(diff)
}

/// The score key of a disc differential: sign times the single-precision
/// bit pattern of the magnitude.
fn score_key(d: i64) -> (r: i64)
    requires
        -64 <= d <= 64,
    ensures
        r == score_key_of_diff(d as int),
{
    let m: i64 = if d >= 0 {
        d
    } else {
        -d
    };
    let bits: i64 = if m <= 0 {
        0
    } else if m == 1 {
        0x3f80_0000
    } else if m < 4 {
        128 * 0x80_0000 + (m - 2) * 0x40_0000
    } else if m < 8 {
        129 * 0x80_0000 + (m - 4) * 0x20_0000
    } else if m < 16 {
        130 * 0x80_0000 + (m - 8) * 0x10_0000
    } else if m < 32 {
        131 * 0x80_0000 + (m - 16) * 0x8_0000
    } else if m < 64 {
        132 * 0x80_0000 + (m - 32) * 0x4_0000
    } else {
        133 * 0x80_0000
    };
    if d >= 0 {
        bits
    } else {
        -bits
    }
}

/// The cell indices of the set bits of a mask, in ascending order.
fn bitboard_to_positions(mask: u64) -> (out: Vec<usize>)
    ensures
        forall|j: int| 0 <= j < out@.len() ==> out@[j] < 64 && bit_set(mask, #[trigger] out@[j] as u64),
        forall|i: int|
            0 <= i < 64 && #[trigger] bit_set(mask, i as u64) ==> out@.contains(i as usize),
        forall|j1: int, j2: int| 0 <= j1 < j2 < out@.len() ==> out@[j1] < out@[j2],
{
    let mut out: Vec<usize> = Vec::new();
    let mut pos: usize = 0;
    while pos < 64
        invariant
            pos <= 64,
            forall|j: int|
                0 <= j < out@.len() ==> out@[j] < pos && bit_set(mask, #[trigger] out@[j] as u64),
            forall|i: int|
                0 <= i < pos && #[trigger] bit_set(mask, i as u64) ==> out@.contains(i as usize),
            forall|j1: int, j2: int| 0 <= j1 < j2 < out@.len() ==> out@[j1] < out@[j2],
        decreases 64 - pos,
    {
        proof {
            crate::bits::lemma_single_bit_test(mask, pos as u64);
        }
        if mask & (1u64 << pos) != 0 {
            let ghost old_out = out@;
            out.push(pos);
            proof {
                assert(out@ == old_out.push(pos));
                assert forall|i: int|
                    0 <= i < pos + 1 && #[trigger] bit_set(mask, i as u64) implies out@.contains(
                    i as usize,
                ) by {
                    if i < pos {
                        let j = choose|j: int| 0 <= j < old_out.len() && old_out[j] == i as usize;
                        assert(out@[j] == i as usize);
                    } else {
                        assert(out@[old_out.len() as int] == pos);
                    }
                }
            }
        }
        pos = pos + 1;
    }
    out
}

/// The legal moves of `legal`, ordered by descending one-ply oracle score
/// with ascending cell index as the tie-break. The list holds exactly the
/// set bits of `legal`: every element is one, every one appears, none twice.
fn sorted_moves<E: ScoreOracle>(legal: u64, board: &Board, is_black: bool, evaluator: &E) -> (ms:
    Vec<usize>)
    requires
        board.wf(),
        exists|i: int| 0 <= i < 64 && bit_set(legal, #[trigger] (i as u64)),
    ensures
        ms@.len() >= 1,
        forall|j: int| 0 <= j < ms@.len() ==> ms@[j] < 64 && bit_set(legal, #[trigger] ms@[j] as u64),
        forall|i: int|
            0 <= i < 64 && #[trigger] bit_set(legal, i as u64) ==> ms@.contains(i as usize),
        forall|j1: int, j2: int| 0 <= j1 < j2 < ms@.len() ==> ms@[j1] != ms@[j2],
{
    let positions = bitboard_to_positions(legal);
    proof {
        let w = choose|i: int| 0 <= i < 64 && #[trigger] bit_set(legal, i as u64);
        assert(positions@.contains(w as usize));
        assert(positions@.len() >= 1);
    }
    let mut scored: Vec<(usize, i64)> = Vec::new();
    let mut k: usize = 0;
    while k < positions.len()
        invariant
            k <= positions@.len(),
            scored@.len() == k,
            board.wf(),
            forall|j: int|
                0 <= j < positions@.len() ==> positions@[j] < 64 && bit_set(
                    legal,
                    #[trigger] positions@[j] as u64,
                ),
            forall|j: int| 0 <= j < k ==> (#[trigger] scored@[j]).0 == positions@[j],
        decreases positions@.len() - k,
    {
        let mv = positions[k];
        let mut next = *board;
        let _ = next.place(mv, is_black);
        // Move-ordering heuristic from the current player's perspective.
        let s = neg_score(evaluator.score(&next, !is_black));
        scored.push((mv, s));
        k = k + 1;
    }
    let ghost scored_view = scored@;
    proof {
        // Distinct cells give distinct pairs, and no two pairs share a cell.
        assert forall|j1: int, j2: int| 0 <= j1 < j2 < scored_view.len() implies scored_view[j1]
            != scored_view[j2] by {
            assert(scored_view[j1].0 == positions@[j1]);
            assert(scored_view[j2].0 == positions@[j2]);
        }
    }
    let sorted = sort_pairs_desc(scored);
    proof {
        assert forall|j: int| 0 <= j < sorted@.len() implies (#[trigger] sorted@[j]).0 < 64
            && bit_set(legal, sorted@[j].0 as u64) by {
            assert(in_seq(sorted@[j], scored_view));
            let j2 = choose|j2: int| 0 <= j2 < scored_view.len() && #[trigger] scored_view[j2]
                == sorted@[j];
            assert(scored_view[j2].0 == positions@[j2]);
        }
        // No two entries of the sorted list name the same cell: both occur in
        // `scored`, whose cells are pairwise distinct.
        assert forall|j1: int, j2: int| 0 <= j1 < j2 < sorted@.len() implies (
        #[trigger] sorted@[j1]).0 != (#[trigger] sorted@[j2]).0 by {
            assert(in_seq(sorted@[j1], scored_view));
            assert(in_seq(sorted@[j2], scored_view));
            let q1 = choose|q: int| 0 <= q < scored_view.len() && #[trigger] scored_view[q]
                == sorted@[j1];
            let q2 = choose|q: int| 0 <= q < scored_view.len() && #[trigger] scored_view[q]
                == sorted@[j2];
            if sorted@[j1].0 == sorted@[j2].0 {
                assert(scored_view[q1].0 == positions@[q1]);
                assert(scored_view[q2].0 == positions@[q2]);
                if q1 != q2 {
                    assert(positions@[q1] != positions@[q2]);
                }
            }
        }
        // Every legal cell appears: it stands in `scored`, hence in `sorted`.
        assert forall|i: int| 0 <= i < 64 && #[trigger] bit_set(legal, i as u64) implies exists|
            j: int,
        | 0 <= j < sorted@.len() && (#[trigger] sorted@[j]).0 == i as usize by {
            assert(positions@.contains(i as usize));
            let q = choose|q: int| 0 <= q < positions@.len() && positions@[q] == i as usize;
            assert(scored_view[q].0 == i as usize);
            assert(in_seq(scored_view[q], sorted@));
            let j = choose|j: int| 0 <= j < sorted@.len() && #[trigger] sorted@[j]
                == scored_view[q];
            assert(sorted@[j].0 == i as usize);
        }
    }
    let mut out: Vec<usize> = Vec::new();
    let mut k2: usize = 0;
    while k2 < sorted.len()
        invariant
            k2 <= sorted@.len(),
            out@.len() == k2,
            forall|j: int|
                0 <= j < sorted@.len() ==> (#[trigger] sorted@[j]).0 < 64 && bit_set(
                    legal,
                    sorted@[j].0 as u64,
                ),
            forall|j1: int, j2: int|
                0 <= j1 < j2 < sorted@.len() ==> (#[trigger] sorted@[j1]).0 != (
                #[trigger] sorted@[j2]).0,
            forall|i: int|
                0 <= i < 64 && #[trigger] bit_set(legal, i as u64) ==> exists|j: int|
                    0 <= j < sorted@.len() && (#[trigger] sorted@[j]).0 == i as usize,
            forall|j: int| 0 <= j < k2 ==> out@[j] == (#[trigger] sorted@[j]).0,
        decreases sorted@.len() - k2,
    {
        let p = sorted[k2].0;
        out.push(p);
        k2 = k2 + 1;
    }
    proof {
        assert forall|j: int| 0 <= j < out@.len() implies out@[j] < 64 && bit_set(
            legal,
            #[trigger] out@[j] as u64,
        ) by {
            assert(out@[j] == sorted@[j].0);
        }
        assert forall|j1: int, j2: int| 0 <= j1 < j2 < out@.len() implies out@[j1] != out@[j2] by {
            assert(out@[j1] == sorted@[j1].0);
            assert(out@[j2] == sorted@[j2].0);
        }
        assert forall|i: int| 0 <= i < 64 && #[trigger] bit_set(legal, i as u64) implies out@
            .contains(i as usize) by {
            let j = choose|j: int|
                0 <= j < sorted@.len() && (#[trigger] sorted@[j]).0 == i as usize;
            assert(out@[j] == i as usize);
        }
    }
    out
}

/// `p` occurs somewhere in `s`.
pub open spec fn in_seq(p: (usize, i64), s: Seq<(usize, i64)>) -> bool {
    exists|j: int| 0 <= j < s.len() && #[trigger] s[j] == p
}

/// Sorts pairwise-distinct move-score pairs by descending score, ascending
/// index on ties. The result is a permutation of the input: same length,
/// every element kept, every element from the input, none twice.
fn sort_pairs_desc(pairs: Vec<(usize, i64)>) -> (out: Vec<(usize, i64)>)
    requires
        forall|j1: int, j2: int| 0 <= j1 < j2 < pairs@.len() ==> pairs@[j1] != pairs@[j2],
    ensures
        out@.len() == pairs@.len(),
        forall|j: int| 0 <= j < out@.len() ==> in_seq(#[trigger] out@[j], pairs@),
        forall|j: int| 0 <= j < pairs@.len() ==> in_seq(#[trigger] pairs@[j], out@),
        forall|j1: int, j2: int| 0 <= j1 < j2 < out@.len() ==> out@[j1] != out@[j2],
{
    let ghost orig = pairs@;
    let mut rest = pairs;
    let mut out: Vec<(usize, i64)> = Vec::new();
    proof {
        assert forall|j: int| 0 <= j < rest@.len() implies in_seq(#[trigger] rest@[j], orig) by {
            assert(orig[j] == rest@[j]);
        }
        assert forall|j: int| 0 <= j < orig.len() implies in_seq(#[trigger] orig[j], rest@) by {
            assert(rest@[j] == orig[j]);
        }
    }
    while rest.len() > 0
        invariant
            out@.len() + rest@.len() == orig.len(),
            forall|j1: int, j2: int| 0 <= j1 < j2 < orig.len() ==> orig[j1] != orig[j2],
            forall|j: int| 0 <= j < rest@.len() ==> in_seq(#[trigger] rest@[j], orig),
            forall|j: int| 0 <= j < out@.len() ==> in_seq(#[trigger] out@[j], orig),
            forall|j: int| 0 <= j < orig.len() ==> in_seq(#[trigger] orig[j], out@) || in_seq(
                orig[j],
                rest@,
            ),
            forall|j1: int, j2: int| 0 <= j1 < j2 < rest@.len() ==> rest@[j1] != rest@[j2],
            forall|j1: int, j2: int| 0 <= j1 < j2 < out@.len() ==> out@[j1] != out@[j2],
            forall|j1: int, j2: int|
                0 <= j1 < out@.len() && 0 <= j2 < rest@.len() ==> #[trigger] out@[j1]
                    != #[trigger] rest@[j2],
        decreases rest@.len(),
    {
        let mut best: usize = 0;
        let mut k: usize = 1;
        while k < rest.len()
            invariant
                best < rest@.len(),
                k <= rest@.len(),
            decreases rest@.len() - k,
        {
            let (mv, score) = rest[k];
            let (bmv, bscore) = rest[best];
            if score > bscore || (score == bscore && mv < bmv) {
                best = k;
            }
            k = k + 1;
        }
        let ghost old_rest = rest@;
        let ghost old_out = out@;
        proof {
            assert(in_seq(old_rest[best as int], orig));
        }
        let p = rest.remove(best);
        out.push(p);
        proof {
            assert(out@ == old_out.push(p));
            assert(p == old_rest[best as int]);
            assert forall|j: int| 0 <= j < rest@.len() implies in_seq(
                #[trigger] rest@[j],
                orig,
            ) by {
                if j < best {
                    assert(rest@[j] == old_rest[j]);
                } else {
                    assert(rest@[j] == old_rest[j + 1]);
                }
            }
            assert forall|j1: int, j2: int| 0 <= j1 < j2 < rest@.len() implies rest@[j1]
                != rest@[j2] by {
                if j1 < best {
                    assert(rest@[j1] == old_rest[j1]);
                } else {
                    assert(rest@[j1] == old_rest[j1 + 1]);
                }
                if j2 < best {
                    assert(rest@[j2] == old_rest[j2]);
                } else {
                    assert(rest@[j2] == old_rest[j2 + 1]);
                }
            }
            assert forall|j1: int, j2: int|
                0 <= j1 < out@.len() && 0 <= j2 < rest@.len() implies #[trigger] out@[j1]
                != #[trigger] rest@[j2] by {
                let r = if j2 < best {
                    old_rest[j2]
                } else {
                    old_rest[j2 + 1]
                };
                assert(rest@[j2] == r);
                if j1 < old_out.len() {
                    assert(out@[j1] == old_out[j1]);
                } else {
                    // The freshly moved pair differs from what stays behind,
                    // because the remaining pairs were its distinct siblings.
                    assert(out@[j1] == p);
                    if j2 < best {
                        assert(old_rest[j2] != old_rest[best as int]);
                    } else {
                        assert(old_rest[j2 + 1] != old_rest[best as int]);
                    }
                }
            }
            assert forall|j: int| 0 <= j < orig.len() implies in_seq(#[trigger] orig[j], out@)
                || in_seq(orig[j], rest@) by {
                if in_seq(orig[j], old_out) {
                    let q = choose|q: int| 0 <= q < old_out.len() && #[trigger] old_out[q]
                        == orig[j];
                    assert(out@[q] == orig[j]);
                } else {
                    let q = choose|q: int| 0 <= q < old_rest.len() && #[trigger] old_rest[q]
                        == orig[j];
                    if q == best {
                        assert(out@[old_out.len() as int] == orig[j]);
                    } else if q < best {
                        assert(rest@[q] == orig[j]);
                    } else {
                        assert(rest@[q - 1] == orig[j]);
                    }
                }
            }
        }
    }
    proof {
        assert forall|j: int| 0 <= j < orig.len() implies in_seq(#[trigger] orig[j], out@) by {
            assert(!in_seq(orig[j], rest@));
        }
    }
    out
}

} // verus!

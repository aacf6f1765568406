//! Turn management around a board: whose move it is, pass and game-over
//! bookkeeping, and the bridge to a pluggable move selector for the
//! machine side.

use vstd::prelude::*;

use crate::bits::{bit_mask, bit_set, lemma_single_bit_test};
use crate::board::Board;
use crate::search::{ScoreOracle, Searcher};
use crate::types::{GameResult, GameState, Position};

verus! {

broadcast use vstd::string::to_string_from_display_ensures_for_str;

pub const PLAYER_BLACK: u8 = 1;

pub const PLAYER_WHITE: u8 = 2;

/// Chooses a move for one side, given the board and the play level.
/// `None` means no move could be chosen; the caller validates the rest.
pub trait MoveSelector {
    fn select_move(&self, board: &Board, is_black: bool, level: u8) -> (r: Option<usize>)
        requires
            board.wf(),
    ;
}

/// The trivial deterministic selector: the smallest-indexed legal move.
#[derive(Debug, Default, Clone, Copy)]
pub struct FirstLegalMoveSelector;

impl MoveSelector for FirstLegalMoveSelector {
    /// `None` exactly when the side has no legal move; otherwise the
    /// lowest-indexed legal move.
    fn select_move(&self, board: &Board, is_black: bool, _level: u8) -> (r: Option<usize>)
        ensures
            r is Some <==> board.has_legal(is_black),
            r matches Some(mv) ==> mv < 64 && board.is_legal(mv as int, is_black),
            r matches Some(mv) ==> forall|j: int| 0 <= j < mv ==> !board.is_legal(j, is_black),
    {
        let legal = board.legal_moves(is_black);
        if legal == 0 {
            None
        } else {
            proof {
                let i = choose|i: int| 0 <= i < 64 && board.is_legal(i, is_black);
                assert(bit_set(legal, i as u64));
            }
            Some(first_set_bit(legal))
        }
    }
}

/// The full network-plus-search selector: scores with the given oracle and
/// searches to the level's depth.
pub struct SearchMoveSelector<E: ScoreOracle> {
    pub evaluator: E,
}

impl<E: ScoreOracle> SearchMoveSelector<E> {
    pub fn new(evaluator: E) -> (s: Self)
        ensures
            s.evaluator == evaluator,
    {
        SearchMoveSelector { evaluator }
    }
}

impl<E: ScoreOracle> MoveSelector for SearchMoveSelector<E> {
    /// `None` exactly when the side has no legal move; otherwise a legal
    /// move chosen by a `Searcher` running at depth `level`.
    fn select_move(&self, board: &Board, is_black: bool, level: u8) -> (r: Option<usize>)
        ensures
            r is Some <==> board.has_legal(is_black),
            r matches Some(mv) ==> mv < 64 && board.is_legal(mv as int, is_black),
    {
        let legal = board.legal_moves(is_black);
        if legal == 0 {
            None
        } else {
            let mut searcher = Searcher::new(&self.evaluator, level);
            Some(searcher.search(board, is_black))
        }
    }
}

/// The indices of the set bits of `m` at or above `i`, ascending.
pub open spec fn mask_indices_from(m: u64, i: int) -> Seq<u8>
    decreases 64 - i,
{
    if i < 0 || i >= 64 {
        Seq::empty()
    } else if bit_set(m, i as u64) {
        seq![i as u8] + mask_indices_from(m, i + 1)
    } else {
        mask_indices_from(m, i + 1)
    }
}

/// The indices of the set bits of `m`, in ascending order.
pub open spec fn mask_indices(m: u64) -> Seq<u8> {
    mask_indices_from(m, 0)
}

/// The set bits of a mask as a list of cell indices, ascending.
pub fn bitmask_to_indices(mask: u64) -> (out: Vec<u8>)
    ensures
        out@ == mask_indices(mask),
{
    let mut out: Vec<u8> = Vec::new();
    let mut pos: usize = 0;
    proof {
        assert(out@ + mask_indices_from(mask, 0) =~= mask_indices(mask));
    }
    while pos < 64
        invariant
            pos <= 64,
            out@ + mask_indices_from(mask, pos as int) == mask_indices(mask),
        decreases 64 - pos,
    {
        proof {
            lemma_single_bit_test(mask, pos as u64);
        }
        let ghost old_out = out@;
        if mask & (1u64 << pos) != 0 {
            out.push(pos as u8);
        }
        proof {
            if bit_set(mask, pos as u64) {
                assert(out@ =~= old_out + seq![pos as u8]);
                assert(out@ + mask_indices_from(mask, pos + 1) =~= old_out + mask_indices_from(
                    mask,
                    pos as int,
                ));
            }
        }
        pos = pos + 1;
    }
    proof {
        assert(out@ + mask_indices_from(mask, 64) =~= out@);
    }
    out
}

/// The lowest set bit of a non-empty mask.
fn first_set_bit(m: u64) -> (r: usize)
    requires
        exists|i: int| 0 <= i < 64 && #[trigger] bit_set(m, i as u64),
    ensures
        r < 64,
        bit_set(m, r as u64),
        forall|j: int| 0 <= j < r ==> !#[trigger] bit_set(m, j as u64),
{
    let mut pos: usize = 0;
    while pos < 64
        invariant
            pos <= 64,
            forall|j: int| 0 <= j < pos ==> !#[trigger] bit_set(m, j as u64),
        decreases 64 - pos,
    {
        proof {
            lemma_single_bit_test(m, pos as u64);
        }
        if m & (1u64 << pos) != 0 {
            return pos;
        }
        pos = pos + 1;
    }
    proof {
        let i = choose|i: int| 0 <= i < 64 && #[trigger] bit_set(m, i as u64);
        assert(false);
    }
    vstd::pervasive::unreached()
}

/// One game in progress: the board, whose turn it is, pass and game-over
/// flags, what the last move flipped, and the machine side's move selector.
pub struct GameInstance<S: MoveSelector> {
    pub board: Board,
    pub current_player: u8,
    pub level: u8,
    pub is_game_over: bool,
    pub is_pass: bool,
    pub flipped: Vec<u8>,
    pub selector: S,
}

impl<S: MoveSelector> GameInstance<S> {
    pub open spec fn spec_board(self) -> Board {
        self.board
    }

    /// Whether the side to move is black.
    pub open spec fn to_move_is_black(self) -> bool {
        self.current_player == PLAYER_BLACK
    }

    /// The board is well formed and the player to move is black or white.
    pub open spec fn wf(self) -> bool {
        &&& self.spec_board().wf()
        &&& (self.current_player == PLAYER_BLACK || self.current_player == PLAYER_WHITE)
    }

    /// The state after a move of `is_black` at `pos` was applied to `pre`:
    /// the capture resolved on the board, the flip list recorded, the turn
    /// handed over, and the game over exactly when the board filled up.
    pub open spec fn move_applied(pre: Self, post: Self, pos: int, is_black: bool) -> bool {
        let flips = pre.spec_board().move_flips(pos, is_black);
        &&& post.spec_board().side_mask(is_black) == pre.spec_board().side_mask(is_black)
            | bit_mask(pos as u64) | flips
        &&& post.spec_board().side_mask(!is_black) == pre.spec_board().side_mask(!is_black)
            & !flips
        &&& post.is_pass == false
        &&& post.flipped@ == mask_indices(flips)
        &&& post.current_player == (if is_black {
            PLAYER_WHITE
        } else {
            PLAYER_BLACK
        })
        &&& post.is_game_over == (post.spec_board().black_count()
            + post.spec_board().white_count() == 64)
        &&& post.level == pre.level
        &&& post.selector == pre.selector
    }

    pub fn new(level: u8, selector: S) -> (g: Self)
        ensures
            g.wf(),
            g.current_player == PLAYER_BLACK,
            g.level == level,
            !g.is_game_over,
            !g.is_pass,
            g.flipped@.len() == 0,
            g.spec_board().black_mask() == (1u64 << 28) | (1u64 << 35),
            g.spec_board().white_mask() == (1u64 << 27) | (1u64 << 36),
            g.selector == selector,
    {
        GameInstance {
            board: Board::new(),
            current_player: PLAYER_BLACK,
            level,
            is_game_over: false,
            is_pass: false,
            flipped: Vec::new(),
            selector,
        }
    }

    /// Replaces the position wholesale and clears the bookkeeping flags.
    pub fn set_board(&mut self, board: Board, current_player: u8)
        requires
            board.wf(),
            current_player == PLAYER_BLACK || current_player == PLAYER_WHITE,
        ensures
            final(self).wf(),
            final(self).spec_board() == board,
            final(self).current_player == current_player,
            !final(self).is_game_over,
            !final(self).is_pass,
            final(self).flipped@.len() == 0,
            final(self).level == old(self).level,
            final(self).selector == old(self).selector,
    {
        self.board = board;
        self.current_player = current_player;
        self.is_game_over = false;
        self.is_pass = false;
        self.flipped = Vec::new();
    }

    /// The human (black) places a stone at (row, col). Fails when the game is
    /// over, when it is not black's turn, when the coordinate is off the
    /// board, or when the move captures nothing; the state is then unchanged.
    pub fn place(&mut self, row: u8, col: u8) -> (r: Result<(), String>)
        requires
            old(self).wf(),
        ensures
            final(self).wf(),
            old(self).is_game_over ==> (r matches Err(m) && m@ == "game is already over"@
                && *final(self) == *old(self)),
            (!old(self).is_game_over && old(self).current_player != PLAYER_BLACK) ==> (r
                matches Err(m) && m@ == "it is not the player's turn"@ && *final(self) == *old(
                self,
            )),
            (!old(self).is_game_over && old(self).current_player == PLAYER_BLACK && (row >= 8 || col
                >= 8)) ==> (r matches Err(m) && m@ == "row/col out of range"@ && *final(self)
                == *old(self)),
            (!old(self).is_game_over && old(self).current_player == PLAYER_BLACK && row < 8 && col
                < 8) ==> {
                if old(self).spec_board().is_legal(row * 8 + col, true) {
                    r is Ok && Self::move_applied(*old(self), *final(self), row * 8 + col, true)
                } else {
                    (r matches Err(m) && m@ == "illegal move"@) && *final(self) == *old(self)
                }
            },
    {
        if self.is_game_over {
            return Err("game is already over".to_string());
        }
        if self.current_player != PLAYER_BLACK {
            return Err("it is not the player's turn".to_string());
        }
        if row >= 8 || col >= 8 {
            return Err("row/col out of range".to_string());
        }
        let pos = (row as usize) * 8 + (col as usize);
        self.apply_move(pos, true)
    }

    pub fn has_legal_moves_for_current(&self) -> (r: bool)
        ensures
            r == self.spec_board().has_legal(self.current_player == PLAYER_BLACK),
    {
        self.board.legal_moves(self.current_player == PLAYER_BLACK) != 0
    }

    /// Records a pass: the turn switches, the flip list empties, and the
    /// board stands.
    pub fn pass(&mut self)
        requires
            old(self).wf(),
        ensures
            final(self).wf(),
            final(self).spec_board() == old(self).spec_board(),
            final(self).is_pass,
            final(self).flipped@.len() == 0,
            final(self).current_player == (if old(self).current_player == PLAYER_BLACK {
                PLAYER_WHITE
            } else {
                PLAYER_BLACK
            }),
            final(self).is_game_over == old(self).is_game_over,
            final(self).level == old(self).level,
            final(self).selector == old(self).selector,
    {
        self.is_pass = true;
        self.flipped = Vec::new();
        self.current_player = if self.current_player == PLAYER_BLACK {
            PLAYER_WHITE
        } else {
            PLAYER_BLACK
        };
    }

    pub fn end_game(&mut self)
        requires
            old(self).wf(),
        ensures
            final(self).wf(),
            final(self).is_game_over,
            final(self).spec_board() == old(self).spec_board(),
            final(self).current_player == old(self).current_player,
            final(self).is_pass == old(self).is_pass,
            final(self).flipped@ == old(self).flipped@,
            final(self).level == old(self).level,
            final(self).selector == old(self).selector,
    {
        self.is_game_over = true;
    }

    /// When the side to move has no legal move, records its pass, and ends
    /// the game when the other side has none either; otherwise changes
    /// nothing. Returns whether a pass was recorded.
    pub fn pass_if_no_moves(&mut self) -> (passed: bool)
        requires
            old(self).wf(),
            !old(self).is_game_over,
        ensures
            final(self).wf(),
            passed == !old(self).spec_board().has_legal(old(self).to_move_is_black()),
            !passed ==> *final(self) == *old(self),
            passed ==> final(self).spec_board() == old(self).spec_board() && final(self).is_pass
                && final(self).flipped@.len() == 0 && final(self).level == old(self).level
                && final(self).current_player == (if old(self).current_player == PLAYER_BLACK {
                PLAYER_WHITE
            } else {
                PLAYER_BLACK
            }) && final(self).is_game_over == !old(self).spec_board().has_legal(
                !old(self).to_move_is_black(),
            ),
    {
        if self.has_legal_moves_for_current() {
            return false;
        }
        self.pass();
        if !self.has_legal_moves_for_current() {
            self.end_game();
        }
        true
    }

    /// The machine (white) selects and applies one move. Fails, leaving the
    /// state unchanged, when the game is over, when it is not white's turn,
    /// when white has no legal move, or when the selector hands back nothing
    /// usable; otherwise some legal white move was applied.
    pub fn do_ai_move(&mut self) -> (r: Result<(), String>)
        requires
            old(self).wf(),
        ensures
            final(self).wf(),
            final(self).level == old(self).level,
            r is Err ==> *final(self) == *old(self),
            old(self).is_game_over ==> (r matches Err(m) && m@ == "game is already over"@),
            (!old(self).is_game_over && old(self).current_player != PLAYER_WHITE) ==> (r
                matches Err(m) && m@ == "it is not AI's turn"@),
            (!old(self).is_game_over && old(self).current_player == PLAYER_WHITE
                && !old(self).spec_board().has_legal(false)) ==> (r matches Err(m) && m@
                == "AI has no legal moves"@),
            r matches Err(m) ==> ((!old(self).is_game_over && old(self).current_player
                == PLAYER_WHITE && old(self).spec_board().has_legal(false)) ==> (m@
                == "AI could not select a move"@ || m@ == "AI selected an out-of-range move"@ || m@
                == "AI selected an illegal move"@)),
            r is Ok ==> exists|mv: int|
                0 <= mv < 64 && old(self).spec_board().is_legal(mv, false)
                    && #[trigger] Self::move_applied(*old(self), *final(self), mv, false),
    {
        if self.is_game_over {
            return Err("game is already over".to_string());
        }
        if self.current_player != PLAYER_WHITE {
            return Err("it is not AI's turn".to_string());
        }
        let legal = self.board.legal_moves(false);
        if legal == 0 {
            return Err("AI has no legal moves".to_string());
        }
        let selected = match self.selector.select_move(&self.board, false, self.level) {
            Some(mv) => mv,
            None => {
                return Err("AI could not select a move".to_string());
            },
        };
        if selected >= 64 {
            return Err("AI selected an out-of-range move".to_string());
        }
        proof {
            lemma_single_bit_test(legal, selected as u64);
        }
        if legal & (1u64 << selected) == 0 {
            return Err("AI selected an illegal move".to_string());
        }
        let r = self.apply_move(selected, false);
        proof {
            assert(r is Ok);
        }
        r
    }

    /// The current player's legal moves as coordinates, in ascending cell
    /// order: every listed cell is legal, every legal cell is listed.
    pub fn get_legal_moves(&self) -> (r: Vec<Position>)
        ensures
            forall|k: int|
                0 <= k < r@.len() ==> (#[trigger] r@[k]).row < 8 && r@[k].col < 8
                    && self.spec_board().is_legal(
                    r@[k].row * 8 + r@[k].col,
                    self.to_move_is_black(),
                ),
            forall|i: int|
                0 <= i < 64 && #[trigger] self.spec_board().is_legal(i, self.to_move_is_black())
                    ==> r@.contains((Position { row: (i / 8) as u8, col: (i % 8) as u8 })),
            forall|k1: int, k2: int|
                0 <= k1 < k2 < r@.len() ==> (#[trigger] r@[k1]).row * 8 + r@[k1].col < (
                #[trigger] r@[k2]).row * 8 + r@[k2].col,
    {
        let is_black = self.current_player == PLAYER_BLACK;
        let legal = self.board.legal_moves(is_black);
        let mut out: Vec<Position> = Vec::new();
        let mut pos: usize = 0;
        while pos < 64
            invariant
                pos <= 64,
                is_black == self.to_move_is_black(),
                forall|i: int|
                    0 <= i < 64 ==> #[trigger] bit_set(legal, i as u64) == self.spec_board()
                        .is_legal(i, is_black),
                forall|k: int|
                    0 <= k < out@.len() ==> (#[trigger] out@[k]).row < 8 && out@[k].col < 8
                        && out@[k].row * 8 + out@[k].col < pos && self.spec_board().is_legal(
                        out@[k].row * 8 + out@[k].col,
                        is_black,
                    ),
                forall|i: int|
                    0 <= i < pos && #[trigger] self.spec_board().is_legal(i, is_black)
                        ==> out@.contains((Position { row: (i / 8) as u8, col: (i % 8) as u8 })),
                forall|k1: int, k2: int|
                    0 <= k1 < k2 < out@.len() ==> (#[trigger] out@[k1]).row * 8 + out@[k1].col < (
                    #[trigger] out@[k2]).row * 8 + out@[k2].col,
            decreases 64 - pos,
        {
            proof {
                lemma_single_bit_test(legal, pos as u64);
            }
            let ghost old_out = out@;
            if legal & (1u64 << pos) != 0 {
                let p = Position { row: (pos / 8) as u8, col: (pos % 8) as u8 };
                out.push(p);
            }
            proof {
                let p = Position { row: (pos / 8) as u8, col: (pos % 8) as u8 };
                if bit_set(legal, pos as u64) {
                    assert(out@ == old_out.push(p));
                    assert(out@[old_out.len() as int] == p);
                    assert(p.row * 8 + p.col == pos);
                    assert(self.spec_board().is_legal(pos as int, is_black));
                } else {
                    assert(out@ == old_out);
                }
                assert forall|k: int|
                    0 <= k < out@.len() implies (#[trigger] out@[k]).row < 8 && out@[k].col < 8
                    && out@[k].row * 8 + out@[k].col < pos + 1 && self.spec_board().is_legal(
                    out@[k].row * 8 + out@[k].col,
                    is_black,
                ) by {
                    if k < old_out.len() {
                        assert(out@[k] == old_out[k]);
                    }
                }
                assert forall|i: int|
                    0 <= i < pos + 1 && #[trigger] self.spec_board().is_legal(i, is_black) implies
                    out@.contains((Position { row: (i / 8) as u8, col: (i % 8) as u8 })) by {
                    if i < pos {
                        let q = Position { row: (i / 8) as u8, col: (i % 8) as u8 };
                        let k = choose|k: int| 0 <= k < old_out.len() && old_out[k] == q;
                        assert(out@[k] == q);
                    } else {
                        assert(bit_set(legal, i as u64));
                        assert(out@[old_out.len() as int] == (Position {
                            row: (i / 8) as u8,
                            col: (i % 8) as u8,
                        }));
                    }
                }
                assert forall|k1: int, k2: int| 0 <= k1 < k2 < out@.len() implies (
                #[trigger] out@[k1]).row * 8 + out@[k1].col < (#[trigger] out@[k2]).row * 8
                    + out@[k2].col by {
                    if k2 < old_out.len() {
                        assert(out@[k1] == old_out[k1]);
                        assert(out@[k2] == old_out[k2]);
                    } else {
                        assert(out@[k1] == old_out[k1]);
                    }
                }
            }
            pos = pos + 1;
        }
        out
    }

    /// A snapshot of the visible state.
    pub fn to_game_state(&self) -> (r: GameState)
        requires
            self.wf(),
        ensures
            r.board@.len() == 64,
            forall|i: int| 0 <= i < 64 ==> r.board@[i] == self.spec_board().cell_state(i),
            r.current_player == self.current_player,
            r.black_count == self.spec_board().black_count(),
            r.white_count == self.spec_board().white_count(),
            r.is_game_over == self.is_game_over,
            r.is_pass == self.is_pass,
            r.flipped@ == self.flipped@,
    {
        let (black_count, white_count) = self.board.count();
        GameState {
            board: self.board.to_array(),
            current_player: self.current_player,
            black_count,
            white_count,
            is_game_over: self.is_game_over,
            is_pass: self.is_pass,
            flipped: copy_bytes(&self.flipped),
        }
    }

    /// The final tally: the winner is the side with more discs, 0 on a draw.
    pub fn to_game_result(&self) -> (r: GameResult)
        ensures
            r.black_count == self.spec_board().black_count(),
            r.white_count == self.spec_board().white_count(),
            r.winner == (if self.spec_board().black_count() > self.spec_board().white_count() {
                PLAYER_BLACK
            } else if self.spec_board().white_count() > self.spec_board().black_count() {
                PLAYER_WHITE
            } else {
                0u8
            }),
    {
        let (black_count, white_count) = self.board.count();
        GameResult {
            winner: if black_count > white_count {
                PLAYER_BLACK
            } else if white_count > black_count {
                PLAYER_WHITE
            } else {
                0
            },
            black_count,
            white_count,
        }
    }

    /// Applies a move for `is_black` at `pos`: a zero flip mask means an
    /// illegal move and leaves everything unchanged; otherwise the board,
    /// flip list, turn and game-over flag are updated.
    fn apply_move(&mut self, pos: usize, is_black: bool) -> (r: Result<(), String>)
        requires
            old(self).wf(),
            !old(self).is_game_over,
        ensures
            final(self).wf(),
            !old(self).spec_board().is_legal(pos as int, is_black) ==> (r matches Err(m) && m@
                == "illegal move"@ && *final(self) == *old(self)),
            old(self).spec_board().is_legal(pos as int, is_black) ==> r is Ok
                && Self::move_applied(*old(self), *final(self), pos as int, is_black),
    {
        let flips = self.board.place(pos, is_black);
        if flips == 0 {
            return Err("illegal move".to_string());
        }
        self.is_pass = false;
        self.flipped = bitmask_to_indices(flips);
        self.current_player = if is_black {
            PLAYER_WHITE
        } else {
            PLAYER_BLACK
        };
        let empty = self.board.empty_count();
        if empty == 0 {
            self.is_game_over = true;
        }
        Ok(())
    }
}

impl GameInstance<FirstLegalMoveSelector> {
    /// A game whose machine side plays the smallest-indexed legal move.
    pub fn new_with_default_selector(level: u8) -> (g: Self)
        ensures
            g.wf(),
            g.current_player == PLAYER_BLACK,
            g.level == level,
            !g.is_game_over,
            !g.is_pass,
            g.flipped@.len() == 0,
            g.spec_board().black_mask() == (1u64 << 28) | (1u64 << 35),
            g.spec_board().white_mask() == (1u64 << 27) | (1u64 << 36),
    {
        Self::new(level, FirstLegalMoveSelector)
    }
}

/// A fresh vector with the same bytes.
fn copy_bytes(v: &Vec<u8>) -> (out: Vec<u8>)
    ensures
        out@ == v@,
{
    let mut out: Vec<u8> = Vec::new();
    let mut i: usize = 0;
    while i < v.len()
        invariant
            i <= v@.len(),
            out@ == v@.subrange(0, i as int),
        decreases v@.len() - i,
    {
        out.push(v[i]);
        proof {
            assert(out@ =~= v@.subrange(0, i + 1));
        }
        i = i + 1;
    }
    proof {
        assert(v@.subrange(0, v@.len() as int) =~= v@);
    }
    out
}

} // verus!

//! The pieces, outcomes, errors and the board capability contract shared by
//! every board representation.

use vstd::prelude::*;

use crate::model::{col_order_at, BoardModel};
use crate::search::{best_bound, has_winning_move, spec_score, win_score};

pub mod alt_bit_board;
pub mod bit_board;
pub mod flat_board;
pub mod hist_board;

pub use self::alt_bit_board::AltBitBoard;
pub use self::bit_board::BitBoard;
pub use self::flat_board::FlatBoard;
pub use self::hist_board::HistBoard;

verus! {

/// A board piece, which doubles as a player identity. The first mover plays
/// `Blue`, the second `Red`; an empty cell is `Option::<Piece>::None` at the
/// board level, never a `Piece` variant.
#[derive(Copy, Clone, PartialEq, Eq, Structural, Debug)]
pub enum Piece {
    Red,
    Blue,
}

/// The three-state result of querying a board: no alignment and room to
/// play, a full board without an alignment, or four aligned cells of one
/// colour.
#[derive(Copy, Clone, PartialEq, Eq, Structural, Debug)]
pub enum Outcome {
    Undecided,
    Draw,
    Won(Piece),
}

/// The two recoverable ways a move can be refused. The board is left
/// unchanged in either case.
#[derive(Copy, Clone, PartialEq, Eq, Structural, Debug)]
pub enum MoveError {
    /// The column index is at least the board width.
    InvalidColumn,
    /// The column — or the whole board — is already full.
    ColumnFull,
}

/// The capability contract every board representation satisfies. All
/// contracts speak about the common mathematical model `BoardModel`, so the
/// representations are interchangeable: the search engine and any driver
/// depend only on this trait.
pub trait Board: Sized + View<V = BoardModel> {
    /// The representation invariant; it implies well-formedness of the
    /// modelled history and is preserved by every operation.
    spec fn inv(&self) -> bool;

    /// Every valid board models a well-formed history.
    proof fn lemma_inv_wf(&self)
        requires
            self.inv(),
        ensures
            self@.wf(),
    ;

    /// A fresh board with the given dimensions and no moves. The dimension
    /// bound keeps every derived quantity (cell count, score) within the
    /// machine integer types.
    fn new(width: usize, height: usize) -> (b: Self)
        requires
            width <= 0x7FFF,
            height <= 0x7FFF,
        ensures
            b.inv(),
            b@ == (BoardModel {
                width: width as int,
                height: height as int,
                moves: Seq::empty(),
            }),
    ;

    /// The width fixed at creation.
    fn width(&self) -> (w: usize)
        requires
            self.inv(),
        ensures
            w as int == self@.width,
    ;

    /// The height fixed at creation.
    fn height(&self) -> (h: usize)
        requires
            self.inv(),
        ensures
            h as int == self@.height,
    ;

    /// The centre-first column visiting order, a pure function of the
    /// width; a search heuristic only, never a game rule.
    fn column_order(&self) -> (order: Vec<usize>)
        requires
            self.inv(),
        ensures
            order.len() as int == self@.width,
            forall|i: int| 0 <= i < order.len() ==> #[trigger] (order[i] as int) == col_order_at(
                self@.width,
                i,
            ),
    ;

    /// The number of pieces in column `col`.
    fn find_height(&self, col: &usize) -> (h: usize)
        requires
            self.inv(),
            (*col as int) < self@.width,
        ensures
            h as int == self@.col_height(*col as int),
    ;

    /// How many moves have been played.
    fn num_moves(&self) -> (n: usize)
        requires
            self.inv(),
        ensures
            n as int == self@.num_moves(),
    ;

    /// Whether a move into `col` would be accepted.
    fn is_playable(&self, col: &usize) -> (b: bool)
        requires
            self.inv(),
        ensures
            b == self@.playable(*col as int),
    ;

    /// The piece at column `col`, row `row` (rows count from the bottom),
    /// or `None` while that cell is empty: the read-only cell enumeration a
    /// renderer consumes.
    fn piece_at(&self, col: &usize, row: &usize) -> (p: Option<Piece>)
        requires
            self.inv(),
            (*col as int) < self@.width,
            (*row as int) < self@.height,
        ensures
            p == self@.cell(*col as int, *row as int),
    ;

    /// The three-state outcome of the position: a pure query.
    fn get_winner(&self) -> (o: Outcome)
        requires
            self.inv(),
        ensures
            o == self@.outcome(),
    ;

    /// Drops the mover's piece into `col`. On success the move count and
    /// the column's height each advance by exactly one; on either failure
    /// the board is left unmodified.
    fn make_move(&mut self, col: &usize) -> (r: Result<(), MoveError>)
        requires
            old(self).inv(),
        ensures
            final(self).inv(),
            old(self)@.playable(*col as int) ==> r is Ok && final(self)@ == old(self)@.play(
                *col as int,
            ),
            !old(self)@.playable(*col as int) ==> r is Err && final(self)@ == old(self)@,
            r matches Err(e) ==> e == (if *col as int >= old(self)@.width {
                MoveError::InvalidColumn
            } else {
                MoveError::ColumnFull
            }),
    ;

    /// Reverses the most recent `make_move` exactly; it must not be called
    /// on a board without moves.
    fn undo_last_move(&mut self)
        requires
            old(self).inv(),
            old(self)@.num_moves() > 0,
        ensures
            final(self).inv(),
            final(self)@ == old(self)@.undo(),
    ;
}

/// The search-facing capabilities, available on every board representation
/// through the one blanket implementation below: probing for an immediate
/// win and scoring a position by exhaustive search.
pub trait BoardSearch: Board {
    /// Whether playing `col` would immediately produce an alignment; the
    /// board is restored exactly. Fails — like `make_move` — when the move
    /// itself would be refused.
    fn is_winning_move(&mut self, col: &usize) -> (r: Result<bool, ()>)
        requires
            old(self).inv(),
        ensures
            final(self).inv(),
            final(self)@ == old(self)@,
            r is Ok <==> old(self)@.playable(*col as int),
            r matches Ok(b) ==> (b <==> old(self)@.play(*col as int).winner() is Some),
    ;

    /// The exact value of the position under perfect play (see
    /// `crate::search`). The board is mutated during the search and restored
    /// exactly before returning.
    fn score(&mut self) -> (s: i32)
        requires
            old(self).inv(),
            old(self)@.winner() is None,
        ensures
            final(self).inv(),
            final(self)@ == old(self)@,
            s as int == spec_score(old(self)@),
    ;

    /// Alpha-beta windowed evaluation over any inclusive window with
    /// `alpha <= beta`: the exact value when it lies inside the window,
    /// otherwise a bound on the correct side — and, for a proper window, a
    /// bound that is itself sound. Three returns are fixed regardless of
    /// the window: a full board scores zero, a position with an immediate
    /// winning move scores exactly `win_score`, and a window whose floor
    /// already reaches `best_bound` is answered with that cap at once. The
    /// board is restored exactly.
    fn score_in_range(&mut self, alpha: i32, beta: i32) -> (s: i32)
        requires
            old(self).inv(),
            old(self)@.winner() is None,
            -old(self)@.capacity() <= alpha as int,
            alpha <= beta,
            beta as int <= old(self)@.capacity(),
        ensures
            final(self).inv(),
            final(self)@ == old(self)@,
            -old(self)@.capacity() <= s as int <= old(self)@.capacity(),
            alpha < beta && s <= alpha ==> spec_score(old(self)@) <= s as int,
            alpha < beta && s >= beta ==> spec_score(old(self)@) >= s as int,
            alpha < s < beta ==> s as int == spec_score(old(self)@),
            spec_score(old(self)@) < alpha as int ==> s <= alpha,
            spec_score(old(self)@) > beta as int ==> s >= beta,
            alpha as int <= spec_score(old(self)@) <= beta as int ==> s as int == spec_score(
                old(self)@,
            ),
            old(self)@.num_moves() >= old(self)@.capacity() ==> s == 0,
            has_winning_move(old(self)@) ==> s as int == win_score(old(self)@),
            old(self)@.num_moves() < old(self)@.capacity() && !has_winning_move(old(self)@)
                && alpha as int >= best_bound(old(self)@) ==> s as int == best_bound(old(self)@),
    ;
}

impl<B: Board> BoardSearch for B {
    fn is_winning_move(&mut self, col: &usize) -> (r: Result<bool, ()>) {
        crate::search::probe_winning_move(self, col)
    }

    fn score(&mut self) -> (s: i32) {
        crate::search::full_score(self)
    }

    fn score_in_range(&mut self, alpha: i32, beta: i32) -> (s: i32) {
        crate::search::windowed_score(self, alpha, beta)
    }
}

/// The shared implementation of `Board::column_order`: centre first, then
/// alternating right and left.
#[verifier::loop_isolation(false)]
pub fn compute_column_order(width: usize) -> (order: Vec<usize>)
    requires
        width <= 0x7FFF,
    ensures
        order.len() == width,
        forall|i: int| 0 <= i < width ==> #[trigger] (order[i] as int) == col_order_at(
            width as int,
            i,
        ),
{
    let mut order: Vec<usize> = Vec::new();
    let mut i: usize = 0;
    while i < width
        invariant
            i <= width,
            width <= 0x7FFF,
            order.len() == i,
            forall|k: int| 0 <= k < i ==> #[trigger] (order[k] as int) == col_order_at(
                width as int,
                k,
            ),
        decreases width - i,
    {
        let entry = if i % 2 == 0 {
            width / 2 + i / 2
        } else {
            width / 2 - (i + 1) / 2
        };
        order.push(entry);
        i += 1;
    }
    order
}

} // verus!

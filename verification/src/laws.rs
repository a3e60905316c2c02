//! The general laws of the board: invariants of every reachable board,
//! exact reversal of a move, monotonicity of the outcome, and agreement of
//! the interchangeable representations.

use vstd::prelude::*;

use crate::model::{
    lemma_col_height_le, lemma_num_moves_le_capacity, lemma_play_undo, lemma_wins_persist,
    BoardModel,
};
use crate::state::{Board, Outcome, Piece};

verus! {

/// Every reachable board — any value of any representation that satisfies
/// its invariant — holds at most `width * height` moves, and no column ever
/// exceeds the board height.
pub proof fn lemma_reachable_board_bounds<B: Board>(b: &B)
    requires
        b.inv(),
    ensures
        b@.num_moves() <= b@.capacity(),
        forall|c: int| #[trigger] b@.col_height(c) <= b@.height,
{
    b.lemma_inv_wf();
    lemma_num_moves_le_capacity(b@);
    assert forall|c: int| #[trigger] b@.col_height(c) <= b@.height by {
        lemma_col_height_le(b@, c);
    }
}

/// Applying a playable move and immediately undoing it restores the board
/// model exactly: in particular the move count, every column height and the
/// outcome all return to their pre-move values.
pub proof fn lemma_apply_undo_round_trip(m: BoardModel, c: int)
    requires
        m.playable(c),
    ensures
        m.play(c).undo() == m,
        m.play(c).undo().num_moves() == m.num_moves(),
        forall|c2: int| #[trigger] m.play(c).undo().col_height(c2) == m.col_height(c2),
        m.play(c).undo().outcome() == m.outcome(),
{
    lemma_play_undo(m, c);
}

/// The outcome is `Undecided` exactly as long as no alignment exists and
/// the board still has room.
pub proof fn lemma_outcome_undecided_iff(m: BoardModel)
    ensures
        m.outcome() == Outcome::Undecided <==> (m.winner() is None && m.num_moves()
            < m.capacity()),
{
}

/// A full board accepts no further move, so a `Draw` outcome is permanent.
pub proof fn lemma_draw_is_permanent(m: BoardModel)
    requires
        m.outcome() == Outcome::Draw,
    ensures
        forall|c: int| !m.playable(c),
{
}

/// A decided outcome never reverts to `Undecided`: an alignment survives
/// every further move, and a full board admits none.
pub proof fn lemma_outcome_monotonic(m: BoardModel, c: int)
    requires
        m.wf(),
        m.playable(c),
        m.outcome() != Outcome::Undecided,
    ensures
        m.play(c).outcome() != Outcome::Undecided,
{
    if m.wins(Piece::Blue) {
        lemma_wins_persist(m, c, Piece::Blue);
    } else if m.wins(Piece::Red) {
        lemma_wins_persist(m, c, Piece::Red);
    }
}

/// Cross-representation equivalence: two boards of any two representations
/// that carry the same dimensions and the same move history — as every pair
/// fed the same accepted moves does, by the `make_move` contract — report
/// the same outcome and the same height for every column.
pub proof fn lemma_representations_agree<A: Board, B: Board>(a: &A, b: &B)
    requires
        a.inv(),
        b.inv(),
        a@ == b@,
    ensures
        a@.outcome() == b@.outcome(),
        forall|c: int| #[trigger] a@.col_height(c) == b@.col_height(c),
        forall|c: int| #[trigger] a@.playable(c) == b@.playable(c),
{
}

} // verus!

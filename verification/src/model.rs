//! Mathematical model of a dropping-piece board.
//!
//! A board is modelled by its fixed dimensions together with the ordered
//! history of column choices. Every observable quantity — column heights,
//! cell contents, the winner, the outcome — is a spec function of that
//! history, so all executable representations can be verified against one
//! common meaning.

use vstd::prelude::*;

use crate::state::{Outcome, Piece};

verus! {

/// The model of a board: fixed width and height, and the 0-based columns of
/// the moves played so far, in order.
#[verifier::ext_equal]
pub ghost struct BoardModel {
    pub width: int,
    pub height: int,
    pub moves: Seq<int>,
}

/// The piece placed by the move with 0-based index `ply`: the first mover
/// (`Blue`) plays the even plies. Mover identity is a pure function of the
/// move count, never separate state.
pub open spec fn mover_of_ply(ply: int) -> Piece {
    if ply % 2 == 0 {
        Piece::Blue
    } else {
        Piece::Red
    }
}

/// How many entries of `s` equal `c`.
pub open spec fn count_col(s: Seq<int>, c: int) -> int
    decreases s.len(),
{
    if s.len() == 0 {
        0
    } else {
        count_col(s.drop_last(), c) + if s.last() == c {
            1int
        } else {
            0int
        }
    }
}

/// Sum of `count_col(s, c)` over the columns `0 <= c < w`.
pub open spec fn sum_counts(s: Seq<int>, w: int) -> int
    decreases w,
{
    if w <= 0 {
        0
    } else {
        sum_counts(s, w - 1) + count_col(s, w - 1)
    }
}

/// Column step of direction `d` (`0` horizontal, `1` vertical, `2` rising
/// diagonal, `3` falling diagonal).
pub open spec fn dir_dc(d: int) -> int {
    if d == 1 {
        0
    } else {
        1
    }
}

/// Row step of direction `d`.
pub open spec fn dir_dr(d: int) -> int {
    if d == 0 {
        0
    } else if d == 3 {
        -1
    } else {
        1
    }
}

impl BoardModel {
    /// Total number of cells of the grid.
    pub open spec fn capacity(self) -> int {
        self.width * self.height
    }

    /// Number of moves played so far.
    pub open spec fn num_moves(self) -> int {
        self.moves.len() as int
    }

    /// Number of occupied cells of column `c`.
    pub open spec fn col_height(self, c: int) -> int {
        count_col(self.moves, c)
    }

    /// The move with index `i` names a real column that still had room when
    /// it was played.
    pub open spec fn move_ok(self, i: int) -> bool {
        &&& 0 <= self.moves[i] < self.width
        &&& count_col(self.moves.take(i), self.moves[i]) < self.height
    }

    /// Well-formedness: dimensions small enough for the machine, and every
    /// move legal at the time it was played. All reachable boards satisfy
    /// this.
    pub open spec fn wf(self) -> bool {
        &&& 0 <= self.width <= 0x7FFF
        &&& 0 <= self.height <= 0x7FFF
        &&& forall|i: int| 0 <= i < self.moves.len() ==> #[trigger] self.move_ok(i)
    }

    /// A move into column `c` is accepted exactly when `c` is a real column,
    /// the board is not full, and the column is not full.
    pub open spec fn playable(self, c: int) -> bool {
        &&& 0 <= c < self.width
        &&& self.num_moves() < self.capacity()
        &&& self.col_height(c) < self.height
    }

    /// The model after a move into column `c`.
    pub open spec fn play(self, c: int) -> BoardModel {
        BoardModel { moves: self.moves.push(c), ..self }
    }

    /// The model after undoing the most recent move.
    pub open spec fn undo(self) -> BoardModel {
        BoardModel { moves: self.moves.drop_last(), ..self }
    }

    pub open spec fn in_grid(self, c: int, r: int) -> bool {
        0 <= c < self.width && 0 <= r < self.height
    }

    /// The piece occupying the cell at column `c`, row `r` (rows count from
    /// the bottom), or `None` while it is empty: the move that filled it is
    /// the one that found `r` prior pieces in column `c`.
    pub open spec fn cell(self, c: int, r: int) -> Option<Piece>
        decreases self.moves.len(),
    {
        if self.moves.len() == 0 {
            None
        } else if self.moves.last() == c && count_col(self.moves.drop_last(), c) == r {
            Some(mover_of_ply(self.moves.len() - 1))
        } else {
            self.undo().cell(c, r)
        }
    }

    /// Four aligned cells of colour `p` in direction `d`, anchored at `(c, r)`.
    pub open spec fn win_window(self, p: Piece, c: int, r: int, d: int) -> bool {
        &&& 0 <= d < 4
        &&& self.in_grid(c, r)
        &&& self.in_grid(c + 3 * dir_dc(d), r + 3 * dir_dr(d))
        &&& self.cell(c, r) == Some(p)
        &&& self.cell(c + dir_dc(d), r + dir_dr(d)) == Some(p)
        &&& self.cell(c + 2 * dir_dc(d), r + 2 * dir_dr(d)) == Some(p)
        &&& self.cell(c + 3 * dir_dc(d), r + 3 * dir_dr(d)) == Some(p)
    }

    /// `p` has some 4-in-a-row.
    pub open spec fn wins(self, p: Piece) -> bool {
        exists|c: int, r: int, d: int| self.win_window(p, c, r, d)
    }

    /// The aligned player, the first mover taking precedence in the
    /// degenerate histories where both players hold an alignment.
    pub open spec fn winner(self) -> Option<Piece> {
        if self.wins(Piece::Blue) {
            Some(Piece::Blue)
        } else if self.wins(Piece::Red) {
            Some(Piece::Red)
        } else {
            None
        }
    }

    /// The three-state outcome: an alignment wins, a full board without one
    /// is a draw, anything else is still undecided.
    pub open spec fn outcome(self) -> Outcome {
        match self.winner() {
            Some(p) => Outcome::Won(p),
            None => if self.num_moves() >= self.capacity() {
                Outcome::Draw
            } else {
                Outcome::Undecided
            },
        }
    }
}

pub proof fn lemma_count_col_bounds(s: Seq<int>, c: int)
    ensures
        0 <= count_col(s, c) <= s.len(),
    decreases s.len(),
{
    if s.len() > 0 {
        lemma_count_col_bounds(s.drop_last(), c);
    }
}

pub proof fn lemma_count_col_push(s: Seq<int>, c: int, x: int)
    ensures
        count_col(s.push(x), c) == count_col(s, c) + if x == c {
            1int
        } else {
            0int
        },
{
    assert(s.push(x).drop_last() =~= s);
}

/// Well-formedness is preserved by undoing the last move.
pub proof fn lemma_wf_undo(m: BoardModel)
    requires
        m.wf(),
        m.moves.len() > 0,
    ensures
        m.undo().wf(),
{
    assert forall|i: int| 0 <= i < m.undo().moves.len() implies #[trigger] m.undo().move_ok(i) by {
        assert(m.move_ok(i));
        assert(m.undo().moves[i] == m.moves[i]);
        assert(m.undo().moves.take(i) =~= m.moves.take(i));
    }
}

/// Well-formedness is preserved by a playable move.
pub proof fn lemma_wf_play(m: BoardModel, c: int)
    requires
        m.wf(),
        m.playable(c),
    ensures
        m.play(c).wf(),
{
    let n = m.play(c);
    assert forall|i: int| 0 <= i < n.moves.len() implies #[trigger] n.move_ok(i) by {
        if i < m.moves.len() {
            assert(m.move_ok(i));
            assert(n.moves[i] == m.moves[i]);
            assert(n.moves.take(i) =~= m.moves.take(i));
        } else {
            assert(n.moves[i] == c);
            assert(n.moves.take(i) =~= m.moves);
        }
    }
}

/// No column of a well-formed board ever exceeds the board height.
pub proof fn lemma_col_height_le(m: BoardModel, c: int)
    requires
        m.wf(),
    ensures
        m.col_height(c) <= m.height,
    decreases m.moves.len(),
{
    if m.moves.len() == 0 {
    } else {
        lemma_wf_undo(m);
        lemma_col_height_le(m.undo(), c);
        if m.moves.last() == c {
            assert(m.move_ok(m.moves.len() - 1));
            assert(m.moves.take(m.moves.len() - 1) =~= m.moves.drop_last());
        }
    }
}

proof fn lemma_sum_counts_empty(w: int)
    ensures
        sum_counts(Seq::<int>::empty(), w) == 0,
    decreases w,
{
    if w > 0 {
        lemma_sum_counts_empty(w - 1);
    }
}

proof fn lemma_sum_counts_push(s: Seq<int>, x: int, w: int)
    ensures
        sum_counts(s.push(x), w) == sum_counts(s, w) + if 0 <= x < w {
            1int
        } else {
            0int
        },
    decreases w,
{
    if w > 0 {
        lemma_sum_counts_push(s, x, w - 1);
        lemma_count_col_push(s, w - 1, x);
    }
}

/// The column counts of a well-formed history sum to its length.
pub proof fn lemma_sum_counts_total(m: BoardModel)
    requires
        m.wf(),
    ensures
        sum_counts(m.moves, m.width) == m.moves.len(),
    decreases m.moves.len(),
{
    if m.moves.len() == 0 {
        assert(m.moves =~= Seq::<int>::empty());
        lemma_sum_counts_empty(m.width);
    } else {
        lemma_wf_undo(m);
        lemma_sum_counts_total(m.undo());
        assert(m.move_ok(m.moves.len() - 1));
        assert(m.undo().moves.push(m.moves.last()) =~= m.moves);
        lemma_sum_counts_push(m.undo().moves, m.moves.last(), m.width);
    }
}

proof fn lemma_sum_counts_upper(s: Seq<int>, w: int, h: int)
    requires
        0 <= w,
        0 <= h,
        forall|c: int| 0 <= c < w ==> #[trigger] count_col(s, c) <= h,
    ensures
        sum_counts(s, w) <= w * h,
    decreases w,
{
    if w > 0 {
        lemma_sum_counts_upper(s, w - 1, h);
        assert((w - 1) * h == w * h - h) by (nonlinear_arith);
    } else {
        assert(w * h == 0) by (nonlinear_arith)
            requires
                w == 0,
        ;
    }
}

proof fn lemma_sum_counts_lower(s: Seq<int>, w: int, h: int)
    requires
        0 <= w,
        0 <= h,
        forall|c: int| 0 <= c < w ==> #[trigger] count_col(s, c) >= h,
    ensures
        sum_counts(s, w) >= w * h,
    decreases w,
{
    if w > 0 {
        lemma_sum_counts_lower(s, w - 1, h);
        assert((w - 1) * h == w * h - h) by (nonlinear_arith);
    } else {
        assert(w * h == 0) by (nonlinear_arith)
            requires
                w == 0,
        ;
    }
}

/// A reachable board never holds more moves than it has cells.
pub proof fn lemma_num_moves_le_capacity(m: BoardModel)
    requires
        m.wf(),
    ensures
        m.moves.len() <= m.capacity(),
{
    lemma_sum_counts_total(m);
    assert forall|c: int| 0 <= c < m.width implies #[trigger] count_col(m.moves, c)
        <= m.height by {
        lemma_col_height_le(m, c);
    }
    lemma_sum_counts_upper(m.moves, m.width, m.height);
}

/// A board that is not full has a playable column.
pub proof fn lemma_exists_playable(m: BoardModel)
    requires
        m.wf(),
        m.num_moves() < m.capacity(),
    ensures
        exists|c: int| m.playable(c),
{
    if forall|c: int| 0 <= c < m.width ==> #[trigger] count_col(m.moves, c) >= m.height {
        lemma_sum_counts_lower(m.moves, m.width, m.height);
        lemma_sum_counts_total(m);
        assert(false);
    }
    let c = choose|c: int| 0 <= c < m.width && !(#[trigger] count_col(m.moves, c) >= m.height);
    assert(m.playable(c));
}

/// Playing column `x` fills exactly the cell `(x, old height of x)` with the
/// mover's piece and changes no other cell.
pub proof fn lemma_cell_play(m: BoardModel, x: int, c: int, r: int)
    ensures
        m.play(x).cell(c, r) == if c == x && r == count_col(m.moves, x) {
            Some(mover_of_ply(m.moves.len() as int))
        } else {
            m.cell(c, r)
        },
{
    let n = m.play(x);
    assert(n.moves.drop_last() =~= m.moves);
    assert(n.undo() =~= m);
}

/// A cell of a well-formed board is occupied exactly when it lies below the
/// current height of its column.
pub proof fn lemma_cell_filled(m: BoardModel, c: int, r: int)
    requires
        m.wf(),
    ensures
        m.cell(c, r) is Some <==> 0 <= r < count_col(m.moves, c),
    decreases m.moves.len(),
{
    lemma_count_col_bounds(m.moves, c);
    if m.moves.len() > 0 {
        let dl = m.moves.drop_last();
        lemma_wf_undo(m);
        lemma_cell_filled(m.undo(), c, r);
        assert(dl.push(m.moves.last()) =~= m.moves);
        lemma_count_col_push(dl, c, m.moves.last());
        lemma_count_col_bounds(dl, c);
        if m.moves.last() == c {
            if count_col(dl, c) == r {
                assert(m.cell(c, r) is Some);
                assert(count_col(m.moves, c) == r + 1);
            } else {
                assert(m.cell(c, r) == m.undo().cell(c, r));
                assert(count_col(m.moves, c) == count_col(dl, c) + 1);
            }
        } else {
            assert(m.cell(c, r) == m.undo().cell(c, r));
            assert(count_col(m.moves, c) == count_col(dl, c));
        }
    }
}

/// Occupied cells keep their piece when another move is played.
pub proof fn lemma_cell_persists(m: BoardModel, x: int, c: int, r: int)
    requires
        m.wf(),
        m.cell(c, r) is Some,
    ensures
        m.play(x).cell(c, r) == m.cell(c, r),
{
    lemma_cell_filled(m, c, r);
    lemma_cell_play(m, x, c, r);
}

/// Undoing a move right after playing it restores the model exactly.
pub proof fn lemma_play_undo(m: BoardModel, c: int)
    ensures
        m.play(c).undo() == m,
{
    assert(m.play(c).undo() =~= m);
}

/// The `i`-th column of the centre-first visiting order for a board of
/// width `w`: centre, centre + 1, centre - 1, centre + 2, ... This is a
/// search heuristic only, never a game rule.
pub open spec fn col_order_at(w: int, i: int) -> int {
    if i % 2 == 0 {
        w / 2 + i / 2
    } else {
        w / 2 - (i + 1) / 2
    }
}

/// Every real column appears in the centre-first order.
pub proof fn lemma_col_order_covers(w: int, c: int)
    requires
        0 <= c < w,
    ensures
        exists|i: int| 0 <= i < w && col_order_at(w, i) == c,
{
    if c >= w / 2 {
        let i = 2 * (c - w / 2);
        assert(0 <= i < w && col_order_at(w, i) == c);
    } else {
        let i = 2 * (w / 2 - c) - 1;
        assert(0 <= i < w && col_order_at(w, i) == c);
    }
}

/// An alignment survives any further move (part of outcome monotonicity).
pub proof fn lemma_wins_persist(m: BoardModel, x: int, p: Piece)
    requires
        m.wf(),
        m.wins(p),
    ensures
        m.play(x).wins(p),
{
    let (c, r, d) = choose|c: int, r: int, d: int| m.win_window(p, c, r, d);
    lemma_cell_persists(m, x, c, r);
    lemma_cell_persists(m, x, c + dir_dc(d), r + dir_dr(d));
    lemma_cell_persists(m, x, c + 2 * dir_dc(d), r + 2 * dir_dr(d));
    lemma_cell_persists(m, x, c + 3 * dir_dc(d), r + 3 * dir_dr(d));
    assert(m.play(x).win_window(p, c, r, d));
}

} // verus!

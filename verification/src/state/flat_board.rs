//! The dense-grid board representation: a full two-dimensional array of
//! optional pieces plus per-column fill heights. The simplest
//! representation, used as the reference implementation and for rendering;
//! its win detector scans every cell.

use vstd::prelude::*;

use crate::model::{
    count_col, lemma_cell_filled, lemma_cell_play, lemma_count_col_push,
    lemma_num_moves_le_capacity, lemma_wf_play, lemma_wf_undo, mover_of_ply, BoardModel,
};
use crate::state::hist_board::HistBoard;
use crate::state::{compute_column_order, Board, MoveError, Outcome, Piece};

verus! {

/// A board stored as one column-major grid of optional pieces, together
/// with the move history (which makes undo possible) and cached column
/// heights and move count.
pub struct FlatBoard {
    height: usize,
    width: usize,
    board: Vec<Vec<Option<Piece>>>,
    num_moves: usize,
    is_blue_turn: bool,
    heights: Vec<usize>,
    moves: Vec<usize>,
}

impl View for FlatBoard {
    type V = BoardModel;

    closed spec fn view(&self) -> BoardModel {
        BoardModel {
            width: self.width as int,
            height: self.height as int,
            moves: self.moves@.map_values(|v: usize| v as int),
        }
    }
}

impl FlatBoard {
    /// The cached counters and the grid agree with the modelled history.
    pub closed spec fn well_formed(self) -> bool {
        &&& self@.wf()
        &&& self.num_moves == self.moves@.len()
        &&& self.is_blue_turn <==> (self.moves@.len() % 2 == 0)
        &&& self.heights@.len() == self.width
        &&& forall|c: int|
            0 <= c < self.width ==> (#[trigger] self.heights@[c]) as int == count_col(
                self@.moves,
                c,
            )
        &&& self.board@.len() == self.width
        &&& forall|c: int| 0 <= c < self.width ==> (#[trigger] self.board@[c])@.len()
            == self.height
        &&& forall|c: int, r: int|
            0 <= c < self.width && 0 <= r < self.height ==> (#[trigger] self.board@[c]@[r])
                == self@.cell(c, r)
    }

    /// Whether the cell at `(c, r)` holds a piece of colour `p`.
    fn cell_is(&self, c: usize, r: usize, p: Piece) -> (b: bool)
        requires
            self.well_formed(),
            c < self.width,
            r < self.height,
        ensures
            b == (self@.cell(c as int, r as int) == Some(p)),
    {
        match self.board[c][r] {
            Some(q) => q == p,
            None => false,
        }
    }

    /// Full-board scan for an alignment of colour `p`: every anchor cell and
    /// every direction is examined; nothing is concluded early.
    #[verifier::loop_isolation(false)]
    fn scan_win(&self, p: Piece) -> (found: bool)
        requires
            self.well_formed(),
        ensures
            found == self@.wins(p),
    {
        let mut c: usize = 0;
        while c < self.width
            invariant
                self.well_formed(),
                c <= self.width,
                forall|c0: int, r0: int, d: int|
                    c0 < c ==> !(#[trigger] self@.win_window(p, c0, r0, d)),
            decreases self.width - c,
        {
            let mut r: usize = 0;
            while r < self.height
                invariant
                    self.well_formed(),
                    c < self.width,
                    r <= self.height,
                    forall|c0: int, r0: int, d: int|
                        c0 < c ==> !(#[trigger] self@.win_window(p, c0, r0, d)),
                    forall|r0: int, d: int|
                        r0 < r ==> !(#[trigger] self@.win_window(p, c as int, r0, d)),
                decreases self.height - r,
            {
                if c + 3 < self.width {
                    if self.cell_is(c, r, p) && self.cell_is(c + 1, r, p) && self.cell_is(
                        c + 2,
                        r,
                        p,
                    ) && self.cell_is(c + 3, r, p) {
                        assert(self@.win_window(p, c as int, r as int, 0));
                        return true;
                    }
                }
                if r + 3 < self.height {
                    if self.cell_is(c, r, p) && self.cell_is(c, r + 1, p) && self.cell_is(
                        c,
                        r + 2,
                        p,
                    ) && self.cell_is(c, r + 3, p) {
                        assert(self@.win_window(p, c as int, r as int, 1));
                        return true;
                    }
                }
                if c + 3 < self.width && r + 3 < self.height {
                    if self.cell_is(c, r, p) && self.cell_is(c + 1, r + 1, p) && self.cell_is(
                        c + 2,
                        r + 2,
                        p,
                    ) && self.cell_is(c + 3, r + 3, p) {
                        assert(self@.win_window(p, c as int, r as int, 2));
                        return true;
                    }
                }
                if c + 3 < self.width && r >= 3 {
                    if self.cell_is(c, r, p) && self.cell_is(c + 1, r - 1, p) && self.cell_is(
                        c + 2,
                        r - 2,
                        p,
                    ) && self.cell_is(c + 3, r - 3, p) {
                        assert(self@.win_window(p, c as int, r as int, 3));
                        return true;
                    }
                }
                proof {
                    assert forall|d: int| !self@.win_window(p, c as int, r as int, d) by {
                        if self@.win_window(p, c as int, r as int, d) {
                            assert(0 <= d < 4);
                        }
                    }
                }
                r += 1;
            }
            c += 1;
        }
        proof {
            if self@.wins(p) {
                let (c0, r0, d) = choose|c0: int, r0: int, d: int|
                    self@.win_window(p, c0, r0, d);
                assert(0 <= c0 < self@.width);
            }
        }
        false
    }

    /// Builds the dense grid equivalent of the given move-log board by
    /// replaying its history from an empty grid.
    #[verifier::loop_isolation(false)]
    pub fn from(hist_board: HistBoard) -> (flat: FlatBoard)
        requires
            hist_board.inv(),
        ensures
            flat.well_formed(),
            flat@ == hist_board@,
    {
        let width = Board::width(&hist_board);
        let height = Board::height(&hist_board);
        let ghost target = hist_board@;
        proof {
            hist_board.lemma_inv_wf();
            lemma_num_moves_le_capacity(target);
        }
        let mut flat = <FlatBoard as Board>::new(width, height);
        let n = Board::num_moves(&hist_board);
        let mut i: usize = 0;
        while i < n
            invariant
                flat.well_formed(),
                i <= n,
                flat@ == (BoardModel {
                    width: target.width,
                    height: target.height,
                    moves: target.moves.take(i as int),
                }),
            decreases n - i,
        {
            let col = *hist_board.moves_at(i);
            proof {
                assert(target.move_ok(i as int));
                assert(flat@.moves =~= target.moves.take(i as int));
                crate::model::lemma_count_col_bounds(target.moves.take(i as int), col as int);
                assert(flat@.playable(col as int));
            }
            let _ = flat.make_move(&col);
            proof {
                assert(target.moves.take(i as int).push(target.moves[i as int]) =~= target.moves
                    .take(i + 1));
                assert(flat@ =~= (BoardModel {
                    width: target.width,
                    height: target.height,
                    moves: target.moves.take(i + 1),
                }));
            }
            i += 1;
        }
        proof {
            assert(target.moves.take(n as int) =~= target.moves);
            assert(flat@ =~= target);
        }
        flat
    }
}

impl Board for FlatBoard {
    open spec fn inv(&self) -> bool {
        self.well_formed()
    }

    proof fn lemma_inv_wf(&self) {
    }

    #[verifier::loop_isolation(false)]
    fn new(width: usize, height: usize) -> (b: Self) {
        let mut board: Vec<Vec<Option<Piece>>> = Vec::new();
        let mut heights: Vec<usize> = Vec::new();
        let mut c: usize = 0;
        while c < width
            invariant
                c <= width,
                board@.len() == c,
                heights@.len() == c,
                forall|k: int| 0 <= k < c ==> (#[trigger] board@[k])@.len() == height,
                forall|k: int, r: int|
                    0 <= k < c && 0 <= r < height ==> (#[trigger] board@[k]@[r]) is None,
                forall|k: int| 0 <= k < c ==> (#[trigger] heights@[k]) == 0,
            decreases width - c,
        {
            let mut column: Vec<Option<Piece>> = Vec::new();
            let mut r: usize = 0;
            while r < height
                invariant
                    r <= height,
                    column@.len() == r,
                    forall|k: int| 0 <= k < r ==> (#[trigger] column@[k]) is None,
                decreases height - r,
            {
                column.push(None);
                r += 1;
            }
            board.push(column);
            heights.push(0);
            c += 1;
        }
        let b = FlatBoard {
            height,
            width,
            board,
            num_moves: 0,
            is_blue_turn: true,
            heights,
            moves: Vec::new(),
        };
        proof {
            assert(b@.moves =~= Seq::<int>::empty());
            assert(b@ =~= (BoardModel {
                width: width as int,
                height: height as int,
                moves: Seq::empty(),
            }));
        }
        b
    }

    fn width(&self) -> (w: usize) {
        self.width
    }

    fn height(&self) -> (h: usize) {
        self.height
    }

    fn column_order(&self) -> (order: Vec<usize>) {
        compute_column_order(self.width)
    }

    fn find_height(&self, col: &usize) -> (h: usize) {
        self.heights[*col]
    }

    fn num_moves(&self) -> (n: usize) {
        self.num_moves
    }

    fn is_playable(&self, col: &usize) -> (b: bool) {
        proof {
            assert((self.height as int) * (self.width as int) <= 0x3FFF0001) by (nonlinear_arith)
                requires
                    0 <= self.height as int <= 0x7FFF,
                    0 <= self.width as int <= 0x7FFF,
            ;
        }
        *col < self.width && self.num_moves < self.height * self.width && self.heights[*col]
            < self.height
    }

    fn piece_at(&self, col: &usize, row: &usize) -> (p: Option<Piece>) {
        self.board[*col][*row]
    }

    fn get_winner(&self) -> (o: Outcome) {
        if self.scan_win(Piece::Blue) {
            return Outcome::Won(Piece::Blue);
        }
        if self.scan_win(Piece::Red) {
            return Outcome::Won(Piece::Red);
        }
        proof {
            assert((self.height as int) * (self.width as int) <= 0x3FFF0001) by (nonlinear_arith)
                requires
                    0 <= self.height as int <= 0x7FFF,
                    0 <= self.width as int <= 0x7FFF,
            ;
        }
        if self.num_moves >= self.height * self.width {
            Outcome::Draw
        } else {
            Outcome::Undecided
        }
    }

    fn make_move(&mut self, col: &usize) -> (r: Result<(), MoveError>) {
        let ghost m = self@;
        if !(*col < self.width) {
            return Err(MoveError::InvalidColumn);
        }
        proof {
            assert((self.height as int) * (self.width as int) <= 0x3FFF0001) by (nonlinear_arith)
                requires
                    0 <= self.height as int <= 0x7FFF,
                    0 <= self.width as int <= 0x7FFF,
            ;
        }
        if !(self.num_moves < self.height * self.width) {
            return Err(MoveError::ColumnFull);
        }
        let hcol = self.heights[*col];
        if !(hcol < self.height) {
            return Err(MoveError::ColumnFull);
        }
        assert(m.playable(*col as int));
        let piece = if self.is_blue_turn {
            Piece::Blue
        } else {
            Piece::Red
        };
        self.board[*col].set(hcol, Some(piece));
        self.heights.set(*col, hcol + 1);
        self.num_moves = self.num_moves + 1;
        self.is_blue_turn = !self.is_blue_turn;
        self.moves.push(*col);
        proof {
            let x = *col as int;
            assert(self@.moves =~= m.moves.push(x));
            assert(self@ =~= m.play(x));
            lemma_wf_play(m, x);
            assert(piece == mover_of_ply(m.moves.len() as int));
            assert forall|c: int| 0 <= c < self.width implies (#[trigger] self.heights@[c]) as int
                == count_col(self@.moves, c) by {
                lemma_count_col_push(m.moves, c, x);
            }
            assert forall|c: int, r: int|
                0 <= c < self.width && 0 <= r < self.height implies (
            #[trigger] self.board@[c]@[r]) == self@.cell(c, r) by {
                lemma_cell_play(m, x, c, r);
            }
        }
        Ok(())
    }

    fn undo_last_move(&mut self) {
        let ghost m = self@;
        proof {
            assert(m.move_ok(m.moves.len() - 1));
            assert(self.moves@[self.moves@.len() - 1] as int == m.moves[m.moves.len() - 1]);
        }
        let col = self.moves[self.moves.len() - 1];
        let _ = self.moves.pop();
        proof {
            assert(self.moves@.map_values(|v: usize| v as int) =~= m.moves.drop_last());
        }
        let hcol = self.heights[col];
        proof {
            lemma_count_col_push(m.undo().moves, col as int, col as int);
            assert(m.undo().moves.push(col as int) =~= m.moves);
            crate::model::lemma_count_col_bounds(m.undo().moves, col as int);
            crate::model::lemma_col_height_le(m, col as int);
        }
        self.heights.set(col, hcol - 1);
        self.board[col].set(hcol - 1, None);
        self.num_moves = self.num_moves - 1;
        self.is_blue_turn = !self.is_blue_turn;
        proof {
            let u = m.undo();
            assert(self@.moves =~= u.moves);
            assert(self@ =~= u);
            lemma_wf_undo(m);
            assert(u.play(col as int) =~= m);
            assert forall|c: int| 0 <= c < self.width implies (#[trigger] self.heights@[c]) as int
                == count_col(self@.moves, c) by {
                lemma_count_col_push(u.moves, c, col as int);
            }
            assert forall|c: int, r: int|
                0 <= c < self.width && 0 <= r < self.height implies (
            #[trigger] self.board@[c]@[r]) == self@.cell(c, r) by {
                lemma_cell_play(u, col as int, c, r);
                if c == col as int && r == count_col(u.moves, col as int) {
                    lemma_cell_filled(u, c, r);
                }
            }
        }
    }
}

} // verus!

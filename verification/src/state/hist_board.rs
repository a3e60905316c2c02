//! The move-log board representation: only the ordered sequence of column
//! choices is stored. Everything else is derived on demand — which makes
//! undoing a move a constant-time truncation — and win detection delegates
//! to a replayed dense grid.

use vstd::prelude::*;

use crate::model::{count_col, lemma_cell_play, lemma_count_col_push, lemma_wf_play, lemma_wf_undo, BoardModel};
use crate::state::flat_board::FlatBoard;
use crate::state::{compute_column_order, Board, MoveError, Outcome, Piece};

verus! {

/// A board stored as its move history alone.
pub struct HistBoard {
    height: usize,
    width: usize,
    pub moves: Vec<usize>,
}

impl View for HistBoard {
    type V = BoardModel;

    closed spec fn view(&self) -> BoardModel {
        BoardModel {
            width: self.width as int,
            height: self.height as int,
            moves: self.moves@.map_values(|v: usize| v as int),
        }
    }
}

impl HistBoard {
    /// Counts the occurrences of `col` in the move log: the number of
    /// pieces resting in that column.
    #[verifier::loop_isolation(false)]
    pub fn find_height(&self, col: &usize) -> (h: usize)
        requires
            self@.wf(),
        ensures
            h as int == self@.col_height(*col as int),
    {
        let ghost ms = self@.moves;
        let mut n: usize = 0;
        let mut i: usize = 0;
        while i < self.moves.len()
            invariant
                i <= self.moves@.len(),
                n <= i,
                ms == self@.moves,
                self.moves@.len() == ms.len(),
                n as int == count_col(ms.take(i as int), *col as int),
            decreases self.moves@.len() - i,
        {
            proof {
                assert(ms.take(i + 1).drop_last() =~= ms.take(i as int));
                assert(ms.take(i + 1).last() == ms[i as int]);
            }
            if self.moves[i] == *col {
                n = n + 1;
            }
            i += 1;
        }
        proof {
            assert(ms.take(self.moves@.len() as int) =~= ms);
        }
        n
    }

    /// The move with index `i`, as recorded in the log.
    pub fn moves_at(&self, i: usize) -> (c: &usize)
        requires
            i < self@.num_moves(),
        ensures
            *c as int == self@.moves[i as int],
    {
        &self.moves[i]
    }
}

impl Board for HistBoard {
    open spec fn inv(&self) -> bool {
        self@.wf()
    }

    proof fn lemma_inv_wf(&self) {
    }

    fn new(width: usize, height: usize) -> (b: Self) {
        let b = HistBoard { height, width, moves: Vec::new() };
        proof {
            assert(b@.moves =~= Seq::<int>::empty());
            assert(b@ =~= (BoardModel {
                width: width as int,
                height: height as int,
                moves: Seq::empty(),
            }));
        }
        b
    }

    fn width(&self) -> (w: usize) {
        self.width
    }

    fn height(&self) -> (h: usize) {
        self.height
    }

    fn column_order(&self) -> (order: Vec<usize>) {
        compute_column_order(self.width)
    }

    fn find_height(&self, col: &usize) -> (h: usize) {
        HistBoard::find_height(self, col)
    }

    fn num_moves(&self) -> (n: usize) {
        self.moves.len()
    }

    fn is_playable(&self, col: &usize) -> (b: bool) {
        proof {
            assert((self.height as int) * (self.width as int) <= 0x3FFF0001) by (nonlinear_arith)
                requires
                    0 <= self.height as int <= 0x7FFF,
                    0 <= self.width as int <= 0x7FFF,
            ;
        }
        *col < self.width && self.moves.len() < self.height * self.width && self.find_height(col)
            < self.height
    }

    /// Finds the move that dropped a piece onto `(col, row)`, if any: its
    /// parity decides the piece.
    #[verifier::loop_isolation(false)]
    fn piece_at(&self, col: &usize, row: &usize) -> (p: Option<Piece>) {
        let ghost m = self@;
        let ghost c = *col as int;
        let ghost r = *row as int;
        let mut out: Option<Piece> = None;
        let mut cnt: usize = 0;
        let mut i: usize = 0;
        proof {
            assert(m.moves.take(0) =~= Seq::<int>::empty());
        }
        while i < self.moves.len()
            invariant
                i <= self.moves@.len(),
                cnt <= i,
                cnt as int == count_col(m.moves.take(i as int), c),
                out == (BoardModel { moves: m.moves.take(i as int), ..m }).cell(c, r),
            decreases self.moves@.len() - i,
        {
            let ghost prefix = BoardModel { moves: m.moves.take(i as int), ..m };
            proof {
                assert(m.moves.take(i as int).push(m.moves[i as int]) =~= m.moves.take(i + 1));
                assert(prefix.play(m.moves[i as int]).moves =~= m.moves.take(i + 1));
                assert(prefix.play(m.moves[i as int]) =~= (BoardModel {
                    moves: m.moves.take(i + 1),
                    ..m
                }));
                lemma_cell_play(prefix, m.moves[i as int], c, r);
                lemma_count_col_push(m.moves.take(i as int), c, m.moves[i as int]);
                crate::model::lemma_count_col_bounds(m.moves.take(i as int), c);
            }
            if self.moves[i] == *col {
                if cnt == *row {
                    out = Some(
                        if i % 2 == 0 {
                            Piece::Blue
                        } else {
                            Piece::Red
                        },
                    );
                }
                cnt = cnt + 1;
            }
            i += 1;
        }
        proof {
            assert(m.moves.take(self.moves@.len() as int) =~= m.moves);
            assert((BoardModel { moves: m.moves, ..m }) =~= m);
        }
        out
    }

    /// Replays the log into a dense grid and scans it.
    #[verifier::loop_isolation(false)]
    fn get_winner(&self) -> (o: Outcome) {
        let mut flat = <FlatBoard as Board>::new(self.width, self.height);
        let n = self.moves.len();
        let ghost target = self@;
        proof {
            crate::model::lemma_num_moves_le_capacity(target);
            assert(target.moves.take(0) =~= Seq::<int>::empty());
        }
        let mut i: usize = 0;
        while i < n
            invariant
                flat.inv(),
                i <= n,
                n == self.moves@.len(),
                target == self@,
                flat@ == (BoardModel {
                    width: target.width,
                    height: target.height,
                    moves: target.moves.take(i as int),
                }),
            decreases n - i,
        {
            let col = self.moves[i];
            proof {
                assert(target.move_ok(i as int));
                assert(flat@.moves =~= target.moves.take(i as int));
                crate::model::lemma_count_col_bounds(target.moves.take(i as int), col as int);
                assert(flat@.playable(col as int));
            }
            let _ = flat.make_move(&col);
            proof {
                assert(target.moves.take(i as int).push(target.moves[i as int]) =~= target.moves
                    .take(i + 1));
                assert(flat@ =~= (BoardModel {
                    width: target.width,
                    height: target.height,
                    moves: target.moves.take(i + 1),
                }));
            }
            i += 1;
        }
        proof {
            assert(target.moves.take(n as int) =~= target.moves);
            assert(flat@ =~= target);
        }
        flat.get_winner()
    }

    fn make_move(&mut self, col: &usize) -> (r: Result<(), MoveError>) {
        let ghost m = self@;
        if !(*col < self.width) {
            return Err(MoveError::InvalidColumn);
        }
        proof {
            assert((self.height as int) * (self.width as int) <= 0x3FFF0001) by (nonlinear_arith)
                requires
                    0 <= self.height as int <= 0x7FFF,
                    0 <= self.width as int <= 0x7FFF,
            ;
        }
        if !(self.moves.len() < self.height * self.width) {
            return Err(MoveError::ColumnFull);
        }
        if !(self.find_height(col) < self.height) {
            return Err(MoveError::ColumnFull);
        }
        assert(m.playable(*col as int));
        self.moves.push(*col);
        proof {
            assert(self@.moves =~= m.moves.push(*col as int));
            assert(self@ =~= m.play(*col as int));
            lemma_wf_play(m, *col as int);
        }
        Ok(())
    }

    fn undo_last_move(&mut self) {
        let ghost m = self@;
        let _ = self.moves.pop();
        proof {
            assert(self@.moves =~= m.moves.drop_last());
            assert(self@ =~= m.undo());
            lemma_wf_undo(m);
        }
    }
}

} // verus!

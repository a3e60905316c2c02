//! A variant of the bit-packed board representation that tracks the
//! pieces of the player about to move instead of a fixed player: after
//! every move the mover mask is flipped to the other side by one XOR with
//! the occupancy mask. Shares the guard-bit layout and the word-parallel
//! win detection of `bit_board`.

use vstd::prelude::*;

use crate::bits::{bits_get, bits_of, bits_repeat, bits_set, bits_xor, BitWords};
use crate::model::{
    count_col, lemma_cell_filled, lemma_cell_play, lemma_col_height_le, lemma_count_col_bounds,
    lemma_count_col_push, lemma_wf_play, lemma_wf_undo, mover_of_ply, BoardModel,
};
use crate::state::bit_board::{
    bit_index, lemma_index_inj, lemma_index_upper, lemma_mask_len_bound, mask_matches, mask_wins,
    occ_matches,
};
use crate::state::{compute_column_order, Board, MoveError, Outcome, Piece};

verus! {

/// A board stored as the occupancy mask plus the mask of the pieces
/// belonging to the player about to move, with the move history (for undo)
/// and cached column heights.
pub struct AltBitBoard {
    current_pieces: BitWords,
    all_pieces: BitWords,
    height: usize,
    width: usize,
    moves: Vec<usize>,
    heights: Vec<usize>,
}

impl View for AltBitBoard {
    type V = BoardModel;

    closed spec fn view(&self) -> BoardModel {
        BoardModel {
            width: self.width as int,
            height: self.height as int,
            moves: self.moves@.map_values(|v: usize| v as int),
        }
    }
}

impl AltBitBoard {
    /// The occupancy mask marks the occupied cells, and the current-player
    /// mask marks exactly the cells of the mover of the next ply.
    pub closed spec fn well_formed(self) -> bool {
        &&& self@.wf()
        &&& self.heights@.len() == self.width
        &&& forall|c: int|
            0 <= c < self.width ==> (#[trigger] self.heights@[c]) as int == count_col(
                self@.moves,
                c,
            )
        &&& occ_matches(self@, bits_of(self.all_pieces))
        &&& mask_matches(
            self@,
            bits_of(self.current_pieces),
            mover_of_ply(self@.num_moves()),
        )
    }

    /// Clears the board back to its empty starting state, keeping its
    /// dimensions.
    pub fn reset(&mut self)
        requires
            old(self).inv(),
        ensures
            final(self).inv(),
            final(self)@ == (BoardModel {
                width: old(self)@.width,
                height: old(self)@.height,
                moves: Seq::empty(),
            }),
    {
        let width = self.width;
        let height = self.height;
        *self = <AltBitBoard as Board>::new(width, height);
    }
}

impl Board for AltBitBoard {
    open spec fn inv(&self) -> bool {
        self.well_formed()
    }

    proof fn lemma_inv_wf(&self) {
    }

    fn new(width: usize, height: usize) -> (b: Self) {
        proof {
            lemma_mask_len_bound(width as int, height as int);
        }
        let bit_size = width * (height + 1);
        let current_pieces = bits_repeat(bit_size);
        let all_pieces = bits_repeat(bit_size);
        let mut heights: Vec<usize> = Vec::new();
        let mut c: usize = 0;
        while c < width
            invariant
                c <= width,
                heights@.len() == c,
                forall|k: int| 0 <= k < c ==> (#[trigger] heights@[k]) == 0,
            decreases width - c,
        {
            heights.push(0);
            c += 1;
        }
        let b = AltBitBoard { height, width, current_pieces, all_pieces, moves: Vec::new(), heights };
        proof {
            assert(b@.moves =~= Seq::<int>::empty());
            assert(b@ =~= (BoardModel {
                width: width as int,
                height: height as int,
                moves: Seq::empty(),
            }));
            assert forall|c0: int, r0: int|
                0 <= c0 < b@.width && 0 <= r0 <= b@.height implies !(#[trigger] bits_of(
                b.all_pieces,
            )[bit_index(b@.height, c0, r0)]) by {
                lemma_index_upper(b@.width, b@.height, c0, r0);
            }
            assert forall|c0: int, r0: int|
                0 <= c0 < b@.width && 0 <= r0 <= b@.height implies !(#[trigger] bits_of(
                b.current_pieces,
            )[bit_index(b@.height, c0, r0)]) by {
                lemma_index_upper(b@.width, b@.height, c0, r0);
            }
            assert(occ_matches(b@, bits_of(b.all_pieces)));
            assert(mask_matches(b@, bits_of(b.current_pieces), mover_of_ply(b@.num_moves())));
        }
        b
    }

    fn width(&self) -> (w: usize) {
        self.width
    }

    fn height(&self) -> (h: usize) {
        self.height
    }

    fn column_order(&self) -> (order: Vec<usize>) {
        compute_column_order(self.width)
    }

    fn find_height(&self, col: &usize) -> (h: usize) {
        self.heights[*col]
    }

    fn num_moves(&self) -> (n: usize) {
        self.moves.len()
    }

    fn is_playable(&self, col: &usize) -> (b: bool) {
        proof {
            assert((self.height as int) * (self.width as int) <= 0x3FFF0001) by (nonlinear_arith)
                requires
                    0 <= self.height as int <= 0x7FFF,
                    0 <= self.width as int <= 0x7FFF,
            ;
        }
        *col < self.width && self.moves.len() < self.height * self.width && self.heights[*col]
            < self.height
    }

    fn get_winner(&self) -> (o: Outcome) {
        let ghost m = self@;
        let alt_pieces = bits_xor(&self.all_pieces, &self.current_pieces);
        let blue_to_move = self.moves.len() % 2 == 0;
        proof {
            let mover = mover_of_ply(m.num_moves());
            let other = if mover == Piece::Blue {
                Piece::Red
            } else {
                Piece::Blue
            };
            assert forall|c: int, r: int|
                0 <= c < m.width && 0 <= r <= m.height implies (#[trigger] bits_of(
                alt_pieces,
            )[bit_index(m.height, c, r)]) == (m.cell(c, r) == Some(other)) by {
                lemma_index_upper(m.width, m.height, c, r);
                assert(bits_of(self.all_pieces)[bit_index(m.height, c, r)] == (m.cell(c, r)
                    is Some));
                assert(bits_of(self.current_pieces)[bit_index(m.height, c, r)] == (m.cell(c, r)
                    == Some(mover)));
                assert(bits_of(alt_pieces)[bit_index(m.height, c, r)] == (bits_of(
                    self.all_pieces,
                )[bit_index(m.height, c, r)] != bits_of(self.current_pieces)[bit_index(
                    m.height,
                    c,
                    r,
                )]));
                assert(m.cell(c, r) is None || m.cell(c, r) == Some(Piece::Blue) || m.cell(c, r)
                    == Some(Piece::Red));
            }
            assert(mask_matches(m, bits_of(alt_pieces), other));
        }
        let blue_mask: &BitWords = if blue_to_move {
            &self.current_pieces
        } else {
            &alt_pieces
        };
        let red_mask: &BitWords = if blue_to_move {
            &alt_pieces
        } else {
            &self.current_pieces
        };
        if mask_wins(blue_mask, self.width, self.height, Ghost(m), Ghost(Piece::Blue)) {
            return Outcome::Won(Piece::Blue);
        }
        if mask_wins(red_mask, self.width, self.height, Ghost(m), Ghost(Piece::Red)) {
            return Outcome::Won(Piece::Red);
        }
        proof {
            assert((self.height as int) * (self.width as int) <= 0x3FFF0001) by (nonlinear_arith)
                requires
                    0 <= self.height as int <= 0x7FFF,
                    0 <= self.width as int <= 0x7FFF,
            ;
        }
        if self.moves.len() >= self.height * self.width {
            Outcome::Draw
        } else {
            Outcome::Undecided
        }
    }

    fn piece_at(&self, col: &usize, row: &usize) -> (p: Option<Piece>) {
        proof {
            lemma_mask_len_bound(self@.width, self@.height);
            lemma_index_upper(self@.width, self@.height, *col as int, *row as int);
        }
        let idx = *col * (self.height + 1) + *row;
        let current_player = if self.moves.len() % 2 == 0 {
            Piece::Blue
        } else {
            Piece::Red
        };
        let alt_player = if self.moves.len() % 2 == 0 {
            Piece::Red
        } else {
            Piece::Blue
        };
        if !bits_get(&self.all_pieces, idx) {
            None
        } else if bits_get(&self.current_pieces, idx) {
            Some(current_player)
        } else {
            proof {
                let cell = self@.cell(*col as int, *row as int);
                assert(cell is Some && cell != Some(mover_of_ply(self@.num_moves())));
                assert(cell == Some(alt_player));
            }
            Some(alt_player)
        }
    }

    fn make_move(&mut self, col: &usize) -> (r: Result<(), MoveError>) {
        let ghost m = self@;
        if !(*col < self.width) {
            return Err(MoveError::InvalidColumn);
        }
        proof {
            assert((self.height as int) * (self.width as int) <= 0x3FFF0001) by (nonlinear_arith)
                requires
                    0 <= self.height as int <= 0x7FFF,
                    0 <= self.width as int <= 0x7FFF,
            ;
        }
        if !(self.moves.len() < self.height * self.width) {
            return Err(MoveError::ColumnFull);
        }
        let hcol = self.heights[*col];
        if !(hcol < self.height) {
            return Err(MoveError::ColumnFull);
        }
        assert(m.playable(*col as int));
        proof {
            lemma_mask_len_bound(m.width, m.height);
            lemma_index_upper(m.width, m.height, *col as int, hcol as int);
        }
        let idx = *col * (self.height + 1) + hcol;
        bits_set(&mut self.all_pieces, idx, true);
        bits_set(&mut self.current_pieces, idx, true);
        self.current_pieces = bits_xor(&self.all_pieces, &self.current_pieces);
        self.heights.set(*col, hcol + 1);
        self.moves.push(*col);
        proof {
            let x = *col as int;
            let h = m.height;
            assert(self@.moves =~= m.moves.push(x));
            assert(self@ =~= m.play(x));
            lemma_wf_play(m, x);
            assert forall|c: int| 0 <= c < self.width implies (#[trigger] self.heights@[c]) as int
                == count_col(self@.moves, c) by {
                lemma_count_col_push(m.moves, c, x);
            }
            let mover = mover_of_ply(m.moves.len() as int);
            let next = mover_of_ply(self@.num_moves());
            assert(next != mover);
            assert forall|c: int, r: int|
                0 <= c < self@.width && 0 <= r <= self@.height implies (#[trigger] bits_of(
                self.all_pieces,
            )[bit_index(self@.height, c, r)]) == (self@.cell(c, r) is Some) by {
                lemma_index_upper(m.width, h, c, r);
                lemma_cell_play(m, x, c, r);
                lemma_cell_filled(m, c, r);
                if bit_index(h, c, r) == idx as int {
                    lemma_index_inj(h, c, r, x, hcol as int);
                }
            }
            assert forall|c: int, r: int|
                0 <= c < self@.width && 0 <= r <= self@.height implies (#[trigger] bits_of(
                self.current_pieces,
            )[bit_index(self@.height, c, r)]) == (self@.cell(c, r) == Some(next)) by {
                lemma_index_upper(m.width, h, c, r);
                lemma_cell_play(m, x, c, r);
                lemma_cell_filled(m, c, r);
                if bit_index(h, c, r) == idx as int {
                    lemma_index_inj(h, c, r, x, hcol as int);
                }
                assert(self@.cell(c, r) is None || self@.cell(c, r) == Some(Piece::Blue)
                    || self@.cell(c, r) == Some(Piece::Red));
            }
            assert(occ_matches(self@, bits_of(self.all_pieces)));
            assert(mask_matches(self@, bits_of(self.current_pieces), next));
        }
        Ok(())
    }

    fn undo_last_move(&mut self) {
        let ghost m = self@;
        proof {
            assert(m.move_ok(m.moves.len() - 1));
            assert(self.moves@[self.moves@.len() - 1] as int == m.moves[m.moves.len() - 1]);
        }
        let col = self.moves[self.moves.len() - 1];
        let _ = self.moves.pop();
        let hcol = self.heights[col];
        proof {
            lemma_count_col_push(m.undo().moves, col as int, col as int);
            assert(m.undo().moves.push(col as int) =~= m.moves);
            lemma_count_col_bounds(m.undo().moves, col as int);
            lemma_col_height_le(m, col as int);
            lemma_mask_len_bound(m.width, m.height);
            lemma_index_upper(m.width, m.height, col as int, hcol as int - 1);
        }
        let idx = col * (self.height + 1) + (hcol - 1);
        self.current_pieces = bits_xor(&self.all_pieces, &self.current_pieces);
        bits_set(&mut self.all_pieces, idx, false);
        bits_set(&mut self.current_pieces, idx, false);
        self.heights.set(col, hcol - 1);
        proof {
            let u = m.undo();
            let h = m.height;
            assert(self@.moves =~= u.moves);
            assert(self@ =~= u);
            lemma_wf_undo(m);
            assert(u.play(col as int) =~= m);
            assert forall|c: int| 0 <= c < self.width implies (#[trigger] self.heights@[c]) as int
                == count_col(self@.moves, c) by {
                lemma_count_col_push(u.moves, c, col as int);
            }
            let mover = mover_of_ply(m.num_moves());
            let prev = mover_of_ply(u.num_moves());
            assert(prev != mover);
            assert forall|c: int, r: int|
                0 <= c < self@.width && 0 <= r <= self@.height implies (#[trigger] bits_of(
                self.all_pieces,
            )[bit_index(self@.height, c, r)]) == (self@.cell(c, r) is Some) by {
                lemma_index_upper(u.width, h, c, r);
                lemma_cell_play(u, col as int, c, r);
                lemma_cell_filled(m, c, r);
                if bit_index(h, c, r) == idx as int {
                    lemma_index_inj(h, c, r, col as int, hcol as int - 1);
                    lemma_cell_filled(u, c, r);
                }
            }
            assert forall|c: int, r: int|
                0 <= c < self@.width && 0 <= r <= self@.height implies (#[trigger] bits_of(
                self.current_pieces,
            )[bit_index(self@.height, c, r)]) == (self@.cell(c, r) == Some(prev)) by {
                lemma_index_upper(u.width, h, c, r);
                lemma_cell_play(u, col as int, c, r);
                lemma_cell_filled(m, c, r);
                if bit_index(h, c, r) == idx as int {
                    lemma_index_inj(h, c, r, col as int, hcol as int - 1);
                    lemma_cell_filled(u, c, r);
                }
                assert(m.cell(c, r) is None || m.cell(c, r) == Some(Piece::Blue) || m.cell(c, r)
                    == Some(Piece::Red));
            }
            assert(occ_matches(self@, bits_of(self.all_pieces)));
            assert(mask_matches(self@, bits_of(self.current_pieces), prev));
        }
    }
}

impl Default for AltBitBoard {
    /// The standard seven-by-six board with no moves.
    fn default() -> (b: Self)
        ensures
            b.inv(),
            b@ == (BoardModel { width: 7, height: 6, moves: Seq::empty() }),
    {
        Board::new(7, 6)
    }
}

} // verus!

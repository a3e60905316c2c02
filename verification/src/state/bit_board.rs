//! The bit-packed board representation: two fixed-width bit-vectors, one
//! marking every occupied cell and one marking the first mover's cells,
//! addressed column-major with one always-zero guard bit per column. Win
//! detection is a constant number of word-level shift-and-AND operations;
//! the guard bit blocks the cross-column false positives a plain shift
//! would otherwise produce.

use vstd::prelude::*;

use crate::bits::{
    bits_any, bits_and, bits_get, bits_of, bits_repeat, bits_set, bits_shift_down, bits_xor,
    BitWords,
};
use crate::model::{
    count_col, lemma_cell_filled, lemma_cell_play, lemma_col_height_le, lemma_count_col_bounds,
    lemma_count_col_push, lemma_wf_play, lemma_wf_undo, mover_of_ply, BoardModel,
};
use crate::state::{compute_column_order, Board, MoveError, Outcome, Piece};
use vstd::arithmetic::div_mod::{lemma_fundamental_div_mod, lemma_mod_bound};

verus! {

/// Bit position of the cell at column `c`, row `r`: column-major, with
/// `h + 1` bit positions per column so that position `(c, h)` is the
/// column's guard bit, never set.
pub(crate) open spec fn bit_index(h: int, c: int, r: int) -> int {
    c * (h + 1) + r
}

/// Total number of bit positions for a board of the given dimensions.
pub(crate) open spec fn mask_len(w: int, h: int) -> int {
    w * (h + 1)
}

/// The mask marks exactly the cells of `m` holding a piece of colour `p`;
/// every other bit, guard bits included, is clear.
pub(crate) open spec fn mask_matches(m: BoardModel, mask: Seq<bool>, p: Piece) -> bool {
    &&& mask.len() == mask_len(m.width, m.height)
    &&& forall|c: int, r: int|
        0 <= c < m.width && 0 <= r <= m.height ==> (#[trigger] mask[bit_index(m.height, c, r)])
            == (m.cell(c, r) == Some(p))
}

/// The mask marks exactly the occupied cells of `m`.
pub(crate) open spec fn occ_matches(m: BoardModel, mask: Seq<bool>) -> bool {
    &&& mask.len() == mask_len(m.width, m.height)
    &&& forall|c: int, r: int|
        0 <= c < m.width && 0 <= r <= m.height ==> (#[trigger] mask[bit_index(m.height, c, r)])
            == (m.cell(c, r) is Some)
}

/// The bit-distance between a cell and its neighbour in direction `d`
/// (`crate::model::dir_dc`/`dir_dr`): one for vertical, `h + 1` for
/// horizontal, and `h + 2` / `h` for the two diagonals.
spec fn dir_stride(h: int, d: int) -> int {
    if d == 0 {
        h + 1
    } else if d == 1 {
        1
    } else if d == 2 {
        h + 2
    } else {
        h
    }
}

/// Four set bits spaced `s` apart, starting at `i`.
spec fn quad_at(mask: Seq<bool>, s: int, i: int) -> bool {
    &&& 0 <= i
    &&& i + 3 * s < mask.len()
    &&& mask[i]
    &&& mask[i + s]
    &&& mask[i + 2 * s]
    &&& mask[i + 3 * s]
}

/// Some four set bits spaced `s` apart.
spec fn has_quad(mask: Seq<bool>, s: int) -> bool {
    exists|i: int| quad_at(mask, s, i)
}

/// Every cell position has a bit position inside the mask.
pub(crate) proof fn lemma_index_upper(w: int, h: int, c: int, r: int)
    requires
        0 <= c < w,
        0 <= r <= h,
    ensures
        0 <= bit_index(h, c, r) < mask_len(w, h),
{
    assert(0 <= c * (h + 1) + r < w * (h + 1)) by (nonlinear_arith)
        requires
            0 <= c < w,
            0 <= r <= h,
    ;
}

/// Moving `k` columns over adds `k` strides to the bit position.
proof fn lemma_index_shift(h: int, c: int, r: int, k: int)
    ensures
        bit_index(h, c + k, r) == bit_index(h, c, r) + k * (h + 1),
{
    assert((c + k) * (h + 1) == c * (h + 1) + k * (h + 1)) by (nonlinear_arith);
}

/// The mask of any admissible board fits comfortably in a machine word.
pub(crate) proof fn lemma_mask_len_bound(w: int, h: int)
    requires
        0 <= w <= 0x7FFF,
        0 <= h <= 0x7FFF,
    ensures
        0 <= mask_len(w, h) <= 0x4000_0000,
{
    assert(0 <= w * (h + 1) <= 0x4000_0000) by (nonlinear_arith)
        requires
            0 <= w <= 0x7FFF,
            0 <= h <= 0x7FFF,
    ;
}

/// Distinct cells have distinct bit positions.
pub(crate) proof fn lemma_index_inj(h: int, c1: int, r1: int, c2: int, r2: int)
    requires
        0 <= h,
        0 <= c1,
        0 <= r1 <= h,
        0 <= c2,
        0 <= r2 <= h,
        bit_index(h, c1, r1) == bit_index(h, c2, r2),
    ensures
        c1 == c2,
        r1 == r2,
{
    assert(c1 == c2 && r1 == r2) by (nonlinear_arith)
        requires
            0 <= h,
            0 <= c1,
            0 <= r1 <= h,
            0 <= c2,
            0 <= r2 <= h,
            c1 * (h + 1) + r1 == c2 * (h + 1) + r2,
    ;
}

/// Every bit position inside the mask is the bit position of some cell.
proof fn lemma_index_decompose(w: int, h: int, i: int)
    requires
        0 <= h,
        0 <= i < mask_len(w, h),
    ensures
        exists|c: int, r: int| 0 <= c < w && 0 <= r <= h && i == bit_index(h, c, r),
{
    let d = h + 1;
    lemma_fundamental_div_mod(i, d);
    lemma_mod_bound(i, d);
    let c = i / d;
    let r = i % d;
    assert(0 <= c < w) by (nonlinear_arith)
        requires
            d * c + r == i,
            0 <= i < w * d,
            0 <= r < d,
            0 < d,
    ;
    assert(i == bit_index(h, c, r)) by (nonlinear_arith)
        requires
            d * c + r == i,
            d == h + 1,
    ;
}

/// A set bit of a matching mask lies strictly below its column's guard bit.
proof fn lemma_mask_bit(m: BoardModel, mask: Seq<bool>, p: Piece, c: int, r: int)
    requires
        m.wf(),
        mask_matches(m, mask, p),
        0 <= c < m.width,
        0 <= r <= m.height,
    ensures
        mask[bit_index(m.height, c, r)] == (m.cell(c, r) == Some(p)),
        mask[bit_index(m.height, c, r)] ==> r < m.height,
{
    if m.cell(c, r) is Some {
        lemma_cell_filled(m, c, r);
        lemma_col_height_le(m, c);
    }
}

/// Instantiates the column-shift identity for the offsets the direction
/// proofs need.
proof fn proof_index_shifts(h: int, c: int, r: int)
    ensures
        bit_index(h, c + 1, r) == bit_index(h, c, r) + (h + 1),
        bit_index(h, c + 2, r) == bit_index(h, c, r) + 2 * (h + 1),
        bit_index(h, c + 3, r) == bit_index(h, c, r) + 3 * (h + 1),
        forall|r2: int| #[trigger]
            bit_index(h, c + 1, r2) == bit_index(h, c, r) + (h + 1) + (r2 - r),
        forall|r2: int| #[trigger]
            bit_index(h, c + 2, r2) == bit_index(h, c, r) + 2 * (h + 1) + (r2 - r),
        forall|r2: int| #[trigger]
            bit_index(h, c + 3, r2) == bit_index(h, c, r) + 3 * (h + 1) + (r2 - r),
{
    lemma_index_shift(h, c, r, 1);
    lemma_index_shift(h, c, r, 2);
    lemma_index_shift(h, c, r, 3);
    assert forall|r2: int| #[trigger]
        bit_index(h, c + 1, r2) == bit_index(h, c, r) + (h + 1) + (r2 - r) by {
        lemma_index_shift(h, c, r2, 1);
        assert(bit_index(h, c, r2) == bit_index(h, c, r) + (r2 - r));
    }
    assert forall|r2: int| #[trigger]
        bit_index(h, c + 2, r2) == bit_index(h, c, r) + 2 * (h + 1) + (r2 - r) by {
        lemma_index_shift(h, c, r2, 2);
        assert(bit_index(h, c, r2) == bit_index(h, c, r) + (r2 - r));
    }
    assert forall|r2: int| #[trigger]
        bit_index(h, c + 3, r2) == bit_index(h, c, r) + 3 * (h + 1) + (r2 - r) by {
        lemma_index_shift(h, c, r2, 3);
        assert(bit_index(h, c, r2) == bit_index(h, c, r) + (r2 - r));
    }
}

/// Four aligned bits at the stride of direction `d` decompose into four
/// aligned in-grid cells of colour `p`: the guard bits rule out every
/// cross-column reading of the bit pattern.
proof fn lemma_quad_to_window(m: BoardModel, mask: Seq<bool>, p: Piece, d: int)
    requires
        m.wf(),
        mask_matches(m, mask, p),
        0 <= d < 4,
        has_quad(mask, dir_stride(m.height, d)),
    ensures
        exists|c: int, r: int| m.win_window(p, c, r, d),
{
    let w = m.width;
    let h = m.height;
    let s = dir_stride(h, d);
    let i = choose|i: int| quad_at(mask, s, i);
    lemma_index_decompose(w, h, i);
    let (c, r) = choose|c: int, r: int| 0 <= c < w && 0 <= r <= h && i == bit_index(h, c, r);
    lemma_mask_bit(m, mask, p, c, r);
    proof_index_shifts(h, c, r);
    if d == 0 {
        assert(i + s == bit_index(h, c + 1, r));
        assert(i + 2 * s == bit_index(h, c + 2, r));
        assert(i + 3 * s == bit_index(h, c + 3, r));
        assert(c + 3 < w) by (nonlinear_arith)
            requires
                (c + 3) * (h + 1) + r < w * (h + 1),
                0 <= r,
                0 <= h,
        ;
        lemma_mask_bit(m, mask, p, c + 1, r);
        lemma_mask_bit(m, mask, p, c + 2, r);
        lemma_mask_bit(m, mask, p, c + 3, r);
        assert(m.win_window(p, c, r, 0));
    } else if d == 1 {
        assert(r < h);
        assert(i + 1 == bit_index(h, c, r + 1));
        lemma_mask_bit(m, mask, p, c, r + 1);
        assert(r + 1 < h);
        assert(i + 2 == bit_index(h, c, r + 2));
        lemma_mask_bit(m, mask, p, c, r + 2);
        assert(r + 2 < h);
        assert(i + 3 == bit_index(h, c, r + 3));
        lemma_mask_bit(m, mask, p, c, r + 3);
        assert(r + 3 < h);
        assert(m.win_window(p, c, r, 1));
    } else if d == 2 {
        assert(i + s == bit_index(h, c + 1, r + 1));
        assert(i + 2 * s == bit_index(h, c + 2, r + 2));
        assert(i + 3 * s == bit_index(h, c + 3, r + 3));
        assert(c + 3 < w) by (nonlinear_arith)
            requires
                (c + 3) * (h + 1) + (r + 3) < w * (h + 1),
                0 <= r,
                0 <= h,
        ;
        assert(r < h);
        lemma_mask_bit(m, mask, p, c + 1, r + 1);
        assert(r + 1 < h);
        lemma_mask_bit(m, mask, p, c + 2, r + 2);
        assert(r + 2 < h);
        lemma_mask_bit(m, mask, p, c + 3, r + 3);
        assert(r + 3 < h);
        assert(m.win_window(p, c, r, 2));
    } else {
        assert(r < h);
        // Were the anchor too close to the column floor, one of the later
        // bits would land exactly on a guard bit.
        if r == 0 {
            assert(i + s == bit_index(h, c, h));
            lemma_mask_bit(m, mask, p, c, h);
            assert(false);
        }
        assert(i + s == bit_index(h, c + 1, r - 1));
        assert((c + 1) * (h + 1) + (r - 1) < w * (h + 1));
        assert(c + 1 < w) by (nonlinear_arith)
            requires
                (c + 1) * (h + 1) + (r - 1) < w * (h + 1),
                0 <= r - 1,
                0 <= h,
        ;
        lemma_mask_bit(m, mask, p, c + 1, r - 1);
        if r == 1 {
            assert(i + 2 * s == bit_index(h, c + 1, h));
            lemma_mask_bit(m, mask, p, c + 1, h);
            assert(false);
        }
        assert(i + 2 * s == bit_index(h, c + 2, r - 2));
        assert(c + 2 < w) by (nonlinear_arith)
            requires
                (c + 2) * (h + 1) + (r - 2) < w * (h + 1),
                0 <= r - 2,
                0 <= h,
        ;
        lemma_mask_bit(m, mask, p, c + 2, r - 2);
        if r == 2 {
            assert(i + 3 * s == bit_index(h, c + 2, h));
            lemma_mask_bit(m, mask, p, c + 2, h);
            assert(false);
        }
        assert(i + 3 * s == bit_index(h, c + 3, r - 3));
        assert(c + 3 < w) by (nonlinear_arith)
            requires
                (c + 3) * (h + 1) + (r - 3) < w * (h + 1),
                0 <= r - 3,
                0 <= h,
        ;
        lemma_mask_bit(m, mask, p, c + 3, r - 3);
        assert(m.win_window(p, c, r, 3));
    }
}

/// Four aligned in-grid cells of colour `p` give four aligned bits at the
/// stride of their direction.
proof fn lemma_window_to_quad(m: BoardModel, mask: Seq<bool>, p: Piece, c: int, r: int, d: int)
    requires
        m.wf(),
        mask_matches(m, mask, p),
        m.win_window(p, c, r, d),
    ensures
        has_quad(mask, dir_stride(m.height, d)),
{
    let w = m.width;
    let h = m.height;
    let s = dir_stride(h, d);
    let i = bit_index(h, c, r);
    let c3 = c + 3 * crate::model::dir_dc(d);
    let r3 = r + 3 * crate::model::dir_dr(d);
    lemma_index_upper(w, h, c3, r3);
    lemma_index_upper(w, h, c, r);
    proof_index_shifts(h, c, r);
    if d == 0 {
        lemma_mask_bit(m, mask, p, c, r);
        lemma_mask_bit(m, mask, p, c + 1, r);
        lemma_mask_bit(m, mask, p, c + 2, r);
        lemma_mask_bit(m, mask, p, c + 3, r);
        assert(i + s == bit_index(h, c + 1, r));
        assert(i + 2 * s == bit_index(h, c + 2, r));
        assert(i + 3 * s == bit_index(h, c + 3, r));
        assert(quad_at(mask, s, i));
    } else if d == 1 {
        lemma_mask_bit(m, mask, p, c, r);
        lemma_mask_bit(m, mask, p, c, r + 1);
        lemma_mask_bit(m, mask, p, c, r + 2);
        lemma_mask_bit(m, mask, p, c, r + 3);
        assert(quad_at(mask, s, i));
    } else if d == 2 {
        lemma_mask_bit(m, mask, p, c, r);
        lemma_mask_bit(m, mask, p, c + 1, r + 1);
        lemma_mask_bit(m, mask, p, c + 2, r + 2);
        lemma_mask_bit(m, mask, p, c + 3, r + 3);
        assert(i + s == bit_index(h, c + 1, r + 1));
        assert(i + 2 * s == bit_index(h, c + 2, r + 2));
        assert(i + 3 * s == bit_index(h, c + 3, r + 3));
        assert(quad_at(mask, s, i));
    } else {
        lemma_mask_bit(m, mask, p, c, r);
        lemma_mask_bit(m, mask, p, c + 1, r - 1);
        lemma_mask_bit(m, mask, p, c + 2, r - 2);
        lemma_mask_bit(m, mask, p, c + 3, r - 3);
        assert(i + s == bit_index(h, c + 1, r - 1));
        assert(i + 2 * s == bit_index(h, c + 2, r - 2));
        assert(i + 3 * s == bit_index(h, c + 3, r - 3));
        assert(quad_at(mask, s, i));
    }
}

/// The word-parallel probe for four aligned bits at stride `s`:
/// `mask AND (mask >> s) AND (mask >> 2s) AND (mask >> 3s)` is nonzero
/// exactly when such a quadruple exists, computed as two shift-AND rounds.
fn has_alignment(mask: &BitWords, s: usize, len: usize) -> (r: bool)
    requires
        1 <= s <= 0x10000,
        len <= 0x4000_0000,
        bits_of(*mask).len() == len,
    ensures
        r == has_quad(bits_of(*mask), s as int),
{
    let ghost ms = bits_of(*mask);
    if 3 * s >= len {
        proof {
            if has_quad(ms, s as int) {
                let i = choose|i: int| quad_at(ms, s as int, i);
                assert(false);
            }
        }
        return false;
    }
    let b1 = bits_shift_down(mask, s);
    let m1 = bits_and(mask, &b1);
    let b2 = bits_shift_down(&m1, 2 * s);
    let m2 = bits_and(&m1, &b2);
    let found = bits_any(&m2);
    proof {
        let si = s as int;
        assert forall|i: int| 0 <= i < len implies (bits_of(m2)[i] == quad_at(ms, si, i)) by {
            assert(bits_of(m1)[i] == (ms[i] && (if i + si < len {
                ms[i + si]
            } else {
                false
            })));
            if i + 2 * si < len {
                assert(bits_of(m1)[i + 2 * si] == (ms[i + 2 * si] && (if i + 3 * si < len {
                    ms[i + 3 * si]
                } else {
                    false
                })));
            }
        }
        if found {
            let i = choose|i: int| 0 <= i < bits_of(m2).len() && bits_of(m2)[i];
            assert(quad_at(ms, si, i));
        }
        if has_quad(ms, si) {
            let i = choose|i: int| quad_at(ms, si, i);
            assert(bits_of(m2)[i]);
        }
    }
    found
}

/// Whether the mask of player `p`'s cells holds four aligned bits in any of
/// the four directions.
pub(crate) fn mask_wins(
    mask: &BitWords,
    width: usize,
    height: usize,
    Ghost(m): Ghost<BoardModel>,
    Ghost(p): Ghost<Piece>,
) -> (r: bool)
    requires
        m.wf(),
        m.width == width,
        m.height == height,
        mask_matches(m, bits_of(*mask), p),
    ensures
        r == m.wins(p),
{
    if height == 0 || width == 0 {
        proof {
            if m.wins(p) {
                let (c, r, d) = choose|c: int, r: int, d: int| m.win_window(p, c, r, d);
            }
        }
        return false;
    }
    proof {
        assert((width as int) * (height as int + 1) <= 0x4000_0000) by (nonlinear_arith)
            requires
                0 <= width as int <= 0x7FFF,
                0 <= height as int + 1 <= 0x8000,
        ;
    }
    let len = width * (height + 1);
    let ghost ms = bits_of(*mask);
    let ghost h = height as int;
    if has_alignment(mask, height + 1, len) {
        proof {
            lemma_quad_to_window(m, ms, p, 0);
        }
        return true;
    }
    if has_alignment(mask, 1, len) {
        proof {
            lemma_quad_to_window(m, ms, p, 1);
        }
        return true;
    }
    if has_alignment(mask, height + 2, len) {
        proof {
            lemma_quad_to_window(m, ms, p, 2);
        }
        return true;
    }
    if has_alignment(mask, height, len) {
        proof {
            lemma_quad_to_window(m, ms, p, 3);
        }
        return true;
    }
    proof {
        if m.wins(p) {
            let (c, r, d) = choose|c: int, r: int, d: int| m.win_window(p, c, r, d);
            lemma_window_to_quad(m, ms, p, c, r, d);
            assert(dir_stride(h, d) == h + 1 || dir_stride(h, d) == 1 || dir_stride(h, d) == h + 2
                || dir_stride(h, d) == h);
        }
    }
    false
}

/// A board stored as two bit-vectors — all occupied cells, and the first
/// mover's cells — plus the move history (for undo) and cached column
/// heights.
pub struct BitBoard {
    blue_pieces: BitWords,
    all_pieces: BitWords,
    height: usize,
    width: usize,
    moves: Vec<usize>,
    heights: Vec<usize>,
}

impl View for BitBoard {
    type V = BoardModel;

    closed spec fn view(&self) -> BoardModel {
        BoardModel {
            width: self.width as int,
            height: self.height as int,
            moves: self.moves@.map_values(|v: usize| v as int),
        }
    }
}

impl BitBoard {
    /// The two bit-vectors and the cached heights agree with the modelled
    /// history, and every guard bit is clear.
    pub closed spec fn well_formed(self) -> bool {
        &&& self@.wf()
        &&& self.heights@.len() == self.width
        &&& forall|c: int|
            0 <= c < self.width ==> (#[trigger] self.heights@[c]) as int == count_col(
                self@.moves,
                c,
            )
        &&& occ_matches(self@, bits_of(self.all_pieces))
        &&& mask_matches(self@, bits_of(self.blue_pieces), Piece::Blue)
    }
}

impl Board for BitBoard {
    open spec fn inv(&self) -> bool {
        self.well_formed()
    }

    proof fn lemma_inv_wf(&self) {
    }

    fn new(width: usize, height: usize) -> (b: Self) {
        proof {
            assert((width as int) * (height as int + 1) <= 0x4000_0000) by (nonlinear_arith)
                requires
                    0 <= width as int <= 0x7FFF,
                    0 <= height as int + 1 <= 0x8000,
            ;
        }
        let bit_size = width * (height + 1);
        let blue_pieces = bits_repeat(bit_size);
        let all_pieces = bits_repeat(bit_size);
        let mut heights: Vec<usize> = Vec::new();
        let mut c: usize = 0;
        while c < width
            invariant
                c <= width,
                heights@.len() == c,
                forall|k: int| 0 <= k < c ==> (#[trigger] heights@[k]) == 0,
            decreases width - c,
        {
            heights.push(0);
            c += 1;
        }
        let b = BitBoard { height, width, blue_pieces, all_pieces, moves: Vec::new(), heights };
        proof {
            assert(b@.moves =~= Seq::<int>::empty());
            assert(b@ =~= (BoardModel {
                width: width as int,
                height: height as int,
                moves: Seq::empty(),
            }));
            assert forall|c0: int, r0: int|
                0 <= c0 < b@.width && 0 <= r0 <= b@.height implies !(#[trigger] bits_of(
                b.all_pieces,
            )[bit_index(b@.height, c0, r0)]) by {
                lemma_index_upper(b@.width, b@.height, c0, r0);
            }
            assert forall|c0: int, r0: int|
                0 <= c0 < b@.width && 0 <= r0 <= b@.height implies !(#[trigger] bits_of(
                b.blue_pieces,
            )[bit_index(b@.height, c0, r0)]) by {
                lemma_index_upper(b@.width, b@.height, c0, r0);
            }
            assert(occ_matches(b@, bits_of(b.all_pieces)));
            assert(mask_matches(b@, bits_of(b.blue_pieces), Piece::Blue));
        }
        b
    }

    fn width(&self) -> (w: usize) {
        self.width
    }

    fn height(&self) -> (h: usize) {
        self.height
    }

    fn column_order(&self) -> (order: Vec<usize>) {
        compute_column_order(self.width)
    }

    fn find_height(&self, col: &usize) -> (h: usize) {
        self.heights[*col]
    }

    fn num_moves(&self) -> (n: usize) {
        self.moves.len()
    }

    fn is_playable(&self, col: &usize) -> (b: bool) {
        proof {
            assert((self.height as int) * (self.width as int) <= 0x3FFF0001) by (nonlinear_arith)
                requires
                    0 <= self.height as int <= 0x7FFF,
                    0 <= self.width as int <= 0x7FFF,
            ;
        }
        *col < self.width && self.moves.len() < self.height * self.width && self.heights[*col]
            < self.height
    }

    fn get_winner(&self) -> (o: Outcome) {
        let ghost m = self@;
        let red_pieces = bits_xor(&self.all_pieces, &self.blue_pieces);
        proof {
            assert forall|c: int, r: int|
                0 <= c < m.width && 0 <= r <= m.height implies (#[trigger] bits_of(
                red_pieces,
            )[bit_index(m.height, c, r)]) == (m.cell(c, r) == Some(Piece::Red)) by {
                lemma_index_upper(m.width, m.height, c, r);
                assert(bits_of(self.all_pieces)[bit_index(m.height, c, r)] == (m.cell(c, r)
                    is Some));
                assert(bits_of(self.blue_pieces)[bit_index(m.height, c, r)] == (m.cell(c, r)
                    == Some(Piece::Blue)));
                assert(bits_of(red_pieces)[bit_index(m.height, c, r)] == (bits_of(
                    self.all_pieces,
                )[bit_index(m.height, c, r)] != bits_of(self.blue_pieces)[bit_index(
                    m.height,
                    c,
                    r,
                )]));
                assert(m.cell(c, r) is None || m.cell(c, r) == Some(Piece::Blue) || m.cell(c, r)
                    == Some(Piece::Red));
            }
            assert(mask_matches(m, bits_of(red_pieces), Piece::Red));
        }
        if mask_wins(&self.blue_pieces, self.width, self.height, Ghost(m), Ghost(Piece::Blue)) {
            return Outcome::Won(Piece::Blue);
        }
        if mask_wins(&red_pieces, self.width, self.height, Ghost(m), Ghost(Piece::Red)) {
            return Outcome::Won(Piece::Red);
        }
        proof {
            assert((self.height as int) * (self.width as int) <= 0x3FFF0001) by (nonlinear_arith)
                requires
                    0 <= self.height as int <= 0x7FFF,
                    0 <= self.width as int <= 0x7FFF,
            ;
        }
        if self.moves.len() >= self.height * self.width {
            Outcome::Draw
        } else {
            Outcome::Undecided
        }
    }

    fn piece_at(&self, col: &usize, row: &usize) -> (p: Option<Piece>) {
        proof {
            lemma_mask_len_bound(self@.width, self@.height);
            lemma_index_upper(self@.width, self@.height, *col as int, *row as int);
        }
        let idx = *col * (self.height + 1) + *row;
        if !bits_get(&self.all_pieces, idx) {
            proof {
                assert(bits_of(self.all_pieces)[bit_index(self@.height, *col as int, *row as int)]
                    == (self@.cell(*col as int, *row as int) is Some));
            }
            None
        } else if bits_get(&self.blue_pieces, idx) {
            Some(Piece::Blue)
        } else {
            proof {
                let cell = self@.cell(*col as int, *row as int);
                assert(cell is Some && cell != Some(Piece::Blue));
                assert(cell == Some(Piece::Red));
            }
            Some(Piece::Red)
        }
    }

    fn make_move(&mut self, col: &usize) -> (r: Result<(), MoveError>) {
        let ghost m = self@;
        if !(*col < self.width) {
            return Err(MoveError::InvalidColumn);
        }
        proof {
            assert((self.height as int) * (self.width as int) <= 0x3FFF0001) by (nonlinear_arith)
                requires
                    0 <= self.height as int <= 0x7FFF,
                    0 <= self.width as int <= 0x7FFF,
            ;
        }
        if !(self.moves.len() < self.height * self.width) {
            return Err(MoveError::ColumnFull);
        }
        let hcol = self.heights[*col];
        if !(hcol < self.height) {
            return Err(MoveError::ColumnFull);
        }
        assert(m.playable(*col as int));
        proof {
            lemma_mask_len_bound(m.width, m.height);
            lemma_index_upper(m.width, m.height, *col as int, hcol as int);
        }
        let idx = *col * (self.height + 1) + hcol;
        let blue_turn = self.moves.len() % 2 == 0;
        bits_set(&mut self.all_pieces, idx, true);
        if blue_turn {
            bits_set(&mut self.blue_pieces, idx, true);
        }
        self.heights.set(*col, hcol + 1);
        self.moves.push(*col);
        proof {
            let x = *col as int;
            let h = m.height;
            assert(self@.moves =~= m.moves.push(x));
            assert(self@ =~= m.play(x));
            lemma_wf_play(m, x);
            assert forall|c: int| 0 <= c < self.width implies (#[trigger] self.heights@[c]) as int
                == count_col(self@.moves, c) by {
                lemma_count_col_push(m.moves, c, x);
            }
            let mover = mover_of_ply(m.moves.len() as int);
            assert forall|c: int, r: int|
                0 <= c < self@.width && 0 <= r <= self@.height implies (#[trigger] bits_of(
                self.all_pieces,
            )[bit_index(self@.height, c, r)]) == (self@.cell(c, r) is Some) by {
                lemma_index_upper(m.width, h, c, r);
                lemma_cell_play(m, x, c, r);
                lemma_cell_filled(m, c, r);
                if bit_index(h, c, r) == idx as int {
                    lemma_index_inj(h, c, r, x, hcol as int);
                }
            }
            assert forall|c: int, r: int|
                0 <= c < self@.width && 0 <= r <= self@.height implies (#[trigger] bits_of(
                self.blue_pieces,
            )[bit_index(self@.height, c, r)]) == (self@.cell(c, r) == Some(Piece::Blue)) by {
                lemma_index_upper(m.width, h, c, r);
                lemma_cell_play(m, x, c, r);
                lemma_cell_filled(m, c, r);
                if bit_index(h, c, r) == idx as int {
                    lemma_index_inj(h, c, r, x, hcol as int);
                }
            }
            assert(occ_matches(self@, bits_of(self.all_pieces)));
            assert(mask_matches(self@, bits_of(self.blue_pieces), Piece::Blue));
        }
        Ok(())
    }

    fn undo_last_move(&mut self) {
        let ghost m = self@;
        proof {
            assert(m.move_ok(m.moves.len() - 1));
            assert(self.moves@[self.moves@.len() - 1] as int == m.moves[m.moves.len() - 1]);
        }
        let col = self.moves[self.moves.len() - 1];
        let _ = self.moves.pop();
        let hcol = self.heights[col];
        proof {
            lemma_count_col_push(m.undo().moves, col as int, col as int);
            assert(m.undo().moves.push(col as int) =~= m.moves);
            lemma_count_col_bounds(m.undo().moves, col as int);
            lemma_col_height_le(m, col as int);
            lemma_mask_len_bound(m.width, m.height);
            lemma_index_upper(m.width, m.height, col as int, hcol as int - 1);
        }
        let idx = col * (self.height + 1) + (hcol - 1);
        bits_set(&mut self.all_pieces, idx, false);
        bits_set(&mut self.blue_pieces, idx, false);
        self.heights.set(col, hcol - 1);
        proof {
            let u = m.undo();
            let h = m.height;
            assert(self@.moves =~= u.moves);
            assert(self@ =~= u);
            lemma_wf_undo(m);
            assert(u.play(col as int) =~= m);
            assert forall|c: int| 0 <= c < self.width implies (#[trigger] self.heights@[c]) as int
                == count_col(self@.moves, c) by {
                lemma_count_col_push(u.moves, c, col as int);
            }
            assert forall|c: int, r: int|
                0 <= c < self@.width && 0 <= r <= self@.height implies (#[trigger] bits_of(
                self.all_pieces,
            )[bit_index(self@.height, c, r)]) == (self@.cell(c, r) is Some) by {
                lemma_index_upper(u.width, h, c, r);
                lemma_cell_play(u, col as int, c, r);
                lemma_cell_filled(m, c, r);
                if bit_index(h, c, r) == idx as int {
                    lemma_index_inj(h, c, r, col as int, hcol as int - 1);
                    lemma_cell_filled(u, c, r);
                }
            }
            assert forall|c: int, r: int|
                0 <= c < self@.width && 0 <= r <= self@.height implies (#[trigger] bits_of(
                self.blue_pieces,
            )[bit_index(self@.height, c, r)]) == (self@.cell(c, r) == Some(Piece::Blue)) by {
                lemma_index_upper(u.width, h, c, r);
                lemma_cell_play(u, col as int, c, r);
                lemma_cell_filled(m, c, r);
                if bit_index(h, c, r) == idx as int {
                    lemma_index_inj(h, c, r, col as int, hcol as int - 1);
                    lemma_cell_filled(u, c, r);
                }
            }
            assert(occ_matches(self@, bits_of(self.all_pieces)));
            assert(mask_matches(self@, bits_of(self.blue_pieces), Piece::Blue));
        }
    }
}

impl Default for BitBoard {
    /// The standard seven-by-six board with no moves.
    fn default() -> (b: Self)
        ensures
            b.inv(),
            b@ == (BoardModel { width: 7, height: 6, moves: Seq::empty() }),
    {
        Board::new(7, 6)
    }
}

} // verus!

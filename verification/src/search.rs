//! The game-theoretic value of a position, and the negamax/alpha-beta
//! search that computes it.
//!
//! The score convention, from the perspective of the player about to move:
//! `0` is a forced draw, a positive score is a forced win where faster wins
//! score strictly higher (a win with the board holding `n` pieces scores
//! `(capacity + 1 - n) / 2` from the position just before the winning move),
//! and a negative score is the negation of the opponent's forced-win score.
//! The value is defined for positions in which no alignment exists yet.

use vstd::prelude::*;

use crate::model::{
    col_order_at, lemma_col_order_covers, lemma_exists_playable, lemma_num_moves_le_capacity,
    lemma_play_undo, lemma_wf_play, BoardModel,
};
use crate::state::{Board, Outcome};

verus! {

/// The mover has a move that immediately produces an alignment.
pub open spec fn has_winning_move(m: BoardModel) -> bool {
    exists|c: int| m.playable(c) && (#[trigger] m.play(c).winner()) is Some
}

/// The score of winning with the next move.
pub open spec fn win_score(m: BoardModel) -> int {
    (m.capacity() + 1 - m.num_moves()) / 2
}

/// The highest score any non-immediately-winning move can achieve: the
/// opponent moves at least once more before the board can fill.
pub open spec fn best_bound(m: BoardModel) -> int {
    (m.capacity() - 1 - m.num_moves()) / 2
}

/// A value strictly below every reachable score, used as the identity of
/// the running maximum over child positions.
pub open spec fn score_floor(m: BoardModel) -> int {
    -m.capacity() - 1
}

/// The best score the mover can force by playing one of the columns below
/// `j`, or `score_floor(m)` if none of them is playable.
pub open spec fn best_from(m: BoardModel, j: int) -> int
    decreases m.capacity() - m.num_moves(), 0int, j,
{
    if j <= 0 || m.num_moves() >= m.capacity() {
        score_floor(m)
    } else {
        let rest = best_from(m, j - 1);
        if m.playable(j - 1) {
            let child = -spec_score(m.play(j - 1));
            if child > rest {
                child
            } else {
                rest
            }
        } else {
            rest
        }
    }
}

/// The exact value of the position under perfect play: zero once the board
/// is full, the immediate-win score when the mover can align at once, and
/// otherwise the best negated child value.
pub open spec fn spec_score(m: BoardModel) -> int
    decreases m.capacity() - m.num_moves(), 1int, 0int,
{
    if m.num_moves() >= m.capacity() {
        0
    } else if has_winning_move(m) {
        win_score(m)
    } else {
        best_from(m, m.width)
    }
}

/// Any playable column below `j` gives a lower bound on `best_from`.
pub proof fn lemma_best_from_ge(m: BoardModel, c: int, j: int)
    requires
        m.playable(c),
        c < j,
        m.num_moves() < m.capacity(),
    ensures
        best_from(m, j) >= -spec_score(m.play(c)),
    decreases j,
{
    if c < j - 1 {
        lemma_best_from_ge(m, c, j - 1);
    }
}

/// A common bound on all playable columns below `j` bounds `best_from`.
pub proof fn lemma_best_from_le(m: BoardModel, j: int, b: int)
    requires
        score_floor(m) <= b,
        forall|c: int| 0 <= c < j && m.playable(c) ==> -spec_score(#[trigger] m.play(c)) <= b,
    ensures
        best_from(m, j) <= b,
    decreases j,
{
    if j > 0 && m.num_moves() < m.capacity() {
        lemma_best_from_le(m, j - 1, b);
    }
}

/// The value of any position lies between the fastest possible loss and the
/// fastest possible win from it.
pub proof fn lemma_spec_score_bounds(m: BoardModel)
    requires
        m.wf(),
    ensures
        -((m.capacity() - m.num_moves()) / 2) <= spec_score(m) <= (m.capacity() + 1
            - m.num_moves()) / 2,
    decreases m.capacity() - m.num_moves(),
{
    lemma_num_moves_le_capacity(m);
    let cap = m.capacity();
    let n = m.num_moves();
    if n >= cap {
    } else if has_winning_move(m) {
    } else {
        lemma_exists_playable(m);
        let c0 = choose|c: int| m.playable(c);
        assert forall|c: int| 0 <= c < m.width && m.playable(c) implies -spec_score(
            #[trigger] m.play(c),
        ) <= (cap - 1 - n) / 2 by {
            lemma_wf_play(m, c);
            lemma_spec_score_bounds(m.play(c));
        }
        lemma_best_from_le(m, m.width, (cap - 1 - n) / 2);
        lemma_wf_play(m, c0);
        lemma_spec_score_bounds(m.play(c0));
        lemma_best_from_ge(m, c0, m.width);
    }
}

/// The shared implementation of `BoardSearch::is_winning_move`: plays the
/// move, reads the outcome, and undoes the move, restoring the board
/// exactly.
pub fn probe_winning_move<B: Board>(board: &mut B, col: &usize) -> (r: Result<bool, ()>)
    requires
        old(board).inv(),
    ensures
        final(board).inv(),
        final(board)@ == old(board)@,
        r is Ok <==> old(board)@.playable(*col as int),
        r matches Ok(b) ==> (b <==> old(board)@.play(*col as int).winner() is Some),
{
    let ghost m = old(board)@;
    match board.make_move(col) {
        Ok(()) => {
            let outcome = board.get_winner();
            board.undo_last_move();
            proof {
                lemma_play_undo(m, *col as int);
            }
            match outcome {
                Outcome::Won(_) => Ok(true),
                _ => Ok(false),
            }
        },
        Err(_) => Err(()),
    }
}

/// Without an immediate win the mover cannot beat `best_bound`.
pub proof fn lemma_score_no_win_bound(m: BoardModel)
    requires
        m.wf(),
        m.num_moves() < m.capacity(),
        !has_winning_move(m),
    ensures
        spec_score(m) <= best_bound(m),
{
    assert forall|c: int| 0 <= c < m.width && m.playable(c) implies -spec_score(
        #[trigger] m.play(c),
    ) <= best_bound(m) by {
        lemma_wf_play(m, c);
        lemma_spec_score_bounds(m.play(c));
    }
    lemma_best_from_le(m, m.width, best_bound(m));
}

/// The recursive heart of the search: negamax with alpha-beta pruning
/// over the centre-first column order, which the entry point computes once
/// and passes down unchanged.
#[verifier::loop_isolation(false)]
fn negamax_search<B: Board>(board: &mut B, alpha: i32, beta: i32, order: &Vec<usize>) -> (r: i32)
    requires
        old(board).inv(),
        old(board)@.winner() is None,
        -old(board)@.capacity() <= alpha as int,
        alpha < beta,
        beta as int <= old(board)@.capacity(),
        order.len() as int == old(board)@.width,
        forall|i: int| 0 <= i < order.len() ==> #[trigger] (order[i] as int) == col_order_at(
            old(board)@.width,
            i,
        ),
    ensures
        final(board).inv(),
        final(board)@ == old(board)@,
        -old(board)@.capacity() <= r as int <= old(board)@.capacity(),
        r <= alpha ==> spec_score(old(board)@) <= r as int,
        r >= beta ==> spec_score(old(board)@) >= r as int,
        alpha < r < beta ==> r as int == spec_score(old(board)@),
        old(board)@.num_moves() >= old(board)@.capacity() ==> r == 0,
        has_winning_move(old(board)@) ==> r as int == win_score(old(board)@),
        old(board)@.num_moves() < old(board)@.capacity() && !has_winning_move(old(board)@)
            && alpha as int >= best_bound(old(board)@) ==> r as int == best_bound(old(board)@),
    decreases old(board)@.capacity() - old(board)@.num_moves(),
{
    let ghost m = old(board)@;
    proof {
        board.lemma_inv_wf();
        lemma_num_moves_le_capacity(m);
    }
    let w = board.width();
    let h = board.height();
    let n = board.num_moves();
    proof {
        assert((w as int) * (h as int) <= 0x3FFF0001) by (nonlinear_arith)
            requires
                0 <= w as int <= 0x7FFF,
                0 <= h as int <= 0x7FFF,
        ;
    }
    let cap = w * h;
    assert(cap as int == m.capacity());
    if n >= cap {
        proof {
            assert(spec_score(m) == 0);
            assert(!has_winning_move(m)) by {
                if has_winning_move(m) {
                    let c = choose|c: int|
                        m.playable(c) && (#[trigger] m.play(c).winner()) is Some;
                }
            }
        }
        return 0;
    }
    let ghost v = spec_score(m);

    // An immediate alignment is the best possible outcome: take it at once.
    let mut col: usize = 0;
    while col < w
        invariant
            board.inv(),
            board@ == m,
            col <= w,
            forall|c: int|
                0 <= c < col ==> !(m.playable(c) && (#[trigger] m.play(c).winner()) is Some),
        decreases w - col,
    {
        let probe = probe_winning_move(board, &col);
        match probe {
            Ok(true) => {
                let s = (cap + 1 - n) / 2;
                proof {
                    assert(m.playable(col as int) && m.play(col as int).winner() is Some);
                    assert(has_winning_move(m));
                    assert(v == win_score(m));
                    assert(s as int == win_score(m));
                }
                return s as i32;
            },
            _ => {},
        }
        col += 1;
    }
    proof {
        assert(!has_winning_move(m)) by {
            if has_winning_move(m) {
                let c = choose|c: int| m.playable(c) && (#[trigger] m.play(c).winner()) is Some;
                assert(0 <= c < w);
            }
        }
        assert(v == best_from(m, m.width));
        lemma_score_no_win_bound(m);
    }

    // No move can beat `best_bound`, so the window never needs to reach
    // above it; a window already at or above the cap is answered exactly.
    let best = ((cap - 1 - n) / 2) as i32;
    assert(best as int == best_bound(m));
    let mut beta_c = beta;
    if beta_c > best {
        if alpha >= best {
            return best;
        }
        beta_c = best;
    }

    let mut alpha_c = alpha;
    let mut j: usize = 0;
    while j < order.len()
        invariant
            board.inv(),
            board@ == m,
            j <= order.len(),
            alpha <= alpha_c,
            alpha_c < beta_c,
            alpha_c != alpha ==> v >= alpha_c as int,
            forall|c: int|
                0 <= c < m.width && m.playable(c) && (exists|jj: int|
                    0 <= jj < j && (#[trigger] order[jj]) as int == c) ==> -spec_score(
                    #[trigger] m.play(c),
                ) <= alpha_c as int,
        decreases order.len() - j,
    {
        let col = order[j];
        assert(col as int == col_order_at(m.width, j as int));
        if board.is_playable(&col) {
            let ghost child = m.play(col as int);
            proof {
                lemma_wf_play(m, col as int);
                assert(!(child.winner() is Some));
                assert(child.capacity() == m.capacity());
                assert(child.num_moves() == m.num_moves() + 1);
            }
            let _ = board.make_move(&col);
            assert(board@ == child);
            let neg_child = negamax_search(board, -beta_c, -alpha_c, order);
            board.undo_last_move();
            proof {
                lemma_play_undo(m, col as int);
            }
            let ghost vc = spec_score(child);
            let child_score = -neg_child;
            proof {
                lemma_best_from_ge(m, col as int, m.width);
            }
            if child_score >= beta_c {
                proof {
                    // The child failed low in its own window, so its value is
                    // at most what it returned: this move refutes `beta_c`.
                    assert(neg_child <= -beta_c);
                    assert(vc <= neg_child as int);
                    assert(v >= -vc >= child_score as int);
                    if beta_c < beta {
                        assert(beta_c == best);
                        assert(v <= best as int);
                        assert(v == child_score as int);
                    }
                }
                return child_score;
            }
            proof {
                if child_score > alpha_c {
                    assert(-beta_c < neg_child < -alpha_c);
                    assert(vc == neg_child as int);
                    assert(v >= child_score as int);
                } else {
                    assert(neg_child >= -alpha_c);
                    assert(vc >= neg_child as int);
                    assert(-vc <= child_score as int);
                }
            }
            if child_score > alpha_c {
                alpha_c = child_score;
            }
            assert(-spec_score(m.play(col as int)) <= alpha_c as int);
        }
        j += 1;
    }
    proof {
        assert forall|c: int| 0 <= c < m.width && m.playable(c) implies -spec_score(
            #[trigger] m.play(c),
        ) <= alpha_c as int by {
            lemma_col_order_covers(m.width, c);
            let i = choose|i: int| 0 <= i < m.width && col_order_at(m.width, i) == c;
            assert((order[i] as int) == c);
        }
        lemma_best_from_le(m, m.width, alpha_c as int);
        assert(v <= alpha_c as int);
    }
    alpha_c
}

/// Negamax with alpha-beta pruning over a proper window (`alpha < beta`).
///
/// Returns the exact value of the position when it lies inside
/// `[alpha, beta]`; otherwise the result is a bound: at most `alpha` when
/// the value is at most the result, at least `beta` when the value is at
/// least the result. Three returns are fixed regardless of the window: a
/// full board scores zero, a position with an immediate winning move
/// scores exactly `win_score`, and a window whose floor already reaches
/// `best_bound` — the cap no non-winning move can beat — is answered with
/// that cap at once. Every move applied during the search is undone before
/// returning, on every exit path, so the board comes back exactly as it
/// went in.
pub fn negamax<B: Board>(board: &mut B, alpha: i32, beta: i32) -> (r: i32)
    requires
        old(board).inv(),
        old(board)@.winner() is None,
        -old(board)@.capacity() <= alpha as int,
        alpha < beta,
        beta as int <= old(board)@.capacity(),
    ensures
        final(board).inv(),
        final(board)@ == old(board)@,
        -old(board)@.capacity() <= r as int <= old(board)@.capacity(),
        r <= alpha ==> spec_score(old(board)@) <= r as int,
        r >= beta ==> spec_score(old(board)@) >= r as int,
        alpha < r < beta ==> r as int == spec_score(old(board)@),
        old(board)@.num_moves() >= old(board)@.capacity() ==> r == 0,
        has_winning_move(old(board)@) ==> r as int == win_score(old(board)@),
        old(board)@.num_moves() < old(board)@.capacity() && !has_winning_move(old(board)@)
            && alpha as int >= best_bound(old(board)@) ==> r as int == best_bound(old(board)@),
{
    // The centre-first order is a pure function of the width: compute it
    // once here, not at every node of the search.
    let order = board.column_order();
    negamax_search(board, alpha, beta, &order)
}

/// The shared implementation of `BoardSearch::score_in_range`: accepts any
/// window with `alpha <= beta`, including the empty one.
///
/// For a proper window this is `negamax`. The empty window `[alpha, alpha]`
/// is answered through a minimally widened window: the result is exact
/// whenever the value equals `alpha`, and otherwise a bound on the correct
/// side, which is everything an empty window can promise.
pub fn windowed_score<B: Board>(board: &mut B, alpha: i32, beta: i32) -> (s: i32)
    requires
        old(board).inv(),
        old(board)@.winner() is None,
        -old(board)@.capacity() <= alpha as int,
        alpha <= beta,
        beta as int <= old(board)@.capacity(),
    ensures
        final(board).inv(),
        final(board)@ == old(board)@,
        -old(board)@.capacity() <= s as int <= old(board)@.capacity(),
        alpha < beta && s <= alpha ==> spec_score(old(board)@) <= s as int,
        alpha < beta && s >= beta ==> spec_score(old(board)@) >= s as int,
        alpha < s < beta ==> s as int == spec_score(old(board)@),
        spec_score(old(board)@) < alpha as int ==> s <= alpha,
        spec_score(old(board)@) > beta as int ==> s >= beta,
        alpha as int <= spec_score(old(board)@) <= beta as int ==> s as int == spec_score(
            old(board)@,
        ),
        old(board)@.num_moves() >= old(board)@.capacity() ==> s == 0,
        has_winning_move(old(board)@) ==> s as int == win_score(old(board)@),
        old(board)@.num_moves() < old(board)@.capacity() && !has_winning_move(old(board)@)
            && alpha as int >= best_bound(old(board)@) ==> s as int == best_bound(old(board)@),
{
    let ghost m = old(board)@;
    proof {
        board.lemma_inv_wf();
        lemma_num_moves_le_capacity(m);
    }
    let w = board.width();
    let h = board.height();
    let n = board.num_moves();
    proof {
        assert((w as int) * (h as int) <= 0x3FFF0001) by (nonlinear_arith)
            requires
                0 <= w as int <= 0x7FFF,
                0 <= h as int <= 0x7FFF,
        ;
    }
    let cap = w * h;
    assert(cap as int == m.capacity());
    if n >= cap {
        proof {
            assert(spec_score(m) == 0);
            assert(!has_winning_move(m)) by {
                if has_winning_move(m) {
                    let c = choose|c: int|
                        m.playable(c) && (#[trigger] m.play(c).winner()) is Some;
                }
            }
        }
        return 0;
    }
    if alpha < beta {
        negamax(board, alpha, beta)
    } else {
        let cap_i = cap as i32;
        let s = if beta < cap_i {
            negamax(board, alpha, beta + 1)
        } else {
            negamax(board, alpha - 1, beta)
        };
        proof {
            lemma_spec_score_bounds(m);
            if !has_winning_move(m) {
                lemma_score_no_win_bound(m);
            }
        }
        s
    }
}

/// The shared implementation of `BoardSearch::score`: the exact value of the
/// position, obtained by searching the full score window.
pub fn full_score<B: Board>(board: &mut B) -> (s: i32)
    requires
        old(board).inv(),
        old(board)@.winner() is None,
    ensures
        final(board).inv(),
        final(board)@ == old(board)@,
        s as int == spec_score(old(board)@),
{
    let ghost m = old(board)@;
    proof {
        board.lemma_inv_wf();
        lemma_num_moves_le_capacity(m);
    }
    let w = board.width();
    let h = board.height();
    let n = board.num_moves();
    proof {
        assert((w as int) * (h as int) <= 0x3FFF0001) by (nonlinear_arith)
            requires
                0 <= w as int <= 0x7FFF,
                0 <= h as int <= 0x7FFF,
        ;
    }
    let cap = w * h;
    assert(cap as int == m.capacity());
    if n >= cap {
        assert(spec_score(m) == 0);
        return 0;
    }
    let cap_i = cap as i32;
    let s = negamax(board, -cap_i, cap_i);
    proof {
        // At the extremes of the full window the two one-sided bounds meet
        // the a-priori score bounds, so the result is exact there too.
        lemma_spec_score_bounds(m);
    }
    s
}

} // verus!

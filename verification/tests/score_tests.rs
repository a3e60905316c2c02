use connect_four::{BitBoard, Board, BoardSearch, Outcome};

/// Replays a string of single-digit column indices from the current
/// position.
fn replay(board: &mut BitBoard, digits: &str) {
    for ch in digits.chars() {
        let col = ch.to_digit(10).unwrap() as usize;
        board.make_move(&col).unwrap();
    }
}

/// A plain, pruning-free negamax straight from the score definition; the
/// reference the windowed search must agree with exactly.
fn ref_score<B: Board + BoardSearch>(b: &mut B) -> i32 {
    let w = b.width();
    let h = b.height();
    let n = b.num_moves();
    if n >= w * h {
        return 0;
    }
    for c in 0..w {
        if let Ok(true) = b.is_winning_move(&c) {
            return ((w * h + 1 - n) / 2) as i32;
        }
    }
    let mut best = -((w * h) as i32) - 1;
    for c in 0..w {
        if b.is_playable(&c) {
            b.make_move(&c).unwrap();
            let s = -ref_score(b);
            b.undo_last_move();
            if s > best {
                best = s;
            }
        }
    }
    best
}

/// Deterministically grows a winner-free position by playing the first
/// playable, non-winning column of a position-dependent rotation.
fn build_position(board: &mut BitBoard, target_moves: usize, salt: usize) {
    'outer: while board.num_moves() < target_moves {
        let w = board.width();
        let n = board.num_moves();
        for i in 0..w {
            let c = (n * salt + i) % w;
            if board.is_playable(&c) {
                if let Ok(false) = board.is_winning_move(&c) {
                    board.make_move(&c).unwrap();
                    continue 'outer;
                }
            }
        }
        break;
    }
}

#[test]
fn score() {
    // A position with an immediate winning move scores exactly
    // (width * height + 1 - moves) / 2.
    let mut board = BitBoard::default();
    replay(&mut board, "010101");
    assert_eq!(board.score(), 18);

    let mut board = BitBoard::default();
    replay(&mut board, "01010166");
    assert_eq!(board.score(), 17);

    // The windowed search must agree with the pruning-free reference on
    // late-game positions.
    for (target, salt) in [(34usize, 3usize), (35, 5), (34, 2), (36, 1)] {
        let mut board = BitBoard::default();
        build_position(&mut board, target, salt);
        assert_eq!(board.get_winner(), Outcome::Undecided);
        let expected = ref_score(&mut board);
        assert_eq!(board.score(), expected);
    }
}

#[test]
fn score_zero_on_full_and_trivial_boards() {
    // A board too small for any alignment is a forced draw from the start.
    let mut tiny = BitBoard::new(2, 2);
    assert_eq!(tiny.score(), 0);
    replay(&mut tiny, "0011");
    assert_eq!(tiny.score(), 0);
}

#[test]
fn score_in_range_brackets_the_exact_value() {
    let mut board = BitBoard::default();
    replay(&mut board, "010101");
    // The exact value is 18, reached by an immediate winning move, so every
    // window — wide, narrow, or empty — is answered with exactly 18.
    assert_eq!(board.score_in_range(-42, 42), 18);
    assert_eq!(board.score_in_range(0, 42), 18);
    assert_eq!(board.score_in_range(-42, 5), 18);
    assert_eq!(board.score_in_range(18, 18), 18);
    assert_eq!(board.score_in_range(-42, -42), 18);
    assert_eq!(board.score_in_range(42, 42), 18);
    // The board came back from each search unchanged.
    assert_eq!(board.num_moves(), 6);
    assert_eq!(board.get_winner(), Outcome::Undecided);
}

#[test]
fn score_in_range_fixed_returns() {
    // A window whose floor reaches the cap no non-winning move can beat is
    // answered with that cap at once: (42 - 1 - 0) / 2 == 20 on an empty
    // standard board.
    let mut board = BitBoard::default();
    assert_eq!(board.score_in_range(20, 42), 20);
    assert_eq!(board.score_in_range(21, 42), 20);
    assert_eq!(board.score_in_range(42, 42), 20);

    // A full board is a forced draw: zero regardless of the window, the
    // empty one included.
    let mut tiny = BitBoard::new(2, 2);
    replay(&mut tiny, "0011");
    assert_eq!(tiny.score_in_range(-4, 4), 0);
    assert_eq!(tiny.score_in_range(3, 3), 0);
    assert_eq!(tiny.score_in_range(-4, -4), 0);

    // An empty window at the exact value of a quiet position returns it.
    let mut quiet = BitBoard::new(2, 2);
    assert_eq!(quiet.score_in_range(0, 0), 0);
    assert_eq!(quiet.score_in_range(-4, 4), 0);
}

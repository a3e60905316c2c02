use connect_four::{AltBitBoard, BitBoard, Board, FlatBoard, HistBoard, MoveError, Outcome, Piece};

fn render<B: Board>(board: &B) -> String {
    let mut out = String::new();
    let w = board.width();
    let h = board.height();
    for c in 0..w {
        for r in 0..h {
            match board.piece_at(&c, &r) {
                Some(Piece::Blue) => out.push('B'),
                Some(Piece::Red) => out.push('R'),
                None => out.push('.'),
            }
            out.push(' ');
        }
        out.push('\n');
    }
    out
}

#[test]
fn hist_to_flat_conversion() {
    let (height, width) = (6, 7);
    let mut hist_board = HistBoard::new(width, height);
    let moves = vec![0, 1, 2, 3, 4, 1, 3, 2];

    for col in moves {
        let _ = hist_board.make_move(&col);
    }

    let flat = FlatBoard::from(hist_board);
    println!("{}", render(&flat));
}

#[test]
fn bit_board_print_bitboard() {
    let mut bb = BitBoard::default();
    (0..3).for_each(|_| {
        bb.make_move(&2).unwrap();
        bb.make_move(&4).unwrap();
    });
    println!("{}", render(&bb));
}

#[test]
fn bit_board_blue_wins() {
    let mut bb = BitBoard::default();
    (0..3).for_each(|_| {
        bb.make_move(&2).unwrap();
        bb.make_move(&4).unwrap();
    });
    bb.make_move(&2).unwrap();
    assert!(Outcome::Won(Piece::Blue) == bb.get_winner());
}

#[test]
fn bit_board_red_wins() {
    let mut bb = BitBoard::default();
    (0..3).for_each(|_| {
        bb.make_move(&2).unwrap();
        bb.make_move(&4).unwrap();
    });
    bb.make_move(&1).unwrap();
    bb.make_move(&4).unwrap();
    assert!(Outcome::Won(Piece::Red) == bb.get_winner());
}

#[test]
fn vertical_win_detected_immediately() {
    let moves = [0usize, 1, 0, 1, 0, 1, 0];
    let mut bit = BitBoard::new(7, 6);
    let mut flat = FlatBoard::new(7, 6);
    let mut hist = HistBoard::new(7, 6);
    for (i, col) in moves.iter().enumerate() {
        if i < 6 {
            assert_eq!(bit.get_winner(), Outcome::Undecided);
            assert_eq!(flat.get_winner(), Outcome::Undecided);
            assert_eq!(hist.get_winner(), Outcome::Undecided);
        }
        bit.make_move(col).unwrap();
        flat.make_move(col).unwrap();
        hist.make_move(col).unwrap();
    }
    assert_eq!(bit.get_winner(), Outcome::Won(Piece::Blue));
    assert_eq!(flat.get_winner(), Outcome::Won(Piece::Blue));
    assert_eq!(hist.get_winner(), Outcome::Won(Piece::Blue));
}

#[test]
fn full_column_rejection() {
    let mut board = BitBoard::default();
    for _ in 0..6 {
        board.make_move(&1).unwrap();
    }
    let num_moves = board.num_moves();
    let heights: Vec<usize> = (0..7).map(|c| board.find_height(&c)).collect();
    let outcome = board.get_winner();
    assert_eq!(board.make_move(&1), Err(MoveError::ColumnFull));
    assert_eq!(board.width(), 7);
    assert_eq!(board.height(), 6);
    assert_eq!(board.num_moves(), num_moves);
    let heights_after: Vec<usize> = (0..7).map(|c| board.find_height(&c)).collect();
    assert_eq!(heights, heights_after);
    assert_eq!(board.get_winner(), outcome);
}

#[test]
fn invalid_column_rejection() {
    let mut board = FlatBoard::new(7, 6);
    board.make_move(&3).unwrap();
    let num_moves = board.num_moves();
    let heights: Vec<usize> = (0..7).map(|c| board.find_height(&c)).collect();
    assert_eq!(board.make_move(&7), Err(MoveError::InvalidColumn));
    assert_eq!(board.make_move(&100), Err(MoveError::InvalidColumn));
    assert_eq!(board.num_moves(), num_moves);
    let heights_after: Vec<usize> = (0..7).map(|c| board.find_height(&c)).collect();
    assert_eq!(heights, heights_after);
    assert_eq!(board.get_winner(), Outcome::Undecided);
}

#[test]
fn apply_undo_round_trip() {
    let mut board = BitBoard::default();
    for col in [3usize, 3, 2, 4, 2, 2] {
        board.make_move(&col).unwrap();
    }
    for col in 0..7usize {
        let num_moves = board.num_moves();
        let heights: Vec<usize> = (0..7).map(|c| board.find_height(&c)).collect();
        let outcome = board.get_winner();
        if board.is_playable(&col) {
            board.make_move(&col).unwrap();
            assert_eq!(board.num_moves(), num_moves + 1);
            board.undo_last_move();
            assert_eq!(board.num_moves(), num_moves);
            let heights_after: Vec<usize> = (0..7).map(|c| board.find_height(&c)).collect();
            assert_eq!(heights, heights_after);
            assert_eq!(board.get_winner(), outcome);
        }
    }
}

#[test]
fn representations_agree_on_prefixes() {
    let sequences: [&[usize]; 4] = [
        &[0, 1, 0, 1, 0, 1, 0],
        &[2, 4, 2, 4, 2, 4, 1, 4],
        &[3, 3, 3, 3, 3, 3, 2, 2, 4, 4, 0, 6],
        &[0, 1, 2, 3, 4, 5, 6, 6, 5, 4, 3, 2, 1, 0],
    ];
    for seq in sequences {
        let mut bit = BitBoard::new(7, 6);
        let mut flat = FlatBoard::new(7, 6);
        let mut hist = HistBoard::new(7, 6);
        for col in seq {
            let rb = bit.make_move(col);
            let rf = flat.make_move(col);
            let rh = hist.make_move(col);
            assert_eq!(rb, rf);
            assert_eq!(rb, rh);
            assert_eq!(bit.get_winner(), flat.get_winner());
            assert_eq!(bit.get_winner(), hist.get_winner());
            for c in 0..7usize {
                assert_eq!(bit.find_height(&c), flat.find_height(&c));
                assert_eq!(bit.find_height(&c), hist.find_height(&c));
                for r in 0..6usize {
                    assert_eq!(bit.piece_at(&c, &r), flat.piece_at(&c, &r));
                    assert_eq!(bit.piece_at(&c, &r), hist.piece_at(&c, &r));
                }
            }
        }
    }
}

#[test]
fn decided_outcome_persists() {
    let mut board = BitBoard::default();
    for col in [0usize, 1, 0, 1, 0, 1, 0] {
        board.make_move(&col).unwrap();
    }
    assert_eq!(board.get_winner(), Outcome::Won(Piece::Blue));
    board.make_move(&1).unwrap();
    assert_eq!(board.get_winner(), Outcome::Won(Piece::Blue));
}

#[test]
fn reachable_board_bounds() {
    let mut board = HistBoard::new(7, 6);
    let mut guard = 0usize;
    while board.num_moves() < 42 {
        let mut progressed = false;
        for c in 0..7usize {
            if board.is_playable(&c) {
                board.make_move(&c).unwrap();
                progressed = true;
                break;
            }
        }
        assert!(progressed);
        assert!(board.num_moves() <= 42);
        for c in 0..7usize {
            assert!(board.find_height(&c) <= 6);
        }
        guard += 1;
        assert!(guard <= 42);
    }
    assert_eq!(board.make_move(&0), Err(MoveError::ColumnFull));
}

#[test]
fn column_order_centre_first() {
    let board = BitBoard::default();
    assert_eq!(board.column_order(), vec![3, 2, 4, 1, 5, 0, 6]);
    let small = FlatBoard::new(4, 4);
    assert_eq!(small.column_order(), vec![2, 1, 3, 0]);
}

#[test]
fn piece_at_enumerates_cells() {
    let mut board = BitBoard::default();
    for col in [0usize, 1, 0] {
        board.make_move(&col).unwrap();
    }
    assert_eq!(board.piece_at(&0, &0), Some(Piece::Blue));
    assert_eq!(board.piece_at(&0, &1), Some(Piece::Blue));
    assert_eq!(board.piece_at(&1, &0), Some(Piece::Red));
    assert_eq!(board.piece_at(&1, &1), None);
    assert_eq!(board.piece_at(&2, &0), None);
}

#[test]
fn tiny_board_fills_to_draw() {
    let mut board = BitBoard::new(2, 2);
    for col in [0usize, 0, 1, 1] {
        assert_eq!(board.get_winner(), Outcome::Undecided);
        board.make_move(&col).unwrap();
    }
    assert_eq!(board.get_winner(), Outcome::Draw);
    assert_eq!(board.make_move(&0), Err(MoveError::ColumnFull));
    assert_eq!(board.make_move(&5), Err(MoveError::InvalidColumn));
}

#[test]
fn alt_bit_board_print_bitboard() {
    let mut bb = AltBitBoard::default();
    (0..3).for_each(|_| {
        bb.make_move(&2).unwrap();
        bb.make_move(&4).unwrap();
    });
    println!("{}", render(&bb));
}

#[test]
fn alt_bit_board_blue_wins() {
    let mut bb = AltBitBoard::default();
    (0..3).for_each(|_| {
        bb.make_move(&2).unwrap();
        bb.make_move(&4).unwrap();
    });
    bb.make_move(&2).unwrap();
    assert!(Outcome::Won(Piece::Blue) == bb.get_winner());
}

#[test]
fn alt_bit_board_red_wins() {
    let mut bb = AltBitBoard::default();
    (0..3).for_each(|_| {
        bb.make_move(&2).unwrap();
        bb.make_move(&4).unwrap();
    });
    bb.make_move(&1).unwrap();
    bb.make_move(&4).unwrap();
    assert!(Outcome::Won(Piece::Red) == bb.get_winner());
}

#[test]
fn alt_bit_board_reset_clears_the_board() {
    let mut bb = AltBitBoard::default();
    for col in [0usize, 1, 0, 1, 0, 1, 0] {
        bb.make_move(&col).unwrap();
    }
    assert_eq!(bb.get_winner(), Outcome::Won(Piece::Blue));
    bb.reset();
    assert_eq!(bb.num_moves(), 0);
    assert_eq!(bb.width(), 7);
    assert_eq!(bb.height(), 6);
    for c in 0..7usize {
        assert_eq!(bb.find_height(&c), 0);
    }
    assert_eq!(bb.get_winner(), Outcome::Undecided);
}

#[test]
fn alt_bit_board_agrees_with_the_others() {
    let seq: [usize; 12] = [3, 3, 3, 3, 3, 3, 2, 2, 4, 4, 0, 6];
    let mut alt = AltBitBoard::new(7, 6);
    let mut bit = BitBoard::new(7, 6);
    for col in seq {
        let ra = alt.make_move(&col);
        let rb = bit.make_move(&col);
        assert_eq!(ra, rb);
        assert_eq!(alt.get_winner(), bit.get_winner());
        for c in 0..7usize {
            assert_eq!(alt.find_height(&c), bit.find_height(&c));
            for r in 0..6usize {
                assert_eq!(alt.piece_at(&c, &r), bit.piece_at(&c, &r));
            }
        }
    }
}

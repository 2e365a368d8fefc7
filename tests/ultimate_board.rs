use mcts::ultimate::{Index, Piece, Position, PositionError, TicTacToe, TicTacToeError};

#[test]
fn create_test() {
    assert_eq!(TicTacToe::new(Piece::Empty).is_err(), true);
    assert_eq!(TicTacToe::new(Piece::X).is_ok(), true);
    assert_eq!(TicTacToe::new(Piece::O).is_ok(), true);
}

#[test]
fn position_convertion() {
    for i in 0usize..81 {
        let p = i.position();
        assert_eq!(p.index(), i);
    }

    for i in 0usize..9 {
        for j in 0usize..9 {
            let p = Position(i, j);
            let v = i + 9 * j;
            assert_eq!(v.position(), p);
        }
    }
}

#[test]
fn play_out_of_bound() {
    assert_eq!(
        TicTacToe::new(Piece::X)
            .unwrap()
            .place_next_piece(81usize.position())
            .is_err(),
        true
    );
}

#[test]
fn play_same_place() {
    assert_eq!(
        TicTacToe::new(Piece::X)
            .unwrap()
            .place_next_piece(Position(0, 0))
            .unwrap()
            .place_next_piece(Position(1, 1))
            .unwrap()
            .place_next_piece(Position(0, 0))
            .is_err(),
        true
    );
    assert_eq!(
        TicTacToe::new(Piece::X)
            .unwrap()
            .place_next_piece(Position(0, 0))
            .unwrap()
            .place_next_piece(Position(0, 0))
            .is_err(),
        true
    );
}

#[test]
fn right_moves() {
    let mut t = TicTacToe::new(Piece::O).unwrap();
    assert_eq!(t.valid_moves().len(), 81);
    t = t.place_next_piece(Position(0, 0)).unwrap();
    assert_eq!(
        t.valid_moves().sort(),
        vec![
            Position(0, 1).index(),
            Position(0, 2).index(),
            Position(1, 0).index(),
            Position(1, 1).index(),
            Position(1, 2).index(),
            Position(2, 0).index(),
            Position(2, 1).index(),
            Position(2, 2).index(),
        ]
        .sort()
    );
    assert_eq!(t.clone().place_next_piece(Position(0, 3)).is_err(), true);

    t = t.place_next_piece(Position(1, 0)).unwrap();
    assert_eq!(
        t.valid_moves().sort(),
        vec![
            Position(3, 0).index(),
            Position(3, 1).index(),
            Position(3, 2).index(),
            Position(4, 0).index(),
            Position(4, 1).index(),
            Position(4, 2).index(),
            Position(5, 0).index(),
            Position(5, 1).index(),
            Position(5, 2).index(),
        ]
        .sort()
    );

    t = t.place_next_piece(Position(3, 0)).unwrap();
    assert_eq!(
        t.valid_moves().sort(),
        vec![
            Position(0, 1).index(),
            Position(0, 2).index(),
            Position(1, 1).index(),
            Position(1, 2).index(),
            Position(2, 0).index(),
            Position(2, 1).index(),
            Position(2, 2).index(),
        ]
        .sort()
    );

    t = t.place_next_piece(Position(1, 1)).unwrap();
}

#[test]
fn play_valid_but_not_right_move() {
    assert_eq!(
        TicTacToe::new(Piece::X)
            .unwrap()
            .place_next_piece(Position(0, 0))
            .unwrap()
            .place_next_piece(Position(0, 3))
            .is_err(),
        true
    );
}

fn idx(x: usize, y: usize) -> usize {
    Position(x, y).index()
}

#[test]
fn moves_follow_the_named_square() {
    let mut t = TicTacToe::new(Piece::O).unwrap();
    t = t.place_next_piece(Position(0, 0)).unwrap();
    let mut got = t.valid_moves();
    got.sort();
    let want = vec![idx(1, 0), idx(2, 0), idx(0, 1), idx(1, 1), idx(2, 1), idx(0, 2), idx(1, 2), idx(2, 2)];
    assert_eq!(got, want);

    t = t.place_next_piece(Position(1, 0)).unwrap();
    let got = t.valid_moves();
    let want = vec![idx(3, 0), idx(4, 0), idx(5, 0), idx(3, 1), idx(4, 1), idx(5, 1), idx(3, 2), idx(4, 2), idx(5, 2)];
    assert_eq!(got, want);

    t = t.place_next_piece(Position(3, 0)).unwrap();
    let got = t.valid_moves();
    let want = vec![idx(2, 0), idx(0, 1), idx(1, 1), idx(2, 1), idx(0, 2), idx(1, 2), idx(2, 2)];
    assert_eq!(got, want);
}

#[test]
fn errors_name_their_cause() {
    let t = TicTacToe::new(Piece::X).unwrap().place_next_piece(Position(0, 0)).unwrap();
    match t.clone().place_next_piece(Position(0, 0)) {
        Err(TicTacToeError::PieceNotAllowd(p)) => assert_eq!(p.0, Piece::X),
        _ => panic!("expected an occupied cell"),
    }
    match t.clone().place_next_piece(Position(0, 3)) {
        Err(TicTacToeError::NotAValidMove(m)) => {
            assert_eq!(m.0, Position(0, 3));
            assert_eq!(m.1.len(), 8);
            assert_eq!(m.1[0], Position(1, 0));
        }
        _ => panic!("expected a move outside the named square"),
    }
    assert!(matches!(t.clone().place_next_piece(Position(0, 9)), Err(TicTacToeError::OutOfBound(_))));
    assert!(matches!(t.place_next_piece(Position(usize::MAX, usize::MAX)), Err(TicTacToeError::OutOfBound(_))));
    match TicTacToe::new(Piece::Empty) {
        Err(TicTacToeError::PieceNotAllowd(p)) => assert_eq!(p.0, Piece::Empty),
        _ => panic!("expected a refused starter"),
    }
}

#[test]
fn square_and_board_winners() {
    let mut t = TicTacToe::new(Piece::X).unwrap();
    for (x, y) in [(0, 0), (1, 0), (3, 0), (1, 1), (3, 3), (1, 2)] {
        t = t.place_next_piece(Position(x, y)).unwrap();
    }
    assert_eq!(t.check_winner_local(Position(0, 0)), Piece::O);
    assert_eq!(t.check_square_full(Position(0, 0)), true);
    assert_eq!(t.check_square_full(Position(3, 0)), false);
    assert_eq!(t.check_winner(), Piece::Empty);
}

#[test]
fn piece_alternates() {
    assert_eq!(Piece::X.next(), Piece::O);
    assert_eq!(Piece::O.next(), Piece::X);
    assert_eq!(Piece::Empty.next(), Piece::Empty);
    assert_eq!(Position(4, 7).get_first(), Position(3, 6));
}

#[test]
fn positions_read_from_text() {
    assert_eq!(Position::from_string("3 4".to_string()).unwrap(), Position(3, 4));
    assert_eq!(Position::from_string("+12 0 junk".to_string()).unwrap(), Position(12, 0));
    assert!(matches!(Position::from_string("7".to_string()), Err(PositionError::Empty(_))));
    assert!(matches!(Position::from_string("".to_string()), Err(PositionError::NotANumber)));
    assert!(matches!(Position::from_string("a 1".to_string()), Err(PositionError::NotANumber)));
    assert!(matches!(Position::from_string("1  2".to_string()), Err(PositionError::NotANumber)));
    assert!(matches!(Position::from_string("1 -2".to_string()), Err(PositionError::NotANumber)));
    assert!(matches!(
        Position::from_string("99999999999999999999999 1".to_string()),
        Err(PositionError::NotANumber)
    ));
    assert_eq!(Position::from_string(format!("{} 5", usize::MAX)).unwrap(), Position(usize::MAX, 5));
}

#[test]
fn positions_written_as_text() {
    assert_eq!(Position(3, 4).format(), "3 4");
    assert_eq!(Position(120, 0).format(), "120 0");
    let p = Position(8, 17);
    assert_eq!(Position::from_string(p.format()).unwrap(), p);
}

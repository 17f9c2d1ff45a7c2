use ataxx::Move;
use ataxx::MoveError;
use ataxx::Square;
use ataxx::SquareIdx;

#[test]
fn from() {
    assert_eq!(Move::Pass.from(), None);
    assert_eq!(Move::Drop(Square::from_index(SquareIdx::A1)).from(), None);
    assert_eq!(
        Move::Jump(
            Square::from_index(SquareIdx::A1),
            Square::from_index(SquareIdx::A3)
        )
        .from(),
        Some(Square::from_index(SquareIdx::A1))
    );
}

#[test]
fn to() {
    assert_eq!(Move::Pass.to(), None);
    assert_eq!(
        Move::Drop(Square::from_index(SquareIdx::A1)).to(),
        Some(Square::from_index(SquareIdx::A1))
    );
    assert_eq!(
        Move::Jump(
            Square::from_index(SquareIdx::A1),
            Square::from_index(SquareIdx::A3)
        )
        .to(),
        Some(Square::from_index(SquareIdx::A3))
    );
}

#[test]
fn is_single() {
    assert!(Move::Pass.is_pass());
    assert!(!Move::Pass.is_single());
    assert!(!Move::Pass.is_double());

    assert!(!Move::Drop(Square::from_index(SquareIdx::A1)).is_pass());
    assert!(Move::Drop(Square::from_index(SquareIdx::A1)).is_single());
    assert!(!Move::Drop(Square::from_index(SquareIdx::A1)).is_double());

    assert!(!Move::Jump(
        Square::from_index(SquareIdx::A1),
        Square::from_index(SquareIdx::A3)
    )
    .is_pass());
    assert!(!Move::Jump(
        Square::from_index(SquareIdx::A1),
        Square::from_index(SquareIdx::A3)
    )
    .is_single());
    assert!(Move::Jump(
        Square::from_index(SquareIdx::A1),
        Square::from_index(SquareIdx::A3)
    )
    .is_double());
}

#[test]
fn moves_string_parsing() {
    let tests = ["0000", "a1", "g7", "a1c3", "g7e5"];

    for movestr in tests {
        let mv = Move::from_string(movestr).unwrap();
        assert_eq!(mv.to_string(), movestr);
    }
}

// Format then parse is the identity on the pass token, placements and
// jumps over board cells.
#[test]
fn moves_format_parse_identity() {
    let samples = [
        Move::Pass,
        Move::Drop(Square(0)),
        Move::Drop(Square(24)),
        Move::Drop(Square(48)),
        Move::Jump(Square(0), Square(16)),
        Move::Jump(Square(48), Square(34)),
    ];
    for mv in samples {
        let text = mv.to_string();
        assert_eq!(Move::from_string(text.as_str()).unwrap(), mv);
    }
}

#[test]
fn moves_string_errors() {
    assert_eq!(Move::from_string(""), Err(MoveError::WrongLength));
    assert_eq!(Move::from_string("a"), Err(MoveError::WrongLength));
    assert_eq!(Move::from_string("a1c"), Err(MoveError::WrongLength));
    assert_eq!(Move::from_string("a1c3x"), Err(MoveError::WrongLength));
    assert_eq!(Move::from_string("h1"), Err(MoveError::BadSquare));
    assert_eq!(Move::from_string("a8"), Err(MoveError::BadSquare));
    assert_eq!(Move::from_string("a1z9"), Err(MoveError::BadSquare));
}

use ataxx::FenError;
use ataxx::Position;

#[test]
fn fen() {
    let tests: [&str; 8] = [
        "7/7/7/7/7/7/7 x 0 1",
        "7/7/7/7/7/7/7 o 0 1",
        "x5o/7/7/7/7/7/o5x x 0 1",
        "x5o/7/7/7/7/7/o5x o 0 1",
        "x5o/7/2-1-2/7/2-1-2/7/o5x x 0 1",
        "x5o/7/2-1-2/7/2-1-2/7/o5x o 0 1",
        "x5o/7/2-1-2/7/2-1-2/7/o5x x 20 40",
        "x5o/7/2-1-2/7/2-1-2/7/o5x o 20 40",
    ];

    for fen in tests {
        let pos = Position::from_fen(fen).unwrap();
        assert_eq!(pos.get_fen(), fen);
    }
}

#[test]
fn fen_startpos() {
    let a = Position::from_fen("startpos").unwrap();
    let b = Position::from_fen("x5o/7/7/7/7/7/o5x x 0 1").unwrap();
    assert_eq!(a, b);
    assert_eq!(a.get_fen(), "x5o/7/7/7/7/7/o5x x 0 1");
}

// Parsing then serialising again is the identity on parsed positions.
#[test]
fn fen_parse_serialize_parse() {
    let tests: [&str; 4] = [
        "x5o/7/7/7/7/7/o5x x 0 1",
        "x5o/7/2-1-2/7/2-1-2/7/o5x o 20 40",
        "xxxxxxx/ooooooo/xxxxxxx/ooooooo/xxxxxxx/ooooooo/xxxxxxx o 99 4294967295",
        "7/7/7/7/-------/-------/ooooxxx x 0 1",
    ];
    for fen in tests {
        let pos = Position::from_fen(fen).unwrap();
        let text = pos.get_fen();
        let back = Position::from_fen(text.as_str()).unwrap();
        assert_eq!(back, pos);
        assert_eq!(back.get_fen(), text);
    }
}

// Upper-case piece letters are read, and written back in lower case.
#[test]
fn fen_case_folding() {
    let a = Position::from_fen("X5O/7/7/7/7/7/O5X X 0 1").unwrap();
    assert_eq!(a.get_fen(), "x5o/7/7/7/7/7/o5x x 0 1");
}

#[test]
fn fen_errors() {
    assert_eq!(
        Position::from_fen("x5o/7/7/7/7/7/o5x x 0"),
        Err(FenError::WrongFieldCount)
    );
    assert_eq!(
        Position::from_fen("x5o/7/7/7/7/7/o5x x 0 1 2"),
        Err(FenError::WrongFieldCount)
    );
    assert_eq!(
        Position::from_fen("z5o/7/7/7/7/7/o5x x 0 1"),
        Err(FenError::BadBoardChar)
    );
    assert_eq!(
        Position::from_fen("xxxxxxxx/7/7/7/7/7/6o x 0 1"),
        Err(FenError::RowTooLong)
    );
    assert_eq!(
        Position::from_fen("44/7/7/7/7/7/7 x 0 1"),
        Err(FenError::RowTooLong)
    );
    assert_eq!(
        Position::from_fen("7/7/7/7/7/7/7/7 x 0 1"),
        Err(FenError::TooManyRows)
    );
    assert_eq!(
        Position::from_fen("x5o/7/7/7/7/7/o5x w 0 1"),
        Err(FenError::BadSideChar)
    );
    assert_eq!(
        Position::from_fen("x5o/7/7/7/7/7/o5x xx 0 1"),
        Err(FenError::BadSideChar)
    );
    assert_eq!(
        Position::from_fen("x5o/7/7/7/7/7/o5x x a 1"),
        Err(FenError::BadCounter)
    );
    assert_eq!(
        Position::from_fen("x5o/7/7/7/7/7/o5x x 0 99999999999"),
        Err(FenError::BadCounter)
    );
    assert_eq!(
        Position::from_fen("x5o/7/7/7/7/7/o5x x  0 1"),
        Err(FenError::WrongFieldCount)
    );
}

// The largest counter values survive the round trip.
#[test]
fn fen_counter_bounds() {
    let pos = Position::from_fen("x5o/7/7/7/7/7/o5x o 4294967295 4294967295").unwrap();
    assert_eq!(pos.halfmoves, u32::MAX);
    assert_eq!(pos.fullmoves, u32::MAX);
    assert_eq!(pos.get_fen(), "x5o/7/7/7/7/7/o5x o 4294967295 4294967295");
}

use ataxx::Square;

#[test]
fn squares_string_parsing() {
    let tests = ["a1", "a7", "g1", "g7"];

    for sqstr in tests {
        let sq = Square::from_str(sqstr);
        assert_eq!(sq.to_string(), sqstr);
    }
}

#[test]
fn squares_coordinates() {
    assert_eq!(Square::from_str("a1").0, 0);
    assert_eq!(Square::from_str("g1").0, 6);
    assert_eq!(Square::from_str("a7").0, 42);
    assert_eq!(Square::from_str("g7").0, 48);
    assert_eq!(Square::from_str("d4").0, 24);
    let sq = Square::from_str("c5");
    assert_eq!(sq.get_x(), 2);
    assert_eq!(sq.get_y(), 4);
}

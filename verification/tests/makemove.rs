use ataxx::Move;
use ataxx::Position;
use ataxx::Side;
use ataxx::Square;

// Placing next to two opponent cells converts exactly those two cells
// and no others.
#[test]
fn capture_on_place() {
    let pos = Position::from_fen("7/7/7/2oo3/1x5/7/7 x 0 1").unwrap();
    // c3 is adjacent to the mover's b3 and to the opponent's c4 and d4
    let mv = Move::Drop(Square::from_str("c3"));
    assert!(pos.is_legal_move(&mv));
    let next = pos.after_move(&mv);
    assert_eq!(next.get_fen(), "7/7/7/2xx3/1xx4/7/7 o 0 1");
    assert_eq!(next.get_black().count(), 4);
    assert_eq!(next.get_white().count(), 0);
}

// Jumping converts the opponent cells around the destination only; the
// source cell empties.
#[test]
fn capture_on_jump() {
    let pos = Position::from_fen("7/7/7/2oo3/1x5/7/7 x 0 1").unwrap();
    let mv = Move::Jump(Square::from_str("b3"), Square::from_str("d3"));
    assert!(pos.is_legal_move(&mv));
    let next = pos.after_move(&mv);
    assert_eq!(next.get_fen(), "7/7/7/2xx3/3x3/7/7 o 1 1");
    assert_eq!(next.get_black().count(), 3);
    assert_eq!(next.get_white().count(), 0);
}

// A placement with no adjacent opponent converts nothing.
#[test]
fn place_without_capture() {
    let pos = Position::from_fen("x5o/7/7/7/7/7/o5x x 0 1").unwrap();
    let mv = Move::Drop(Square::from_str("b7"));
    assert!(pos.is_legal_move(&mv));
    let next = pos.after_move(&mv);
    assert_eq!(next.get_black().count(), 3);
    assert_eq!(next.get_white().count(), 2);
}

// The half-move clock resets on a placement, and increments on a jump
// and on a pass.
#[test]
fn halfmove_clock_asymmetry() {
    let pos = Position::from_fen("7/7/7/2oo3/1x5/7/7 x 7 4").unwrap();
    let placed = pos.after_move(&Move::Drop(Square::from_str("c3")));
    assert_eq!(placed.halfmoves, 0);
    let jumped = pos.after_move(&Move::Jump(Square::from_str("b3"), Square::from_str("d3")));
    assert_eq!(jumped.halfmoves, 8);
    let passed = pos.after_pass();
    assert_eq!(passed.halfmoves, 8);
}

// The side to move flips on every move, and the full-move counter
// increments only after White has moved.
#[test]
fn counters_and_turn() {
    let pos = Position::from_fen("x5o/7/7/7/7/7/o5x x 3 9").unwrap();
    assert_eq!(pos.turn, Side::Black);
    let afterblack = pos.after_move(&Move::Drop(Square::from_str("b7")));
    assert_eq!(afterblack.turn, Side::White);
    assert_eq!(afterblack.fullmoves, 9);
    let afterwhite = afterblack.after_move(&Move::Drop(Square::from_str("f7")));
    assert_eq!(afterwhite.turn, Side::Black);
    assert_eq!(afterwhite.fullmoves, 10);
}

#[test]
fn position_validity() {
    let pos = Position::from_fen("x5o/7/2-1-2/7/2-1-2/7/o5x x 0 1").unwrap();
    assert!(pos.is_valid());
    assert_eq!(pos.get_both(), pos.get_black().or(pos.get_white()));
    assert_eq!(
        pos.get_empty(),
        pos.get_black().or(pos.get_white()).or(pos.get_walls()).flip()
    );
    assert_eq!(pos.get_us(), pos.get_black());
    assert_eq!(pos.get_them(), pos.get_white());
}

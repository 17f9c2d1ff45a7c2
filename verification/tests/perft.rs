use ataxx::Position;

#[test]
fn perft_suite() {
    let tests: [(&str, Vec<u64>); 20] = [
        ("7/7/7/7/7/7/7 x 0 1", vec![1, 0, 0, 0, 0, 0]),
        ("7/7/7/7/7/7/7 o 0 1", vec![1, 0, 0, 0, 0, 0]),
        (
            "x5o/7/7/7/7/7/o5x x 0 1",
            vec![1, 16, 256, 6460, 155888, 4752668],
        ),
        (
            "x5o/7/7/7/7/7/o5x o 0 1",
            vec![1, 16, 256, 6460, 155888, 4752668],
        ),
        (
            "x5o/7/2-1-2/7/2-1-2/7/o5x x 0 1",
            vec![1, 14, 196, 4184, 86528, 2266352],
        ),
        (
            "x5o/7/2-1-2/7/2-1-2/7/o5x o 0 1",
            vec![1, 14, 196, 4184, 86528, 2266352],
        ),
        (
            "x5o/7/2-1-2/3-3/2-1-2/7/o5x x 0 1",
            vec![1, 14, 196, 4100, 83104, 2114588],
        ),
        (
            "x5o/7/2-1-2/3-3/2-1-2/7/o5x o 0 1",
            vec![1, 14, 196, 4100, 83104, 2114588],
        ),
        (
            "x5o/7/3-3/2-1-2/3-3/7/o5x x 0 1",
            vec![1, 16, 256, 5948, 133264, 3639856],
        ),
        (
            "x5o/7/3-3/2-1-2/3-3/7/o5x o 0 1",
            vec![1, 16, 256, 5948, 133264, 3639856],
        ),
        (
            "7/7/7/7/ooooooo/ooooooo/xxxxxxx x 0 1",
            vec![1, 1, 75, 249, 14270, 452980],
        ),
        (
            "7/7/7/7/ooooooo/ooooooo/xxxxxxx o 0 1",
            vec![1, 75, 249, 14270, 452980],
        ),
        (
            "7/7/7/7/xxxxxxx/xxxxxxx/ooooooo x 0 1",
            vec![1, 75, 249, 14270, 452980],
        ),
        (
            "7/7/7/7/xxxxxxx/xxxxxxx/ooooooo o 0 1",
            vec![1, 1, 75, 249, 14270, 452980],
        ),
        (
            "7/7/7/2x1o2/7/7/7 x 0 1",
            vec![1, 23, 419, 7887, 168317, 4266992],
        ),
        (
            "7/7/7/2x1o2/7/7/7 o 0 1",
            vec![1, 23, 419, 7887, 168317, 4266992],
        ),
        ("x5o/7/7/7/7/7/o5x x 100 1", vec![1, 0, 0, 0, 0, 0]),
        ("x5o/7/7/7/7/7/o5x o 100 1", vec![1, 0, 0, 0, 0, 0]),
        (
            "7/7/7/7/-------/-------/x5o x 0 1",
            vec![1, 2, 4, 13, 30, 73, 174],
        ),
        (
            "7/7/7/7/-------/-------/x5o o 0 1",
            vec![1, 2, 4, 13, 30, 73, 174],
        ),
    ];

    for (fen, nodes) in tests {
        let pos = Position::from_fen(fen).unwrap();
        for (depth, expected) in nodes.iter().enumerate() {
            let nodes = pos.perft(depth as u8);
            assert_eq!(&nodes, expected);
        }
    }
}

// A running position whose mover has no placement or jump has exactly
// one continuation: the pass.  Its node count at each depth equals the
// count of its pass successor one level down.
#[test]
fn forced_pass() {
    let pos = Position::from_fen("x------/-------/---4/7/7/7/o6 x 0 1").unwrap();
    assert!(!pos.is_gameover());
    assert!(pos.can_pass());
    assert_eq!(pos.legal_moves().len(), 0);
    assert_eq!(pos.count_moves(), 1);
    assert!(pos.is_legal_move(&ataxx::Move::Pass));
    let after = pos.after_pass();
    for depth in 1..5u8 {
        assert_eq!(pos.perft(depth), after.perft(depth - 1));
    }
}

// A position with moves offers no pass.
#[test]
fn no_pass_with_moves() {
    let pos = Position::from_fen("startpos").unwrap();
    assert!(!pos.can_pass());
    assert!(!pos.is_legal_move(&ataxx::Move::Pass));
    assert_eq!(pos.count_moves(), 16);
    assert_eq!(pos.count_pseudomoves(), 16);
    assert_eq!(pos.legal_moves().len(), 16);
    assert_eq!(pos.pseudolegal_moves().len(), 16);
}

// legal_moves agrees with is_legal_move, and every generated move is a
// placement or a jump.
#[test]
fn legal_move_membership() {
    let pos = Position::from_fen("x5o/7/2-1-2/7/2-1-2/7/o5x x 3 7").unwrap();
    let moves = pos.legal_moves();
    for mv in &moves {
        assert!(pos.is_legal_move(mv));
        assert!(mv.is_single() || mv.is_double());
    }
    assert!(!pos.is_legal_move(&ataxx::Move::Drop(ataxx::Square(24))));
}

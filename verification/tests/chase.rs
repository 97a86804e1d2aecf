use pikarust_core::position::Position;
use pikarust_core::types::{Color, PieceType, Square};

#[test]
fn knight_chasing_a_rook_is_reported() {
    let mut pos =
        Position::from_fen("4k4/9/9/9/9/2r6/4P4/3N5/9/4K4 w - - 0 1").expect("should parse");
    let before = pos.fen();
    assert_eq!(pos.chased(pikarust_core::types::Color::White), 1);
    assert_eq!(pos.chased(pikarust_core::types::Color::Black), 0);
    assert_eq!(pos.fen(), before);
}

#[test]
fn short_repetition_is_a_draw() {
    let mut pos =
        Position::from_fen("4k4/9/9/9/9/2r6/4P4/3N5/9/4K4 w - - 0 1").expect("should parse");
    assert_eq!(pos.detect_chases(0, 3), 0);
}

#[test]
fn attacks_by_unites_the_attacks_of_each_piece() {
    let pos = Position::from_fen("4k4/9/9/9/9/9/9/9/4R4/R3K4 w - - 0 1").expect("should parse");
    let rooks = pos.attacks_by(PieceType::Rook, Color::White);
    // The a0 rook sweeps the a-file and b0..d0 up to the king; the e1 rook
    // sees e0 below, the whole first rank and the e-file up to the king.
    let expected: Vec<u8> = vec![
        1, 2, 3, 4, 9, 10, 11, 12, 14, 15, 16, 17, 18, 22, 27, 31, 36, 40, 45, 49, 54, 58, 63, 67,
        72, 76, 81, 85,
    ];
    let mut got = Vec::new();
    for sq in 0..90u8 {
        if rooks.contains(Square::from_raw_unchecked(sq)) {
            got.push(sq);
        }
    }
    assert_eq!(got, expected);
    assert!(pos.attacks_by(PieceType::Cannon, Color::White).is_empty());
}

#[test]
fn rooks_facing_each_other_do_not_chase() {
    // Each rook attacks the other, which could take it back: no chase.
    let mut pos =
        Position::from_fen("5k3/9/9/9/r8/9/9/9/R8/3K5 w - - 0 1").expect("should parse");
    assert_eq!(pos.chased(Color::White), 0);
    assert_eq!(pos.chased(Color::Black), 0);
}

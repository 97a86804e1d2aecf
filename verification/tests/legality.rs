use pikarust_core::position::Position;
use pikarust_core::types::{Move, Square};

fn rook_takes_e5() -> Move {
    Move::make(Square::from_raw_unchecked(13), Square::from_raw_unchecked(49))
}

#[test]
fn see_defended_pawn_loses_the_rook() {
    let pos = Position::from_fen("3k5/4r4/9/9/4p4/9/9/9/4R4/4K4 w - - 0 1").expect("should parse");
    assert!(!pos.see_ge(rook_takes_e5(), 0));
    assert!(pos.see_ge(rook_takes_e5(), -2000));
}

#[test]
fn see_undefended_pawn_is_won() {
    let pos = Position::from_fen("3k5/9/9/9/4p4/9/9/9/4R4/4K4 w - - 0 1").expect("should parse");
    assert!(pos.see_ge(rook_takes_e5(), 0));
    assert!(pos.see_ge(rook_takes_e5(), 144));
    assert!(!pos.see_ge(rook_takes_e5(), 145));
}

#[test]
fn see_rook_taking_a_pawn_defended_by_a_pawn_loses() {
    let pos = Position::from_fen("5k3/9/9/9/4p4/4p4/9/9/4R4/3K5 w - - 0 1").expect("should parse");
    let m = Move::make(Square::from_raw_unchecked(13), Square::from_raw_unchecked(40));
    assert!(!pos.see_ge(m, 0));
    assert!(pos.see_ge(m, -2000));
}

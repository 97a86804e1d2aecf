use pikarust_core::bitboard::{
    Bitboard, file_bb, file_distance, half_bb, palace, pawn_bb, rank_bb, rank_distance,
    safe_destination, shift, square_bb, square_distance,
};
use pikarust_core::types::{Color, Direction, Square};

#[test]
fn test_rank_bb_constants() {
    assert_eq!(rank_bb(0).popcount(), 9);
    assert_eq!(rank_bb(9).popcount(), 9);
    for r in 0..10u8 {
        assert_eq!(rank_bb(r).popcount(), 9);
    }
}

#[test]
fn test_file_bb_constants() {
    assert_eq!(file_bb(0).popcount(), 10);
    assert_eq!(file_bb(8).popcount(), 10);
    for f in 0..9u8 {
        assert_eq!(file_bb(f).popcount(), 10);
    }
}

#[test]
fn test_palace() {
    assert_eq!(palace().popcount(), 18);
}

#[test]
fn test_half_bb() {
    assert_eq!(half_bb(Color::White).popcount(), 45);
    assert_eq!(half_bb(Color::Black).popcount(), 45);
    assert!((half_bb(Color::White) & half_bb(Color::Black)).is_empty());
}

#[test]
fn test_square_bb_table() {
    for i in 0..90u8 {
        let sq = Square::from_raw_unchecked(i);
        assert_eq!(square_bb(sq).popcount(), 1);
        assert!(square_bb(sq).contains(sq));
    }
}

#[test]
fn test_shift_north() {
    let bb = Bitboard::from(Square::SQ_E4);
    let shifted = shift(Direction::north(), bb);
    assert!(shifted.contains(Square::SQ_E5));
    assert_eq!(shifted.popcount(), 1);
}

#[test]
fn test_shift_south() {
    let bb = Bitboard::from(Square::SQ_E4);
    let shifted = shift(Direction::south(), bb);
    assert!(shifted.contains(Square::SQ_E3));
}

#[test]
fn test_shift_east() {
    let bb = Bitboard::from(Square::SQ_E4);
    let shifted = shift(Direction::east(), bb);
    assert!(shifted.contains(Square::SQ_F4));
}

#[test]
fn test_shift_west() {
    let bb = Bitboard::from(Square::SQ_E4);
    let shifted = shift(Direction::west(), bb);
    assert!(shifted.contains(Square::SQ_D4));
}

#[test]
fn test_shift_edge_no_wrap() {
    let bb = Bitboard::from(Square::SQ_I4);
    let shifted = shift(Direction::east(), bb);
    assert!(shifted.is_empty());

    let bb = Bitboard::from(Square::SQ_A4);
    let shifted = shift(Direction::west(), bb);
    assert!(shifted.is_empty());

    let bb = rank_bb(9);
    let shifted = shift(Direction::north(), bb);
    assert!(shifted.is_empty());
}

#[test]
fn test_square_distance_same() {
    assert_eq!(square_distance(Square::SQ_E4, Square::SQ_E4), 0);
}

#[test]
fn test_square_distance_adjacent() {
    assert_eq!(square_distance(Square::SQ_E4, Square::SQ_E5), 1);
    assert_eq!(square_distance(Square::SQ_E4, Square::SQ_F4), 1);
    assert_eq!(square_distance(Square::SQ_E4, Square::SQ_F5), 1);
}

#[test]
fn test_square_distance_corners() {
    assert_eq!(square_distance(Square::SQ_A0, Square::SQ_I9), 9);
}

#[test]
fn test_pawn_bb() {
    assert!(pawn_bb(Color::White).popcount() > 45);
    assert!(pawn_bb(Color::Black).popcount() > 45);
}

#[test]
fn test_safe_destination_valid() {
    let bb = safe_destination(Square::SQ_E4, Direction::north().raw());
    assert!(bb.contains(Square::SQ_E5));
}

#[test]
fn test_safe_destination_off_board() {
    let bb = safe_destination(Square::SQ_A0, Direction::south().raw());
    assert!(bb.is_empty());
}

#[test]
fn file_and_rank_distances() {
    assert_eq!(file_distance(Square::SQ_A0, Square::SQ_I9), 8);
    assert_eq!(rank_distance(Square::SQ_A0, Square::SQ_I9), 9);
    assert_eq!(file_distance(Square::SQ_C3, Square::SQ_C7), 0);
}

#[test]
fn safe_destination_rejects_wrapping_steps() {
    assert!(safe_destination(Square::SQ_I4, Direction::east().raw()).is_empty());
    assert!(safe_destination(Square::SQ_A4, Direction::west().raw()).is_empty());
    assert_eq!(
        safe_destination(Square::SQ_E4, Direction::north_east().raw()),
        Bitboard::from(Square::SQ_F5)
    );
}

#[test]
fn pawn_zone_counts() {
    assert_eq!(pawn_bb(Color::White).popcount(), 55);
    assert!(pawn_bb(Color::White).contains(Square::SQ_A3));
    assert!(!pawn_bb(Color::White).contains(Square::SQ_B3));
    assert!(!pawn_bb(Color::White).contains(Square::SQ_A2));
    assert!(pawn_bb(Color::Black).contains(Square::SQ_I6));
    assert!(!pawn_bb(Color::Black).contains(Square::SQ_I7));
}

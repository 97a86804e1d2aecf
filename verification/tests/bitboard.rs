use pikarust_core::bitboard::{Bitboard, between_bb, shift};
use pikarust_core::types::{Direction, Square};

fn squares(mut bb: Bitboard) -> Vec<Square> {
    let mut v = Vec::new();
    while bb.is_not_empty() {
        v.push(bb.pop_lsb());
    }
    v
}

#[test]
fn test_bitboard_empty_and_all() {
    assert!(Bitboard::empty().is_empty());
    assert!(!Bitboard::all_squares().is_empty());
    assert_eq!(Bitboard::all_squares().popcount(), 90);
}

#[test]
fn test_bitboard_from_square() {
    let bb = Bitboard::from(Square::SQ_A0);
    assert_eq!(bb.0, 1);
    assert!(bb.contains(Square::SQ_A0));
    assert!(!bb.contains(Square::SQ_B0));
}

#[test]
fn test_bitboard_operators() {
    let a = Bitboard::from(Square::SQ_A0);
    let b = Bitboard::from(Square::SQ_B0);
    assert_eq!((a | b).popcount(), 2);
    assert!((a & b).is_empty());
    assert_eq!((a ^ b).popcount(), 2);
    assert_eq!((!Bitboard::empty()).popcount(), 90);
}

#[test]
fn test_bitboard_square_operators() {
    let bb = Bitboard::empty() | Square::SQ_E4;
    assert!(bb.contains(Square::SQ_E4));

    let bb2 = bb ^ Square::SQ_E4;
    assert!(bb2.is_empty());

    let bb3 = Square::SQ_A0 | Square::SQ_I9;
    assert_eq!(bb3.popcount(), 2);
}

#[test]
fn test_bitboard_lsb_pop() {
    let mut bb = Bitboard::from(Square::SQ_A0) | Bitboard::from(Square::SQ_I9);
    assert_eq!(bb.lsb(), Square::SQ_A0);
    let s = bb.pop_lsb();
    assert_eq!(s, Square::SQ_A0);
    assert_eq!(bb.lsb(), Square::SQ_I9);
}

#[test]
fn test_bitboard_more_than_one() {
    assert!(!Bitboard::empty().more_than_one());
    assert!(!Bitboard::from(Square::SQ_A0).more_than_one());
    assert!((Bitboard::from(Square::SQ_A0) | Bitboard::from(Square::SQ_B0)).more_than_one());
}

#[test]
fn test_bitboard_shift() {
    let bb = Bitboard::from(Square::SQ_A0);
    let shifted = bb << 1;
    assert!(shifted.contains(Square::SQ_B0));
}

#[test]
fn test_bitboard_iterator() {
    let bb = Bitboard::from(Square::SQ_A0)
        | Bitboard::from(Square::SQ_E4)
        | Bitboard::from(Square::SQ_I9);
    let squares: Vec<Square> = squares(bb);
    assert_eq!(squares.len(), 3);
    assert_eq!(squares[0], Square::SQ_A0);
    assert_eq!(squares[1], Square::SQ_E4);
    assert_eq!(squares[2], Square::SQ_I9);
}

#[test]
fn test_bitboard_not_wraps() {
    let not_all = !Bitboard::all_squares();
    assert!(not_all.is_empty());
}

#[test]
fn test_bitboard_mask_high_bits() {
    let bb = Bitboard::new(u128::MAX);
    assert_eq!(bb.popcount(), 90);
}

#[test]
fn test_bitboard_assign_ops() {
    let mut bb = Bitboard::empty();
    bb = bb | Square::SQ_A0;
    assert!(bb.contains(Square::SQ_A0));
    bb = bb ^ Square::SQ_A0;
    assert!(bb.is_empty());
    bb = bb | Bitboard::from(Square::SQ_E4);
    bb = bb & Bitboard::from(Square::SQ_E4);
    assert!(bb.contains(Square::SQ_E4));
}

#[test]
fn shift_by_unsupported_step_is_empty() {
    let bb = Bitboard::from(Square::SQ_E4);
    assert!(shift(Direction(3), bb).is_empty());
    assert_eq!(shift(Direction::north_east(), bb), Bitboard::from(Square::SQ_F5));
    assert_eq!(shift(Direction::south_west(), bb), Bitboard::from(Square::SQ_D3));
}

#[test]
fn popcount_and_lsb_agree_with_pops() {
    let mut bb = Bitboard::new(0x8000_0000_0000_0001_0000_0000_0001_0010);
    let n = bb.popcount();
    let mut count = 0;
    let mut last = None;
    while bb.is_not_empty() {
        let before = bb.lsb();
        let s = bb.pop_lsb();
        assert_eq!(before, s);
        if let Some(l) = last {
            assert!(s.raw() > l);
        }
        last = Some(s.raw());
        count += 1;
    }
    assert_eq!(count, n);
    assert_eq!(n, 3);
}

#[test]
fn test_bitboard_display() {
    let bb = Bitboard::from(Square::SQ_E4);
    let s = bb.to_text();
    assert!(s.contains('X'));
}

#[test]
fn drawing_marks_exactly_the_set_squares() {
    let bb = Bitboard::from(Square::SQ_A0);
    let s = bb.to_text();
    let lines: Vec<&str> = s.lines().collect();
    assert_eq!(lines.len(), 22);
    assert_eq!(lines[0], "+---+---+---+---+---+---+---+---+---+");
    assert_eq!(lines[1], "|   |   |   |   |   |   |   |   |   | 9");
    assert_eq!(lines[19], "| X |   |   |   |   |   |   |   |   | 0");
    assert_eq!(lines[21], "  a   b   c   d   e   f   g   h   i");
    assert_eq!(s.matches('X').count(), 1);
}

fn at(file: u8, rank: u8) -> Square {
    Square::from_raw_unchecked(rank * 9 + file)
}

#[test]
fn between_covers_the_segment_the_leg_or_only_the_target() {
    let seg = between_bb(at(0, 0), at(0, 5));
    assert_eq!(seg.popcount(), 5);
    for r in 1..=5 {
        assert!(seg.contains(at(0, r)));
    }
    assert!(!seg.contains(at(0, 0)));
    assert!(!seg.contains(at(0, 6)));
    let row = between_bb(at(7, 3), at(2, 3));
    assert_eq!(row.popcount(), 5);
    assert!(row.contains(at(2, 3)) && row.contains(at(6, 3)) && !row.contains(at(7, 3)));
    let leap = between_bb(at(1, 0), at(2, 2));
    assert_eq!(leap.popcount(), 2);
    assert!(leap.contains(at(2, 1)) && leap.contains(at(2, 2)));
    let apart = between_bb(at(0, 0), at(2, 5));
    assert_eq!(apart.popcount(), 1);
    assert!(apart.contains(at(2, 5)));
}

use pikarust_core::bitboard::{
    Bitboard, attacks_bb_bishop, attacks_bb_cannon, attacks_bb_knight, attacks_bb_knight_to,
    attacks_bb_rook, ensure_initialized, lame_leaper_attack_bishop, lame_leaper_attack_knight,
    lame_leaper_attack_knight_to, sliding_attack_cannon, sliding_attack_rook,
};
use pikarust_core::types::Square;

fn random_occupancy(seed: u64) -> Bitboard {
    let mut state = seed;
    let mut val: u128 = 0;
    for _ in 0..2 {
        state ^= state << 13;
        state ^= state >> 7;
        state ^= state << 17;
        val = (val << 64) | u128::from(state);
    }
    Bitboard::new(val)
}

#[test]
fn test_magic_rook_matches_direct() {
    ensure_initialized();
    for i in 0..90u8 {
        let sq = Square::from_raw_unchecked(i);
        for seed in 0..200u64 {
            let occ = random_occupancy(seed.wrapping_mul(7919).wrapping_add(u64::from(i)));
            assert_eq!(sliding_attack_rook(sq, occ), attacks_bb_rook(sq, occ));
        }
    }
}

#[test]
fn test_magic_cannon_matches_direct() {
    for i in 0..90u8 {
        let sq = Square::from_raw_unchecked(i);
        for seed in 0..200u64 {
            let occ = random_occupancy(seed.wrapping_mul(6271).wrapping_add(u64::from(i)));
            assert_eq!(sliding_attack_cannon(sq, occ), attacks_bb_cannon(sq, occ));
        }
    }
}

#[test]
fn test_magic_knight_matches_direct() {
    for i in 0..90u8 {
        let sq = Square::from_raw_unchecked(i);
        for seed in 0..200u64 {
            let occ = random_occupancy(seed.wrapping_mul(5381).wrapping_add(u64::from(i)));
            assert_eq!(lame_leaper_attack_knight(sq, occ), attacks_bb_knight(sq, occ));
        }
    }
}

#[test]
fn test_magic_bishop_matches_direct() {
    for i in 0..90u8 {
        let sq = Square::from_raw_unchecked(i);
        for seed in 0..200u64 {
            let occ = random_occupancy(seed.wrapping_mul(4253).wrapping_add(u64::from(i)));
            assert_eq!(lame_leaper_attack_bishop(sq, occ), attacks_bb_bishop(sq, occ));
        }
    }
}

#[test]
fn test_magic_knight_to_matches_direct() {
    for i in 0..90u8 {
        let sq = Square::from_raw_unchecked(i);
        for seed in 0..200u64 {
            let occ = random_occupancy(seed.wrapping_mul(3571).wrapping_add(u64::from(i)));
            assert_eq!(lame_leaper_attack_knight_to(sq, occ), attacks_bb_knight_to(sq, occ));
        }
    }
}

#[test]
fn test_magic_rook_empty_board() {
    for i in 0..90u8 {
        let sq = Square::from_raw_unchecked(i);
        assert_eq!(sliding_attack_rook(sq, Bitboard::empty()), attacks_bb_rook(sq, Bitboard::empty()));
    }
}

#[test]
fn test_magic_cannon_empty_board() {
    for i in 0..90u8 {
        let sq = Square::from_raw_unchecked(i);
        assert_eq!(
            sliding_attack_cannon(sq, Bitboard::empty()),
            attacks_bb_cannon(sq, Bitboard::empty())
        );
    }
}

#[test]
fn test_magic_rook_full_board() {
    let full = Bitboard::all_squares();
    for i in 0..90u8 {
        let sq = Square::from_raw_unchecked(i);
        assert_eq!(sliding_attack_rook(sq, full), attacks_bb_rook(sq, full));
    }
}

#[test]
fn test_magic_cannon_full_board() {
    let full = Bitboard::all_squares();
    for i in 0..90u8 {
        let sq = Square::from_raw_unchecked(i);
        assert_eq!(sliding_attack_cannon(sq, full), attacks_bb_cannon(sq, full));
    }
}

#[test]
fn rook_on_full_board_sees_only_neighbours() {
    let full = Bitboard::all_squares();
    assert_eq!(attacks_bb_rook(Square::SQ_E4, full).popcount(), 4);
    assert_eq!(attacks_bb_rook(Square::SQ_A0, full).popcount(), 2);
    assert_eq!(attacks_bb_cannon(Square::SQ_E4, full).popcount(), 4);
}

fn sq(file: u8, rank: u8) -> Square {
    Square::from_raw_unchecked(rank * 9 + file)
}

fn occupancy(squares: &[Square]) -> Bitboard {
    squares.iter().fold(Bitboard::empty(), |b, &s| b.or(Bitboard::from_square(s)))
}

#[test]
fn rook_attacks_on_fixed_boards() {
    let a0 = sq(0, 0);
    assert_eq!(attacks_bb_rook(a0, Bitboard::empty()).popcount(), 17);
    let occ = occupancy(&[sq(0, 3), sq(4, 0)]);
    let att = attacks_bb_rook(a0, occ);
    assert_eq!(att.popcount(), 7);
    assert!(att.contains(sq(0, 3)));
    assert!(!att.contains(sq(0, 4)));
    assert!(att.contains(sq(4, 0)));
    assert!(!att.contains(sq(5, 0)));
}

#[test]
fn cannon_attacks_need_one_screen() {
    let e0 = sq(4, 0);
    assert!(attacks_bb_cannon(e0, Bitboard::empty()).is_empty());
    let att = attacks_bb_cannon(e0, occupancy(&[sq(4, 2), sq(4, 7)]));
    assert_eq!(att.popcount(), 5);
    assert!(!att.contains(sq(4, 2)));
    assert!(att.contains(sq(4, 3)));
    assert!(att.contains(sq(4, 7)));
    assert!(!att.contains(sq(4, 8)));
}

#[test]
fn knight_and_bishop_legs_block() {
    let b0 = sq(1, 0);
    let free = attacks_bb_knight(b0, Bitboard::empty());
    assert_eq!(free.popcount(), 3);
    assert!(free.contains(sq(0, 2)) && free.contains(sq(2, 2)) && free.contains(sq(3, 1)));
    let blocked = attacks_bb_knight(b0, occupancy(&[sq(1, 1)]));
    assert_eq!(blocked.popcount(), 1);
    assert!(blocked.contains(sq(3, 1)));
    let c0 = sq(2, 0);
    assert_eq!(attacks_bb_bishop(c0, Bitboard::empty()).popcount(), 2);
    let eyed = attacks_bb_bishop(c0, occupancy(&[sq(3, 1)]));
    assert_eq!(eyed.popcount(), 1);
    assert!(eyed.contains(sq(0, 2)));
}

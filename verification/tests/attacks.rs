use pikarust_core::bitboard::{
    Bitboard, PseudoAttacksTable, lame_leaper_attack_bishop, lame_leaper_attack_knight,
    lame_leaper_path_bishop, lame_leaper_path_dir_knight, lame_leaper_path_knight,
    lame_leaper_path_knight_to, palace, pawn_attacks_bb, pawn_attacks_to_bb, sliding_attack_cannon,
    sliding_attack_rook,
};
use pikarust_core::types::{Color, Direction, PieceType, Square};

fn squares(mut bb: Bitboard) -> Vec<Square> {
    let mut v = Vec::new();
    while bb.is_not_empty() {
        v.push(bb.pop_lsb());
    }
    v
}

#[test]
fn test_rook_attack_empty_board() {
    let attacks = sliding_attack_rook(Square::SQ_E4, Bitboard::empty());
    assert!(attacks.contains(Square::SQ_E0));
    assert!(attacks.contains(Square::SQ_E9));
    assert!(attacks.contains(Square::SQ_A4));
    assert!(attacks.contains(Square::SQ_I4));
    assert!(!attacks.contains(Square::SQ_E4));
}

#[test]
fn test_rook_attack_blocked() {
    let occ = Bitboard::from(Square::SQ_E6);
    let attacks = sliding_attack_rook(Square::SQ_E4, occ);
    assert!(attacks.contains(Square::SQ_E5));
    assert!(attacks.contains(Square::SQ_E6));
    assert!(!attacks.contains(Square::SQ_E7));
}

#[test]
fn test_cannon_attack_empty_board() {
    let attacks = sliding_attack_cannon(Square::SQ_E4, Bitboard::empty());
    assert!(attacks.is_empty());
}

#[test]
fn test_cannon_attack_with_hurdle() {
    let occ = Bitboard::from(Square::SQ_E6) | Bitboard::from(Square::SQ_E8);
    let attacks = sliding_attack_cannon(Square::SQ_E4, occ);
    assert!(!attacks.contains(Square::SQ_E5));
    assert!(!attacks.contains(Square::SQ_E6));
    assert!(attacks.contains(Square::SQ_E7));
    assert!(attacks.contains(Square::SQ_E8));
    assert!(!attacks.contains(Square::SQ_E9));
}

#[test]
fn test_knight_attack_empty_board() {
    let attacks = lame_leaper_attack_knight(Square::SQ_E4, Bitboard::empty());
    assert!(attacks.popcount() == 8);
}

#[test]
fn test_knight_attack_blocked() {
    let occ = Bitboard::from(Square::SQ_E5);
    let attacks = lame_leaper_attack_knight(Square::SQ_E4, occ);
    assert!(!attacks.contains(Square::SQ_D6));
    assert!(!attacks.contains(Square::SQ_F6));
    assert!(attacks.popcount() == 6);
}

#[test]
fn test_bishop_attack_empty_board() {
    let attacks = lame_leaper_attack_bishop(Square::SQ_C0, Bitboard::empty());
    assert!(attacks.contains(Square::SQ_A2));
    assert!(attacks.contains(Square::SQ_E2));
}

#[test]
fn test_bishop_restricted_to_half() {
    let attacks = lame_leaper_attack_bishop(Square::SQ_C4, Bitboard::empty());
    for sq in squares(attacks) {
        assert!(sq.rank() as u8 <= 4);
    }
}

#[test]
fn test_pawn_attacks_white_before_river() {
    let attacks = pawn_attacks_bb(Color::White, Square::SQ_E3);
    assert!(attacks.contains(Square::SQ_E4));
    assert!(!attacks.contains(Square::SQ_D3));
    assert!(!attacks.contains(Square::SQ_F3));
    assert_eq!(attacks.popcount(), 1);
}

#[test]
fn test_pawn_attacks_white_after_river() {
    let attacks = pawn_attacks_bb(Color::White, Square::SQ_E5);
    assert!(attacks.contains(Square::SQ_E6));
    assert!(attacks.contains(Square::SQ_D5));
    assert!(attacks.contains(Square::SQ_F5));
    assert_eq!(attacks.popcount(), 3);
}

#[test]
fn test_pawn_attacks_black_before_river() {
    let attacks = pawn_attacks_bb(Color::Black, Square::SQ_E6);
    assert!(attacks.contains(Square::SQ_E5));
    assert!(!attacks.contains(Square::SQ_D6));
    assert_eq!(attacks.popcount(), 1);
}

#[test]
fn test_pawn_attacks_black_after_river() {
    let attacks = pawn_attacks_bb(Color::Black, Square::SQ_E4);
    assert!(attacks.contains(Square::SQ_E3));
    assert!(attacks.contains(Square::SQ_D4));
    assert!(attacks.contains(Square::SQ_F4));
    assert_eq!(attacks.popcount(), 3);
}

#[test]
fn test_pseudo_attacks_king_in_palace() {
    let pa = PseudoAttacksTable::new();
    let king_attacks = pa.get(PieceType::King, Square::SQ_E0);
    assert!(king_attacks.contains(Square::SQ_D0));
    assert!(king_attacks.contains(Square::SQ_F0));
    assert!(king_attacks.contains(Square::SQ_E1));
    for sq in squares(king_attacks) {
        assert!(palace().contains(sq));
    }
}

#[test]
fn test_pseudo_attacks_advisor_in_palace() {
    let pa = PseudoAttacksTable::new();
    let adv_attacks = pa.get(PieceType::Advisor, Square::SQ_E1);
    for sq in squares(adv_attacks) {
        assert!(palace().contains(sq));
    }
}

#[test]
fn test_pseudo_attacks_rook() {
    let pa = PseudoAttacksTable::new();
    let rook_attacks = pa.get(PieceType::Rook, Square::SQ_E4);
    assert_eq!(rook_attacks.popcount(), 17);
}

#[test]
fn pawn_attackers_mirror_pawn_attacks() {
    for c in [Color::White, Color::Black] {
        for a in 0..90u8 {
            let sa = Square::from_raw_unchecked(a);
            let to = pawn_attacks_to_bb(c, sa);
            for b in 0..90u8 {
                let sb = Square::from_raw_unchecked(b);
                assert_eq!(to.contains(sb), pawn_attacks_bb(c, sb).contains(sa));
            }
        }
    }
}

#[test]
fn leaper_paths() {
    assert_eq!(
        lame_leaper_path_dir_knight(Direction(19), Square::SQ_E4),
        Bitboard::from(Square::SQ_E5)
    );
    assert_eq!(lame_leaper_path_knight(Square::SQ_E4).popcount(), 4);
    assert_eq!(lame_leaper_path_knight(Square::SQ_A0).popcount(), 2);
    assert_eq!(lame_leaper_path_knight_to(Square::SQ_E4).popcount(), 4);
    assert_eq!(lame_leaper_path_bishop(Square::SQ_C0).popcount(), 2);
    assert!(lame_leaper_path_bishop(Square::SQ_C4).contains(Square::SQ_B3));
}

#[test]
fn cannon_needs_exactly_one_screen() {
    let occ = Bitboard::from(Square::SQ_E5)
        | Bitboard::from(Square::SQ_E7)
        | Bitboard::from(Square::SQ_B4);
    let attacks = sliding_attack_cannon(Square::SQ_E4, occ);
    assert_eq!(attacks, Bitboard::from(Square::SQ_E6) | Bitboard::from(Square::SQ_E7) | Bitboard::from(Square::SQ_A4));
}

use pikarust_core::nnue::features::full_threats::{
    DIMENSIONS, ThreatOffsetTable, compute_valid_pairs,
};
use pikarust_core::types::{Piece, Square};

#[test]
fn full_threats_test_dimensions() {
    assert_eq!(DIMENSIONS, 45_547);
}

#[test]
fn test_valid_pairs_symmetric_properties() {
    let valid_pairs = compute_valid_pairs();
    assert!(valid_pairs[Piece::W_ROOK.index()][Piece::B_ROOK.index()]);
    assert!(valid_pairs[Piece::W_ROOK.index()][Piece::W_KING.index()]);
    assert!(!valid_pairs[Piece::W_KING.index()][Piece::W_ROOK.index()]);
    assert!(!valid_pairs[Piece::NONE.index()][Piece::W_ROOK.index()]);
}

#[test]
fn test_threat_offsets_initialized() {
    let _ = ThreatOffsetTable::new();
}

#[test]
fn test_threat_offset_invalid_returns_dimensions() {
    let table = ThreatOffsetTable::new();
    let offset = table.get(Piece::NONE, Square::SQ_A0, Square::SQ_A1, Piece::W_ROOK);
    assert_eq!(u32::from(offset), DIMENSIONS);
}

#[test]
fn threat_offsets_number_every_threat_below_the_dimensions() {
    let table = ThreatOffsetTable::new();
    let mut max_offset = 0u32;
    let mut count = 0u32;
    for a in 0..16usize {
        for from in 0..90u8 {
            for to in 0..90u8 {
                for v in 0..16usize {
                    let off = u32::from(table.get(
                        Piece::from_raw(a as u8),
                        Square::from_raw_unchecked(from),
                        Square::from_raw_unchecked(to),
                        Piece::from_raw(v as u8),
                    ));
                    if off < DIMENSIONS {
                        count += 1;
                        max_offset = max_offset.max(off);
                    }
                }
            }
        }
    }
    assert_eq!(max_offset + 1, DIMENSIONS);
    assert_eq!(count, DIMENSIONS);
}

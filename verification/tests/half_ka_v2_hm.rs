use pikarust_core::nnue::features::half_ka_v2_hm::{
    ALL_PIECES, BALANCE_ENCODING, DIMENSIONS, PS_NB, compute_king_buckets,
    compute_mid_mirror_encoding, compute_psq_offsets, compute_valid_bb, index_map,
};
use pikarust_core::types::{Piece, PieceType, Square};

#[test]
fn test_valid_bb_piece_counts() {
    let vbb = compute_valid_bb();
    assert_eq!(vbb[Piece::W_ROOK.index()].popcount(), 90);
    assert_eq!(vbb[Piece::W_CANNON.index()].popcount(), 90);
    assert_eq!(vbb[Piece::W_KNIGHT.index()].popcount(), 90);
    assert_eq!(vbb[Piece::W_ADVISOR.index()].popcount(), 5);
    assert_eq!(vbb[Piece::B_ADVISOR.index()].popcount(), 5);
    assert_eq!(vbb[Piece::W_BISHOP.index()].popcount(), 7);
    assert_eq!(vbb[Piece::B_BISHOP.index()].popcount(), 7);
    assert_eq!(vbb[Piece::W_KING.index()].popcount(), 6);
    assert_eq!(vbb[Piece::B_KING.index()].popcount(), 9);
}

#[test]
fn test_psq_offsets_total() {
    let offsets = compute_psq_offsets();
    let mut max_offset: u16 = 0;
    let vbb = compute_valid_bb();
    for &pc in &ALL_PIECES {
        for sq_idx in 0..Square::NUM {
            let sq = Square::from_raw_unchecked(sq_idx as u8);
            if vbb[pc.index()].contains(sq) {
                let off = offsets[pc.index()][sq_idx];
                if off > max_offset {
                    max_offset = off;
                }
            }
        }
    }
    assert_eq!(max_offset + 1, PS_NB as u16);
}

#[test]
fn test_index_map_identity() {
    for s in 0..Square::NUM {
        let sq = Square::from_raw_unchecked(s as u8);
        assert_eq!(index_map(false, false, sq), sq.raw());
    }
}

#[test]
fn test_index_map_mirror() {
    let sq = Square::SQ_A0;
    let mapped = index_map(true, false, sq);
    assert_eq!(mapped, Square::SQ_I0.raw());
}

#[test]
fn test_index_map_rotate() {
    let sq = Square::SQ_A0;
    let mapped = index_map(false, true, sq);
    assert_eq!(mapped, Square::SQ_A9.raw());
}

#[test]
fn test_king_bucket_d0() {
    let buckets = compute_king_buckets();
    let entry = &buckets[Square::SQ_D0.index()][Square::SQ_D9.index()][0];
    assert_eq!(entry.king_bucket, 0);
    assert!(!entry.mirror);
}

#[test]
fn test_king_bucket_f0_mirrors() {
    let buckets = compute_king_buckets();
    let entry = &buckets[Square::SQ_F0.index()][Square::SQ_D9.index()][0];
    assert_eq!(entry.king_bucket, 0);
    assert!(entry.mirror);
}

#[test]
fn test_mid_mirror_encoding_center_file() {
    let enc = compute_mid_mirror_encoding();
    let sq_e4 = Square::SQ_E4;
    for &pc in &ALL_PIECES {
        if pc.piece_type() != PieceType::King {
            assert_eq!(enc[pc.index()][sq_e4.index()], 0);
        }
    }
}

#[test]
fn test_balance_encoding() {
    assert_eq!(BALANCE_ENCODING, 0xa4a9_2a74_e989_d3a7);
}

#[test]
fn half_ka_v2_hm_test_dimensions() {
    assert_eq!(DIMENSIONS, 6 * 4 * 689);
    assert_eq!(DIMENSIONS, 16536);
}

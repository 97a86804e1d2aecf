use pikarust_core::nnue::accumulator::{DirtyThreat, DirtyThreats};
use pikarust_core::position::Position;
use pikarust_core::types::{Piece, Square};

fn fields(t: DirtyThreat) -> (bool, usize, usize, u8, u8) {
    (
        t.is_add(),
        t.pc_raw() as usize,
        t.threatened_pc_raw() as usize,
        t.pc_sq_raw(),
        t.threatened_sq_raw(),
    )
}

#[test]
fn dirty_threat_fields_read_back() {
    let t = DirtyThreat::new(
        true,
        Piece::B_CANNON,
        Piece::W_KNIGHT,
        Square::from_raw_unchecked(70),
        Square::from_raw_unchecked(7),
    );
    assert_eq!(
        fields(t),
        (true, Piece::B_CANNON.index(), Piece::W_KNIGHT.index(), 70, 7)
    );
    let r = DirtyThreat::new(
        false,
        Piece::W_KING,
        Piece::B_PAWN,
        Square::from_raw_unchecked(89),
        Square::from_raw_unchecked(0),
    );
    assert_eq!(
        fields(r),
        (false, Piece::W_KING.index(), Piece::B_PAWN.index(), 89, 0)
    );
}

#[test]
fn dirty_threats_keep_the_first_entries() {
    let mut dts = DirtyThreats::new();
    let t = DirtyThreat::new(
        true,
        Piece::W_ROOK,
        Piece::B_ROOK,
        Square::from_raw_unchecked(0),
        Square::from_raw_unchecked(81),
    );
    for _ in 0..70 {
        dts.push(t);
    }
    assert_eq!(dts.count, 64);
    assert_eq!(dts.as_slice().len(), 64);
}

#[test]
fn placed_rook_threatens_both_kings_and_is_guarded() {
    let pos = Position::from_fen("4k4/9/9/9/9/9/9/9/4R4/4K4 w - - 0 1").expect("should parse");
    let mut dts = DirtyThreats::new();
    pos.update_piece_threats::<false>(Piece::W_ROOK, true, Square::from_raw_unchecked(13), &mut dts);
    let got: Vec<_> = dts.as_slice().iter().map(|t| fields(*t)).collect();
    assert_eq!(
        got,
        vec![
            (true, Piece::W_ROOK.index(), Piece::W_KING.index(), 13, 4),
            (true, Piece::W_ROOK.index(), Piece::B_KING.index(), 13, 85),
            (true, Piece::W_KING.index(), Piece::W_ROOK.index(), 4, 13),
        ]
    );
    assert!(!dts.requires_refresh[0] && !dts.requires_refresh[1]);
}

#[test]
fn placed_advisor_cuts_the_rooks_on_its_rank() {
    let pos = Position::from_fen("4k4/9/9/9/9/9/9/4K4/9/R7r w - - 0 1").expect("should parse");
    let mut dts = DirtyThreats::new();
    pos.update_piece_threats::<true>(Piece::W_ADVISOR, true, Square::from_raw_unchecked(3), &mut dts);
    let got: Vec<_> = dts.as_slice().iter().map(|t| fields(*t)).collect();
    assert_eq!(
        got,
        vec![
            (false, Piece::W_ROOK.index(), Piece::B_ROOK.index(), 0, 8),
            (true, Piece::W_ROOK.index(), Piece::W_ADVISOR.index(), 0, 3),
            (false, Piece::B_ROOK.index(), Piece::W_ROOK.index(), 8, 0),
            (true, Piece::B_ROOK.index(), Piece::W_ADVISOR.index(), 8, 3),
        ]
    );
}

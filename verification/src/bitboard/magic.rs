//! Attack lookups for the sliding and leaping pieces.
//!
//! The sets are computed directly from the occupancy, square by square, so
//! they need no precomputed tables.

use vstd::prelude::*;

use super::attacks::{
    bishop_attack_has, cannon_attack_has, knight_attack_has, knight_to_attack_has,
    lame_leaper_attack_bishop, lame_leaper_attack_knight, lame_leaper_attack_knight_to,
    rook_attack_has, sliding_attack_cannon, sliding_attack_rook,
};
use super::bitboard::Bitboard;
use crate::types::Square;

verus! {

/// Squares a rook on `sq` attacks.
pub fn attacks_bb_rook(sq: Square, occupied: Bitboard) -> (b: Bitboard)
    requires
        sq.valid(),
    ensures
        forall|t: int| #[trigger] b.has(t) == rook_attack_has(sq.id(), occupied, t),
        b.wf(),
{
    sliding_attack_rook(sq, occupied)
}

/// Squares a cannon on `sq` attacks.
pub fn attacks_bb_cannon(sq: Square, occupied: Bitboard) -> (b: Bitboard)
    requires
        sq.valid(),
    ensures
        forall|t: int| #[trigger] b.has(t) == cannon_attack_has(sq.id(), occupied, t),
        b.wf(),
{
    sliding_attack_cannon(sq, occupied)
}

/// Squares a knight on `sq` attacks.
pub fn attacks_bb_knight(sq: Square, occupied: Bitboard) -> (b: Bitboard)
    requires
        sq.valid(),
    ensures
        forall|t: int| #[trigger] b.has(t) == knight_attack_has(sq.id(), occupied, t),
        b.wf(),
{
    lame_leaper_attack_knight(sq, occupied)
}

/// Squares a bishop on `sq` attacks.
pub fn attacks_bb_bishop(sq: Square, occupied: Bitboard) -> (b: Bitboard)
    requires
        sq.valid(),
    ensures
        forall|t: int| #[trigger] b.has(t) == bishop_attack_has(sq.id(), occupied, t),
        b.wf(),
{
    lame_leaper_attack_bishop(sq, occupied)
}

/// Squares from which a knight attacks `sq`.
pub fn attacks_bb_knight_to(sq: Square, occupied: Bitboard) -> (b: Bitboard)
    requires
        sq.valid(),
    ensures
        forall|t: int| #[trigger] b.has(t) == knight_to_attack_has(sq.id(), occupied, t),
        b.wf(),
{
    lame_leaper_attack_knight_to(sq, occupied)
}

/// Prepares the attack lookups. The lookups compute their sets on demand,
/// so there is nothing to prepare and any call is already safe.
pub fn ensure_initialized() {
}

} // verus!

//! Bitboards over the 90 squares and the attack sets of the Xiangqi pieces.

pub mod attacks;
pub mod bitboard;
pub mod lines;
pub mod magic;
pub mod tables;

pub use attacks::{
    PSEUDO_ATTACKS_SIZE, PseudoAttacksTable, lame_leaper_attack_bishop, lame_leaper_attack_knight,
    lame_leaper_attack_knight_to, lame_leaper_path_bishop, lame_leaper_path_dir_bishop,
    lame_leaper_path_dir_knight, lame_leaper_path_dir_knight_to, lame_leaper_path_knight,
    lame_leaper_path_knight_to, pawn_attacks_bb, pawn_attacks_to_bb, sliding_attack_cannon,
    sliding_attack_rook,
};
pub use bitboard::Bitboard;
pub use lines::{aligned, between_bb, leaper_pass_bb, line_bb, pseudo_attacks, ray_pass_bb};
pub use magic::{
    attacks_bb_bishop, attacks_bb_cannon, attacks_bb_knight, attacks_bb_knight_to,
    attacks_bb_rook, ensure_initialized,
};
pub use tables::{
    FILE_NB, file_bb, file_bb_of, file_distance, half_bb, palace, pawn_bb, rank_bb, rank_bb_of,
    rank_distance, safe_destination, shift, square_bb, square_distance,
};

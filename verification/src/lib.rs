//! A Xiangqi (Chinese chess) engine core: bitboards, attack generation,
//! positions, legal move generation and rule adjudication.

pub mod types;
pub mod bitboard;
pub mod engine;
pub mod nnue;
pub mod position;
pub mod search;

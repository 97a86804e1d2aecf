//! Positions: board state, FEN, move making, legality and move generation.

pub mod chase;
pub mod do_move;
pub mod evasion;
pub mod fen;
pub mod keys;
pub mod legality;
pub mod movegen;
pub mod perft;
pub mod position;
pub mod rule_judge;
pub mod state;
pub mod threats;
pub mod zobrist;

pub use fen::FenError;
pub use position::Position;
pub use state::{BloomFilter, StateInfo};
pub use zobrist::zobrist;
pub use movegen::{GenType, MoveList, generate};
pub use perft::perft;

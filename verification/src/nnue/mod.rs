//! Inputs and building blocks of the NNUE evaluation.

pub mod accumulator;
pub mod feature_transformer;
pub mod features;
pub mod model;
pub mod network;
pub mod simd;

pub use accumulator::{
    Accumulator, AccumulatorStack, AccumulatorState, DiffType, DirtyPiece, DirtyThreat, DirtyThreats,
};
pub use network::make_layer_stack_bucket;

use pikarust_core::nnue::accumulator::Accumulator;
use pikarust_core::nnue::feature_transformer::refresh_psq_accumulator;
use pikarust_core::nnue::model::{FeatureTransformerWeights, LayerStackWeights, NnueModel};
use pikarust_core::nnue::simd::Dispatch;
use pikarust_core::position::Position;
use pikarust_core::position::fen::START_FEN;

fn unit_psq_model() -> NnueModel {
    let ft = FeatureTransformerWeights {
        biases: Box::new([0i16; 1024]),
        weights: vec![1i8; 16_536 * 1024],
        psqt_weights: vec![2i32; 16_536 * 16],
        threat_weights: vec![0i8; 45_547 * 1024],
        threat_psqt_weights: vec![0i32; 45_547 * 16],
    };
    let layer_stacks = (0..16)
        .map(|_| LayerStackWeights {
            fc0_biases: Box::new([0; 32]),
            fc0_weights: vec![0; 32 * 1024],
            fc1_biases: Box::new([0; 32]),
            fc1_weights: vec![0; 32 * 64],
            fc2_biases: Box::new([0; 1]),
            fc2_weights: vec![0; 32],
        })
        .collect();
    NnueModel { description: String::new(), ft, layer_stacks }
}

#[test]
fn refresh_sums_one_weight_per_piece() {
    let model = unit_psq_model();
    let pos = Position::from_fen(START_FEN).unwrap();
    let mut acc = Accumulator::new();
    refresh_psq_accumulator(&model, &pos, &mut acc, &Dispatch::new());
    for c in 0..2 {
        assert!(acc.computed[c]);
        assert!(acc.accumulation[c].iter().all(|&v| v == 32));
        assert!(acc.psqt_accumulation[c].iter().all(|&v| v == 64));
    }
}

use pikarust_core::nnue::accumulator::{Accumulator, AccumulatorStack, DirtyPiece, DirtyThreat};
use pikarust_core::types::{Piece, Square};

#[test]
fn test_accumulator_new() {
    let acc = Accumulator::new();
    assert!(!acc.computed[0]);
    assert!(!acc.computed[1]);
    assert_eq!(acc.accumulation[0][0], 0);
    assert_eq!(acc.psqt_accumulation[1][15], 0);
}

#[test]
fn test_accumulator_reset() {
    let mut acc = Accumulator::new();
    acc.accumulation[0][0] = 42;
    acc.computed[0] = true;
    acc.reset();
    assert_eq!(acc.accumulation[0][0], 0);
    assert!(!acc.computed[0]);
}

#[test]
fn test_dirty_piece_new() {
    let dp = DirtyPiece::new();
    assert_eq!(dp.dirty_num, 0);
    assert_eq!(dp.pc[0], Piece::NONE);
    assert_eq!(dp.from[0], Square::NONE);
    assert!(!dp.requires_refresh[0]);
}

#[test]
fn test_dirty_threat_encoding() {
    let dt = DirtyThreat(0x8034_1A05);
    assert!(dt.is_add());
    assert_eq!(dt.pc_raw(), 3);
    assert_eq!(dt.threatened_pc_raw(), 4);
    assert_eq!(dt.threatened_sq_raw(), 0x1A);
    assert_eq!(dt.pc_sq_raw(), 0x05);
}

#[test]
fn test_dirty_threat_not_add() {
    let dt = DirtyThreat(0x0034_1A05);
    assert!(!dt.is_add());
}

#[test]
fn test_accumulator_stack_push_pop() {
    let mut stack = AccumulatorStack::new(8);
    assert_eq!(stack.size(), 0);

    stack.push();
    assert_eq!(stack.size(), 1);
    assert!(!stack.current_psq().acc.computed[0]);

    stack.push();
    assert_eq!(stack.size(), 2);

    stack.pop();
    assert_eq!(stack.size(), 1);

    stack.pop();
    assert_eq!(stack.size(), 0);
}

#[test]
fn test_accumulator_stack_reset() {
    let mut stack = AccumulatorStack::new(8);
    stack.push();
    stack.push();
    stack.reset();
    assert_eq!(stack.size(), 0);
}

#[test]
fn test_accumulator_stack_prev() {
    let mut stack = AccumulatorStack::new(8);
    assert!(stack.prev_psq().is_none());
    assert!(stack.prev_threat().is_none());

    stack.push();
    assert!(stack.prev_psq().is_some());
    assert!(stack.prev_threat().is_some());
}

#[test]
fn test_accumulator_stack_grows() {
    let mut stack = AccumulatorStack::new(2);
    for _ in 0..10 {
        stack.push();
    }
    assert_eq!(stack.size(), 10);
}

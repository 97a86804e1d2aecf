use pikarust_core::position::perft::perft_divide;
use pikarust_core::position::{Position, perft};

#[test]
fn test_perft_startpos_depth0() {
    let mut pos = Position::start_pos().unwrap();
    assert_eq!(perft(&mut pos, 0), 1);
}

#[test]
fn test_perft_startpos_depth1() {
    let mut pos = Position::start_pos().unwrap();
    assert_eq!(perft(&mut pos, 1), 44);
}

#[test]
fn test_perft_startpos_depth2() {
    let mut pos = Position::start_pos().unwrap();
    assert_eq!(perft(&mut pos, 2), 1920);
}

#[test]
fn test_perft_startpos_depth3() {
    let mut pos = Position::start_pos().unwrap();
    assert_eq!(perft(&mut pos, 3), 79_666);
}

#[test]
fn test_perft_midgame1_depth1() {
    let fen = "r1ba1a3/4kn3/2n1b4/pNp1p1p1p/4c4/6P2/P1P2R2P/1CcC5/9/2BAKAB2 w - - 0 1";
    let mut pos = Position::from_fen(fen).unwrap();
    let nodes = perft(&mut pos, 1);
    assert!(nodes > 0, "midgame position should have legal moves");
    assert!(nodes < 100, "midgame position should have < 100 legal moves, got {nodes}");
}

#[test]
fn test_perft_midgame2_depth1() {
    let fen = "1cbak4/9/n2a5/2p1p3p/5cp2/2n2N3/6PCP/3AB4/2C6/3A1K1N1 w - - 0 1";
    let mut pos = Position::from_fen(fen).unwrap();
    let nodes = perft(&mut pos, 1);
    assert!(nodes > 0, "midgame position should have legal moves");
}

#[test]
fn test_perft_endgame_depth2() {
    let fen = "5a3/3k5/3aR4/9/5r3/5n3/9/3A1A3/5K3/2BC2B2 w - - 0 1";
    let mut pos = Position::from_fen(fen).unwrap();
    let d1 = perft(&mut pos, 1);
    let d2 = perft(&mut pos, 2);
    assert!(d1 > 0);
    assert!(d2 > d1, "depth 2 should have more nodes than depth 1");
}

#[test]
fn test_perft_kings_only_depth2() {
    let fen = "4k4/9/9/9/9/9/9/9/9/4K4 w - - 0 1";
    let mut pos = Position::from_fen(fen).unwrap();
    let d1 = perft(&mut pos, 1);
    let d2 = perft(&mut pos, 2);
    assert!(d1 > 0);
    assert!(d2 > 0);
}

#[test]
fn test_perft_checks_position_depth2() {
    let fen = "CRN1k1b2/3ca4/4ba3/9/2nr5/9/9/4B4/4A4/4KA3 w - - 0 1";
    let mut pos = Position::from_fen(fen).unwrap();
    let d1 = perft(&mut pos, 1);
    let d2 = perft(&mut pos, 2);
    assert!(d1 > 0, "position with checks should have legal moves");
    assert!(d2 > 0);
}

#[test]
fn test_perft_black_to_move_depth2() {
    let fen = "2bak4/9/3a5/p2Np3p/3n1P3/3pc3P/P4r1c1/B2CC2R1/4A4/3AK1B2 b - - 0 1";
    let mut pos = Position::from_fen(fen).unwrap();
    let d1 = perft(&mut pos, 1);
    let d2 = perft(&mut pos, 2);
    assert!(d1 > 0);
    assert!(d2 > 0);
}

#[test]
fn test_perft_deterministic() {
    let mut pos = Position::start_pos().unwrap();
    let n1 = perft(&mut pos, 3);
    let n2 = perft(&mut pos, 3);
    assert_eq!(n1, n2, "perft should be deterministic");
}

#[test]
fn test_perft_divide_matches_perft() {
    let mut pos = Position::start_pos().unwrap();
    let total = perft(&mut pos, 2);
    let divided = perft_divide(&mut pos, 2);
    let sum: u64 = divided.iter().map(|(_, n)| n).sum();
    assert_eq!(sum, total, "divide sum should match perft total");
}

#[test]
fn perft_leaves_the_position_unchanged() {
    let mut pos = Position::start_pos().unwrap();
    let before = pos.fen();
    let key = pos.key();
    let _ = perft(&mut pos, 2);
    assert_eq!(pos.fen(), before);
    assert_eq!(pos.key(), key);
}

#[test]
fn perft_divide_names_moves_by_squares() {
    let mut pos = Position::from_fen("4k4/9/9/9/9/9/9/9/9/3K5 w - - 0 1").unwrap();
    let divided = perft_divide(&mut pos, 1);
    let names: Vec<&str> = divided.iter().map(|(s, _)| s.as_str()).collect();
    assert!(names.contains(&"d0d1"));
    assert!(!names.contains(&"d0e0"), "the kings may not face each other");
    assert!(divided.iter().all(|(_, n)| *n == 1));
}

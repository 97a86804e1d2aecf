use pikarust_core::position::{GenType, Position, generate};

#[test]
fn test_start_pos_legal_moves() {
    let pos = Position::start_pos().expect("start_pos should parse");
    let moves = generate(&pos, GenType::Legal);
    assert!(!moves.is_empty(), "start position should have legal moves");
    assert_eq!(moves.len(), 44, "start position should have 44 legal moves");
}

#[test]
fn test_start_pos_pseudo_legal_moves() {
    let pos = Position::start_pos().expect("start_pos should parse");
    let moves = generate(&pos, GenType::PseudoLegal);
    assert!(moves.len() >= 44);
}

#[test]
fn test_kings_only_position() {
    let pos = Position::from_fen("4k4/9/9/9/9/9/9/9/9/4K4 w - - 0 1").expect("should parse");
    let moves = generate(&pos, GenType::Legal);
    assert!(!moves.is_empty());
}

#[test]
fn captures_and_quiets_split_the_pseudo_legal_moves() {
    let pos = Position::start_pos().expect("start_pos should parse");
    let all = generate(&pos, GenType::PseudoLegal);
    let captures = generate(&pos, GenType::Captures);
    let quiets = generate(&pos, GenType::Quiets);
    assert_eq!(captures.len() + quiets.len(), all.len());
    assert_eq!(captures.len(), 2);
    for m in captures.as_slice() {
        assert!(all.contains(*m));
        assert!(!quiets.contains(*m));
    }
}

#[test]
fn move_list_remove_at_moves_the_last_move_in() {
    let pos = Position::start_pos().expect("start_pos should parse");
    let mut moves = generate(&pos, GenType::Legal);
    let n = moves.len();
    let last = moves.get(n - 1);
    moves.remove_at(0);
    assert_eq!(moves.len(), n - 1);
    assert_eq!(moves.get(0), last);
}

#[test]
fn evasions_answer_a_rook_check() {
    let pos = Position::from_fen("3k5/9/9/9/9/9/9/9/4r4/4K4 w - - 0 1").expect("should parse");
    assert!(!pos.checkers().is_empty());
    let legal = generate(&pos, GenType::Legal);
    assert_eq!(legal.len(), 2);
    let evasions = generate(&pos, GenType::Evasions);
    for m in legal.as_slice() {
        assert!(evasions.contains(*m));
    }
}

fn legal_by_filter(pos: &Position) -> Vec<u16> {
    let mut v: Vec<u16> = generate(pos, GenType::PseudoLegal)
        .as_slice()
        .iter()
        .filter(|m| pos.is_legal(**m))
        .map(|m| m.raw())
        .collect();
    v.sort_unstable();
    v
}

fn legal_generated(pos: &Position) -> Vec<u16> {
    let mut v: Vec<u16> = generate(pos, GenType::Legal).as_slice().iter().map(|m| m.raw()).collect();
    v.sort_unstable();
    v
}

#[test]
fn evasions_miss_no_legal_move() {
    for fen in [
        // Cannon check through a white screen that can step aside.
        "4k4/9/9/9/4c4/9/4P4/9/9/3AKA3 w - - 0 1",
        // Cannon check through a black screen.
        "4k4/9/9/9/4c4/4p4/9/9/9/3AK4 w - - 0 1",
        // Rook check along the rank.
        "4k4/9/9/9/9/9/9/9/3R5/r3K4 w - - 0 1",
        // Knight check with a blockable leg.
        "4k4/9/9/9/9/9/9/5n3/7R1/4K4 w - - 0 1",
        // Pawn check.
        "4k4/9/9/9/9/9/9/9/4p4/3RK4 w - - 0 1",
        // Cannon screened by a white cannon, which may jump away.
        "4k4/9/4c4/9/9/4C4/9/9/9/3AK4 w - - 0 1",
    ] {
        let pos = Position::from_fen(fen).expect("should parse");
        assert!(pos.checkers().is_not_empty(), "{fen}");
        assert_eq!(legal_generated(&pos), legal_by_filter(&pos), "{fen}");
    }
}

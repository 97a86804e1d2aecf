use pikarust_core::position::{FenError, Position};
use pikarust_core::types::{Color, PieceType, Square};

const START_FEN: &str = "rnbakabnr/9/1c5c1/p1p1p1p1p/9/9/P1P1P1P1P/1C5C1/9/RNBAKABNR w - - 0 1";

#[test]
fn test_start_pos_fen_roundtrip() {
    let pos = Position::start_pos().expect("start_pos should parse");
    let fen = pos.fen();
    assert_eq!(fen, START_FEN);
}

#[test]
fn test_start_pos_piece_counts() {
    let pos = Position::start_pos().expect("start_pos should parse");
    assert_eq!(pos.count_type(Color::White, PieceType::Rook), 2);
    assert_eq!(pos.count_type(Color::White, PieceType::Knight), 2);
    assert_eq!(pos.count_type(Color::White, PieceType::Bishop), 2);
    assert_eq!(pos.count_type(Color::White, PieceType::Advisor), 2);
    assert_eq!(pos.count_type(Color::White, PieceType::King), 1);
    assert_eq!(pos.count_type(Color::White, PieceType::Cannon), 2);
    assert_eq!(pos.count_type(Color::White, PieceType::Pawn), 5);
    assert_eq!(pos.count_type(Color::Black, PieceType::Rook), 2);
    assert_eq!(pos.count_type(Color::Black, PieceType::Pawn), 5);
}

#[test]
fn test_start_pos_side_to_move() {
    let pos = Position::start_pos().expect("start_pos should parse");
    assert_eq!(pos.side_to_move(), Color::White);
}

#[test]
fn test_start_pos_king_squares() {
    let pos = Position::start_pos().expect("start_pos should parse");
    assert_eq!(pos.king_square(Color::White), Square::SQ_E0);
    assert_eq!(pos.king_square(Color::Black), Square::SQ_E9);
}

#[test]
fn test_start_pos_all_pieces() {
    let pos = Position::start_pos().expect("start_pos should parse");
    assert_eq!(pos.all_pieces().popcount(), 32);
}

#[test]
fn test_invalid_fen_too_many_pieces() {
    let result = Position::from_fen("RRRRRRRRR/9/9/9/9/9/9/9/9/9 w - - 0 1");
    assert!(result.is_err());
}

#[test]
fn test_fen_with_black_to_move() {
    let fen = "rnbakabnr/9/1c5c1/p1p1p1p1p/9/9/P1P1P1P1P/1C5C1/9/RNBAKABNR b - - 0 1";
    let pos = Position::from_fen(fen).expect("should parse");
    assert_eq!(pos.side_to_move(), Color::Black);
}

#[test]
fn test_fen_custom_position() {
    let fen = "4k4/9/9/9/9/9/9/9/9/4K4 w - - 0 1";
    let pos = Position::from_fen(fen).expect("should parse");
    assert_eq!(pos.all_pieces().popcount(), 2);
    assert_eq!(pos.king_square(Color::White), Square::SQ_E0);
    assert_eq!(pos.king_square(Color::Black), Square::SQ_E9);
}

#[test]
fn fen_round_trips_black_to_move_and_counters() {
    let fen = "4k4/9/9/9/9/9/9/9/9/4K4 b - - 17 42";
    let pos = Position::from_fen(fen).expect("should parse");
    assert_eq!(pos.game_ply(), 83);
    assert_eq!(pos.rule60_count(), 17);
    assert_eq!(pos.fen(), fen);
}

#[test]
fn fen_errors_name_their_kind() {
    assert!(matches!(Position::from_fen("9/9/9/9/9/9/9/9/9/9"), Err(FenError::Invalid(_))));
    assert!(matches!(Position::from_fen("4k4/9/9/9/9/9/9/9/9/4K3 w - - 0 1"), Err(FenError::Invalid(_))));
    assert!(matches!(Position::from_fen("4k4/9/9/9/9/9/9/9/9/4X4 w - - 0 1"), Err(FenError::Invalid(_))));
    assert!(matches!(Position::from_fen("4k4/9/9/9/9/9/9/9/9/4K4 x - - 0 1"), Err(FenError::Invalid(_))));
    assert!(matches!(Position::from_fen("4k4/9/9/9/9/9/9/9/9/4K4 w - - 121 1"), Err(FenError::Unsupported(_))));
    assert!(matches!(Position::from_fen("9/9/9/9/9/9/9/9/9/4K4 w - - 0 1"), Err(FenError::Unsupported(_))));
    assert!(matches!(Position::from_fen("4k4/9/9/9/9/9/9/9/9/4K4 w"), Ok(_)));
}

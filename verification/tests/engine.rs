use pikarust_core::engine::interface::convert_limits;
use pikarust_core::engine::{Engine, EngineError, SearchLimits, SearchResult, parse_uci_move};
use pikarust_core::position::{GenType, Position, generate};
use pikarust_core::position::fen::START_FEN;
use pikarust_core::types::{Move, Square};

#[test]
fn test_engine_new() {
    let engine = Engine::without_nnue().unwrap();
    assert_eq!(engine.options().hash_mb, 16);
    assert_eq!(engine.options().threads, 1);
}

#[test]
fn test_engine_set_option() {
    let mut engine = Engine::without_nnue().unwrap();
    engine.set_option("Hash", "256").unwrap();
    assert_eq!(engine.options().hash_mb, 256);
}

#[test]
fn test_engine_set_option_error() {
    let mut engine = Engine::without_nnue().unwrap();
    assert!(engine.set_option("Nonexistent", "42").is_err());
}

#[test]
fn test_engine_new_game() {
    let mut engine = Engine::without_nnue().unwrap();
    engine.set_position(START_FEN, &["b0c2"]).unwrap();
    engine.new_game().unwrap();
    assert_eq!(engine.position().fen(), START_FEN);
}

#[test]
fn test_engine_set_position_startpos() {
    let mut engine = Engine::without_nnue().unwrap();
    engine.set_position(START_FEN, &[]).unwrap();
    assert_eq!(engine.position().fen(), START_FEN);
}

#[test]
fn test_engine_set_position_with_moves() {
    let mut engine = Engine::without_nnue().unwrap();
    engine.set_position(START_FEN, &["b0c2", "b9c7"]).unwrap();
    let fen = engine.position().fen();
    assert_ne!(fen, START_FEN);
}

#[test]
fn test_engine_set_position_invalid_fen() {
    let mut engine = Engine::without_nnue().unwrap();
    assert!(engine.set_position("invalid fen", &[]).is_err());
}

#[test]
fn test_engine_set_position_illegal_move() {
    let mut engine = Engine::without_nnue().unwrap();
    assert!(engine.set_position(START_FEN, &["e0e5"]).is_err());
}

#[test]
fn test_engine_uci_options() {
    let options = Engine::uci_options();
    assert_eq!(options.len(), 6);
}

#[test]
fn test_search_limits_default() {
    let limits = SearchLimits::default();
    assert!(limits.depth.is_none());
    assert!(limits.nodes.is_none());
    assert_eq!(limits.time, [None; 2]);
    assert_eq!(limits.inc, [None; 2]);
    assert!(limits.movestogo.is_none());
    assert!(limits.movetime.is_none());
    assert!(!limits.infinite);
    assert!(!limits.ponder);
}

#[test]
fn test_parse_uci_move_valid() {
    let pos = Position::from_fen(START_FEN).unwrap();
    let m = parse_uci_move(&pos, "b0c2");
    assert!(m.is_some());
    let m = m.unwrap();
    assert!(m.is_ok());
}

#[test]
fn test_parse_uci_move_invalid_format() {
    let pos = Position::from_fen(START_FEN).unwrap();
    assert!(parse_uci_move(&pos, "").is_none());
    assert!(parse_uci_move(&pos, "abc").is_none());
    assert!(parse_uci_move(&pos, "abcde").is_none());
}

#[test]
fn test_parse_uci_move_out_of_range() {
    let pos = Position::from_fen(START_FEN).unwrap();
    assert!(parse_uci_move(&pos, "z0a0").is_none());
}

#[test]
fn test_parse_uci_move_illegal() {
    let pos = Position::from_fen(START_FEN).unwrap();
    assert!(parse_uci_move(&pos, "e0e5").is_none());
}

#[test]
fn untrusted_move_input_must_pass_piece_movement_rules() {
    let mut engine = Engine::without_nnue().unwrap();
    for movement in ["a0a9", "a1a2", "a9a8", "a0b0", "b0b3", "e0e0", "a0e9"] {
        assert!(
            matches!(
                engine.set_position(START_FEN, &[movement]),
                Err(EngineError::IllegalMove(_))
            ),
            "{movement}"
        );
        assert_eq!(engine.position().fen(), START_FEN);
    }
}

#[test]
fn parsed_move_names_its_squares() {
    let pos = Position::from_fen(START_FEN).unwrap();
    let m = parse_uci_move(&pos, "b0c2").unwrap();
    assert_eq!(m, Move::make(Square::from_raw_unchecked(1), Square::from_raw_unchecked(20)));
    assert_eq!(m.to_text(), "b0c2");
    assert!(parse_uci_move(&pos, "j0a0").is_none());
    assert!(parse_uci_move(&pos, "b0c:").is_none());
}

#[test]
fn legal_move_test_rejects_off_board_bits() {
    let pos = Position::from_fen(START_FEN).unwrap();
    assert!(!pos.is_legal_move(Move(90 * 128 + 20)));
    assert!(!pos.is_legal_move(Move(128 + 95)));
    assert!(pos.is_legal_move(Move(128 + 20)));
    assert!(!pos.is_legal_move(Move(128 + 1)));
}

#[test]
fn only_real_moves_are_ok() {
    assert!(!Move::none().is_ok());
    assert!(!Move::null().is_ok());
    assert!(Move(128 + 20).is_ok());
}

#[test]
fn set_position_keeps_the_old_position_on_an_illegal_move() {
    let mut engine = Engine::without_nnue().unwrap();
    engine.set_position(START_FEN, &["b0c2"]).unwrap();
    let before = engine.position().fen();
    let r = engine.set_position(START_FEN, &["h2e2", "h9g7", "e2e6", "a0a1"]);
    match r {
        Err(EngineError::IllegalMove(s)) => assert_eq!(s, "a0a1"),
        _ => panic!("expected an illegal move"),
    }
    assert_eq!(engine.position().fen(), before);
}

#[test]
fn set_position_plays_the_moves_in_order() {
    let mut engine = Engine::without_nnue().unwrap();
    engine.set_position(START_FEN, &["h2e2", "h9g7"]).unwrap();
    assert_eq!(
        engine.position().fen(),
        "rnbakab1r/9/1c4nc1/p1p1p1p1p/9/9/P1P1P1P1P/1C2C4/9/RNBAKABNR w - - 2 2"
    );
}

#[test]
fn set_position_reports_the_fen_error() {
    let mut engine = Engine::without_nnue().unwrap();
    assert!(matches!(
        engine.set_position("RRRRRRRRR/9/9/9/9/9/9/9/9/9 w - - 0 1", &[]),
        Err(EngineError::Fen(_))
    ));
}

#[test]
fn validate_accepts_the_default_limits() {
    assert!(SearchLimits::default().validate().is_ok());
    let limits = SearchLimits {
        depth: Some(245),
        time: [Some(0), Some(1000)],
        ..SearchLimits::default()
    };
    assert!(limits.validate().is_ok());
}

#[test]
fn validate_rejects_out_of_range_limits() {
    let bad = [
        SearchLimits { depth: Some(0), ..SearchLimits::default() },
        SearchLimits { depth: Some(246), ..SearchLimits::default() },
        SearchLimits { nodes: Some(0), ..SearchLimits::default() },
        SearchLimits { movetime: Some(0), ..SearchLimits::default() },
        SearchLimits { movestogo: Some(-1), ..SearchLimits::default() },
        SearchLimits { time: [None, Some(-1)], ..SearchLimits::default() },
        SearchLimits { inc: [Some(-5), None], ..SearchLimits::default() },
    ];
    for limits in bad {
        assert!(matches!(limits.validate(), Err(EngineError::InvalidLimits(_))));
    }
    match (SearchLimits { depth: Some(0), ..SearchLimits::default() }).validate() {
        Err(EngineError::InvalidLimits(msg)) => assert_eq!(msg, "depth must be in 1..246"),
        _ => panic!("expected invalid limits"),
    }
}

#[test]
fn search_result_default_is_empty() {
    let r = SearchResult::default();
    assert_eq!(r.best_move, Move::none());
    assert!(r.ponder_move.is_none());
    assert_eq!(r.score, 0);
    assert!(r.pv.is_empty());
}

#[test]
fn every_legal_move_reads_back_from_its_text() {
    let pos = Position::from_fen(START_FEN).unwrap();
    let list = generate(&pos, GenType::Legal);
    assert_eq!(list.len(), 44);
    for &m in list.as_slice() {
        assert_eq!(parse_uci_move(&pos, &m.to_text()), Some(m));
    }
}

#[test]
fn test_convert_limits_depth() {
    let limits = SearchLimits {
        depth: Some(5),
        ..SearchLimits::default()
    };
    let sl = convert_limits(&limits);
    assert_eq!(sl.depth, 5);
    assert_eq!(sl.nodes, 0);
    assert!(!sl.infinite);
}

#[test]
fn test_convert_limits_time() {
    let limits = SearchLimits {
        time: [Some(60000), Some(30000)],
        inc: [Some(1000), Some(500)],
        movestogo: Some(20),
        ..SearchLimits::default()
    };
    let sl = convert_limits(&limits);
    assert_eq!(sl.time[0], 60000);
    assert_eq!(sl.time[1], 30000);
    assert_eq!(sl.inc[0], 1000);
    assert_eq!(sl.inc[1], 500);
    assert_eq!(sl.movestogo, 20);
}

#[test]
fn test_convert_limits_infinite() {
    let limits = SearchLimits {
        infinite: true,
        ..SearchLimits::default()
    };
    let sl = convert_limits(&limits);
    assert!(sl.infinite);
}

#[test]
fn clock_conversion_distinguishes_absent_and_exhausted_clocks() {
    assert_eq!(convert_limits(&SearchLimits::default()).time, [0, 0]);
    for (time, expected) in [
        ([Some(0), Some(0)], [1, 1]),
        ([Some(0), None], [1, 1]),
        ([None, Some(5000)], [1, 5000]),
        ([Some(5000), None], [5000, 1]),
    ] {
        let internal = convert_limits(&SearchLimits {
            time,
            ..SearchLimits::default()
        });
        assert_eq!(internal.time, expected);
        assert!(internal.use_time_management());
    }
}

#[test]
fn convert_limits_clamps_and_copies() {
    let sl = convert_limits(&SearchLimits {
        depth: Some(1000),
        nodes: Some(77),
        inc: [Some(-3), None],
        movestogo: Some(0),
        movetime: Some(-9),
        ponder: true,
        search_moves: vec!["b0c2".to_owned(), "h2e2".to_owned()],
        ..SearchLimits::default()
    });
    assert_eq!(sl.depth, 245);
    assert_eq!(sl.nodes, 77);
    assert_eq!(sl.inc, [0, 0]);
    assert_eq!(sl.movestogo, 1);
    assert_eq!(sl.movetime, 1);
    assert!(sl.ponder_mode);
    assert_eq!(sl.search_moves, vec!["b0c2".to_owned(), "h2e2".to_owned()]);
    assert_eq!(convert_limits(&SearchLimits { depth: Some(-4), ..SearchLimits::default() }).depth, 1);
    assert!(!convert_limits(&SearchLimits::default()).use_time_management());
}

#[test]
fn engine_keeps_one_principal_variation() {
    let mut engine = Engine::without_nnue().unwrap();
    assert!(matches!(engine.set_option("MultiPV", "3"), Err(EngineError::Option(_))));
    assert_eq!(engine.options().multi_pv, 1);
    assert!(engine.set_option("multipv", "1").is_ok());
    assert_eq!(engine.options().multi_pv, 1);
}

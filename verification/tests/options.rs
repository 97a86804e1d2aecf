use pikarust_core::engine::{EngineOptions, OptionError, UciOption};

#[test]
fn test_default_options() {
    let opts = EngineOptions::default();
    assert_eq!(opts.hash_mb, 16);
    assert_eq!(opts.threads, 1);
    assert_eq!(opts.multi_pv, 1);
    assert_eq!(opts.move_overhead, 10);
    assert!(!opts.ponder);
    assert!(!opts.show_wdl);
}

#[test]
fn test_set_hash() {
    let mut opts = EngineOptions::default();
    opts.set("Hash", "256").unwrap();
    assert_eq!(opts.hash_mb, 256);
}

#[test]
fn test_set_hash_boundary() {
    let mut opts = EngineOptions::default();
    opts.set("Hash", "1").unwrap();
    assert_eq!(opts.hash_mb, 1);
    opts.set("Hash", "65536").unwrap();
    assert_eq!(opts.hash_mb, 65536);
}

#[test]
fn test_set_hash_out_of_range() {
    let mut opts = EngineOptions::default();
    assert!(opts.set("Hash", "0").is_err());
    assert!(opts.set("Hash", "65537").is_err());
}

#[test]
fn test_set_threads() {
    let mut opts = EngineOptions::default();
    opts.set("Threads", "8").unwrap();
    assert_eq!(opts.threads, 8);
}

#[test]
fn test_set_multi_pv() {
    let mut opts = EngineOptions::default();
    opts.set("MultiPV", "3").unwrap();
    assert_eq!(opts.multi_pv, 3);
}

#[test]
fn test_set_move_overhead() {
    let mut opts = EngineOptions::default();
    opts.set("Move Overhead", "100").unwrap();
    assert_eq!(opts.move_overhead, 100);
}

#[test]
fn test_set_ponder() {
    let mut opts = EngineOptions::default();
    opts.set("Ponder", "true").unwrap();
    assert!(opts.ponder);
    opts.set("Ponder", "false").unwrap();
    assert!(!opts.ponder);
}

#[test]
fn test_set_show_wdl() {
    let mut opts = EngineOptions::default();
    opts.set("UCI_ShowWDL", "true").unwrap();
    assert!(opts.show_wdl);
}

#[test]
fn test_set_unknown_option() {
    let mut opts = EngineOptions::default();
    assert!(opts.set("UnknownOption", "42").is_err());
}

#[test]
fn test_set_invalid_spin_value() {
    let mut opts = EngineOptions::default();
    assert!(opts.set("Hash", "abc").is_err());
}

#[test]
fn test_set_invalid_check_value() {
    let mut opts = EngineOptions::default();
    assert!(opts.set("Ponder", "yes").is_err());
}

#[test]
fn test_case_insensitive_option_name() {
    let mut opts = EngineOptions::default();
    opts.set("hash", "128").unwrap();
    assert_eq!(opts.hash_mb, 128);
    opts.set("HASH", "64").unwrap();
    assert_eq!(opts.hash_mb, 64);
}

#[test]
fn test_uci_options_list() {
    let options = EngineOptions::uci_options();
    assert_eq!(options.len(), 6);

    assert!(
        matches!(&options[0], UciOption::Spin { name, default: 16, min: 1, max: 65536 } if name == "Hash")
    );
    assert!(
        matches!(&options[1], UciOption::Spin { name, default: 1, min: 1, max: 1024 } if name == "Threads")
    );
    assert!(matches!(&options[4], UciOption::Check { name, default: false } if name == "Ponder"));
}

#[test]
fn test_uci_option_display_spin() {
    let opt = UciOption::Spin { name: "Hash".to_owned(), default: 16, min: 1, max: 65536 };
    assert_eq!(opt.to_uci_string(), "option name Hash type spin default 16 min 1 max 65536");
}

#[test]
fn test_uci_option_display_check() {
    let opt = UciOption::Check { name: "Ponder".to_owned(), default: false };
    assert_eq!(opt.to_uci_string(), "option name Ponder type check default false");
}

#[test]
fn test_uci_option_display_string() {
    let opt = UciOption::String { name: "EvalFile".to_owned(), default: String::new() };
    assert_eq!(opt.to_uci_string(), "option name EvalFile type string default <empty>");
}

#[test]
fn test_uci_option_display_button() {
    let opt = UciOption::Button { name: "Clear Hash".to_owned() };
    assert_eq!(opt.to_uci_string(), "option name Clear Hash type button");
}

#[test]
fn failed_set_leaves_options_unchanged_and_names_the_error() {
    let mut opts = EngineOptions::default();
    let before = opts;
    assert!(matches!(opts.set("Nope", "1"), Err(OptionError::UnknownOption(_))));
    assert!(matches!(opts.set("Threads", "1025"), Err(OptionError::InvalidValue { .. })));
    assert!(matches!(opts.set("Threads", "+12x"), Err(OptionError::InvalidValue { .. })));
    assert_eq!(opts, before);
    opts.set("threads", "+12").unwrap();
    assert_eq!(opts.threads, 12);
    opts.set("PONDER", "TRUE").unwrap();
    assert!(opts.ponder);
}

#[test]
fn negative_defaults_are_written_with_a_sign() {
    let opt = UciOption::Spin { name: "Contempt".to_owned(), default: -20, min: -100, max: 100 };
    assert_eq!(opt.to_uci_string(), "option name Contempt type spin default -20 min -100 max 100");
}

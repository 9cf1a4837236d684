use angelo::logging::{clock, looks_like_ci, precedence, Chosen, Verbosity};

#[test]
fn the_flag_beats_everything() {
    assert_eq!(
        precedence(Some(Verbosity::Trace), Some("error".to_string()), true),
        Chosen::Flag(Verbosity::Trace)
    );
}

#[test]
fn rust_log_beats_the_default_but_not_the_flag() {
    assert_eq!(
        precedence(None, Some("angelo::exec=debug".to_string()), false),
        Chosen::RustLog("angelo::exec=debug".to_string())
    );
    assert_eq!(
        precedence(Some(Verbosity::Warn), Some("debug".to_string()), false),
        Chosen::Flag(Verbosity::Warn)
    );
}

/// An exported-but-empty `RUST_LOG` is not a request for anything.
#[test]
fn an_empty_rust_log_is_not_a_choice() {
    assert_eq!(
        precedence(None, Some("  ".to_string()), false),
        Chosen::Default(Verbosity::Info)
    );
}

#[test]
fn ci_is_quiet_and_a_terminal_is_not() {
    assert_eq!(precedence(None, None, true), Chosen::Default(Verbosity::Warn));
    assert_eq!(
        precedence(None, None, false),
        Chosen::Default(Verbosity::Info)
    );
}

/// Every CI provider sets `CI` to something different, and `CI=false` is how
/// a person says they are not in one.
#[test]
fn ci_counts_when_it_says_anything_real() {
    assert!(looks_like_ci(Some("true".to_string())));
    assert!(looks_like_ci(Some("1".to_string())));
    assert!(looks_like_ci(Some("woodpecker".to_string())));
    assert!(!looks_like_ci(Some("false".to_string())));
    assert!(!looks_like_ci(Some("FALSE".to_string())));
    assert!(!looks_like_ci(Some("0".to_string())));
    assert!(!looks_like_ci(Some(String::new())));
    assert!(!looks_like_ci(None));
}

#[test]
fn a_stamp_is_shortened_to_its_time() {
    assert_eq!(clock("2024-05-01T12:34:56Z"), "12:34:56");
    assert_eq!(clock("12:34:56"), "12:34:56");
    assert_eq!(clock("2024-05-01T12:34:56"), "2024-05-01T12:34:56");
}

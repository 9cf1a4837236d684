use angelo::db::Settled;
use angelo::lines::{Lines, Position};
use angelo::mutate::{Mutant, Status};
use angelo::schemata::SourceFile;
use angelo::stryker::{find_text, location, quoted, render, render_mutant, thresholds};

fn settled(original: &str, replacement: &str, status: Option<Status>, executed: bool) -> Settled {
    Settled {
        mutant: Mutant {
            id: 7,
            file: "calc.py".to_string(),
            line: 1,
            byte_start: 4,
            byte_end: 4 + original.len(),
            original: original.to_string(),
            replacement: replacement.to_string(),
        },
        status,
        executed,
        duration_ms: Some(120),
        failed_tests: vec!["test_add".to_string()],
    }
}

fn source(file: &str) -> Vec<SourceFile> {
    vec![SourceFile {
        file: file.to_string(),
        source: "a = 1 + 2\n".to_string(),
    }]
}

#[test]
fn escaping_survives_what_python_actually_contains() {
    assert_eq!(quoted(r#"a "b" c"#), r#""a \"b\" c""#);
    assert_eq!(quoted(r"a\b"), r#""a\\b""#);
    assert_eq!(quoted("one\ntwo"), r#""one\ntwo""#);
    assert_eq!(quoted("a\tb"), r#""a\tb""#);
    assert_eq!(quoted("a\rb"), r#""a\rb""#);
}

/// A control character with no short escape has to become six characters.
#[test]
fn a_bare_control_character_becomes_a_unicode_escape() {
    assert_eq!(quoted("a\u{1}b"), r#""a\u0001b""#);
    assert_eq!(quoted("\u{8}\u{c}"), r#""\b\f""#);
    assert_eq!(quoted("\u{1f}"), r#""\u001f""#);
}

#[test]
fn text_above_ascii_goes_through_untouched() {
    assert_eq!(quoted("héllo → ok"), "\"héllo → ok\"");
}

#[test]
fn a_mutant_carries_every_field_the_schema_requires() {
    let source = "a = 1 + 2\n";
    let rendered = render_mutant(
        &settled("+", "-", Some(Status::Survived), true),
        source,
        &mut Lines::default(),
    );
    assert!(rendered.contains(r#""id": "7""#), "{rendered}");
    assert!(rendered.contains(r#""mutatorName": "ArithmeticOperator""#));
    assert!(rendered.contains(r#""replacement": "-""#));
    assert!(rendered.contains(r#""status": "Survived""#));
    assert!(rendered.contains(r#""killedBy": ["test_add"]"#));
    assert!(rendered.contains(r#""duration": 120"#));
}

/// The offsets say bytes 4 to 5 of `a = 1 + 2`, which is line 1, column 5,
/// ending exclusively at column 6.
#[test]
fn a_location_is_one_based_and_ends_exclusively() {
    let rendered = render_mutant(
        &settled("+", "-", Some(Status::Killed), true),
        "a = 1 + 2\n",
        &mut Lines::default(),
    );
    assert!(
        rendered.contains(
            r#""location": { "start": { "line": 1, "column": 5 }, "end": { "line": 1, "column": 6 } }"#
        ),
        "{rendered}"
    );
    assert_eq!(
        location(
            Position { line: 2, column: 3 },
            Position { line: 4, column: 5 }
        ),
        r#"{ "start": { "line": 2, "column": 3 }, "end": { "line": 4, "column": 5 } }"#
    );
}

/// One wants a test, the other wants an assertion.
#[test]
fn an_uncovered_survivor_is_reported_as_such() {
    let uncovered = render_mutant(
        &settled("+", "-", Some(Status::Survived), false),
        "a = 1 + 2\n",
        &mut Lines::default(),
    );
    assert!(uncovered.contains(r#""status": "NoCoverage""#));
}

#[test]
fn a_pending_mutant_says_it_is_pending() {
    let pending = render_mutant(
        &settled("+", "-", None, false),
        "a = 1 + 2\n",
        &mut Lines::default(),
    );
    assert!(pending.contains(r#""status": "Pending""#));
}

#[test]
fn the_document_carries_its_version_and_thresholds() {
    let document = render(
        &[settled("+", "-", Some(Status::Killed), true)],
        None,
        &source("calc.py"),
        "0.3.0",
    );
    assert!(document.contains(r#""schemaVersion": "2.0""#));
    assert!(document.contains(r#""thresholds": { "high": 80, "low": 60 }"#));
    assert!(document.contains(r#""framework": { "name": "Angelo""#));
    assert!(document.contains(r#""language": "python""#));
}

#[test]
fn no_project_root_is_written() {
    let document = render(
        &[settled("+", "-", Some(Status::Killed), true)],
        None,
        &source("calc.py"),
        "0.3.0",
    );
    assert!(!document.contains("projectRoot"), "{document}");
}

/// A project that set a threshold cares about that number, not about 60.
#[test]
fn a_threshold_becomes_the_lower_band() {
    assert_eq!(thresholds(Some(75)), (80, 75));
    assert_eq!(thresholds(None), (80, 60));
    // A band cannot sit below the one under it.
    assert_eq!(thresholds(Some(95)), (95, 95));
}

/// Keys are what a consumer resolves back to real files, so a Windows run
/// must not write Windows paths.
#[test]
fn file_keys_are_forward_slashed() {
    let mut entry = settled("+", "-", Some(Status::Killed), true);
    entry.mutant.file = ".\\src\\calc.py".to_string();
    let document = render(&[entry], None, &source("src/calc.py"), "0.3.0");
    assert!(document.contains(r#""src/calc.py""#), "{document}");
}

#[test]
fn a_file_that_is_gone_has_no_text() {
    assert_eq!(find_text(&source("a.py"), "a.py"), "a = 1 + 2\n");
    assert_eq!(find_text(&source("a.py"), "b.py"), "");
}

#[test]
fn nested_mutants_keep_their_own_places() {
    let source = "if a:\n    b = 1\n";
    let mutant = |byte_start: usize, byte_end: usize| {
        let mut entry = settled(&source[byte_start..byte_end], "x", Some(Status::Survived), true);
        entry.mutant.byte_start = byte_start;
        entry.mutant.byte_end = byte_end;
        entry
    };
    let entries = [mutant(0, 15), mutant(3, 4)];
    let mut lines = Lines::default();
    let outer = render_mutant(&entries[0], source, &mut lines);
    let inner = render_mutant(&entries[1], source, &mut lines);
    assert!(
        outer.contains(
            r#""location": { "start": { "line": 1, "column": 1 }, "end": { "line": 2, "column": 10 } }"#
        ),
        "{outer}"
    );
    let wanted =
        r#""location": { "start": { "line": 1, "column": 4 }, "end": { "line": 1, "column": 5 } }"#;
    assert!(inner.contains(wanted), "{inner}");
}

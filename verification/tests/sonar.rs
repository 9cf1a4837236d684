use angelo::db::Settled;
use angelo::lines::Lines;
use angelo::mutate::{Mutant, Status};
use angelo::schemata::SourceFile;
use angelo::sonar::{issue, raisers, render, rule};

/// `a = 1 + 2`, with the mutant on the `+` at byte 6.
const SOURCE: &str = "a = 1 + 2\n";

fn rendered(entry: &Settled) -> Option<String> {
    issue(entry, "calc.py", SOURCE, &mut Lines::default())
}

fn settled(status: Option<Status>, executed: bool) -> Settled {
    Settled {
        mutant: Mutant {
            id: 7,
            file: "calc.py".to_string(),
            line: 1,
            byte_start: 6,
            byte_end: 7,
            original: "+".to_string(),
            replacement: "-".to_string(),
        },
        status,
        executed,
        duration_ms: Some(120),
        failed_tests: vec![],
    }
}

fn sources() -> Vec<SourceFile> {
    vec![SourceFile {
        file: "calc.py".to_string(),
        source: SOURCE.to_string(),
    }]
}

/// Without the `rules` array SonarQube imports the issues and warns that the
/// format is going away.
#[test]
fn both_rules_are_declared_in_the_new_shape() {
    let document = render(&[settled(Some(Status::Survived), true)], &sources());
    assert!(document.contains(r#""id": "MutantSurvived""#), "{document}");
    assert!(document.contains(r#""id": "MutantNoCoverage""#));
    assert!(document.contains(r#""cleanCodeAttribute": "TESTED""#));
    assert!(document.contains(r#""softwareQuality": "MAINTAINABILITY""#));
    assert!(document.contains(r#""engineId": "Angelo""#));
}

#[test]
fn the_pre_ten_severity_pair_is_absent() {
    let document = render(&[settled(Some(Status::Survived), true)], &sources());
    assert!(!document.contains(r#""type""#), "{document}");
    assert!(!document.contains(r#""severity": "MAJOR""#));
}

#[test]
fn a_covered_survivor_and_an_uncovered_one_get_different_rules() {
    let covered = rendered(&settled(Some(Status::Survived), true)).expect("an issue");
    assert!(
        covered.contains(r#""ruleId": "MutantSurvived""#),
        "{covered}"
    );
    assert!(covered.contains("A mutant survived after running the tests."));

    let uncovered = rendered(&settled(Some(Status::Survived), false)).expect("an issue");
    assert!(uncovered.contains(r#""ruleId": "MutantNoCoverage""#));
    assert!(uncovered.contains("A mutant was not covered by any of the tests."));
}

#[test]
fn only_survivors_become_issues() {
    for status in [
        Status::Killed,
        Status::Timeout,
        Status::Error,
        Status::Untestable,
    ] {
        assert!(
            rendered(&settled(Some(status), true)).is_none(),
            "{status:?} should raise no issue"
        );
    }
    assert!(
        rendered(&settled(None, false)).is_none(),
        "pending raises none"
    );
}

/// Sonar counts columns from zero where the mutation-testing schema counts
/// from one.
#[test]
fn columns_are_zero_based_for_sonar() {
    let issue = rendered(&settled(Some(Status::Survived), true)).expect("an issue");
    assert!(
        issue.contains(
            r#""textRange": { "startLine": 1, "startColumn": 6, "endLine": 1, "endColumn": 7 }"#
        ),
        "{issue}"
    );
}

#[test]
fn file_paths_are_forward_slashed() {
    let mut entry = settled(Some(Status::Survived), true);
    entry.mutant.file = ".\\src\\calc.py".to_string();
    let issue = issue(
        &entry,
        &entry.mutant.report_path(),
        SOURCE,
        &mut Lines::default(),
    )
    .expect("an issue");
    assert!(issue.contains(r#""filePath": "src/calc.py""#), "{issue}");
}

#[test]
fn a_run_with_no_survivors_still_writes_a_valid_document() {
    let document = render(&[settled(Some(Status::Killed), true)], &sources());
    assert!(document.contains(r#""issues": ["#), "{document}");
    assert!(document.trim_end().ends_with('}'));
}

#[test]
fn every_raiser_becomes_one_issue() {
    let entries = [
        settled(Some(Status::Survived), true),
        settled(Some(Status::Killed), true),
        settled(Some(Status::Survived), false),
        settled(None, false),
    ];
    assert_eq!(raisers(&entries).len(), 2);
    let document = render(&entries, &sources());
    assert_eq!(document.matches("\"ruleId\"").count(), 2);
}

#[test]
fn a_rule_names_its_severity() {
    let text = rule("Id", "Name", "Why.", "HIGH");
    assert!(text.contains(r#""id": "Id""#), "{text}");
    assert!(text.contains(r#""severity": "HIGH""#), "{text}");
}

/// The deletion of a statement ends behind the mutants inside it.
#[test]
fn a_mutant_inside_another_keeps_its_own_place() {
    let source = "if a:\n    b = 1\n";
    let survivor = |byte_start: usize, byte_end: usize| {
        let mut entry = settled(Some(Status::Survived), true);
        entry.mutant.byte_start = byte_start;
        entry.mutant.byte_end = byte_end;
        entry.mutant.original = source[byte_start..byte_end].to_string();
        entry
    };
    let entries = [survivor(0, 15), survivor(3, 4)];
    let mut lines = Lines::default();
    let outer = issue(&entries[0], "calc.py", source, &mut lines).expect("an issue");
    let inner = issue(&entries[1], "calc.py", source, &mut lines).expect("an issue");
    assert!(
        outer.contains(
            r#""textRange": { "startLine": 1, "startColumn": 0, "endLine": 2, "endColumn": 9 }"#
        ),
        "{outer}"
    );
    let wanted =
        r#""textRange": { "startLine": 1, "startColumn": 3, "endLine": 1, "endColumn": 4 }"#;
    assert!(inner.contains(wanted), "{inner}");
    let sources = [SourceFile {
        file: "calc.py".to_string(),
        source: source.to_string(),
    }];
    assert!(render(&entries, &sources).contains(wanted));
}

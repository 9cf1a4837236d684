use angelo::mutate::{Mutant, Status};
use angelo::report::{
    colour_wanted, compact, counts_message, remaining, summary_lines, verdict_line, Diagnostics,
    Gate, Level, Paint, Reading, Shown, Summary, Tally,
};
use angelo::runner::BatchOutcome;

const SECOND: u64 = 1_000_000_000;

fn counts(pairs: &[(&str, i64)]) -> Vec<(String, i64)> {
    pairs.iter().map(|(s, n)| (s.to_string(), *n)).collect()
}

fn score(summary: &Summary) -> Option<f64> {
    if summary.scored() == 0 {
        None
    } else {
        Some(100.0 * summary.detected() as f64 / summary.scored() as f64)
    }
}

/// The verdict of a threshold, as a run with that setting comes to it.
fn failure(summary: &Summary, threshold: f64) -> Option<String> {
    let score = score(summary).unwrap_or(0.0);
    let shown = Shown {
        readings: [1, 4, 5, 6, 7]
            .iter()
            .map(|&places| Reading {
                score: format!("{score:.places$}"),
                threshold: format!("{threshold:.places$}"),
            })
            .collect(),
    };
    summary
        .gate(threshold > 0.0, score >= threshold)
        .failure(&shown)
}

#[test]
fn timeouts_count_as_detected() {
    let summary = Summary::of(&counts(&[("killed", 3), ("timeout", 1), ("survived", 4)]));
    assert_eq!(summary.detected(), 4);
    assert_eq!(summary.scored(), 8);
    assert_eq!(score(&summary), Some(50.0));
}

#[test]
fn errors_stay_out_of_the_score() {
    let summary = Summary::of(&counts(&[("killed", 1), ("survived", 1), ("error", 98)]));
    assert_eq!(summary.scored(), 2);
    assert_eq!(score(&summary), Some(50.0));
    assert_eq!(summary.error(), 98);
}

#[test]
fn a_run_of_only_errors_has_no_score() {
    let summary = Summary::of(&counts(&[("error", 5)]));
    assert_eq!(score(&summary), None);
}

#[test]
fn unknown_statuses_count_as_pending() {
    let summary = Summary::of(&counts(&[("pending", 2), ("something_new", 1)]));
    assert_eq!(summary.pending(), 3);
}

#[test]
fn untestable_mutants_stay_out_of_the_score() {
    let summary = Summary::of(&counts(&[
        ("killed", 3),
        ("survived", 1),
        ("untestable", 96),
    ]));
    assert_eq!(summary.scored(), 4);
    assert_eq!(score(&summary), Some(75.0));
    assert_eq!(summary.untestable(), 96);
    assert_eq!(summary.pending(), 0, "untestable is settled, not pending");
}

#[test]
fn the_counts_beside_the_bar_read_correctly() {
    let quarter = counts_message(250, 1000, 200, 50, 30 * SECOND);
    assert_eq!(quarter, "detected 200  survived 50  ~1m30s left");
}

#[test]
fn an_empty_or_finished_run_does_not_divide_by_zero() {
    assert!(counts_message(0, 0, 0, 0, 0).contains("~-- left"));
    assert!(counts_message(9, 9, 9, 0, SECOND).contains("~-- left"));
}

/// 30 seconds bought 250 of 1000, so 750 want 90 more.
#[test]
fn the_estimate_extrapolates_from_what_is_done() {
    assert_eq!(remaining(250, 1000, 30 * SECOND), "1m30s");
    assert_eq!(remaining(0, 1000, 30 * SECOND), "--");
}

#[test]
fn colour_only_goes_to_a_terminal() {
    assert!(colour_wanted(true, false));
    assert!(!colour_wanted(false, false), "a redirected run stays plain");
    assert!(!colour_wanted(true, true), "NO_COLOR beats a terminal");
    assert!(!colour_wanted(false, true));
}

#[test]
fn every_status_reads_in_its_own_colour() {
    assert_eq!(Paint::of(Status::Killed), Paint::Green);
    assert_eq!(Paint::of(Status::Timeout), Paint::Green);
    assert_eq!(Paint::of(Status::Survived), Paint::Yellow);
    assert_eq!(Paint::of(Status::Error), Paint::Red);
    assert_eq!(Paint::of(Status::Untestable), Paint::Dim);
}

#[test]
fn a_painted_text_is_reset_behind_itself() {
    assert_eq!(Paint::Red.on("x", true), "\u{1b}[31mx\u{1b}[0m");
    assert_eq!(Paint::Red.on("x", false), "x");
}

#[test]
fn durations_read_compactly() {
    assert_eq!(compact(43), "43s");
    assert_eq!(compact(258), "4m18s");
    assert_eq!(compact(7523), "2h05m");
}

/// A problem has to reach the report, not only the terminal it scrolled off.
#[test]
fn diagnostics_keep_what_they_say() {
    let mut diagnostics = Diagnostics::default();
    diagnostics.warn("the baseline is red".to_string());
    diagnostics.note("41 mutants were sampled away".to_string());
    diagnostics.fact("workers".to_string(), "8".to_string());

    assert_eq!(diagnostics.problems().len(), 2);
    assert_eq!(diagnostics.problems()[0].level, Level::Warn);
    assert_eq!(diagnostics.problems()[1].level, Level::Info);
    assert_eq!(
        diagnostics.facts(),
        [("workers".to_string(), "8".to_string())]
    );
}

/// The whole point of the flag: below fails, above passes.
#[test]
fn a_threshold_judges_the_score() {
    let summary = Summary::of(&counts(&[("killed", 1), ("survived", 4)]));
    assert!(failure(&summary, 80.0).is_some());
    assert!(failure(&summary, 10.0).is_none());
}

/// 4 of 5 is exactly 80%, and it must not fail on a rounding artefact.
#[test]
fn an_exact_match_clears_the_threshold() {
    let summary = Summary::of(&counts(&[("killed", 4), ("survived", 1)]));
    assert!(failure(&summary, 80.0).is_none());
    assert!(failure(&summary, 80.1).is_some());
}

#[test]
fn zero_means_no_threshold() {
    let summary = Summary::of(&counts(&[("survived", 100)]));
    assert!(failure(&summary, 0.0).is_none());
}

/// An all-error run has no score, and no score is not a pass.
#[test]
fn an_unmeasurable_run_fails_a_threshold() {
    let summary = Summary::of(&counts(&[("error", 5)]));
    assert_eq!(score(&summary), None);
    assert!(failure(&summary, 1.0).is_some());
    assert!(failure(&summary, 0.0).is_none());
    assert_eq!(summary.gate(true, false), Gate::Unmeasured);
}

/// The pending mutants could all survive, so a partial score proves nothing.
#[test]
fn a_partial_run_fails_a_threshold_it_would_otherwise_clear() {
    let summary = Summary::of(&counts(&[("killed", 10), ("pending", 1)]));
    assert_eq!(score(&summary), Some(100.0));
    assert!(failure(&summary, 50.0).is_some());
    assert_eq!(summary.gate(true, true), Gate::Partial(1));
}

#[test]
fn the_failure_line_names_both_numbers() {
    let summary = Summary::of(&counts(&[("killed", 46), ("survived", 28)]));
    assert_eq!(
        failure(&summary, 80.0).unwrap(),
        "score 62.2% is below --fail-under 80.0%"
    );
}

/// 46 of 74 prints as 62.2% but is really 62.16%, so a threshold typed
/// straight off the report does fail. It must not say "62.2% is below
/// 62.2%" while doing so.
#[test]
fn a_near_miss_widens_until_the_numbers_differ() {
    let summary = Summary::of(&counts(&[("killed", 46), ("survived", 28)]));
    assert_eq!(
        failure(&summary, 62.2).unwrap(),
        "score 62.1622% is below --fail-under 62.2000%"
    );
}

#[test]
fn the_report_names_the_survivors_and_the_score() {
    let survivor = Mutant {
        id: 1,
        file: "calc.py".to_string(),
        line: 3,
        byte_start: 0,
        byte_end: 1,
        original: "+".to_string(),
        replacement: "-".to_string(),
    };
    let lines = summary_lines(
        &counts(&[("killed", 1), ("survived", 1), ("pending", 2)]),
        &[survivor],
        "50.0",
        false,
    );
    let text = lines.join("\n");
    assert!(text.contains("=== mutation report ==="), "{text}");
    assert!(text.contains("calc.py:3"), "{text}");
    assert!(text.contains("50.0%"), "{text}");
    assert!(text.contains("2 mutants still pending"), "{text}");
}

#[test]
fn a_tally_counts_the_verdicts_of_a_run() {
    let mut tally = Tally::new(5);
    tally.settle(&BatchOutcome {
        duration_ms: 10,
        exit_code: Some(1),
        failed_tests: Vec::new(),
        verdicts: vec![
            (1, Status::Killed),
            (2, Status::Survived),
            (3, Status::Timeout),
            (4, Status::Error),
        ],
        error: None,
    });
    assert_eq!(
        (tally.total, tally.done, tally.detected, tally.survived),
        (5, 4, 2, 1)
    );
}

#[test]
fn a_verdict_says_how_large_its_batch_was() {
    assert_eq!(
        verdict_line(3, 10, "calc.py:3", Status::Killed, 1, "0.4"),
        "[3/10] calc.py:3  killed  (0.4s)"
    );
    assert_eq!(
        verdict_line(3, 10, "calc.py:3", Status::Survived, 4, "0.4"),
        "[3/10] calc.py:3  survived  [batch of 4]  (0.4s)"
    );
}

/// Four places are not enough here, and neither are five.
#[test]
fn a_nearer_miss_widens_further() {
    let summary = Summary::of(&counts(&[("killed", 46), ("survived", 28)]));
    assert_eq!(
        failure(&summary, 62.1622).unwrap(),
        "score 62.16216% is below --fail-under 62.16220%"
    );
    assert_eq!(
        failure(&summary, 62.16218).unwrap(),
        "score 62.16216% is below --fail-under 62.16218%"
    );
    assert_eq!(
        failure(&summary, 62.162163).unwrap(),
        "score 62.162162% is below --fail-under 62.162163%"
    );
}

#[test]
fn numbers_that_read_the_same_are_not_held_against_each_other() {
    let reading = Reading {
        score: "62.2".to_string(),
        threshold: "62.2".to_string(),
    };
    let shown = Shown {
        readings: vec![reading],
    };
    assert_eq!(
        Gate::Below.failure(&shown).unwrap(),
        "score is below --fail-under by less than the numbers can show"
    );
}

use angelo::db::Settled;
use angelo::html::{
    band_of, count_rows, escape, fact_rows, file_rows, problems, ratios, render, shown, survivors,
    Percent,
};
use angelo::mutate::{Mutant, Status};
use angelo::report::{Diagnostics, Summary};

fn settled(file: &str, line: u32, original: &str, status: Option<Status>) -> Settled {
    Settled {
        mutant: Mutant {
            id: 1,
            file: file.to_string(),
            line,
            byte_start: 0,
            byte_end: original.len(),
            original: original.to_string(),
            replacement: "-".to_string(),
        },
        status,
        executed: true,
        duration_ms: None,
        failed_tests: Vec::new(),
    }
}

fn counts(pairs: &[(&str, i64)]) -> Vec<(String, i64)> {
    pairs.iter().map(|(s, n)| (s.to_string(), *n)).collect()
}

fn percent(detected: i64, scored: i64) -> Percent {
    Percent {
        detected,
        scored,
        shown: format!("{:.1}", 100.0 * detected as f64 / scored as f64),
    }
}

fn percents(entries: &[Settled], totals: &[(String, i64)]) -> Vec<Percent> {
    let summary = Summary::of(totals);
    let mut list: Vec<Percent> = ratios(entries)
        .into_iter()
        .map(|(detected, scored)| percent(detected, scored))
        .collect();
    if summary.scored() > 0 {
        list.push(percent(summary.detected(), summary.scored()));
    }
    list
}

fn page(entries: &[Settled], totals: &[(&str, i64)], diagnostics: &Diagnostics) -> String {
    let totals = counts(totals);
    render(
        entries,
        &totals,
        diagnostics,
        &percents(entries, &totals),
        "0.3.0",
    )
}

fn rows(entries: &[Settled]) -> String {
    file_rows(entries, &percents(entries, &[]))
}

#[test]
fn everything_from_source_is_escaped() {
    assert_eq!(escape("a < b && c"), "a &lt; b &amp;&amp; c");
    assert_eq!(escape(r#""x""#), "&quot;x&quot;");
    assert_eq!(escape("it's"), "it&#39;s");
}

/// A replacement comes from a file, and it must render as text.
#[test]
fn a_script_tag_in_a_mutant_renders_as_text() {
    let mut entry = settled("x.py", 3, "1", Some(Status::Survived));
    entry.mutant.replacement = "<script>alert(1)</script>".to_string();
    let document = page(&[entry], &[("survived", 1)], &Diagnostics::default());
    assert!(!document.contains("<script>alert"), "the tag survived");
    assert!(document.contains("&lt;script&gt;alert(1)&lt;/script&gt;"));
}

#[test]
fn the_score_matches_the_summary_exactly() {
    let document = page(
        &[settled("x.py", 1, "+", Some(Status::Killed))],
        &[("killed", 46), ("survived", 28)],
        &Diagnostics::default(),
    );
    assert!(document.contains("62.2%"), "the score is missing");
    assert!(document.contains("46 of 74 mutants detected"));
}

#[test]
fn the_bands_follow_the_score() {
    assert_eq!(band_of(910, 1000), "good");
    assert_eq!(band_of(800, 1000), "good");
    assert_eq!(band_of(799, 1000), "warn");
    assert_eq!(band_of(500, 1000), "warn");
    assert_eq!(band_of(499, 1000), "bad");
}

/// An all-error run has no score, and the file must not imply one.
#[test]
fn a_run_with_no_score_says_so() {
    let document = page(&[], &[("error", 5)], &Diagnostics::default());
    assert!(document.contains("no score"));
    assert!(document.contains("broken test command"));
    assert!(!document.contains("{{"), "a placeholder went unfilled");
}

/// Worst first, because that is the file to open next.
#[test]
fn the_worst_scoring_file_sorts_first() {
    let entries = vec![
        settled("good.py", 1, "+", Some(Status::Killed)),
        settled("good.py", 2, "+", Some(Status::Killed)),
        settled("bad.py", 1, "+", Some(Status::Survived)),
    ];
    let rows = rows(&entries);
    let bad = rows.find("bad.py").expect("bad.py");
    let good = rows.find("good.py").expect("good.py");
    assert!(bad < good, "{rows}");
}

#[test]
fn a_file_with_no_score_sorts_last() {
    let entries = vec![
        settled("unscored.py", 1, "+", Some(Status::Error)),
        settled("scored.py", 1, "+", Some(Status::Survived)),
    ];
    let rows = rows(&entries);
    assert!(rows.find("scored.py") < rows.find("unscored.py"), "{rows}");
}

#[test]
fn survivors_group_under_their_file() {
    let entries = vec![
        settled("a.py", 9, "+", Some(Status::Survived)),
        settled("a.py", 2, "*", Some(Status::Survived)),
        settled("b.py", 1, "+", Some(Status::Killed)),
    ];
    let rendered = survivors(&entries);
    assert!(rendered.contains("<h3>a.py</h3>"));
    assert!(
        !rendered.contains("b.py"),
        "a killed mutant is not a survivor"
    );
    // Sorted by line, so the list reads down the file.
    assert!(rendered.find(">2<") < rendered.find(">9<"), "{rendered}");
}

#[test]
fn an_uncovered_survivor_is_marked() {
    let mut entry = settled("a.py", 4, "+", Some(Status::Survived));
    entry.executed = false;
    assert!(survivors(&[entry]).contains("no test covers this"));
}

#[test]
fn a_clean_run_says_there_are_no_survivors() {
    let rendered = survivors(&[settled("a.py", 1, "+", Some(Status::Killed))]);
    assert!(rendered.contains("No survivors"));
}

/// A removal has no replacement text, and a blank cell reads as a bug.
#[test]
fn a_removal_reads_as_a_removal() {
    let mut entry = settled("a.py", 1, "not", Some(Status::Survived));
    entry.mutant.replacement = String::new();
    assert!(survivors(&[entry]).contains("<em>removed</em>"));
    assert_eq!(shown("a<b"), "a&lt;b");
}

#[test]
fn problems_and_facts_reach_the_page() {
    let mut diagnostics = Diagnostics::default();
    diagnostics.warn("the baseline is red".to_string());
    diagnostics.fact("workers".to_string(), "8".to_string());
    let document = page(&[], &[("killed", 1)], &diagnostics);
    assert!(document.contains("Worth checking"));
    assert!(document.contains("the baseline is red"));
    assert!(document.contains("workers"));
    assert!(fact_rows(&diagnostics).contains("workers"));
}

/// No panel at all when there is nothing wrong, rather than an empty box.
#[test]
fn a_clean_run_grows_no_problems_panel() {
    let document = page(&[], &[("killed", 1)], &Diagnostics::default());
    assert!(!document.contains("Worth checking"));
    assert_eq!(problems(&Diagnostics::default()), "");
}

/// The file has to open on a machine with no network at all.
#[test]
fn the_document_reaches_out_to_nothing() {
    let document = page(&[], &[("killed", 1)], &Diagnostics::default());
    for remote in ["src=", "<script", "@import", "cdn", "http://"] {
        assert!(!document.contains(remote), "{remote} is in the document");
    }
    // One link out is fine; it is a hyperlink, not a fetch.
    assert_eq!(document.matches("https://").count(), 1);
}

#[test]
fn every_status_has_a_row() {
    let rows = count_rows(&counts(&[("killed", 3), ("survived", 1)]));
    assert!(rows.contains("killed") && rows.contains("survived"), "{rows}");
}

/// What is filled in is shown, and not searched for placeholders itself.
#[test]
fn a_placeholder_in_a_text_is_shown_as_text() {
    let entry = settled("calc.py", 1, "{{FACT_ROWS}} {{VERSION}}", Some(Status::Survived));
    let mut diagnostics = Diagnostics::default();
    diagnostics.warn("{{SURVIVORS}} {{COUNT_ROWS}}".to_string());
    let document = page(&[entry], &[("survived", 1)], &diagnostics);
    assert!(document.contains("{{FACT_ROWS}} {{VERSION}}"), "{document}");
    assert!(document.contains("{{SURVIVORS}} {{COUNT_ROWS}}"));
    assert_eq!(document.matches("{{").count(), 4);
}

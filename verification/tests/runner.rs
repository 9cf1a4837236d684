use angelo::coverage::Coverage;
use angelo::db::CoverageRow;
use angelo::mutate::{Mutant, Status};
use angelo::pytest::SuiteResult;
use angelo::runner::{
    files_of, judge, members_in, report_of, splice_all, switched, BatchOutcome, RunReport, Trial,
};
use angelo::schemata::{Schemata, SourceFile};

fn mutant(byte_start: usize, original: &str, replacement: &str) -> Mutant {
    Mutant {
        id: 0,
        file: "calc.py".to_string(),
        line: 1,
        byte_start,
        byte_end: byte_start + original.len(),
        original: original.to_string(),
        replacement: replacement.to_string(),
    }
}

#[test]
fn splices_several_mutants_into_one_file() {
    let source = "x = 1 + 2 * 3\n";
    let plus = mutant(6, "+", "-");
    let star = mutant(10, "*", "/");
    let mutated = splice_all(source, &[&plus, &star], "calc.py").unwrap();
    assert_eq!(mutated, "x = 1 - 2 / 3\n");
}

#[test]
fn splicing_rejects_a_file_that_changed() {
    let stale = mutant(6, "+", "-");
    let error = splice_all("x = 1 - 2\n", &[&stale], "calc.py");
    assert!(error.is_err());
}

/// The original-bytes check in front of the splice is what proves the range is
/// one of whole characters, so a file full of multi-byte characters has to come
/// out intact.
#[test]
fn splices_around_multibyte_characters() {
    let source = "s = 'héllo wörld'\nx = 1 + 2\n";
    let plus = mutant(source.find('+').unwrap(), "+", "-");
    let mutated = splice_all(source, &[&plus], "calc.py").unwrap();
    assert_eq!(mutated, "s = 'héllo wörld'\nx = 1 - 2\n");
}

#[test]
fn replacements_of_a_different_length_still_line_up() {
    let source = "if a >= b and c:\n";
    let compare = mutant(5, ">=", ">");
    let and = mutant(10, "and", "or");
    let mutated = splice_all(source, &[&compare, &and], "calc.py").unwrap();
    assert_eq!(mutated, "if a > b or c:\n");
}

#[test]
fn splicing_refuses_bytes_that_are_not_there() {
    let source = "x = 1 + 2\n";
    assert!(splice_all(source, &[&mutant(50, "+", "-")], "calc.py").is_err());
    let whole = mutant(0, "x = 1 + 2", "pass");
    let removed = mutant(4, "1 + 2\n", "");
    assert!(splice_all(source, &[&whole, &removed], "calc.py").is_err());
    let inside = mutant(1, "\u{e9}", "e");
    assert!(splice_all("\u{e9}\u{e9}", &[&inside], "calc.py").is_err());
}

#[test]
fn members_are_found_by_their_file() {
    let one = mutant(0, "+", "-");
    let two = Mutant {
        file: "other.py".to_string(),
        ..mutant(1, "*", "/")
    };
    let three = mutant(4, "%", "*");
    let all = [&one, &two, &three];
    assert_eq!(files_of(&all), ["calc.py", "other.py"]);
    assert_eq!(members_in(&all, "calc.py").len(), 2);
    assert_eq!(members_in(&all, "other.py")[0].original, "*");
}

fn numbered(id: i64, line: u32) -> Mutant {
    Mutant {
        id,
        line,
        ..mutant(id as usize, "+", "-")
    }
}

fn coverage() -> Coverage {
    let row = |context_id: i64, context: &str, numbits: u8| CoverageRow {
        file: "calc.py".to_string(),
        context_id,
        context: context.to_string(),
        numbits: vec![numbits],
    };
    Coverage::build(&[
        row(1, "test_calc.test_a", 0b0000_0010),
        row(2, "test_calc.test_b", 0b0000_0100),
    ])
}

fn report(result: SuiteResult, failed: &[&str]) -> RunReport {
    report_of(result, failed.iter().map(|name| name.to_string()).collect())
}

#[test]
fn a_green_batch_leaves_every_member_alive() {
    let (one, two) = (numbered(1, 1), numbered(2, 2));
    let outcome = judge(
        Ok(report(SuiteResult::Finished(0), &[])),
        &[&one, &two],
        Some(&coverage()),
        5,
    )
    .expect("a verdict");
    assert_eq!(
        outcome.verdicts,
        [(1, Status::Survived), (2, Status::Survived)]
    );
    assert_eq!(outcome.exit_code, Some(0));
}

#[test]
fn a_red_batch_is_attributed_through_coverage() {
    let (one, two) = (numbered(1, 1), numbered(2, 2));
    let outcome = judge(
        Ok(report(SuiteResult::Finished(1), &["test_calc::test_b"])),
        &[&one, &two],
        Some(&coverage()),
        5,
    )
    .expect("a verdict");
    assert_eq!(
        outcome.verdicts,
        [(1, Status::Survived), (2, Status::Killed)]
    );
}

#[test]
fn a_batch_nothing_explains_is_split() {
    let (one, two) = (numbered(1, 1), numbered(2, 2));
    for red in [
        Ok(report(SuiteResult::Finished(1), &["test_calc::test_mystery"])),
        Ok(report(SuiteResult::TimedOut, &[])),
        Ok(report(SuiteResult::Finished(2), &[])),
        Err("the worker is gone".to_string()),
    ] {
        assert!(judge(red, &[&one, &two], Some(&coverage()), 5).is_none());
    }
}

#[test]
fn a_single_mutant_is_always_settled() {
    let one = numbered(1, 1);
    let status = |run: Result<RunReport, String>| {
        judge(run, &[&one], None, 5).expect("a verdict").verdicts[0].1
    };
    assert_eq!(
        status(Ok(report(SuiteResult::Finished(0), &[]))),
        Status::Survived
    );
    assert_eq!(
        status(Ok(report(SuiteResult::Finished(1), &[]))),
        Status::Killed
    );
    assert_eq!(
        status(Ok(report(SuiteResult::Finished(2), &[]))),
        Status::Error
    );
    assert_eq!(status(Ok(report(SuiteResult::TimedOut, &[]))), Status::Timeout);
    assert_eq!(status(Err("gone".to_string())), Status::Error);
}

#[test]
fn outcomes_carry_what_happened() {
    let (one, two) = (numbered(1, 1), numbered(2, 2));
    let alive = BatchOutcome::survived(&[&one, &two], 9);
    assert_eq!(alive.verdicts.len(), 2);
    assert_eq!(alive.duration_ms, 9);
    let broken = BatchOutcome::failed(&one, "why".to_string(), 9);
    assert_eq!(broken.verdicts, [(1, Status::Error)]);
    assert_eq!(broken.error.as_deref(), Some("why"));
    let named = BatchOutcome::attributed(
        vec![(1, Status::Killed)],
        vec!["t".to_string()],
        9,
    );
    assert_eq!(named.exit_code, Some(1));
    assert_eq!(named.failed_tests, ["t"]);
}

#[test]
fn a_trial_walks_every_member_and_splits_in_halves() {
    let mut trial = Trial::new(5);
    assert_eq!(trial.next(), Some((0, 5)));
    trial.split(0, 5);
    assert_eq!(trial.next(), Some((0, 2)));
    assert_eq!(trial.next(), Some((2, 5)));
    trial.split(2, 5);
    assert_eq!(trial.next(), Some((2, 3)));
    assert_eq!(trial.next(), Some((3, 5)));
    assert_eq!(trial.next(), None);
}

#[test]
fn only_a_fully_hosted_batch_is_switched() {
    let source = "X = 1 + 2\n\n\ndef f(a):\n    return a * 2\n";
    let outside = Mutant {
        id: 1,
        ..mutant(6, "+", "-")
    };
    let inside = Mutant {
        id: 2,
        ..mutant(source.find('*').unwrap(), "*", "/")
    };
    let sources = [SourceFile {
        file: "calc.py".to_string(),
        source: source.to_string(),
    }];
    let schemata = Schemata::build(&sources, &[outside.clone(), inside.clone()]);
    assert_eq!(switched(Some(&schemata), &[&inside]).unwrap(), "2");
    assert!(switched(Some(&schemata), &[&outside]).is_none());
    assert!(switched(Some(&schemata), &[&outside, &inside]).is_none());
    assert!(switched(None, &[&inside]).is_none());
}

/// A red run that names no failing test says nothing about who failed it.
#[test]
fn a_red_batch_without_names_is_split() {
    let (one, two) = (numbered(1, 1), numbered(2, 2));
    let red = Ok(report(SuiteResult::Finished(1), &[]));
    assert!(judge(red, &[&one, &two], Some(&coverage()), 5).is_none());
}

/// Ranges that keep apart may be listed in any order, and may be empty.
#[test]
fn the_order_of_mutants_apart_does_not_matter() {
    let source = "if a >= b and c:\n";
    let compare = mutant(5, ">=", ">");
    let and = mutant(10, "and", "or");
    let nothing = mutant(7, "", "!");
    let wanted = "if a >! b or c:\n";
    for order in [
        [&compare, &and, &nothing],
        [&compare, &nothing, &and],
        [&and, &compare, &nothing],
        [&and, &nothing, &compare],
        [&nothing, &compare, &and],
        [&nothing, &and, &compare],
    ] {
        assert_eq!(splice_all(source, &order, "calc.py").unwrap(), wanted);
    }
    let stale = mutant(5, "<", ">");
    for order in [[&and, &stale], [&stale, &and]] {
        assert!(splice_all(source, &order, "calc.py").is_err());
    }
}

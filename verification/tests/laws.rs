use angelo::batch::compose;
use angelo::coverage::Coverage;
use angelo::db::CoverageRow;
use angelo::mutate::{Mutant, Status};
use angelo::pytest::{SuiteResult, TestCase};
use angelo::runner::{judge, report_of};

fn mutant(id: i64, line: u32) -> Mutant {
    Mutant {
        id,
        file: "calc.py".to_string(),
        line,
        byte_start: id as usize * 10,
        byte_end: id as usize * 10 + 1,
        original: "+".to_string(),
        replacement: "-".to_string(),
    }
}

/// test_a runs line 1, test_b line 2, test_c line 3 and test_d lines 3 and 4.
fn coverage() -> Coverage {
    let row = |context_id: i64, name: &str, numbits: u8| CoverageRow {
        file: "calc.py".to_string(),
        context_id,
        context: format!("test_calc.{name}"),
        numbits: vec![numbits],
    };
    let mut coverage = Coverage::build(&[
        row(1, "test_a", 0b0000_0010),
        row(2, "test_b", 0b0000_0100),
        row(3, "test_c", 0b0000_1000),
        row(4, "test_d", 0b0001_1000),
    ]);
    let cases: Vec<TestCase> = ["test_a", "test_b", "test_c", "test_d"]
        .iter()
        .map(|name| TestCase {
            classname: "test_calc".to_string(),
            name: name.to_string(),
            failed: false,
            duration: 1,
        })
        .collect();
    coverage.resolve_node_ids(&cases, &["test_calc.py".to_string()]);
    coverage
}

/// A suite that kills the mutants on lines 2 and 4: test_b notices the one,
/// test_d the other.
fn failing(planted: &[&Mutant]) -> Vec<String> {
    let mut failed = Vec::new();
    if planted.iter().any(|m| m.line == 2) {
        failed.push("test_calc::test_b".to_string());
    }
    if planted.iter().any(|m| m.line == 4) {
        failed.push("test_calc::test_d".to_string());
    }
    failed
}

fn verdicts(planted: &[&Mutant], coverage: &Coverage) -> Vec<(i64, Status)> {
    let failed = failing(planted);
    let code = i64::from(!failed.is_empty());
    judge(
        Ok(report_of(SuiteResult::Finished(code), failed)),
        planted,
        Some(coverage),
        1,
    )
    .expect("a verdict")
    .verdicts
}

#[test]
fn a_batch_judges_as_its_members_would_be_judged_alone() {
    let coverage = coverage();
    let pool: Vec<Mutant> = (1..=4).map(|line| mutant(line as i64, line)).collect();
    let batches = compose(pool, Some(&coverage), 8, None, || {});
    // Lines 3 and 4 share test_d, so they are kept apart.
    assert_eq!(batches.len(), 2);
    for batch in &batches {
        let planted: Vec<&Mutant> = batch.mutants.iter().collect();
        let alone: Vec<(i64, Status)> = planted
            .iter()
            .map(|member| verdicts(&[*member], &coverage)[0])
            .collect();
        assert_eq!(verdicts(&planted, &coverage), alone);
    }
}

#[test]
fn a_selected_run_executes_every_test_that_could_fail() {
    let coverage = coverage();
    for line in 1..=4 {
        let planted = mutant(1, line);
        let chosen = coverage.select(&[&planted]).test_ids;
        for failed in failing(&[&planted]) {
            let node = failed.replace("test_calc::", "test_calc.py::");
            assert!(chosen.contains(&node), "{node} is not in {chosen:?}");
        }
    }
}

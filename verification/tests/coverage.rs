use angelo::coverage::{
    coverage_command, coverage_settings, lines_in, normalize, Baseline, Coverage, TestCoverage,
};
use angelo::db::CoverageRow;
use angelo::mutate::{Mutant, Status};
use angelo::pytest::TestCase;

const MILLI: u64 = 1_000_000;

fn mutant(id: i64, file: &str, line: u32) -> Mutant {
    Mutant {
        id,
        file: file.to_string(),
        line,
        byte_start: 0,
        byte_end: 1,
        original: "+".to_string(),
        replacement: "-".to_string(),
    }
}

fn row(context_id: i64, context: &str, numbits: u8) -> CoverageRow {
    CoverageRow {
        file: "calc.py".to_string(),
        context_id,
        context: context.to_string(),
        numbits: vec![numbits],
    }
}

fn coverage() -> Coverage {
    Coverage::build(&[
        row(1, "test_calc.test_add", 0b0000_0100),  // line 2
        row(2, "test_calc.test_both", 0b0001_0100), // lines 2 and 4
        row(0, "", 0b0100_0000),                    // line 6, import time
    ])
}

/// Every context resolved. Context N takes N hundred milliseconds, so a sum
/// names its members.
fn with_node_ids(mut coverage: Coverage) -> Coverage {
    let cases: Vec<TestCase> = [("test_add", 1), ("test_both", 2)]
        .iter()
        .map(|(name, id)| TestCase {
            classname: "test_calc".to_string(),
            name: name.to_string(),
            failed: false,
            duration: 100 * MILLI * id,
        })
        .collect();
    coverage.resolve_node_ids(&cases, &["test_calc.py".to_string()]);
    coverage
}

#[test]
fn decodes_numbits() {
    assert_eq!(lines_in(&[0b0000_0101, 0b0000_0001]), [0, 2, 8]);
}

#[test]
fn classifies_tested_import_only_and_untested() {
    let coverage = coverage();
    assert!(matches!(
        coverage.classify(&mutant(1, "calc.py", 2)),
        TestCoverage::Tested(tests) if tests.len() == 2
    ));
    assert!(matches!(
        coverage.classify(&mutant(2, "calc.py", 6)),
        TestCoverage::ImportOnly
    ));
    assert!(matches!(
        coverage.classify(&mutant(3, "calc.py", 99)),
        TestCoverage::Untested
    ));
}

#[test]
fn selects_only_the_covering_tests() {
    let coverage = with_node_ids(coverage());
    let only_add = mutant(1, "calc.py", 4);
    let selection = coverage.select(&[&only_add]);
    assert_eq!(selection.test_ids, ["test_calc.py::test_both"]);
    assert!(selection.stop_at_first_failure);
}

#[test]
fn a_batch_selects_the_union_and_never_stops_early() {
    let coverage = with_node_ids(coverage());
    let shared = mutant(1, "calc.py", 2);
    let selection = coverage.select(&[&shared]);
    assert_eq!(
        selection.test_ids,
        ["test_calc.py::test_add", "test_calc.py::test_both"]
    );

    let second = mutant(2, "calc.py", 4);
    let batch = coverage.select(&[&shared, &second]);
    assert_eq!(batch.test_ids.len(), 2);
    assert!(!batch.stop_at_first_failure);
}

#[test]
fn unresolvable_or_import_time_mutants_fall_back_to_everything() {
    let resolved = with_node_ids(coverage());
    let import_time = mutant(1, "calc.py", 6);
    assert!(resolved.select(&[&import_time]).test_ids.is_empty());

    // No node ids resolved at all.
    let unresolved = coverage();
    let tested = mutant(2, "calc.py", 2);
    assert!(unresolved.select(&[&tested]).test_ids.is_empty());
}

#[test]
fn a_selection_carries_what_its_tests_cost() {
    let coverage = with_node_ids(coverage());
    let only_both = mutant(1, "calc.py", 4);
    assert_eq!(
        coverage.select(&[&only_both]).baseline_time,
        Some(200 * MILLI)
    );

    // A batch is charged for the union, matching the tests it selects.
    let shared = mutant(2, "calc.py", 2);
    assert_eq!(
        coverage.select(&[&only_both, &shared]).baseline_time,
        Some(300 * MILLI)
    );
}

#[test]
fn a_whole_suite_fallback_refuses_to_be_costed() {
    let coverage = with_node_ids(coverage());
    let import_time = mutant(1, "calc.py", 6);
    assert!(coverage.select(&[&import_time]).baseline_time.is_none());
}

#[test]
fn parametrised_cases_add_up_to_one_node_id() {
    let mut coverage = Coverage::build(&[CoverageRow {
        file: "calc.py".to_string(),
        context_id: 7,
        context: "src.runner.worker.test_x".to_string(),
        numbits: vec![0b0000_0100],
    }]);
    let cases: Vec<TestCase> = ["test_x[1]", "test_x[2]"]
        .iter()
        .map(|name| TestCase {
            classname: "src.runner.worker".to_string(),
            name: name.to_string(),
            failed: false,
            duration: 120 * MILLI,
        })
        .collect();

    coverage.resolve_node_ids(&cases, &["src/runner/worker.py".to_string()]);
    let selection = coverage.select(&[&mutant(1, "calc.py", 2)]);
    assert_eq!(selection.test_ids, ["src/runner/worker.py::test_x"]);
    assert_eq!(selection.baseline_time, Some(240 * MILLI));
}

#[test]
fn attributes_a_failed_test_to_the_covered_mutant() {
    let coverage = coverage();
    let line2 = mutant(1, "calc.py", 2);
    let line4 = mutant(2, "calc.py", 4);
    let verdicts = coverage
        .attribute(&[&line2, &line4], &["test_calc.test_add".to_string()])
        .unwrap();
    assert_eq!(verdicts[0], (1, Status::Killed));
    assert_eq!(verdicts[1], (2, Status::Survived));
}

#[test]
fn refuses_to_attribute_an_unexplained_failure() {
    let coverage = coverage();
    let line4 = mutant(2, "calc.py", 4);
    let unknown = coverage.attribute(&[&line4], &["test_calc.test_mystery".to_string()]);
    assert!(unknown.is_none());
    let uncovered = coverage.attribute(&[&line4], &["test_calc.test_add".to_string()]);
    assert!(uncovered.is_none());
}

#[test]
fn normalizes_junit_names_to_contexts() {
    assert_eq!(normalize("test_calc::test_add[3]"), "test_calc.test_add");
    assert_eq!(
        normalize("pkg.test_mod::TestX::test_y"),
        "pkg.test_mod.TestX.test_y"
    );
}

#[test]
fn normalizes_node_ids_to_the_same_contexts() {
    assert_eq!(normalize("test_calc.py::test_add"), "test_calc.test_add");
    assert_eq!(normalize("test_calc.py::test_add[3]"), "test_calc.test_add");
    assert_eq!(
        normalize("pkg/test_mod.py::TestX::test_y"),
        "pkg.test_mod.TestX.test_y"
    );
    assert_eq!(normalize("pkg\\test_mod.py::test_y"), "pkg.test_mod.test_y");
}

#[test]
fn wraps_only_the_default_pytest_command() {
    let rcfile = ".angelo/coveragerc";
    let default = ["python", "-m", "pytest", "-q"].map(String::from);
    let wrapped = coverage_command(&default, false, rcfile).unwrap();
    assert_eq!(
        wrapped[..5],
        ["python", "-m", "coverage", "run", "--rcfile"]
    );
    assert_eq!(wrapped[5], rcfile);
    assert_eq!(wrapped[6..], ["-m", "pytest", "-q"]);

    let custom = ["pytest".to_string()];
    assert!(coverage_command(&custom, false, rcfile).is_none());
}

#[test]
fn a_virtualenvs_own_interpreter_can_be_wrapped() {
    let venv = ["/x/.venv/bin/python", "-m", "pytest"].map(String::from);
    let wrapped = coverage_command(&venv, true, "rc").unwrap();
    assert_eq!(wrapped[..3], ["/x/.venv/bin/python", "-m", "coverage"]);
    let unittest = ["python", "-m", "unittest"].map(String::from);
    assert!(coverage_command(&unittest, false, "rc").is_none());
    assert!(coverage_command(&unittest, true, "rc").is_none());
}

/// Nothing says what another interpreter would run.
#[test]
fn no_other_interpreter_is_wrapped() {
    for python in ["python3", "pypy", "/usr/bin/python", "ipython"] {
        let command = [python, "-m", "pytest"].map(String::from);
        assert!(coverage_command(&command, false, "rc").is_none(), "{python}");
    }
}

#[test]
fn the_settings_name_the_data_file() {
    assert_eq!(
        coverage_settings(".angelo/coverage.db"),
        "[run]\ndata_file = .angelo/coverage.db\ndynamic_context = test_function\nrelative_files = true\n"
    );
}

#[test]
fn a_fair_trial_avoids_the_tests_that_were_red() {
    let coverage = with_node_ids(coverage());
    let only_both = mutant(1, "calc.py", 4);
    let shared = mutant(2, "calc.py", 2);
    let import_time = mutant(3, "calc.py", 6);
    let red = ["test_calc::test_add".to_string()];
    assert!(coverage.gets_a_fair_trial(&only_both, &red));
    assert!(!coverage.gets_a_fair_trial(&shared, &red));
    assert!(!coverage.gets_a_fair_trial(&import_time, &[]));
    assert!(coverage.gets_a_fair_trial(&shared, &["other::test".to_string()]));
}

#[test]
fn a_baseline_with_no_failure_is_green() {
    let mut baseline = Baseline {
        coverage: None,
        duration: 1,
        already_failing: Vec::new(),
    };
    assert!(baseline.is_green());
    baseline.already_failing.push("t::x".to_string());
    assert!(!baseline.is_green());
}

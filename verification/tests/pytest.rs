use angelo::coverage::Coverage;
use angelo::db::CoverageRow;
use angelo::mutate::{Mutant, Status};
use angelo::pytest::{
    baseline_failure, baseline_junit_path, diagnose_baseline, failed_tests, parse_testcases, read_seconds, tail,
    Selection, SuiteResult, TestCase,
};
use angelo::runner::selection_for;

const SAMPLE: &str = r#"<testsuites><testsuite>
    <testcase classname="test_calc" name="test_add" time="0.125"><failure message="boom"/></testcase>
    <testcase classname="test_calc" name="test_crash"><error message="import"/></testcase>
    <testcase classname="test_calc" name="test_fine"/>
</testsuite></testsuites>"#;

#[test]
fn exit_codes_map_to_statuses() {
    assert_eq!(SuiteResult::Finished(0).status(), Status::Survived);
    assert_eq!(SuiteResult::Finished(1).status(), Status::Killed);
    assert_eq!(SuiteResult::Finished(2).status(), Status::Error);
    assert_eq!(SuiteResult::Finished(5).status(), Status::Error);
    assert_eq!(SuiteResult::TimedOut.status(), Status::Timeout);
}

#[test]
fn only_error_exits_are_explained() {
    assert!(SuiteResult::Finished(0).explain().is_none());
    assert!(SuiteResult::Finished(1).explain().is_none());
    assert!(SuiteResult::Finished(5)
        .explain()
        .unwrap()
        .contains("no tests"));
    assert!(SuiteResult::Finished(2)
        .explain()
        .unwrap()
        .contains("exited with 2"));
    assert!(SuiteResult::Finished(-1)
        .explain()
        .unwrap()
        .contains("exited with -1"));
}

#[test]
fn reports_failed_and_errored_tests() {
    let failed: Vec<_> = parse_testcases(SAMPLE)
        .unwrap()
        .into_iter()
        .filter(|t| t.failed)
        .map(|t| t.name)
        .collect();
    assert_eq!(failed, ["test_add", "test_crash"]);
}

#[test]
fn a_report_lists_every_test_with_its_time() {
    let tests = parse_testcases(SAMPLE).unwrap();
    assert_eq!(tests.len(), 3);
    assert_eq!(tests[0].duration, 125_000_000);
    assert_eq!(tests[2].duration, 0);
    assert_eq!(
        failed_tests(&tests),
        ["test_calc::test_add", "test_calc::test_crash"]
    );
    let bare = parse_testcases("<testcase/>").unwrap();
    assert_eq!(bare[0].classname, "");
    assert_eq!(bare[0].name, "?");
    // Only a direct child makes a test a failed one.
    let nested = parse_testcases("<testcase name='x'><p><failure/></p></testcase>").unwrap();
    assert!(!nested[0].failed);
}

#[test]
fn a_text_that_is_no_report_gives_a_message() {
    assert!(!parse_testcases("not xml").err().unwrap().is_empty());
}

#[test]
fn seconds_are_read_to_the_nanosecond() {
    assert_eq!(read_seconds("1.5"), 1_500_000_000);
    assert_eq!(read_seconds("12"), 12_000_000_000);
    assert_eq!(read_seconds("0.000000001"), 1);
    assert_eq!(read_seconds("0.1234567899"), 123_456_789);
    assert_eq!(read_seconds("x"), 0);
    assert_eq!(read_seconds("1.x"), 0);
    assert_eq!(read_seconds("-1"), 0);
}

#[test]
fn a_red_baseline_is_diagnosed_by_exit_code() {
    assert!(diagnose_baseline(1).contains("Tests are failing"));
    assert!(diagnose_baseline(3).contains("plugin"));
    assert!(diagnose_baseline(5).contains("collected no tests"));
}

/// Exit 1 is a verdict on the code. The codes above it mean pytest never got as
/// far as judging it.
#[test]
fn a_baseline_that_was_never_judged_stops_the_run() {
    assert!(baseline_failure(0, "").is_none());
    assert!(baseline_failure(1, "1 failed").is_none());
    assert_eq!(
        baseline_failure(5, "no tests ran").unwrap(),
        "angelo could not run the baseline suite, pytest exited 5.\npytest collected no tests, check test_command and its path in angelo.conf.\n\nno tests ran"
    );
    assert!(baseline_failure(-1, "").is_some());
}

#[test]
fn tail_keeps_the_end_of_a_long_log() {
    let log = (1..=100)
        .map(|n| n.to_string())
        .collect::<Vec<_>>()
        .join("\n");
    let kept = tail(&log, 3);
    assert_eq!(kept, "98\n99\n100");
    assert_eq!(tail("one\ntwo", 10), "one\ntwo");
}

fn case(classname: &str, name: &str) -> TestCase {
    TestCase {
        classname: classname.to_string(),
        name: name.to_string(),
        failed: false,
        duration: 0,
    }
}

#[test]
fn context_names_drop_parameters() {
    let test = case("pkg.test_mod", "test_x[3-abc]");
    assert_eq!(test.context_name(), "pkg.test_mod.test_x");
}

#[test]
fn the_longest_module_that_exists_names_the_node() {
    let test = case("a.b.c", "test_x[1]");
    assert_eq!(test.module_candidates(), ["a/b/c.py", "a/b.py", "a.py"]);
    let both = ["a/b.py".to_string(), "a/b/c.py".to_string()];
    assert_eq!(test.node_id(&both).unwrap(), "a/b/c.py::test_x");
    assert_eq!(
        test.node_id(&["a/b.py".to_string()]).unwrap(),
        "a/b.py::c::test_x"
    );
    assert!(test.node_id(&[]).is_none());
}

#[test]
fn selection_only_adds_x_for_single_mutants() {
    let single = Selection {
        test_ids: vec!["a.py::test_x".to_string()],
        stop_at_first_failure: true,
        baseline_time: None,
    };
    assert_eq!(single.arguments(), ["-x", "a.py::test_x"]);

    let batch = Selection {
        test_ids: vec!["a.py::test_x".to_string()],
        stop_at_first_failure: false,
        baseline_time: None,
    };
    assert_eq!(batch.arguments(), ["a.py::test_x"]);
}

#[test]
fn whole_suite_selection_adds_nothing() {
    assert_eq!(Selection::whole_suite().arguments().len(), 0);
}

#[test]
fn a_run_without_selection_runs_everything() {
    let mut coverage = Coverage::build(&[CoverageRow {
        file: "calc.py".to_string(),
        context_id: 1,
        context: "test_calc.test_a".to_string(),
        numbits: vec![0b0000_0010],
    }]);
    coverage.resolve_node_ids(&[case("test_calc", "test_a")], &["test_calc.py".to_string()]);
    let mutant = Mutant {
        id: 1,
        file: "calc.py".to_string(),
        line: 1,
        byte_start: 0,
        byte_end: 1,
        original: "+".to_string(),
        replacement: "-".to_string(),
    };
    assert_eq!(
        selection_for(Some(&coverage), true, &[&mutant]).test_ids,
        ["test_calc.py::test_a"]
    );
    assert!(selection_for(Some(&coverage), false, &[&mutant])
        .test_ids
        .is_empty());
    assert!(selection_for(None, true, &[&mutant]).test_ids.is_empty());
}

#[test]
fn the_baseline_report_stays_out_of_the_tree() {
    assert_eq!(
        baseline_junit_path(".angelo"),
        ".angelo/baseline-junit.xml"
    );
}

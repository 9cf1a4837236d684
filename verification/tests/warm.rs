use angelo::pytest::{Selection, SuiteResult};
use angelo::schemata::ACTIVE_VAR;
use angelo::warm::{
    aftermath, field, hostable, parse_reply, python_of, reply_in, request, Wear, WarmRun, DRIVER,
    REPLY_PREFIX,
};

#[test]
fn warm_reads_a_worker_reply() {
    let run = parse_reply(r#"{"exit_code": 1, "failed": ["a.py::test_x", "b.py::test_y"]}"#)
        .ok()
        .unwrap();
    assert_eq!(run.result.exit_code(), Some(1));
    assert_eq!(run.failed_tests, ["a.py::test_x", "b.py::test_y"]);
    assert!(!run.forked);
}

#[test]
fn warm_reads_a_green_reply() {
    let run = parse_reply(r#"{"exit_code": 0, "failed": []}"#).ok().unwrap();
    assert_eq!(run.result.exit_code(), Some(0));
    assert!(run.failed_tests.is_empty());
}

#[test]
fn warm_rejects_a_reply_with_no_exit_code() {
    assert!(parse_reply("not json at all").is_err());
    assert!(parse_reply(r#"{"exit_code": x}"#).is_err());
}

/// The verdict is a real timeout, and the worker is still alive to take the next
/// mutant.
#[test]
fn reads_a_timed_out_reply() {
    let run = parse_reply(r#"{"exit_code": 0, "failed": [], "timed_out": true}"#)
        .ok()
        .unwrap();
    assert!(matches!(run.result, SuiteResult::TimedOut));
}

#[test]
fn reads_whether_the_worker_forked() {
    let run = parse_reply(r#"{"exit_code": -9, "failed": [], "forked": true}"#)
        .ok()
        .unwrap();
    assert!(run.forked);
    assert_eq!(run.result.exit_code(), Some(-9));
}

/// The driver reads this variable to decide whether the tree holds schemata
/// and, when it does, which mutants are live.
#[test]
fn the_driver_and_schemata_agree_on_the_variable() {
    assert!(DRIVER.contains(&format!("ACTIVE_VAR = \"{}\"", ACTIVE_VAR)));
}

/// pytest shares stdout with the protocol, so the prefix is load-bearing.
#[test]
fn warm_the_prefix_matches_the_driver() {
    assert!(DRIVER.contains(&format!("REPLY_PREFIX = \"{REPLY_PREFIX}\"")));
}

#[test]
fn the_driver_is_python() {
    ruff_python_parser::parse_module(DRIVER).expect("the driver is Python");
}

#[test]
fn warm_only_plain_pytest_commands_can_be_hosted() {
    let default = ["python", "-m", "pytest"].map(String::from);
    assert!(hostable(&default));
    let venv = ["/x/.venv/bin/python", "-m", "pytest", "-q"].map(String::from);
    assert!(hostable(&venv));
    let tox = ["tox".to_string()];
    assert!(!hostable(&tox));
    let unittest = ["python", "-m", "unittest"].map(String::from);
    assert!(!hostable(&unittest));
}

#[test]
fn a_hostable_command_has_an_interpreter() {
    let venv = ["/x/.venv/bin/python", "-m", "pytest"].map(String::from);
    assert_eq!(python_of(&venv).unwrap(), "/x/.venv/bin/python");
    assert!(python_of(&["tox".to_string()]).is_err());
    assert!(python_of(&[]).is_err());
}

#[test]
fn a_reply_is_found_behind_its_prefix() {
    assert_eq!(
        reply_in("##angelo##{\"exit_code\": 0}").unwrap(),
        "{\"exit_code\": 0}"
    );
    assert!(reply_in("1 passed in 0.1s").is_none());
    assert_eq!(field("{\"a\": 12}", "\"a\": ").unwrap(), "12}");
    assert!(field("{\"a\": 12}", "\"b\": ").is_none());
}

#[test]
fn a_request_names_the_tests_the_deadline_and_the_mutants() {
    let selection = Selection {
        test_ids: vec!["t\\a.py::test_x".to_string(), "b.py::test_y".to_string()],
        stop_at_first_failure: true,
        baseline_time: None,
    };
    assert_eq!(
        request(&selection, 1500, "3,8"),
        "{\"tests\":[\"t/a.py::test_x\",\"b.py::test_y\"],\"stop_at_first_failure\":true,\"mutants\":\"3,8\",\"purge\":false,\"timeout_ms\":1500}\n"
    );
    assert!(request(&selection, 1500, "").contains("\"purge\":true"));
}

fn run(result: SuiteResult, forked: bool) -> WarmRun {
    WarmRun {
        result,
        failed_tests: Vec::new(),
        forked,
    }
}

#[test]
fn a_worker_wears_out_unless_it_forks() {
    let mut wear = Wear::new(2);
    assert!(!wear.is_exhausted());
    wear.sent();
    wear.sent();
    assert!(wear.is_exhausted());
    wear.answered(&run(SuiteResult::Finished(0), true));
    assert!(!wear.is_exhausted());
}

#[test]
fn a_failed_exchange_retires_the_worker() {
    let lost = aftermath(Err("gone".to_string()));
    assert!(lost.report.is_none());
    assert!(lost.retire);

    let green = aftermath(Ok(run(SuiteResult::Finished(0), false)));
    assert!(green.report.is_some());
    assert!(!green.retire);
}

/// A parametrised test has brackets and commas in its id, and quotes where pytest
/// shows a string.
#[test]
fn every_listed_test_comes_back_as_it_was_written() {
    let run = parse_reply(
        r#"{"exit_code": 1, "failed": ["a.py::test_x[1]", "b.py::test_y", "c.py::test_z[a, b]"]}"#,
    )
    .ok()
    .unwrap();
    assert_eq!(
        run.failed_tests,
        ["a.py::test_x[1]", "b.py::test_y", "c.py::test_z[a, b]"]
    );
    let escaped = parse_reply(
        r#"{"exit_code":1,"failed":["t.py::test[\"q\"]","t.py::test[\\]","t.py::test[\u00e9\ud83d\ude00\t]"],"forked":true}"#,
    )
    .ok()
    .unwrap();
    assert_eq!(
        escaped.failed_tests,
        [
            "t.py::test[\"q\"]",
            "t.py::test[\\]",
            "t.py::test[\u{e9}\u{1f600}\t]"
        ]
    );
    assert!(escaped.forked);
}

/// Half a list would name too few tests, and a mutant they kill would survive.
#[test]
fn a_list_that_cannot_be_read_makes_the_reply_unreadable() {
    for line in [
        r#"{"exit_code": 1, "failed": ["a.py::test_x"#,
        r#"{"exit_code": 1, "failed": ["a.py::test_x""#,
        r#"{"exit_code": 1, "failed": [a.py::test_x]}"#,
        r#"{"exit_code": 1, "failed": ["a.py::test\x"]}"#,
        r#"{"exit_code": 1, "failed": ["a.py::test[\ud83d]"]}"#,
    ] {
        let why = parse_reply(line).err().unwrap();
        assert_eq!(
            why,
            format!("unreadable failed tests in worker reply: {line}")
        );
    }
    // Without a list nothing is named, which is not the same thing.
    let silent = parse_reply(r#"{"exit_code": 1}"#).ok().unwrap();
    assert!(silent.failed_tests.is_empty());
}

/// The words of the protocol inside an id are part of the id.
#[test]
fn an_id_cannot_pass_for_the_protocol() {
    let run = parse_reply(
        r#"{"exit_code": 1, "failed": ["t.py::test[\"timed_out\": true]", "t.py::test[\"exit_code\": 0]"], "forked": true}"#,
    )
    .ok()
    .unwrap();
    assert_eq!(run.result.exit_code(), Some(1));
    assert_eq!(
        run.failed_tests,
        [
            "t.py::test[\"timed_out\": true]",
            "t.py::test[\"exit_code\": 0]"
        ]
    );
}

use angelo::config::{Config, Sources};
use angelo::paths::FilePath;
use angelo::coverage::{Baseline, Coverage};
use angelo::db::CoverageRow;
use angelo::diff::ChangedLines;
use angelo::exec::{
    baseline_line, build_schemata, ending, enumerate, enumerated_line, fleet_line, narrow,
    next_action, nothing_to_mutate, plan_schemata, split_untestable, split_untested,
    warn_about_unused, worker_count, Action, Ending, Event, Options, Reports, SchemataPlan,
};
use angelo::literals::Sums;
use angelo::mutate::Mutant;
use angelo::report::{Diagnostics, Reading, Shown};
use angelo::schemata::SourceFile;

fn mutant(id: i64, line: u32) -> Mutant {
    Mutant {
        id,
        file: "calc.py".to_string(),
        line,
        byte_start: id as usize,
        byte_end: id as usize + 1,
        original: "+".to_string(),
        replacement: "-".to_string(),
    }
}

fn coverage() -> Coverage {
    let row = |context_id: i64, context: &str, numbits: u8| CoverageRow {
        file: "calc.py".to_string(),
        context_id,
        context: context.to_string(),
        numbits: vec![numbits],
    };
    Coverage::build(&[
        row(1, "test_calc.test_a", 0b0000_0010),
        row(2, "test_calc.test_b", 0b0000_0100),
    ])
}

fn ids(mutants: &[Mutant]) -> Vec<i64> {
    mutants.iter().map(|mutant| mutant.id).collect()
}

fn step(event: Event) -> Result<Action, String> {
    next_action(&event, false, &mut Diagnostics::default())
}

#[test]
fn a_fresh_run_goes_from_end_to_end() {
    assert_eq!(step(Event::Counted(0)), Ok(Action::Enumerate));
    assert_eq!(step(Event::Enumerated), Ok(Action::Sample));
    assert_eq!(
        step(Event::Sampled {
            keep: 10,
            total: 4,
            dropped: 0
        }),
        Ok(Action::ListPending)
    );
    assert_eq!(step(Event::Listed(4)), Ok(Action::RunBaseline));
    assert_eq!(
        step(Event::Measured { coverage: true }),
        Ok(Action::SplitUntested)
    );
    assert_eq!(
        step(Event::Untested {
            coverage: true,
            testable: 3,
            untested: 1
        }),
        Ok(Action::MarkSurvived)
    );
    assert_eq!(step(Event::MarkedSurvived), Ok(Action::SplitUntestable));
    assert_eq!(
        step(Event::Untestable {
            already_failing: 1,
            testable: 2,
            untestable: 1
        }),
        Ok(Action::MarkUntestable)
    );
    assert_eq!(
        step(Event::MarkedUntestable { testable: 2 }),
        Ok(Action::RunBatches)
    );
    assert_eq!(step(Event::Ran), Ok(Action::Summarise));
}

#[test]
fn a_stored_run_is_resumed() {
    assert_eq!(step(Event::Counted(7)), Ok(Action::ListPending));
    assert_eq!(step(Event::Listed(0)), Ok(Action::Summarise));
    assert_eq!(
        next_action(&Event::Listed(3), true, &mut Diagnostics::default()),
        Ok(Action::StopBeforeRunning)
    );
}

#[test]
fn coverage_that_matches_nothing_stops_the_run() {
    let why = step(Event::Untested {
        coverage: true,
        testable: 0,
        untested: 5,
    })
    .unwrap_err();
    assert!(why.contains("matched no mutant at all"), "{why}");
    assert_eq!(
        step(Event::Untestable {
            already_failing: 0,
            testable: 0,
            untestable: 0
        }),
        Ok(Action::Summarise)
    );
}

#[test]
fn sampling_is_noted_only_when_it_dropped_something() {
    let mut diagnostics = Diagnostics::default();
    let event = Event::Sampled {
        keep: 4,
        total: 10,
        dropped: 6,
    };
    next_action(&event, false, &mut diagnostics).unwrap();
    assert_eq!(diagnostics.problems().len(), 1);
}

#[test]
fn mutants_no_test_executes_survive_without_a_run() {
    let pending = vec![mutant(1, 1), mutant(2, 50), mutant(3, 2)];
    let (testable, untested) = split_untested(pending, Some(&coverage()));
    assert_eq!(ids(&testable), [1, 3]);
    assert_eq!(ids(&untested), [2]);

    let (testable, untested) = split_untested(vec![mutant(1, 50)], None);
    assert_eq!(ids(&testable), [1]);
    assert!(untested.is_empty());
}

fn resolved() -> Coverage {
    let mut coverage = coverage();
    let cases: Vec<angelo::pytest::TestCase> = ["test_a", "test_b"]
        .iter()
        .map(|name| angelo::pytest::TestCase {
            classname: "test_calc".to_string(),
            name: name.to_string(),
            failed: false,
            duration: 1,
        })
        .collect();
    coverage.resolve_node_ids(&cases, &["test_calc.py".to_string()]);
    coverage
}

#[test]
fn under_a_red_baseline_only_fair_trials_are_held() {
    let baseline = Baseline {
        coverage: Some(resolved()),
        duration: 1,
        already_failing: vec!["test_calc::test_a".to_string()],
    };
    let (testable, untestable) =
        split_untestable(vec![mutant(1, 1), mutant(2, 2)], &baseline, true)
            .ok()
            .unwrap();
    assert_eq!(ids(&testable), [2]);
    assert_eq!(ids(&untestable), [1]);

    let why = split_untestable(vec![mutant(1, 1)], &baseline, false)
        .err()
        .unwrap();
    assert!(why.contains("(1 tests already failing)"), "{why}");

    let blind = Baseline {
        coverage: None,
        duration: 1,
        already_failing: vec!["test_calc::test_a".to_string()],
    };
    assert!(split_untestable(vec![mutant(1, 1)], &blind, true).is_err());
}

#[test]
fn a_green_baseline_tries_everything() {
    let green = Baseline {
        coverage: None,
        duration: 1,
        already_failing: Vec::new(),
    };
    let (testable, untestable) = split_untestable(vec![mutant(1, 1)], &green, false)
        .ok()
        .unwrap();
    assert_eq!(ids(&testable), [1]);
    assert!(untestable.is_empty());
}

#[test]
fn schemata_need_the_fork_worker() {
    let mut diagnostics = Diagnostics::default();
    let mut config = Config::default();
    assert_eq!(
        plan_schemata(&config, true, &mut diagnostics),
        SchemataPlan::Build
    );
    assert_eq!(
        plan_schemata(&config, false, &mut diagnostics),
        SchemataPlan::Refused
    );
    assert_eq!(diagnostics.problems().len(), 1);
    config.schemata = false;
    assert_eq!(
        plan_schemata(&config, false, &mut diagnostics),
        SchemataPlan::Off
    );
    assert_eq!(diagnostics.problems().len(), 1);
}

#[test]
fn what_is_compiled_in_is_a_fact_of_the_run() {
    let source = "def f(a):\n    return a + 1\n";
    let sources = [SourceFile {
        file: "calc.py".to_string(),
        source: source.to_string(),
    }];
    let inside = Mutant {
        byte_start: source.find('+').unwrap(),
        byte_end: source.find('+').unwrap() + 1,
        ..mutant(4, 2)
    };
    let mut diagnostics = Diagnostics::default();
    let schemata = build_schemata(&sources, &[inside, mutant(5, 1)], &mut diagnostics);
    assert_eq!(schemata.unwrap().hosted_count(), 1);
    assert_eq!(
        diagnostics.facts()[0],
        (
            "schemata".to_string(),
            "1 of 2 mutants compiled in, the rest spliced".to_string()
        )
    );
    assert!(build_schemata(&sources, &[mutant(5, 1)], &mut diagnostics).is_none());
}

#[test]
fn a_fleet_is_no_larger_than_its_work() {
    assert_eq!(worker_count(8, 3), 3);
    assert_eq!(worker_count(2, 3), 2);
    assert_eq!(worker_count(8, 0), 1);
    assert_eq!(
        fleet_line(3, 2, true),
        "running 3 batches on 2 workers, covering tests only"
    );
    assert_eq!(
        baseline_line(false, "1.5", "12.0"),
        "baseline RED in 1.5s, timeout 12.0s for a whole-suite run, from its own tests for a selected one"
    );
}

#[test]
fn an_empty_search_names_the_key_to_blame() {
    let mut config = Config::default();
    config.paths = vec!["src".to_string()];
    let nothing = Sources::new(&[]);
    assert_eq!(
        nothing_to_mutate(&nothing, &config).unwrap(),
        "no Python files found under paths [\"src\"], check angelo.conf"
    );
    config.exclude = vec!["**".to_string()];
    let mut excluded = Sources::new(&config.exclude);
    excluded.offer(&FilePath::new("src/a.py"), FilePath::new("src/a.py"));
    assert_eq!(
        nothing_to_mutate(&excluded, &config).unwrap(),
        "every Python file under paths [\"src\"] was excluded by [\"**\"], check angelo.conf"
    );
    let mut found = Sources::new(&[]);
    found.offer(&FilePath::new("src/a.py"), FilePath::new("src/a.py"));
    assert!(nothing_to_mutate(&found, &config).is_none());
}

#[test]
fn enumeration_walks_every_file() {
    let files = [("a.py", "x = 1 + 2\n"), ("b.py", "y = a and b\n")].map(|(file, source)| {
        SourceFile {
            file: file.to_string(),
            source: source.to_string(),
        }
    });
    let mut operators = Config::default().operators().ok().unwrap();
    let found = enumerate(&files, &mut operators, &Sums { pairs: Vec::new() }).unwrap();
    assert!(found.iter().any(|m| m.file == "a.py" && m.original == "+"));
    assert!(found.iter().any(|m| m.file == "b.py" && m.original == "and"));

    let mut sources = Sources::new(&[]);
    sources.offer(&FilePath::new("a.py"), FilePath::new("a.py"));
    let line = enumerated_line(found.len(), &sources, &operators);
    assert!(line.starts_with(&format!("enumerated {} mutants across 1 files", found.len())));

    let broken = [SourceFile {
        file: "c.py".to_string(),
        source: "def (:\n".to_string(),
    }];
    let why = enumerate(&broken, &mut operators, &Sums { pairs: Vec::new() })
        .err()
        .unwrap();
    assert!(why.starts_with("parsing c.py: "), "{why}");
}

#[test]
fn a_typo_in_exclude_is_warned_about() {
    let sources = Sources::new(&["src/typo/*.py".to_string()]);
    let mut diagnostics = Diagnostics::default();
    warn_about_unused(&sources, &mut diagnostics);
    assert_eq!(
        diagnostics.problems()[0].message,
        "exclude pattern \"src/typo/*.py\" matched nothing"
    );
}

#[test]
fn a_diff_narrows_the_pool_and_says_so() {
    let changed = ChangedLines::parse("+++ b/calc.py\n@@ -1 +1 @@\n");
    let mut diagnostics = Diagnostics::default();
    let kept = narrow(
        vec![mutant(1, 1), mutant(2, 9)],
        &changed,
        "HEAD",
        &mut diagnostics,
    );
    assert_eq!(ids(&kept), [1]);
    assert_eq!(
        diagnostics.problems()[0].message,
        "diff vs HEAD: 1 of 2 mutants sit on changed lines, 1 dropped"
    );
}

#[test]
fn a_flag_beats_the_configured_report() {
    let mut config = Config::default();
    config.report = "conf.json".to_string();
    let mut options = Options {
        workers: None,
        init_only: false,
        sample: None,
        report: None,
        html_report: None,
        sonar_report: Some("flag.json".to_string()),
    };
    let reports = Reports::of(&options, &config);
    assert_eq!(reports.json.as_deref(), Some("conf.json"));
    assert_eq!(reports.html, None);
    assert_eq!(reports.sonar.as_deref(), Some("flag.json"));
    assert!(!reports.are_off());
    options.sonar_report = None;
    config.report = String::new();
    assert!(Reports::of(&options, &config).are_off());
}

#[test]
fn a_run_ends_by_its_threshold() {
    let shown = Shown {
        readings: vec![Reading {
            score: "50.0".to_string(),
            threshold: "80.0".to_string(),
        }],
    };
    let counts = [("killed".to_string(), 1), ("survived".to_string(), 1)];
    assert!(matches!(
        ending(&[], true, false, &shown),
        Ending::NothingInScope
    ));
    assert!(matches!(
        ending(&counts, false, false, &shown),
        Ending::Passed
    ));
    assert!(matches!(
        ending(&counts, true, false, &shown),
        Ending::Failed(line) if line == "score 50.0% is below --fail-under 80.0%"
    ));
}

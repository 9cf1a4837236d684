use angelo::config::{
    is_junk, is_mutation_target, is_skipped, path_matches, refuses_to_overwrite, segment_matches,
    Config, Excludes, Sources, CONFIG_FILE,
};
use angelo::operators::OperatorError;
use angelo::paths::{FilePath, Part};

fn path(text: &str) -> FilePath {
    FilePath::new(text)
}

fn spelt(files: &[FilePath]) -> Vec<&str> {
    files.iter().map(|file| file.text.as_str()).collect()
}

fn owned(list: &[&str]) -> Vec<String> {
    list.iter().map(|name| name.to_string()).collect()
}

#[test]
fn config_source_files_are_targets_tests_are_not() {
    assert!(is_mutation_target(&path("src/calculator.py")));
    assert!(!is_mutation_target(&path("src/test_calculator.py")));
    assert!(!is_mutation_target(&path("src/calculator_test.py")));
    assert!(!is_mutation_target(&path("src/conftest.py")));
    assert!(!is_mutation_target(&path("src/notes.txt")));
}

#[test]
fn a_path_without_a_name_is_no_target() {
    assert!(!is_mutation_target(&path("src/")));
    assert!(!is_mutation_target(&path("..")));
    assert!(is_skipped(&path(".")));
    assert!(is_skipped(&path("src/..")));
}

/// The search hands a file that `paths` names to the same decision as one it
/// found, so a single module is as good as a directory.
#[test]
fn paths_may_name_a_single_file() {
    let mut sources = Sources::new(&[]);
    sources.offer(&path("pkg/mod.py"), path("pkg/mod.py"));
    assert_eq!(spelt(&sources.files), ["pkg/mod.py"]);

    // A test file named directly is still not a mutation target.
    let mut sources = Sources::new(&[]);
    sources.offer(&path("pkg/test_mod.py"), path("pkg/test_mod.py"));
    assert!(sources.files.is_empty());
}

#[test]
fn config_junk_and_test_dirs_are_skipped() {
    assert!(is_skipped(&path("project/__pycache__")));
    assert!(is_skipped(&path("project/tests")));
    assert!(!is_skipped(&path("project/app")));
    for name in [".git", ".angelo", ".pytest_cache", ".venv", "venv", "node_modules", "target"] {
        assert!(is_junk(name), "{name}");
    }
    assert!(!is_junk("tests"));
}

fn excluded(patterns: &[&str], path: &str) -> bool {
    Excludes::new(&owned(patterns)).excludes(path)
}

#[test]
fn a_star_matches_within_one_name_only() {
    assert!(excluded(&["src/generated/*.py"], "src/generated/client.py"));
    assert!(!excluded(
        &["src/generated/*.py"],
        "src/generated/v1/client.py"
    ));
    assert!(!excluded(&["src/generated/*.py"], "src/app/client.py"));
    assert!(excluded(&["src/*_pb2.py"], "src/order_pb2.py"));
    assert!(excluded(&["*.py"], "client.py"));
}

#[test]
fn a_second_star_in_one_name_still_works() {
    assert!(segment_matches("a*b*c", "aXbYbc"));
    assert!(!segment_matches("a*b*c", "aXbYd"));
    assert!(segment_matches("*", ""));
    assert!(segment_matches("é*", "éa"));
}

#[test]
fn a_double_star_matches_any_run_of_directories() {
    assert!(excluded(
        &["**/migrations/**"],
        "src/app/migrations/0001.py"
    ));
    assert!(excluded(&["**/migrations/**"], "migrations/0001.py"));
    // The directory itself, so the walk prunes it instead of descending.
    assert!(excluded(&["**/migrations/**"], "src/app/migrations"));
    assert!(!excluded(&["**/migrations/**"], "src/migrations.py"));
    assert!(!excluded(&["**/migrations/**"], "src/app/models.py"));
}

#[test]
fn a_literal_path_excludes_exactly_itself() {
    assert!(excluded(&["src/legacy_parser.py"], "src/legacy_parser.py"));
    assert!(!excluded(
        &["src/legacy_parser.py"],
        "src/legacy_parser2.py"
    ));
    assert!(!excluded(
        &["src/legacy_parser.py"],
        "app/src/legacy_parser.py"
    ));
    assert!(path_matches(&owned(&["a", "b"]), &owned(&["a", "b"])));
    assert!(!path_matches(&owned(&["a"]), &owned(&["a", "b"])));
}

#[test]
fn backslashes_do_not_change_the_answer() {
    assert!(excluded(
        &["src/generated/*.py"],
        "src\\generated\\client.py"
    ));
    assert!(excluded(
        &["src\\generated\\*.py"],
        "src/generated/client.py"
    ));
    // The walk hands out `./src/...` when paths is ["."].
    assert!(excluded(
        &["src/generated/*.py"],
        "./src/generated/client.py"
    ));
    assert!(excluded(
        &["src/generated/*.py"],
        ".\\src\\generated\\client.py"
    ));
}

#[test]
fn no_patterns_excludes_nothing() {
    assert!(!excluded(&[], "src/app/models.py"));
}

#[test]
fn a_pattern_that_never_fires_is_reported() {
    let patterns = ["**/migrations/**".to_string(), "src/typo/*.py".to_string()];
    let mut sources = Sources {
        files: Vec::new(),
        excludes: Excludes::new(&patterns),
    };
    assert!(sources.excludes.excludes("src/migrations"));
    assert_eq!(sources.unused_patterns(), ["src/typo/*.py"]);
    assert_eq!(
        sources.exclusion_note(),
        " (1 path excluded by angelo.conf)"
    );
    assert!(sources.excludes.excludes("app/migrations"));
    assert_eq!(
        sources.exclusion_note(),
        " (2 paths excluded by angelo.conf)"
    );
    // Nothing survived the patterns, so `paths` is the wrong thing to blame.
    assert!(sources.excluded_everything());
}

#[test]
fn nothing_excluded_says_nothing() {
    let sources = Sources {
        files: Vec::new(),
        excludes: Excludes::new(&[]),
    };
    assert_eq!(sources.exclusion_note(), "");
    assert!(sources.unused_patterns().is_empty());
    // Empty because there are no sources, not because a pattern ate them.
    assert!(!sources.excluded_everything());
}

#[test]
fn config_test_command_splits_on_whitespace() {
    let mut config = Config::detect(false);
    config.test_command = "python -m pytest -q".to_string();
    assert_eq!(
        config.test_command_parts().unwrap(),
        ["python", "-m", "pytest", "-q"]
    );
    config.test_command = "  ".to_string();
    assert!(config.test_command_parts().is_err());
}

#[test]
fn a_project_with_a_src_directory_starts_there() {
    assert_eq!(Config::detect(true).paths, ["src"]);
    assert_eq!(Config::detect(false).paths, ["."]);
    let config = Config::default();
    assert_eq!(config.batch_size, 8);
    assert_eq!(config.warm_recycle_after, 50);
    assert!(config.test_selection && config.warm_workers && config.schemata);
}

#[test]
fn workers_come_from_the_flag_then_the_file_then_the_machine() {
    let mut config = Config::default();
    assert_eq!(config.effective_workers(None, 6), 6);
    config.workers = 3;
    assert_eq!(config.effective_workers(None, 6), 3);
    assert_eq!(config.effective_workers(Some(9), 6), 9);
    assert_eq!(config.effective_workers(Some(0), 6), 6);
}

#[test]
fn the_configured_operators_are_checked() {
    let mut config = Config::default();
    assert!(config.operators().is_ok());
    config.operators = owned(&["Nonsense"]);
    assert!(matches!(
        config.operators().err(),
        Some(OperatorError::Unknown(name)) if name == "Nonsense"
    ));
}

#[test]
fn an_existing_file_is_only_overwritten_by_force() {
    assert!(refuses_to_overwrite(true, false).unwrap().contains(CONFIG_FILE));
    assert!(refuses_to_overwrite(true, true).is_none());
    assert!(refuses_to_overwrite(false, false).is_none());
}

#[test]
fn files_are_ordered_by_their_segments() {
    let mut sources = Sources::new(&owned(&["skip/**"]));
    for text in ["b.py", "a-b.py", "a/z.py", "skip/x.py", "a/b.py"] {
        sources.offer(&path(text), path(text));
    }
    sources.sort();
    assert_eq!(spelt(&sources.files), ["a/b.py", "a/z.py", "a-b.py", "b.py"]);
    assert_eq!(
        sources.exclusion_note(),
        " (1 path excluded by angelo.conf)"
    );
}

#[test]
fn an_excluded_directory_is_not_entered() {
    let mut sources = Sources::new(&owned(&["**/migrations/**"]));
    assert!(sources.enters(&path("src/app")));
    assert!(!sources.enters(&path("src/app/migrations")));
    assert!(!sources.enters(&path("src/tests")));
    assert_eq!(
        sources.exclusion_note(),
        " (1 path excluded by angelo.conf)"
    );
}

/// Both patterns match the directory, so neither is a typo.
#[test]
fn a_pattern_behind_another_one_is_in_use() {
    let patterns = ["**/migrations/**".to_string(), "src/migrations".to_string()];
    let mut sources = Sources {
        files: Vec::new(),
        excludes: Excludes::new(&patterns),
    };
    assert!(sources.excludes.excludes("src/migrations"));
    assert!(sources.unused_patterns().is_empty());
    assert_eq!(
        sources.exclusion_note(),
        " (1 path excluded by angelo.conf)"
    );
}

#[test]
fn a_separator_behind_a_name_does_not_hide_it() {
    assert!(is_skipped(&path("src/tests/")));
    assert!(is_skipped(&path("src/tests/.")));
    assert!(!is_skipped(&path("src/app/")));
    assert!(is_mutation_target(&path("src//mod.py/.")));
    assert!(is_skipped(&path("")));
    assert!(is_skipped(&path("/")));
}

/// What a backslash is depends on the platform: it separates two names on
/// Windows, and is part of one elsewhere. The decision goes by the names.
#[test]
fn the_platform_says_where_a_name_ends() {
    let separates = std::path::is_separator('\\');
    assert_eq!(is_skipped(&path("src\\tests")), separates);
    assert_eq!(is_mutation_target(&path("x\\test_a.py")), !separates);
    let split = FilePath {
        text: "x\\test_a.py".to_string(),
        parts: vec![
            Part::Named("x".to_string()),
            Part::Named("test_a.py".to_string()),
        ],
    };
    assert!(!is_mutation_target(&split));
    let whole = FilePath {
        text: "x\\test_a.py".to_string(),
        parts: vec![Part::Named("x\\test_a.py".to_string())],
    };
    assert!(is_mutation_target(&whole));
}

#[test]
fn a_path_has_the_parts_between_its_slashes() {
    assert_eq!(
        path("./a//b/./../c.py/").parts,
        [
            Part::Current,
            Part::Named("a".to_string()),
            Part::Named("b".to_string()),
            Part::Parent,
            Part::Named("c.py".to_string())
        ]
    );
    assert_eq!(path("/.").parts, [Part::Root]);
    assert!(path("").parts.is_empty());
}

#[test]
fn files_are_ordered_part_by_part() {
    let mut sources = Sources::new(&[]);
    for text in [
        "b.py", "a-b.py", "a/z.py", "a//b.py", "!x.py", "../c.py", "./d.py", "/e.py", "a/b.py",
    ] {
        sources.offer(&path(text), path(text));
    }
    sources.sort();
    assert_eq!(
        spelt(&sources.files),
        [
            "/e.py", "./d.py", "../c.py", "!x.py", "a//b.py", "a/b.py", "a/z.py", "a-b.py", "b.py"
        ]
    );
    // The standard library's own order of paths agrees.
    let mut known: Vec<&std::path::Path> = sources
        .files
        .iter()
        .map(|file| std::path::Path::new(&file.text))
        .collect();
    let ours = known.clone();
    known.sort();
    assert_eq!(ours, known);
}

#[test]
fn every_leading_dot_is_left_out_of_a_path() {
    assert!(excluded(&["src/app.py"], "././src/app.py"));
    assert!(excluded(&["src/app.py"], ".\\.\\src\\app.py"));
    assert!(!excluded(&["src/app.py"], "../src/app.py"));
}

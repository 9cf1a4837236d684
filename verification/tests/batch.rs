use angelo::batch::{compose, Batch};
use angelo::coverage::Coverage;
use angelo::db::CoverageRow;
use angelo::exec::compose_batches;
use angelo::mutate::Mutant;
use angelo::schemata::{Schemata, SourceFile};

/// One byte each, and no two on the same one: these mutants are about
/// coverage, and two that overlapped would be refused for a reason the
/// test is not making.
fn mutant(id: i64, line: u32) -> Mutant {
    Mutant {
        id,
        file: "calc.py".to_string(),
        line,
        byte_start: id as usize,
        byte_end: id as usize + 1,
        original: "+".to_string(),
        replacement: "-".to_string(),
    }
}

fn row(context_id: i64, context: &str, numbits: u8) -> CoverageRow {
    CoverageRow {
        file: "calc.py".to_string(),
        context_id,
        context: context.to_string(),
        numbits: vec![numbits],
    }
}

/// line 1: test_a; line 2: test_b; line 3: test_a and test_b; line 5: import only.
fn coverage() -> Coverage {
    Coverage::build(&[
        row(1, "test_calc.test_a", 0b0000_1010),
        row(2, "test_calc.test_b", 0b0000_1100),
        row(0, "", 0b0010_0000),
    ])
}

fn sizes(batches: &[Batch]) -> Vec<usize> {
    batches.iter().map(|batch| batch.mutants.len()).collect()
}

#[test]
fn batch_disjoint_tests_batch_together() {
    let batches = compose(vec![mutant(1, 1), mutant(2, 2)], Some(&coverage()), 8, None, || {});
    assert_eq!(sizes(&batches), [2]);
}

#[test]
fn two_mutants_of_the_same_bytes_never_share_a_batch() {
    let deletion = Mutant {
        byte_start: 1,
        byte_end: 20,
        original: "return a + b".to_string(),
        replacement: "pass".to_string(),
        ..mutant(1, 1)
    };
    let inside = Mutant {
        byte_start: 9,
        byte_end: 10,
        ..mutant(2, 2)
    };
    let batches = compose(vec![deletion, inside], Some(&coverage()), 8, None, || {});
    assert_eq!(sizes(&batches), [1, 1]);
}

#[test]
fn the_same_offsets_in_two_files_do_not_overlap() {
    let batch = Batch::solo(mutant(1, 1));
    let same_file = Mutant {
        byte_start: 1,
        byte_end: 2,
        ..mutant(2, 2)
    };
    assert!(batch.overlaps(&same_file));

    let other_file = Mutant {
        file: "other.py".to_string(),
        byte_start: 1,
        byte_end: 2,
        ..mutant(3, 3)
    };
    assert!(!batch.overlaps(&other_file));
}

#[test]
fn batch_a_shared_test_is_a_conflict() {
    let batches = compose(vec![mutant(1, 1), mutant(2, 3)], Some(&coverage()), 8, None, || {});
    assert_eq!(sizes(&batches), [1, 1]);
}

#[test]
fn batch_import_time_mutants_run_alone() {
    let batches = compose(vec![mutant(1, 5), mutant(2, 1)], Some(&coverage()), 8, None, || {});
    assert_eq!(sizes(&batches), [1, 1]);
}

#[test]
fn batch_no_coverage_means_no_batching() {
    let batches = compose(vec![mutant(1, 1), mutant(2, 2)], None, 8, None, || {});
    assert_eq!(sizes(&batches), [1, 1]);
}

#[test]
fn two_mutants_of_one_function_do_not_share_a_run() {
    //         0            13       23      27          40
    let source = "def f(a, b):\n    x = a + b\n    return x * a\n";
    let name = "angelo-batch-host-test.py";

    let in_f = || {
        vec![
            Mutant {
                id: 1,
                file: name.to_string(),
                line: 2,
                byte_start: 23,
                byte_end: 24,
                original: "+".to_string(),
                replacement: "-".to_string(),
            },
            Mutant {
                id: 2,
                file: name.to_string(),
                line: 3,
                byte_start: 40,
                byte_end: 41,
                original: "*".to_string(),
                replacement: "/".to_string(),
            },
        ]
    };
    let sources = [SourceFile {
        file: name.to_string(),
        source: source.to_string(),
    }];
    let schemata = Schemata::build(&sources, &in_f());
    assert_eq!(schemata.hosted_count(), 2, "both live in the same function");

    // Line 2 is test_a's, line 3 is test_b's: no test covers both.
    let coverage = Coverage::build(&[
        CoverageRow {
            file: name.to_string(),
            context_id: 1,
            context: "test_calc.test_a".to_string(),
            numbits: vec![0b0000_0100],
        },
        CoverageRow {
            file: name.to_string(),
            context_id: 2,
            context: "test_calc.test_b".to_string(),
            numbits: vec![0b0000_1000],
        },
    ]);

    let spliced = compose(in_f(), Some(&coverage), 8, None, || {});
    assert_eq!(sizes(&spliced), [2], "splicing can hold both at once");

    let hosted = compose(in_f(), Some(&coverage), 8, Some(&schemata), || {});
    assert_eq!(sizes(&hosted), [1, 1], "switching can only hold one");

    let scheduled = compose_batches(in_f(), Some(&coverage), 8, Some(&schemata), || {});
    assert_eq!(sizes(&scheduled), [1, 1]);
}

#[test]
fn batch_batch_size_caps_a_batch() {
    let rows: Vec<CoverageRow> = (1..=5)
        .map(|i| row(i, &format!("test_calc.test_{i}"), 1 << i))
        .collect();
    let coverage = Coverage::build(&rows);
    let mutants = (1..=5).map(|i| mutant(i, i as u32)).collect();
    let batches = compose(mutants, Some(&coverage), 2, None, || {});
    assert_eq!(sizes(&batches), [2, 2, 1]);
}

#[test]
fn every_mutant_lands_in_exactly_one_batch() {
    let mutants: Vec<Mutant> = (1..=12).map(|i| mutant(i, (i % 7) as u32)).collect();
    let batches = compose(mutants, Some(&coverage()), 3, None, || {});
    let mut ids: Vec<i64> = batches
        .iter()
        .flat_map(|batch| batch.mutants.iter().map(|m| m.id))
        .collect();
    ids.sort();
    assert_eq!(ids, (1..=12).collect::<Vec<i64>>());
    assert!(batches.iter().all(|batch| batch.mutants.len() <= 3));
}

#[test]
fn hosted_batches_come_first() {
    let source = "X = 1 + 2\n\n\ndef f(a):\n    return a * 2\n";
    let star = source.find('*').unwrap();
    let mutants = vec![
        Mutant {
            byte_start: 6,
            byte_end: 7,
            ..mutant(1, 1)
        },
        Mutant {
            byte_start: star,
            byte_end: star + 1,
            original: "*".to_string(),
            replacement: "/".to_string(),
            ..mutant(2, 2)
        },
    ];
    let sources = [SourceFile {
        file: "calc.py".to_string(),
        source: source.to_string(),
    }];
    let schemata = Schemata::build(&sources, &mutants);
    assert_eq!(schemata.hosted_count(), 1);
    let batches = compose_batches(mutants, Some(&coverage()), 8, Some(&schemata), || {});
    assert_eq!(sizes(&batches), [1, 1]);
    assert_eq!(batches[0].mutants[0].id, 2);
    assert_eq!(batches[1].mutants[0].id, 1);
}

/// Composing is worth watching, so every mutant is announced once.
#[test]
fn composing_announces_every_mutant() {
    let count = std::cell::Cell::new(0);
    let pool = || vec![mutant(1, 1), mutant(2, 2), mutant(3, 3)];
    compose(pool(), Some(&coverage()), 8, None, || count.set(count.get() + 1));
    assert_eq!(count.get(), 3);
    compose_batches(pool(), Some(&coverage()), 8, None, || count.set(count.get() + 1));
    assert_eq!(count.get(), 6);
    compose(Vec::new(), None, 8, None, || count.set(count.get() + 1));
    assert_eq!(count.get(), 6);
}

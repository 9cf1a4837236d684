use angelo::db::{get_random, sample_down_to, shuffle, Settled, Xorshift};
use angelo::mutate::{Mutant, Status};
use std::collections::HashSet;

#[test]
fn the_shuffle_spreads_across_the_whole_pool() {
    let mut random = get_random(Some(1_234_567_891_011_121_314));

    let mut ids: Vec<usize> = (0..1000).collect();
    for index in (1..ids.len()).rev() {
        ids.swap(index, (random.next() % (index as u64 + 1)) as usize);
    }
    let sample: HashSet<usize> = ids[..100].iter().copied().collect();
    assert_eq!(sample.len(), 100, "the sample must not repeat ids");

    let from_last_half = sample.iter().filter(|id| **id >= 500).count();
    assert!(
        (25..=75).contains(&from_last_half),
        "expected a roughly even split, got {from_last_half}/100 from the second half"
    );

    // The library's own shuffle walks the pool the same way.
    let pool: Vec<i64> = (0..1000).collect();
    let shuffled = shuffle(pool, get_random(Some(1_234_567_891_011_121_314)));
    let same: Vec<i64> = ids.iter().map(|id| *id as i64).collect();
    assert_eq!(shuffled, same);
}

#[test]
fn the_same_seed_samples_the_same_way() {
    let first: Vec<u64> = (0..5).map(|_| Xorshift::seeded(42).next()).collect();
    assert!(first.iter().all(|value| *value == first[0]));
    assert_ne!(Xorshift::seeded(42).next(), Xorshift::seeded(43).next());
}

#[test]
fn a_clock_before_the_epoch_still_gives_a_generator() {
    assert_eq!(get_random(None).next(), Xorshift::seeded(1000).next());
}

#[test]
fn sampling_keeps_the_asked_number() {
    let pool: Vec<i64> = (1..=20).collect();
    let dropped = sample_down_to(pool.clone(), 5, Xorshift::seeded(7));
    let distinct: HashSet<i64> = dropped.iter().copied().collect();
    assert_eq!(distinct.len(), 15);
    assert!(dropped.iter().all(|id| pool.contains(id)));
    assert!(sample_down_to(pool.clone(), 20, Xorshift::seeded(7)).is_empty());
    assert!(sample_down_to(pool, 50, Xorshift::seeded(7)).is_empty());
}

#[test]
fn only_a_survivor_raises_an_issue() {
    let mut entry = Settled {
        mutant: Mutant {
            id: 1,
            file: "a.py".to_string(),
            line: 1,
            byte_start: 0,
            byte_end: 1,
            original: "+".to_string(),
            replacement: "-".to_string(),
        },
        status: Some(Status::Survived),
        executed: true,
        duration_ms: None,
        failed_tests: Vec::new(),
    };
    assert_eq!(entry.raises(), Some("MutantSurvived"));
    entry.executed = false;
    assert_eq!(entry.raises(), Some("MutantNoCoverage"));
    entry.status = None;
    assert_eq!(entry.raises(), None);
}

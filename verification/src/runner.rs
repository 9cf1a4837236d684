//! How the runs of a batch become verdicts, and what a run writes into its copy
//! of the project.

use vstd::prelude::*;
use vstd::utf8::*;

use crate::batch::{self, clash};
use crate::coverage::{
    law_a_selection_names_every_covering_test, members, normalized, Coverage,
};
use crate::edits::{self, Change, Edit};
use crate::mutate::{Mutant, Planted, Status};
use crate::pytest::{self, Chosen, Selection, SuiteResult};
use crate::schemata::{self, Board, Schemata};
use crate::sorting;
use crate::text;

verus! {

broadcast use vstd::seq_lib::group_seq_properties;

/// One decisive pytest run and the verdicts it settled.
pub struct BatchOutcome {
    pub duration_ms: u64,
    pub exit_code: Option<i64>,
    pub failed_tests: Vec<String>,
    pub verdicts: Vec<(i64, Status)>,
    pub error: Option<String>,
}

/// An outcome as plain values.
#[verifier::ext_equal]
pub struct Ruling {
    pub duration_ms: u64,
    pub exit_code: Option<i64>,
    pub failed_tests: Seq<Seq<char>>,
    pub verdicts: Seq<(i64, Status)>,
    pub error: Option<Seq<char>>,
}

impl View for BatchOutcome {
    type V = Ruling;

    open spec fn view(&self) -> Ruling {
        Ruling {
            duration_ms: self.duration_ms,
            exit_code: self.exit_code,
            failed_tests: text::texts(self.failed_tests@),
            verdicts: self.verdicts@,
            error: pytest::said(self.error),
        }
    }
}

/// Every mutant with the same verdict.
pub open spec fn all_are(mutants: Seq<&Mutant>, status: Status) -> Seq<(i64, Status)> {
    Seq::new(mutants.len(), |i: int| (mutants[i].id, status))
}

/// A green run: everyone survived.
pub open spec fn green(mutants: Seq<&Mutant>, duration_ms: u64) -> Ruling {
    Ruling {
        duration_ms,
        exit_code: Some(0),
        failed_tests: Seq::empty(),
        verdicts: all_are(mutants, Status::Survived),
        error: None,
    }
}

impl BatchOutcome {
    pub fn survived(mutants: &[&Mutant], duration_ms: u64) -> (outcome: BatchOutcome)
        ensures
            outcome@ == green(mutants@, duration_ms),
    {
        let mut verdicts: Vec<(i64, Status)> = Vec::new();
        while verdicts.len() < mutants.len()
            invariant
                verdicts@.len() <= mutants@.len(),
                forall|i: int|
                    0 <= i < verdicts@.len() ==> #[trigger] verdicts@[i] == (
                        mutants@[i].id,
                        Status::Survived,
                    ),
            decreases mutants@.len() - verdicts@.len(),
        {
            verdicts.push((mutants[verdicts.len()].id, Status::Survived));
        }
        assert(verdicts@ =~= all_are(mutants@, Status::Survived));
        let outcome: BatchOutcome = BatchOutcome {
            duration_ms,
            exit_code: Some(0),
            failed_tests: Vec::new(),
            verdicts,
            error: None,
        };
        assert(outcome@ =~= green(mutants@, duration_ms));
        outcome
    }

    pub fn attributed(
        verdicts: Vec<(i64, Status)>,
        failed_tests: Vec<String>,
        duration_ms: u64,
    ) -> (outcome: BatchOutcome)
        ensures
            outcome@ == (Ruling {
                duration_ms,
                exit_code: Some(1),
                failed_tests: text::texts(failed_tests@),
                verdicts: verdicts@,
                error: None,
            }),
    {
        BatchOutcome { duration_ms, exit_code: Some(1), failed_tests, verdicts, error: None }
    }

    pub fn failed(mutant: &Mutant, error: String, duration_ms: u64) -> (outcome: BatchOutcome)
        ensures
            outcome@ == (Ruling {
                duration_ms,
                exit_code: None,
                failed_tests: Seq::empty(),
                verdicts: seq![(mutant.id, Status::Error)],
                error: Some(error@),
            }),
    {
        let mut verdicts: Vec<(i64, Status)> = Vec::new();
        verdicts.push((mutant.id, Status::Error));
        let outcome: BatchOutcome = BatchOutcome {
            duration_ms,
            exit_code: None,
            failed_tests: Vec::new(),
            verdicts,
            error: Some(error),
        };
        assert(outcome@.verdicts =~= seq![(mutant.id, Status::Error)]);
        assert(outcome@.failed_tests =~= Seq::<Seq<char>>::empty());
        outcome
    }
}

/// One pytest run, however it was executed.
pub struct RunReport {
    pub result: SuiteResult,
    pub failed_tests: Vec<String>,
}

impl RunReport {
    pub fn survived(&self) -> (yes: bool)
        ensures
            yes == (self.result.verdict() is Survived),
    {
        matches!(self.result.status(), Status::Survived)
    }

    pub fn into_outcome(self, mutant: &Mutant, duration_ms: u64) -> (outcome: BatchOutcome)
        ensures
            outcome@ == (Ruling {
                duration_ms,
                exit_code: match self.result {
                    SuiteResult::Finished(code) => Some(code),
                    SuiteResult::TimedOut => None,
                },
                failed_tests: text::texts(self.failed_tests@),
                verdicts: seq![(mutant.id, self.result.verdict())],
                error: self.result.explanation(),
            }),
    {
        let mut verdicts: Vec<(i64, Status)> = Vec::new();
        verdicts.push((mutant.id, self.result.status()));
        let outcome: BatchOutcome = BatchOutcome {
            duration_ms,
            exit_code: self.result.exit_code(),
            verdicts,
            error: self.result.explain(),
            failed_tests: self.failed_tests,
        };
        assert(outcome@.verdicts =~= seq![(mutant.id, self.result.verdict())]);
        outcome
    }
}

/// What a run in a subprocess reports: only a red run has failed tests to name.
pub fn report_of(result: SuiteResult, failed_tests: Vec<String>) -> (report: RunReport)
    ensures
        report.result == result,
        report.failed_tests@ == if result.verdict() is Killed {
            failed_tests@
        } else {
            Seq::empty()
        },
{
    let named: bool = matches!(result.status(), Status::Killed);
    RunReport {
        result,
        failed_tests: if named {
            failed_tests
        } else {
            Vec::new()
        },
    }
}

/// What one run decides about the mutants it ran, or that it decides nothing
/// and the batch has to be split.
pub open spec fn ruling(
    report: Result<RunReport, String>,
    mutants: Seq<&Mutant>,
    coverage: Option<Coverage>,
    duration_ms: u64,
) -> Option<Ruling> {
    match report {
        Ok(report) => if report.result.verdict() is Survived {
            Some(green(mutants, duration_ms))
        } else if mutants.len() == 1 {
            Some(
                Ruling {
                    duration_ms,
                    exit_code: match report.result {
                        SuiteResult::Finished(code) => Some(code),
                        SuiteResult::TimedOut => None,
                    },
                    failed_tests: text::texts(report.failed_tests@),
                    verdicts: seq![(mutants[0].id, report.result.verdict())],
                    error: report.result.explanation(),
                },
            )
        } else if report.result.verdict() is Killed && report.failed_tests@.len() > 0
            && coverage.is_some() && (forall|k: int|
            0 <= k < report.failed_tests@.len() ==> coverage.unwrap().explains(
                members(mutants),
                (#[trigger] report.failed_tests@[k])@,
            )) {
            Some(
                Ruling {
                    duration_ms,
                    exit_code: Some(1),
                    failed_tests: text::texts(report.failed_tests@),
                    verdicts: Seq::new(
                        mutants.len(),
                        |i: int|
                            (
                                mutants[i].id,
                                coverage.unwrap().verdict(
                                    mutants[i]@,
                                    text::texts(report.failed_tests@),
                                ),
                            ),
                    ),
                    error: None,
                },
            )
        } else {
            None
        },
        Err(error) => if mutants.len() == 1 {
            Some(
                Ruling {
                    duration_ms,
                    exit_code: None,
                    failed_tests: Seq::empty(),
                    verdicts: seq![(mutants[0].id, Status::Error)],
                    error: Some(error@),
                },
            )
        } else {
            None
        },
    }
}

/// Charge each failed test to the one batch member it covers. None when
/// anything is unexplained, which sends the caller to bisection: a failure no
/// member explains, and a red run that names no failure at all.
fn attribute(
    report: &RunReport,
    mutants: &[&Mutant],
    coverage: Option<&Coverage>,
    duration_ms: u64,
) -> (outcome: Option<BatchOutcome>)
    requires
        mutants@.len() > 1,
        !(report.result.verdict() is Survived),
        coverage matches Some(coverage) ==> coverage.wf(),
    ensures
        outcome.is_some() == ruling(
            Ok(*report),
            mutants@,
            batch::coverage_behind(coverage),
            duration_ms,
        ).is_some(),
        outcome matches Some(outcome) ==> Some(outcome@) == ruling(
            Ok(*report),
            mutants@,
            batch::coverage_behind(coverage),
            duration_ms,
        ),
{
    if !matches!(report.result.status(), Status::Killed) || report.failed_tests.len() == 0 {
        return None;
    }
    match coverage {
        None => None,
        Some(coverage) => match coverage.attribute(mutants, &report.failed_tests) {
            None => None,
            Some(verdicts) => Some(
                BatchOutcome::attributed(
                    verdicts,
                    text::copy_list(&report.failed_tests),
                    duration_ms,
                ),
            ),
        },
    }
}

/// Green run: everyone survived. Red run: a failed test kills the batch member
/// it covers. When a result cannot be attributed (timeout, crash, a failure no
/// member explains, a red run without a named failure), None: the batch is split
/// in half and run again, a verdict must come from a run that proves it.
pub fn judge(
    report: Result<RunReport, String>,
    mutants: &[&Mutant],
    coverage: Option<&Coverage>,
    duration_ms: u64,
) -> (outcome: Option<BatchOutcome>)
    requires
        mutants@.len() > 0,
        coverage matches Some(coverage) ==> coverage.wf(),
    ensures
        outcome.is_some() == ruling(
            report,
            mutants@,
            batch::coverage_behind(coverage),
            duration_ms,
        ).is_some(),
        outcome matches Some(outcome) ==> Some(outcome@) == ruling(
            report,
            mutants@,
            batch::coverage_behind(coverage),
            duration_ms,
        ),
{
    match report {
        Ok(report) => if report.survived() {
            Some(BatchOutcome::survived(mutants, duration_ms))
        } else if mutants.len() > 1 {
            attribute(&report, mutants, coverage, duration_ms)
        } else {
            Some(report.into_outcome(mutants[0], duration_ms))
        },
        Err(error) => if mutants.len() > 1 {
            None
        } else {
            Some(BatchOutcome::failed(mutants[0], error, duration_ms))
        },
    }
}

/// A run of a single mutant always settles it, so splitting ends.
pub proof fn law_a_single_mutant_is_always_settled(
    report: Result<RunReport, String>,
    mutants: Seq<&Mutant>,
    coverage: Option<Coverage>,
    duration_ms: u64,
)
    requires
        mutants.len() == 1,
    ensures
        ruling(report, mutants, coverage, duration_ms).is_some(),
        ruling(report, mutants, coverage, duration_ms).unwrap().verdicts.len() == 1,
{
}

/// A settled run gives each of its mutants one verdict, in order.
pub proof fn law_every_member_gets_one_verdict(
    report: Result<RunReport, String>,
    mutants: Seq<&Mutant>,
    coverage: Option<Coverage>,
    duration_ms: u64,
)
    requires
        mutants.len() > 0,
        ruling(report, mutants, coverage, duration_ms).is_some(),
    ensures
        ruling(report, mutants, coverage, duration_ms).unwrap().verdicts.len() == mutants.len(),
        forall|i: int|
            0 <= i < mutants.len() ==> (#[trigger] ruling(
                report,
                mutants,
                coverage,
                duration_ms,
            ).unwrap().verdicts[i]).0 == mutants[i].id,
{
}

/// A member of a batch is only killed by a failed test that runs it.
pub proof fn law_a_kill_in_a_batch_has_a_test_behind_it(
    report: RunReport,
    mutants: Seq<&Mutant>,
    coverage: Coverage,
    duration_ms: u64,
    i: int,
)
    requires
        mutants.len() > 1,
        0 <= i < mutants.len(),
        ruling(Ok(report), mutants, Some(coverage), duration_ms) matches Some(ruling)
            && ruling.verdicts[i].1 is Killed,
    ensures
        exists|k: int|
            0 <= k < report.failed_tests@.len() && coverage.hits(
                (#[trigger] report.failed_tests@[k])@,
                mutants[i]@,
            ),
{
    let failed = text::texts(report.failed_tests@);
    let k = choose|k: int| 0 <= k < failed.len() && coverage.hits(#[trigger] failed[k], mutants[i]@);
    assert(coverage.hits(report.failed_tests@[k]@, mutants[i]@));
}

/// Whether some test fails with these mutants planted.
pub open spec fn is_noticed(
    fails: spec_fn(Seq<char>, Seq<Planted>) -> bool,
    planted: Seq<Planted>,
) -> bool {
    exists|test: Seq<char>| #[trigger] fails(test, planted)
}

/// Whether the tests notice a mutant by executing it, and only so: a test that
/// fails with one member planted executes that member, and with all of them
/// planted it fails exactly when it does with one of those it executes.
pub open spec fn only_what_runs_is_noticed(
    coverage: Coverage,
    fails: spec_fn(Seq<char>, Seq<Planted>) -> bool,
    batch: Seq<Planted>,
) -> bool {
    &&& forall|test: Seq<char>, i: int|
        0 <= i < batch.len() && #[trigger] fails(test, seq![batch[i]]) ==> coverage.hits(
            test,
            batch[i],
        )
    &&& forall|test: Seq<char>| #[trigger]
        fails(test, batch) <==> exists|i: int|
            0 <= i < batch.len() && #[trigger] coverage.hits(test, batch[i]) && fails(
                test,
                seq![batch[i]],
            )
}

/// Whether a report says of a run with these mutants planted how it ended.
pub open spec fn ends_as(
    report: RunReport,
    fails: spec_fn(Seq<char>, Seq<Planted>) -> bool,
    planted: Seq<Planted>,
) -> bool {
    report.result == SuiteResult::Finished(
        if is_noticed(fails, planted) {
            1
        } else {
            0
        },
    )
}

/// Whether a report names the tests that failed with these mutants planted.
pub open spec fn names_the_failures(
    report: RunReport,
    fails: spec_fn(Seq<char>, Seq<Planted>) -> bool,
    planted: Seq<Planted>,
) -> bool {
    forall|test: Seq<char>| #[trigger]
        fails(test, planted) <==> text::texts(report.failed_tests@).contains(test)
}

/// A member of a batch gets from the batch's run what a run of its own would
/// have given it, so batching is a matter of speed alone.
///
/// The members are ones that a failing test tells apart, and the tests notice
/// only the mutants they execute. `together` is the report of the batch's run,
/// with every failed test in it, and `alone` that of the member's own, which may
/// have stopped at the first.
pub proof fn law_batching_changes_no_verdict(
    coverage: Coverage,
    fails: spec_fn(Seq<char>, Seq<Planted>) -> bool,
    mutants: Seq<&Mutant>,
    together: RunReport,
    alone: RunReport,
    i: int,
    duration_ms: u64,
    own_duration_ms: u64,
)
    requires
        0 <= i < mutants.len(),
        coverage.tells_apart(members(mutants)),
        only_what_runs_is_noticed(coverage, fails, members(mutants)),
        ends_as(together, fails, members(mutants)),
        names_the_failures(together, fails, members(mutants)),
        ends_as(alone, fails, seq![mutants[i]@]),
    ensures
        ruling(Ok(together), mutants, Some(coverage), duration_ms) matches Some(shared) && ruling(
            Ok(alone),
            seq![mutants[i]],
            Some(coverage),
            own_duration_ms,
        ) matches Some(own) && shared.verdicts[i] == own.verdicts[0],
{
    let batch = members(mutants);
    let member = batch[i];
    assert(member == mutants[i]@);
    let failed = text::texts(together.failed_tests@);
    let own = seq![member];
    if is_noticed(fails, own) {
        let test = choose|test: Seq<char>| #[trigger] fails(test, own);
        assert(fails(test, seq![batch[i]]));
        assert(coverage.hits(test, batch[i]));
        assert(fails(test, batch));
        assert(failed.contains(test));
        let k = choose|k: int| 0 <= k < failed.len() && failed[k] == test;
        assert(coverage.hits(failed[k], member));
    } else if coverage.verdict(member, failed) is Killed {
        let k = choose|k: int| 0 <= k < failed.len() && coverage.hits(#[trigger] failed[k], member);
        let test = failed[k];
        assert(failed.contains(test));
        assert(fails(test, batch));
        let j = choose|j: int|
            0 <= j < batch.len() && #[trigger] coverage.hits(test, batch[j]) && fails(
                test,
                seq![batch[j]],
            );
        assert(coverage.hits(test, batch[i]));
        assert(i == j);
        assert(fails(test, own));
    }
    if is_noticed(fails, batch) {
        assert forall|k: int| 0 <= k < together.failed_tests@.len() implies coverage.explains(
            batch,
            (#[trigger] together.failed_tests@[k])@,
        ) by {
            let test = together.failed_tests@[k]@;
            assert(failed[k] == test);
            assert(failed.contains(test));
            assert(fails(test, batch));
            let j = choose|j: int|
                0 <= j < batch.len() && #[trigger] coverage.hits(test, batch[j]) && fails(
                    test,
                    seq![batch[j]],
                );
            assert(coverage.hits(test, batch[j]));
        }
    }
    assert(mutants.len() == 1 ==> batch =~= own);
}

/// A selected run executes every test that could fail with these mutants
/// planted, so selecting tests is a matter of speed alone.
pub proof fn law_selection_leaves_out_no_failing_test(
    coverage: Coverage,
    fails: spec_fn(Seq<char>, Seq<Planted>) -> bool,
    batch: Seq<Planted>,
    test: Seq<char>,
)
    requires
        coverage.wf(),
        coverage.selection(batch).test_ids.len() > 0,
        only_what_runs_is_noticed(coverage, fails, batch),
        fails(test, batch),
    ensures
        coverage.context(normalized(test)) matches Some(id) && coverage.node(id) matches Some(node)
            && coverage.selection(batch).test_ids.contains(node),
{
    let i = choose|i: int|
        0 <= i < batch.len() && #[trigger] coverage.hits(test, batch[i]) && fails(
            test,
            seq![batch[i]],
        );
    let id = coverage.context(normalized(test)).unwrap();
    assert(coverage.tests_of(batch[i]).contains(id));
    law_a_selection_names_every_covering_test(coverage, batch);
}

/// A mutant on a line that no test executes is noticed by none, so it survives
/// without a run.
pub proof fn law_what_no_test_executes_is_never_noticed(
    coverage: Coverage,
    fails: spec_fn(Seq<char>, Seq<Planted>) -> bool,
    mutant: Planted,
)
    requires
        coverage.standing(mutant) is Untested,
        only_what_runs_is_noticed(coverage, fails, seq![mutant]),
    ensures
        !is_noticed(fails, seq![mutant]),
{
    if is_noticed(fails, seq![mutant]) {
        let test = choose|test: Seq<char>| #[trigger] fails(test, seq![mutant]);
        assert(fails(test, seq![seq![mutant][0]]));
        assert(coverage.hits(test, mutant));
    }
}

/// A batch's run only settles a member that survived when the run was green, or
/// when it named the tests that failed and none of them executes the member. A
/// red run that names none settles nobody.
pub proof fn law_a_survivor_in_a_batch_is_proved(
    report: RunReport,
    mutants: Seq<&Mutant>,
    coverage: Option<Coverage>,
    duration_ms: u64,
    i: int,
)
    requires
        mutants.len() > 1,
        0 <= i < mutants.len(),
        ruling(Ok(report), mutants, coverage, duration_ms) matches Some(ruling)
            && ruling.verdicts[i].1 is Survived,
    ensures
        report.result.verdict() is Survived || (report.result.verdict() is Killed
            && report.failed_tests@.len() > 0 && coverage.is_some() && forall|k: int|
            0 <= k < report.failed_tests@.len() ==> !coverage.unwrap().hits(
                (#[trigger] report.failed_tests@[k])@,
                mutants[i]@,
            )),
{
    if !(report.result.verdict() is Survived) {
        let failed = text::texts(report.failed_tests@);
        let map = coverage.unwrap();
        assert forall|k: int| 0 <= k < report.failed_tests@.len() implies !map.hits(
            (#[trigger] report.failed_tests@[k])@,
            mutants[i]@,
        ) by {
            assert(failed[k] == report.failed_tests@[k]@);
            if map.hits(failed[k], mutants[i]@) {
                assert(map.verdict(mutants[i]@, failed) is Killed);
            }
        }
    }
}

/// Ranges that follow each other, the last of the list first, from one position
/// to another.
pub open spec fn follows(waiting: Seq<(usize, usize)>, from: int, to: int) -> bool
    decreases waiting.len(),
{
    if waiting.len() == 0 {
        from == to
    } else {
        waiting.last().0 == from && from < waiting.last().1 && follows(
            waiting.drop_last(),
            waiting.last().1 as int,
            to,
        )
    }
}

/// The members of a batch that still need a verdict, as ranges.
pub struct Trial {
    waiting: Vec<(usize, usize)>,
    settled: usize,
    total: usize,
}

impl Trial {
    /// How many members, from the first on, have been handed out.
    pub closed spec fn settled(self) -> int {
        self.settled as int
    }

    /// The ranges that still have to run, the one to run next at the end.
    pub closed spec fn waiting(self) -> Seq<(usize, usize)> {
        self.waiting@
    }

    /// How many members there are.
    pub closed spec fn total(self) -> int {
        self.total as int
    }

    /// What is still waiting: ranges that go on where the last one ended, up to
    /// the last member.
    pub closed spec fn wf(self) -> bool {
        self.settled <= self.total && follows(
            self.waiting@,
            self.settled as int,
            self.total as int,
        )
    }

    /// A batch of this size, with nobody judged yet.
    pub fn new(total: usize) -> (trial: Trial)
        ensures
            trial.wf(),
            trial.settled() == 0,
            trial.total() == total,
            trial.waiting() == if total > 0 {
                seq![(0usize, total)]
            } else {
                Seq::empty()
            },
    {
        let mut waiting: Vec<(usize, usize)> = Vec::new();
        if total > 0 {
            waiting.push((0, total));
            assert(waiting@.drop_last() =~= Seq::<(usize, usize)>::empty());
            assert(follows(waiting@.drop_last(), total as int, total as int));
        }
        Trial { waiting, settled: 0, total }
    }

    /// The members to run next, or None once every member has been handed out.
    pub fn next(&mut self) -> (range: Option<(usize, usize)>)
        requires
            old(self).wf(),
        ensures
            final(self).wf(),
            final(self).total() == old(self).total(),
            range.is_some() == (old(self).waiting().len() > 0),
            range matches Some(range) ==> range == old(self).waiting().last() && final(self).waiting() == old(self).waiting().drop_last(),
            match range {
                Some((start, end)) => start == old(self).settled() && start < end <= old(self).total() && final(self).settled() == end,
                None => old(self).settled() == old(self).total() && final(self).settled() == old(self).settled(),
            },
    {
        proof {
            lemma_follows_forward(self.waiting@, self.settled as int, self.total as int);
        }
        match self.waiting.pop() {
            None => None,
            Some((start, end)) => {
                assert(self.waiting@ =~= old(self).waiting@.drop_last());
                proof {
                    lemma_follows_forward(self.waiting@, end as int, self.total as int);
                }
                self.settled = end;
                Some((start, end))
            },
        }
    }

    /// Puts a range that no run could settle back in two halves, the left one
    /// to run first.
    pub fn split(&mut self, start: usize, end: usize)
        requires
            old(self).wf(),
            start + 2 <= end,
            end == old(self).settled(),
        ensures
            final(self).wf(),
            final(self).total() == old(self).total(),
            final(self).settled() == start,
            ({
                let middle = (start + (end - start) / 2) as usize;
                final(self).waiting() == old(self).waiting().push((middle, end)).push(
                    (start, middle),
                )
            }),
    {
        let middle: usize = start + (end - start) / 2;
        let ghost before = self.waiting@;
        self.waiting.push((middle, end));
        assert(self.waiting@.drop_last() =~= before);
        let ghost half = self.waiting@;
        assert(follows(half, middle as int, self.total as int));
        self.waiting.push((start, middle));
        assert(self.waiting@.drop_last() =~= half);
        self.settled = start;
    }
}

proof fn lemma_follows_forward(waiting: Seq<(usize, usize)>, from: int, to: int)
    requires
        follows(waiting, from, to),
    ensures
        from <= to,
        waiting.len() > 0 ==> waiting.last().1 <= to,
    decreases waiting.len(),
{
    if waiting.len() > 0 {
        lemma_follows_forward(waiting.drop_last(), waiting.last().1 as int, to);
    }
}

/// The tests of one run: the covering ones when they can be selected.
pub open spec fn tests_chosen(
    coverage: Option<Coverage>,
    test_selection: bool,
    mutants: Seq<Planted>,
) -> Chosen {
    match coverage {
        Some(coverage) => if test_selection {
            coverage.selection(mutants)
        } else {
            pytest::everything()
        },
        None => pytest::everything(),
    }
}

pub fn selection_for(
    coverage: Option<&Coverage>,
    test_selection: bool,
    mutants: &[&Mutant],
) -> (selection: Selection)
    requires
        coverage matches Some(coverage) ==> coverage.wf(),
    ensures
        selection@ == tests_chosen(
            batch::coverage_behind(coverage),
            test_selection,
            members(mutants@),
        ),
{
    match coverage {
        Some(coverage) => if test_selection {
            coverage.select(mutants)
        } else {
            Selection::whole_suite()
        },
        None => Selection::whole_suite(),
    }
}

/// Whether every one of these mutants is compiled into the tree.
pub open spec fn all_hosted(board: Option<Board>, mutants: Seq<Planted>) -> bool {
    match board {
        Some(board) => forall|k: int|
            0 <= k < mutants.len() ==> board.hosted.contains_key(
                (#[trigger] mutants[k]).id as i64,
            ),
        None => false,
    }
}

/// The mutants a run switches on in the tree, or None when some of them has to
/// be spliced into its file: one spliced member needs the file written and the
/// import that comes with it.
pub fn switched(schemata: Option<&Schemata>, mutants: &[&Mutant]) -> (active: Option<String>)
    ensures
        active.is_some() == all_hosted(batch::board_behind(schemata), members(mutants@)),
        active matches Some(active) ==> active@ == schemata::active_of(members(mutants@)),
{
    let ghost all = members(mutants@);
    match schemata {
        None => None,
        Some(tree) => {
            let mut at: usize = 0;
            while at < mutants.len()
                invariant
                    at <= mutants@.len(),
                    all == members(mutants@),
                    schemata == Some(tree),
                    forall|k: int|
                        0 <= k < at ==> tree@.hosted.contains_key(
                            (#[trigger] all[k]).id as i64,
                        ),
                decreases mutants@.len() - at,
            {
                assert(all[at as int] == mutants@[at as int]@);
                if !tree.hosts(mutants[at]) {
                    assert(!tree@.hosted.contains_key(all[at as int].id as i64));
                    return None;
                }
                at += 1;
            }
            assert(schemata::planted_refs(mutants@) =~= all);
            Some(Schemata::active_value(mutants))
        },
    }
}

/// The files these mutants are in, each once, in the order they come up.
pub open spec fn files_in(mutants: Seq<Planted>) -> Seq<Seq<char>>
    decreases mutants.len(),
{
    if mutants.len() == 0 {
        Seq::empty()
    } else {
        let before = files_in(mutants.drop_last());
        if before.contains(mutants.last().file) {
            before
        } else {
            before.push(mutants.last().file)
        }
    }
}

pub fn files_of(mutants: &[&Mutant]) -> (files: Vec<String>)
    ensures
        text::texts(files@) == files_in(members(mutants@)),
{
    let ghost all = members(mutants@);
    let mut files: Vec<String> = Vec::new();
    assert(text::texts(files@) =~= files_in(all.subrange(0, 0)));
    let mut at: usize = 0;
    while at < mutants.len()
        invariant
            at <= mutants@.len(),
            all == members(mutants@),
            text::texts(files@) == files_in(all.subrange(0, at as int)),
        decreases mutants@.len() - at,
    {
        assert(all.subrange(0, at + 1).drop_last() =~= all.subrange(0, at as int));
        assert(all.subrange(0, at + 1).last() == mutants@[at as int]@);
        let ghost before = text::texts(files@);
        if !text::listed(&files, mutants[at].file.as_str()) {
            files.push(mutants[at].file.clone());
            assert(text::texts(files@) =~= before.push(mutants@[at as int]@.file));
        }
        at += 1;
    }
    assert(all.subrange(0, at as int) =~= all);
    files
}

/// The mutants of one file.
pub fn members_in<'a>(mutants: &[&'a Mutant], file: &str) -> (mine: Vec<&'a Mutant>)
    ensures
        members(mine@) == schemata::of_file(members(mutants@), file@),
{
    let ghost all = members(mutants@);
    let mut mine: Vec<&'a Mutant> = Vec::new();
    assert(members(mine@) =~= schemata::of_file(all.subrange(0, 0), file@));
    let mut at: usize = 0;
    while at < mutants.len()
        invariant
            at <= mutants@.len(),
            all == members(mutants@),
            members(mine@) == schemata::of_file(all.subrange(0, at as int), file@),
        decreases mutants@.len() - at,
    {
        let mutant: &'a Mutant = mutants[at];
        assert(all.subrange(0, at + 1).drop_last() =~= all.subrange(0, at as int));
        assert(all.subrange(0, at + 1).last() == mutant@);
        let ghost before = members(mine@);
        if text::same(mutant.file.as_str(), file) {
            mine.push(mutant);
            assert(members(mine@) =~= before.push(mutant@));
        }
        at += 1;
    }
    assert(all.subrange(0, at as int) =~= all);
    mine
}

/// The edits that plant these mutants.
pub open spec fn plantings(mutants: Seq<Planted>) -> Seq<Change> {
    mutants.map_values(
        |mutant: Planted|
            Change { start: mutant.byte_start, end: mutant.byte_end, text: mutant.replacement },
    )
}

/// Whether each mutant still finds the bytes it replaces.
pub open spec fn unchanged(source: Seq<char>, mutants: Seq<Planted>) -> bool {
    forall|k: int|
        0 <= k < mutants.len() ==> text::sliced(
            source,
            (#[trigger] mutants[k]).byte_start,
            mutants[k].byte_end,
        ) == Some(mutants[k].original)
}

/// A file with several mutants in it, or why they cannot be planted.
pub open spec fn spliced_all(source: Seq<char>, mutants: Seq<Planted>, file: Seq<char>) -> Result<
    Seq<char>,
    Seq<char>,
> {
    if !unchanged(source, mutants) {
        Err(file + " changed since enumeration, delete .angelo/ and re-run"@)
    } else {
        match edits::applied_back_to_front(source, plantings(mutants)) {
            Some(out) => Ok(out),
            None => Err(file + " holds mutants that rewrite each other's bytes"@),
        }
    }
}

/// Plants several mutants in one file, back to front so earlier byte offsets
/// stay valid. A file that changed since the mutants were found is refused, and
/// so are mutants that leave no character boundary where another one cuts.
pub fn splice_all(source: &str, mutants: &[&Mutant], file: &str) -> (out: Result<String, String>)
    ensures
        match spliced_all(source@, members(mutants@), file@) {
            Ok(mutated) => out matches Ok(out) && out@ == mutated,
            Err(why) => out matches Err(out) && out@ == why,
        },
{
    let ghost all = members(mutants@);
    let mut list: Vec<Edit> = Vec::new();
    let mut at: usize = 0;
    while at < mutants.len()
        invariant
            at <= mutants@.len(),
            all == members(mutants@),
            forall|k: int|
                0 <= k < at ==> text::sliced(
                    source@,
                    (#[trigger] all[k]).byte_start,
                    all[k].byte_end,
                ) == Some(all[k].original),
            edits::changes(list@) == plantings(all.subrange(0, at as int)),
        decreases mutants@.len() - at,
    {
        let mutant: &Mutant = mutants[at];
        assert(all[at as int] == mutant@);
        let intact: bool = match text::slice(source, mutant.byte_start, mutant.byte_end) {
            Some(found) => text::same(found, mutant.original.as_str()),
            None => false,
        };
        if !intact {
            assert(!unchanged(source@, all));
            let mut why: String = text::owned(file);
            why.append(" changed since enumeration, delete .angelo/ and re-run");
            return Err(why);
        }
        let edit: Edit = Edit {
            start: mutant.byte_start,
            end: mutant.byte_end,
            text: mutant.replacement.clone(),
        };
        let ghost before = edits::changes(list@);
        list.push(edit);
        assert(edits::changes(list@) =~= before.push(edit@));
        assert(edits::changes(list@) =~= plantings(all.subrange(0, at + 1)));
        at += 1;
    }
    assert(all.subrange(0, at as int) =~= all);
    match edits::apply(source, list) {
        Some(out) => Ok(out),
        None => {
            let mut why: String = text::owned(file);
            why.append(" holds mutants that rewrite each other's bytes");
            Err(why)
        },
    }
}

/// Whether one mutant ends before another starts. Two that start at one byte are
/// not told apart, whichever of them is empty.
pub open spec fn precedes(a: Planted, b: Planted) -> bool {
    a.byte_start < b.byte_start && a.byte_end <= b.byte_start
}

/// Whether of any two mutants one ends before the other starts. Ranges may be
/// empty, and may touch.
pub open spec fn keep_apart(mutants: Seq<Planted>) -> bool {
    forall|i: int, j: int|
        0 <= i < j < mutants.len() ==> precedes(#[trigger] mutants[i], #[trigger] mutants[j])
            || precedes(mutants[j], mutants[i])
}

/// Mutants of one file that rewrite at least one byte each and none of each
/// other's, as those of a batch do, keep apart.
pub proof fn law_mutants_of_a_batch_keep_apart(mutants: Seq<Planted>, file: Seq<char>)
    requires
        forall|k: int|
            0 <= k < mutants.len() ==> (#[trigger] mutants[k]).file == file
                && mutants[k].byte_start < mutants[k].byte_end,
        forall|i: int, j: int|
            0 <= i < j < mutants.len() ==> !#[trigger] clash(mutants[i], mutants[j]),
    ensures
        keep_apart(mutants),
{
    assert forall|i: int, j: int| 0 <= i < j < mutants.len() implies precedes(
        #[trigger] mutants[i],
        #[trigger] mutants[j],
    ) || precedes(mutants[j], mutants[i]) by {
        assert(!clash(mutants[i], mutants[j]));
    }
}

/// What the edits of mutants that keep apart are sorted into: each of them once,
/// no two at one byte.
proof fn lemma_queue(mutants: Seq<Planted>)
    requires
        keep_apart(mutants),
    ensures
        ({
            let given = plantings(mutants);
            let queue = sorting::in_order(given, edits::back_to_front());
            &&& forall|x: Change| #[trigger] queue.contains(x) <==> given.contains(x)
            &&& forall|i: int, j: int|
                0 <= i < j < queue.len() ==> (#[trigger] queue[j]).start < (
                #[trigger] queue[i]).start && queue[j].end <= queue[i].start
        }),
{
    broadcast use vstd::seq_lib::group_to_multiset_ensures;

    let given = plantings(mutants);
    let queue = sorting::in_order(given, edits::back_to_front());
    sorting::law_sorting_orders_and_keeps_everything(given, edits::back_to_front());
    assert forall|i: int, j: int|
        0 <= i < given.len() && 0 <= j < given.len() && i != j implies (#[trigger] given[i]).start
        < (#[trigger] given[j]).start && given[i].end <= given[j].start || given[j].start
        < given[i].start && given[j].end <= given[i].start by {
        if i < j {
            assert(precedes(mutants[i], mutants[j]) || precedes(mutants[j], mutants[i]));
        } else {
            assert(precedes(mutants[j], mutants[i]) || precedes(mutants[i], mutants[j]));
        }
    }
    assert(given.no_duplicates());
    given.lemma_multiset_has_no_duplicates();
    queue.lemma_multiset_has_no_duplicates_conv();
    assert forall|x: Change| #[trigger] queue.contains(x) <==> given.contains(x) by {
        assert(queue.to_multiset().contains(x) <==> given.to_multiset().contains(x));
    }
    assert forall|i: int, j: int| 0 <= i < j < queue.len() implies (#[trigger] queue[j]).start < (
    #[trigger] queue[i]).start && queue[j].end <= queue[i].start by {
        let rank = edits::back_to_front();
        assert(rank(queue[i]) <= rank(queue[j]));
        assert(queue.contains(queue[i]) && queue.contains(queue[j]));
        let m = choose|m: int| 0 <= m < given.len() && given[m] == queue[i];
        let n = choose|n: int| 0 <= n < given.len() && given[n] == queue[j];
        assert(queue[i] != queue[j]);
        assert(m != n);
        assert(given[m].start < given[n].start || given[n].start < given[m].start);
    }
}

/// Mutants that keep apart are refused exactly when one of them no longer finds
/// its bytes. Otherwise they are all planted: what comes out is the file with
/// every range replaced at once, and nothing outside the ranges has moved or
/// changed.
pub proof fn law_mutants_apart_are_all_planted(
    source: Seq<char>,
    mutants: Seq<Planted>,
    file: Seq<char>,
)
    requires
        keep_apart(mutants),
    ensures
        spliced_all(source, mutants, file) is Err <==> !unchanged(source, mutants),
        spliced_all(source, mutants, file) matches Ok(out) ==> encode_utf8(out) == edits::woven(
            encode_utf8(source),
            edits::reversed(sorting::in_order(plantings(mutants), edits::back_to_front())),
            0,
        ),
{
    if unchanged(source, mutants) {
        let given = plantings(mutants);
        let queue = sorting::in_order(given, edits::back_to_front());
        lemma_queue(mutants);
        let list = edits::reversed(queue);
        assert(edits::is_apart(list)) by {
            assert forall|i: int, j: int| 0 <= i < j < list.len() implies (#[trigger] list[i]).end
                <= (#[trigger] list[j]).start by {
                assert(list[i] == queue[queue.len() - 1 - i]);
                assert(list[j] == queue[queue.len() - 1 - j]);
            }
        }
        assert(edits::all_fit(source, list)) by {
            assert forall|i: int| 0 <= i < list.len() implies text::sliced(
                source,
                (#[trigger] list[i]).start,
                list[i].end,
            ).is_some() by {
                let a = queue.len() - 1 - i;
                assert(list[i] == queue[a]);
                assert(queue.contains(queue[a]));
                let m = choose|m: int| 0 <= m < given.len() && given[m] == queue[a];
                assert(text::sliced(source, mutants[m].byte_start, mutants[m].byte_end).is_some());
            }
        }
        edits::law_edits_apart_are_all_made(source, list);
        assert(edits::reversed(list) =~= queue);
    }
}

proof fn lemma_same_mutants(a: Seq<Planted>, b: Seq<Planted>)
    requires
        a.to_multiset() == b.to_multiset(),
    ensures
        forall|x: Planted| #[trigger] a.contains(x) <==> b.contains(x),
        keep_apart(a) ==> keep_apart(b),
{
    broadcast use vstd::seq_lib::group_to_multiset_ensures;

    assert forall|x: Planted| #[trigger] a.contains(x) <==> b.contains(x) by {
        assert(a.contains(x) <==> a.to_multiset().count(x) > 0);
        assert(b.contains(x) <==> b.to_multiset().count(x) > 0);
    }
    if keep_apart(a) {
        assert(a.no_duplicates()) by {
            assert forall|i: int, j: int|
                0 <= i < a.len() && 0 <= j < a.len() && i != j implies a[i] != a[j] by {
                if i < j {
                    assert(precedes(a[i], a[j]) || precedes(a[j], a[i]));
                } else {
                    assert(precedes(a[j], a[i]) || precedes(a[i], a[j]));
                }
            }
        }
        a.lemma_multiset_has_no_duplicates();
        b.lemma_multiset_has_no_duplicates_conv();
        assert forall|i: int, j: int| 0 <= i < j < b.len() implies precedes(
            #[trigger] b[i],
            #[trigger] b[j],
        ) || precedes(b[j], b[i]) by {
            assert(b.contains(b[i]) && b.contains(b[j]));
            assert(a.contains(b[i]) && a.contains(b[j]));
            let m = choose|m: int| 0 <= m < a.len() && a[m] == b[i];
            let n = choose|n: int| 0 <= n < a.len() && a[n] == b[j];
            assert(b[i] != b[j]);
            if m < n {
                assert(precedes(a[m], a[n]) || precedes(a[n], a[m]));
            } else {
                assert(precedes(a[n], a[m]) || precedes(a[m], a[n]));
            }
        }
    }
}

/// The order in which mutants that keep apart are listed changes nothing: any
/// other order of them gives the same file, or the same refusal.
pub proof fn law_the_order_of_mutants_does_not_matter(
    source: Seq<char>,
    a: Seq<Planted>,
    b: Seq<Planted>,
    file: Seq<char>,
)
    requires
        keep_apart(a),
        a.to_multiset() == b.to_multiset(),
    ensures
        spliced_all(source, a, file) == spliced_all(source, b, file),
{
    lemma_same_mutants(a, b);
    assert(unchanged(source, a) <==> unchanged(source, b)) by {
        if unchanged(source, a) {
            assert forall|k: int| 0 <= k < b.len() implies text::sliced(
                source,
                (#[trigger] b[k]).byte_start,
                b[k].byte_end,
            ) == Some(b[k].original) by {
                assert(b.contains(b[k]));
                assert(a.contains(b[k]));
                let m = choose|m: int| 0 <= m < a.len() && a[m] == b[k];
                assert(text::sliced(source, a[m].byte_start, a[m].byte_end) == Some(a[m].original));
            }
        }
        if unchanged(source, b) {
            assert forall|k: int| 0 <= k < a.len() implies text::sliced(
                source,
                (#[trigger] a[k]).byte_start,
                a[k].byte_end,
            ) == Some(a[k].original) by {
                assert(a.contains(a[k]));
                assert(b.contains(a[k]));
                let m = choose|m: int| 0 <= m < b.len() && b[m] == a[k];
                assert(text::sliced(source, b[m].byte_start, b[m].byte_end) == Some(b[m].original));
            }
        }
    }
    let ones = plantings(a);
    let others = plantings(b);
    let queue = sorting::in_order(ones, edits::back_to_front());
    let other = sorting::in_order(others, edits::back_to_front());
    lemma_queue(a);
    lemma_queue(b);
    assert forall|x: Change| #[trigger] queue.contains(x) <==> other.contains(x) by {
        if ones.contains(x) {
            let m = choose|m: int| 0 <= m < ones.len() && ones[m] == x;
            assert(a.contains(a[m]));
            assert(b.contains(a[m]));
            let n = choose|n: int| 0 <= n < b.len() && b[n] == a[m];
            assert(others[n] == x);
        }
        if others.contains(x) {
            let m = choose|m: int| 0 <= m < others.len() && others[m] == x;
            assert(b.contains(b[m]));
            assert(a.contains(b[m]));
            let n = choose|n: int| 0 <= n < a.len() && a[n] == b[m];
            assert(ones[n] == x);
        }
    }
    sorting::lemma_strict_order_is_unique(queue, other, edits::back_to_front());
}

/// A run that exits with 0 lets every mutant it ran survive, however many they
/// are and whatever is known of them.
pub proof fn law_a_green_run_spares_everyone(
    report: RunReport,
    mutants: Seq<&Mutant>,
    coverage: Option<Coverage>,
    duration_ms: u64,
)
    requires
        report.result == SuiteResult::Finished(0),
    ensures
        ruling(Ok(report), mutants, coverage, duration_ms) matches Some(ruling) && {
            &&& ruling.verdicts.len() == mutants.len()
            &&& forall|i: int|
                0 <= i < mutants.len() ==> #[trigger] ruling.verdicts[i] == (
                    mutants[i].id,
                    Status::Survived,
                )
            &&& ruling.exit_code == Some(0i64)
            &&& ruling.failed_tests.len() == 0
            &&& ruling.error.is_none()
            &&& ruling.duration_ms == duration_ms
        },
{
}

/// A run of a single mutant says of it what the run itself says: exit 1 kills
/// it, running out of time is a timeout, and every other exit but 0 is an error
/// with a reason. The failed tests, the exit code and the time are kept.
pub proof fn law_a_single_run_speaks_for_its_mutant(
    report: RunReport,
    mutants: Seq<&Mutant>,
    coverage: Option<Coverage>,
    duration_ms: u64,
)
    requires
        mutants.len() == 1,
        report.result != SuiteResult::Finished(0),
    ensures
        ruling(Ok(report), mutants, coverage, duration_ms) matches Some(ruling) && {
            &&& ruling.verdicts.len() == 1
            &&& ruling.verdicts[0].0 == mutants[0].id
            &&& ruling.verdicts[0].1 == (match report.result {
                SuiteResult::TimedOut => Status::Timeout,
                SuiteResult::Finished(code) => if code == 1 {
                    Status::Killed
                } else {
                    Status::Error
                },
            })
            &&& ruling.error.is_some() <==> ruling.verdicts[0].1 is Error
            &&& report.result matches SuiteResult::Finished(code) ==> ruling.exit_code == Some(code)
            &&& report.result is TimedOut ==> ruling.exit_code.is_none()
            &&& ruling.failed_tests == text::texts(report.failed_tests@)
            &&& ruling.duration_ms == duration_ms
        },
{
}

/// A red batch is settled exactly when coverage is known, the run failed tests
/// and named some, and every one of them runs some member. A member is then
/// killed exactly when one of the failed tests runs it.
pub proof fn law_a_red_batch_is_settled_by_its_failed_tests(
    report: RunReport,
    mutants: Seq<&Mutant>,
    coverage: Coverage,
    duration_ms: u64,
)
    requires
        mutants.len() > 1,
        report.result != SuiteResult::Finished(0),
    ensures
        ruling(Ok(report), mutants, None, duration_ms).is_none(),
        ruling(Ok(report), mutants, Some(coverage), duration_ms).is_some() <==> report.result
            == SuiteResult::Finished(1) && report.failed_tests@.len() > 0 && forall|k: int|
            0 <= k < report.failed_tests@.len() ==> exists|i: int|
                0 <= i < mutants.len() && coverage.hits(
                    (#[trigger] report.failed_tests@[k])@,
                    (#[trigger] mutants[i])@,
                ),
        ruling(Ok(report), mutants, Some(coverage), duration_ms) matches Some(ruling) ==> forall|
            i: int,
        |
            0 <= i < mutants.len() ==> (#[trigger] ruling.verdicts[i]).1 == (if exists|k: int|
                0 <= k < report.failed_tests@.len() && coverage.hits(
                    (#[trigger] report.failed_tests@[k])@,
                    mutants[i]@,
                ) {
                Status::Killed
            } else {
                Status::Survived
            }),
{
    let failed = text::texts(report.failed_tests@);
    let all = members(mutants);
    assert forall|k: int| 0 <= k < report.failed_tests@.len() implies (coverage.explains(
        all,
        (#[trigger] report.failed_tests@[k])@,
    ) <==> exists|i: int|
        0 <= i < mutants.len() && coverage.hits(
            report.failed_tests@[k]@,
            (#[trigger] mutants[i])@,
        )) by {
        let name = report.failed_tests@[k]@;
        if coverage.explains(all, name) {
            let i = choose|i: int| 0 <= i < all.len() && coverage.hits(name, #[trigger] all[i]);
            assert(all[i] == mutants[i]@);
        }
        if exists|i: int| 0 <= i < mutants.len() && coverage.hits(name, (#[trigger] mutants[i])@) {
            let i = choose|i: int|
                0 <= i < mutants.len() && coverage.hits(name, (#[trigger] mutants[i])@);
            assert(all[i] == mutants[i]@);
        }
    }
    assert forall|i: int| 0 <= i < mutants.len() implies ((exists|k: int|
        0 <= k < failed.len() && coverage.hits(#[trigger] failed[k], (#[trigger] mutants[i])@))
        <==> exists|k: int|
        0 <= k < report.failed_tests@.len() && coverage.hits(
            (#[trigger] report.failed_tests@[k])@,
            mutants[i]@,
        )) by {
        if exists|k: int| 0 <= k < failed.len() && coverage.hits(#[trigger] failed[k], mutants[i]@) {
            let k = choose|k: int|
                0 <= k < failed.len() && coverage.hits(#[trigger] failed[k], mutants[i]@);
            assert(failed[k] == report.failed_tests@[k]@);
        }
        if exists|k: int|
            0 <= k < report.failed_tests@.len() && coverage.hits(
                (#[trigger] report.failed_tests@[k])@,
                mutants[i]@,
            ) {
            let k = choose|k: int|
                0 <= k < report.failed_tests@.len() && coverage.hits(
                    (#[trigger] report.failed_tests@[k])@,
                    mutants[i]@,
                );
            assert(failed[k] == report.failed_tests@[k]@);
        }
    }
}

/// A run that could not be made is an error of a single mutant, with what was
/// said, and settles nothing of a batch.
pub proof fn law_a_run_that_failed_to_start_is_an_error(
    error: String,
    mutants: Seq<&Mutant>,
    coverage: Option<Coverage>,
    duration_ms: u64,
)
    ensures
        mutants.len() > 1 ==> ruling(Err(error), mutants, coverage, duration_ms).is_none(),
        mutants.len() == 1 ==> (ruling(Err(error), mutants, coverage, duration_ms) matches Some(
            ruling,
        ) && ruling.verdicts == seq![(mutants[0].id, Status::Error)] && ruling.error == Some(error@)
            && ruling.exit_code.is_none()),
{
}

/// Without coverage, or with selection turned off, a run executes the whole suite
/// and never stops early.
pub proof fn law_without_selection_everything_runs(
    coverage: Coverage,
    mutants: Seq<Planted>,
    test_selection: bool,
)
    ensures
        tests_chosen(None, test_selection, mutants).test_ids.len() == 0,
        !tests_chosen(None, test_selection, mutants).stop_at_first_failure,
        tests_chosen(Some(coverage), false, mutants).test_ids.len() == 0,
        !tests_chosen(Some(coverage), false, mutants).stop_at_first_failure,
        tests_chosen(Some(coverage), true, mutants) == coverage.selection(mutants),
{
}

/// One member that is not compiled in is enough to splice them all.
pub proof fn law_one_spliced_member_splices_the_batch(
    board: Board,
    mutants: Seq<Planted>,
    k: int,
)
    requires
        0 <= k < mutants.len(),
        !board.hosted.contains_key(mutants[k].id as i64),
    ensures
        !all_hosted(Some(board), mutants),
        !all_hosted(None, mutants),
{
}

/// The files of some mutants are exactly those that one of them is in, each
/// once.
pub proof fn law_every_file_is_listed_once(mutants: Seq<Planted>, file: Seq<char>)
    ensures
        files_in(mutants).contains(file) <==> exists|k: int|
            0 <= k < mutants.len() && (#[trigger] mutants[k]).file == file,
        files_in(mutants).no_duplicates(),
    decreases mutants.len(),
{
    if mutants.len() > 0 {
        let fewer = mutants.drop_last();
        let before = files_in(fewer);
        let now = files_in(mutants);
        law_every_file_is_listed_once(fewer, file);
        assert(mutants[mutants.len() - 1] == mutants.last());
        assert forall|k: int| 0 <= k < fewer.len() implies #[trigger] fewer[k] == mutants[k] by {}
        if before.contains(file) {
            let k = choose|k: int| 0 <= k < fewer.len() && (#[trigger] fewer[k]).file == file;
            assert(mutants[k].file == file);
            let m = choose|m: int| 0 <= m < before.len() && before[m] == file;
            assert(now[m] == file);
        }
        if now.len() > before.len() {
            assert(now[before.len() as int] == mutants.last().file);
        }
        if exists|k: int| 0 <= k < mutants.len() && (#[trigger] mutants[k]).file == file {
            let k = choose|k: int| 0 <= k < mutants.len() && (#[trigger] mutants[k]).file == file;
            if k < fewer.len() {
                assert(fewer[k].file == file);
            }
        }
        if now.contains(file) && !before.contains(file) {
            let m = choose|m: int| 0 <= m < now.len() && now[m] == file;
            if m < before.len() {
                assert(before[m] == file);
            }
        }
    }
}

/// Planting one mutant replaces its bytes, when the bytes it was made from are
/// still there, and is refused otherwise.
pub proof fn law_a_mutant_is_planted_where_it_was_found(
    source: Seq<char>,
    mutant: Planted,
    file: Seq<char>,
)
    ensures
        text::sliced(source, mutant.byte_start, mutant.byte_end) == Some(mutant.original) ==> (
        spliced_all(source, seq![mutant], file) matches Ok(out) && encode_utf8(out) == encode_utf8(
            source,
        ).subrange(0, mutant.byte_start) + encode_utf8(mutant.replacement) + encode_utf8(
            source,
        ).subrange(mutant.byte_end, encode_utf8(source).len() as int)),
        text::sliced(source, mutant.byte_start, mutant.byte_end) != Some(mutant.original) ==> (
        spliced_all(source, seq![mutant], file) matches Err(why) && why == file
            + " changed since enumeration, delete .angelo/ and re-run"@),
{
    let one = seq![mutant];
    assert(one[0] == mutant);
    if text::sliced(source, mutant.byte_start, mutant.byte_end) == Some(mutant.original) {
        let change = Change {
            start: mutant.byte_start,
            end: mutant.byte_end,
            text: mutant.replacement,
        };
        assert(plantings(one) =~= seq![change]);
        assert(seq![change].drop_last() =~= Seq::<Change>::empty());
        assert(sorting::in_order(Seq::<Change>::empty(), edits::back_to_front())
            == Seq::<Change>::empty());
        assert(sorting::in_order(seq![change], edits::back_to_front()) =~= seq![change]);
        assert(edits::applied(source, Seq::<Change>::empty()) == Some(source));
        assert(edits::applied(source, seq![change]) == edits::edited(source, change));
        text::lemma_spliced_bytes(source, mutant.byte_start, mutant.byte_end, mutant.replacement);
    } else {
        assert(!unchanged(source, one));
    }
}

} // verus!

//! The decisions of a run, from an empty directory to an exit code.
//!
//! The program performs the actions and says what came of them; what comes next,
//! what is said about it and which mutants are judged how is decided here.

use vstd::prelude::*;

use crate::batch::{self, Batch, Group};
use crate::config::{Config, Sources};
use crate::coverage::{Baseline, Coverage, TestCoverage};
use crate::diff::{self, ChangedLines};
use crate::literals::Sums;
use crate::mutate::{self, Mutant, Planted};
use crate::operators::{self, Choice, Operators};
use crate::report::{self, Diagnostics, Findings, Level, Shown, Summary, Trouble};
use crate::schemata::{self, Board, Schemata, SourceFile};
use crate::syntax;
use crate::text;

verus! {

broadcast use vstd::seq_lib::group_seq_properties;

/// Where a run keeps its database.
pub const ANGELO_DIR: &'static str = ".angelo";

pub open spec fn switch(enabled: bool) -> Seq<char> {
    if enabled {
        "on"@
    } else {
        "off"@
    }
}

pub fn on_or_off(enabled: bool) -> (word: &'static str)
    ensures
        word@ == switch(enabled),
{
    if enabled {
        "on"
    } else {
        "off"
    }
}

/// What the command line asks of a run.
pub struct Options {
    pub workers: Option<usize>,
    pub init_only: bool,
    /// Cap the mutant pool, dropping the overflow at random.
    pub sample: Option<usize>,
    /// Write the mutation-testing-report JSON here.
    pub report: Option<String>,
    /// Write the self-contained HTML report here.
    pub html_report: Option<String>,
    /// Write SonarQube's generic issue import format here.
    pub sonar_report: Option<String>,
}

/// Where a run's report files go. Empty means off, which is the default, and
/// the flag beats the config key the same way `--fail-under` does.
pub struct Reports {
    pub json: Option<String>,
    pub html: Option<String>,
    pub sonar: Option<String>,
}

/// Where one report goes.
pub open spec fn destination(flag: Option<String>, configured: Seq<char>) -> Option<Seq<char>> {
    match flag {
        Some(path) => Some(path@),
        None => if configured.len() == 0 {
            None
        } else {
            Some(configured)
        },
    }
}

fn resolve(flag: &Option<String>, configured: &String) -> (path: Option<String>)
    ensures
        crate::pytest::said(path) == destination(*flag, configured@),
{
    match flag {
        Some(path) => Some(path.clone()),
        None => if configured.as_str().is_empty() {
            None
        } else {
            Some(configured.clone())
        },
    }
}

impl Reports {
    pub fn of(options: &Options, config: &Config) -> (reports: Reports)
        ensures
            crate::pytest::said(reports.json) == destination(options.report, config.report@),
            crate::pytest::said(reports.html) == destination(
                options.html_report,
                config.html_report@,
            ),
            crate::pytest::said(reports.sonar) == destination(
                options.sonar_report,
                config.sonar_report@,
            ),
    {
        Reports {
            json: resolve(&options.report, &config.report),
            html: resolve(&options.html_report, &config.html_report),
            sonar: resolve(&options.sonar_report, &config.sonar_report),
        }
    }

    /// Whether there is nothing to write.
    pub fn are_off(&self) -> (yes: bool)
        ensures
            yes == (self.json.is_none() && self.html.is_none() && self.sonar.is_none()),
    {
        self.json.is_none() && self.html.is_none() && self.sonar.is_none()
    }
}

/// What the program does next.
#[derive(Clone, Copy, Debug, PartialEq, Eq, Structural)]
pub enum Action {
    /// Find the mutants and store them.
    Enumerate,
    /// Drop the overflow of the pool at random.
    Sample,
    /// List the mutants that wait for a verdict.
    ListPending,
    /// Write the reports and stop, the mutants being listed.
    StopBeforeRunning,
    /// Run the untouched suite.
    RunBaseline,
    /// Set aside the mutants no test executes.
    SplitUntested,
    /// Record that those survived.
    MarkSurvived,
    /// Set aside the mutants that only red tests could judge.
    SplitUntestable,
    /// Record that those are untestable.
    MarkUntestable,
    /// Compose batches and run them.
    RunBatches,
    /// Print the report and leave with its exit code.
    Summarise,
}

/// What came of an action.
#[derive(Clone, Copy, Debug, PartialEq, Eq, Structural)]
pub enum Event {
    /// So many mutants are stored.
    Counted(i64),
    Enumerated,
    Sampled { keep: usize, total: i64, dropped: usize },
    /// So many mutants wait for a verdict.
    Listed(usize),
    Measured { coverage: bool },
    Untested { coverage: bool, testable: usize, untested: usize },
    MarkedSurvived,
    Untestable { already_failing: usize, testable: usize, untestable: usize },
    MarkedUntestable { testable: usize },
    Ran,
}

/// The refusal of a score that would measure nothing.
pub open spec fn no_mutant_matched() -> Seq<char> {
    "per-test coverage was collected but matched no mutant at all, so every mutant would survive without a run and the score would measure nothing.\nTwo things do this. A pytest plugin in the project's own addopts takes the coverage run over -- pytest-cov through --cov, pytest-xdist through -n auto -- in which case add `--no-cov` or `-o addopts=` to test_command, alongside `warm_workers = false`. Otherwise `paths` names code the suite never imports."@
}

/// What comes after an event, or why the run stops.
pub open spec fn following(event: Event, init_only: bool) -> Result<Action, Seq<char>> {
    match event {
        Event::Counted(count) => if count == 0 {
            Ok(Action::Enumerate)
        } else {
            Ok(Action::ListPending)
        },
        Event::Enumerated => Ok(Action::Sample),
        Event::Sampled { .. } => Ok(Action::ListPending),
        Event::Listed(pending) => if init_only {
            Ok(Action::StopBeforeRunning)
        } else if pending == 0 {
            Ok(Action::Summarise)
        } else {
            Ok(Action::RunBaseline)
        },
        Event::Measured { .. } => Ok(Action::SplitUntested),
        Event::Untested { coverage, testable, untested } => if coverage && testable == 0 && untested
            > 0 {
            Err(no_mutant_matched())
        } else if untested > 0 {
            Ok(Action::MarkSurvived)
        } else {
            Ok(Action::SplitUntestable)
        },
        Event::MarkedSurvived => Ok(Action::SplitUntestable),
        Event::Untestable { testable, untestable, .. } => if untestable > 0 {
            Ok(Action::MarkUntestable)
        } else if testable == 0 {
            Ok(Action::Summarise)
        } else {
            Ok(Action::RunBatches)
        },
        Event::MarkedUntestable { testable } => if testable == 0 {
            Ok(Action::Summarise)
        } else {
            Ok(Action::RunBatches)
        },
        Event::Ran => Ok(Action::Summarise),
    }
}

/// Something that casts doubt on the score.
pub open spec fn warning(message: Seq<char>) -> Trouble {
    Trouble { level: Level::Warn, message }
}

/// Something the reader needs in order to read the score.
pub open spec fn remark(message: Seq<char>) -> Trouble {
    Trouble { level: Level::Info, message }
}

/// What is said about an event.
pub open spec fn remarks(event: Event) -> Seq<Trouble> {
    match event {
        Event::Counted(count) => if count == 0 {
            Seq::empty()
        } else {
            // The pool was fixed when it was enumerated, so paths, exclude and
            // --diff have nothing left to filter. Say so, or a new exclude looks
            // ignored.
            seq![
                remark(
                    "existing .angelo/angelo.db found, resuming. paths, exclude and --diff apply at enumeration only, so delete .angelo/ for a fresh run"@,
                ),
            ]
        },
        Event::Sampled { keep, total, dropped } => if keep == 0 || dropped == 0 {
            Seq::empty()
        } else {
            seq![
                warning(
                    "sampled "@ + text::decimal(keep as nat) + " of "@ + text::signed(total as int)
                        + " mutants, "@ + text::decimal(dropped as nat)
                        + " dropped at random, so the score is an ESTIMATE over a random sample, not a full census"@,
                ),
            ]
        },
        Event::Measured { coverage } => if coverage {
            Seq::empty()
        } else {
            seq![
                warning(
                    "no per-test coverage (needs `pip install coverage` and a `python -m pytest` test command), no batching, no test selection"@,
                ),
            ]
        },
        Event::Untested { coverage, testable, untested } => if untested == 0 || (coverage
            && testable == 0) {
            Seq::empty()
        } else {
            seq![
                remark(
                    text::decimal(untested as nat)
                        + " mutants sit on lines no test executes, survived without a single run"@,
                ),
            ]
        },
        Event::Untestable { already_failing, untestable, .. } => (if already_failing == 0 {
            Seq::empty()
        } else {
            // Said whenever the baseline is red, not only when it cost a mutant:
            // a suite the reader believed was green is news on its own.
            seq![
                warning(
                    text::decimal(already_failing as nat)
                        + " tests were already failing before any mutant was planted"@,
                ),
            ]
        }) + (if untestable == 0 {
            Seq::empty()
        } else {
            seq![
                warning(
                    text::decimal(untestable as nat)
                        + " mutants set untestable, the tests covering them are already red, so a run could not tell a kill from the failure that was already there"@,
                ),
            ]
        }),
        _ => Seq::empty(),
    }
}

fn say_about(event: &Event, diagnostics: &mut Diagnostics)
    ensures
        final(diagnostics)@ == (Findings {
            problems: old(diagnostics)@.problems + remarks(*event),
            facts: old(diagnostics)@.facts,
        }),
{
    let ghost before = diagnostics@.problems;
    match event {
        Event::Counted(count) => if *count != 0 {
            diagnostics.note(
                text::owned(
                    "existing .angelo/angelo.db found, resuming. paths, exclude and --diff apply at enumeration only, so delete .angelo/ for a fresh run",
                ),
            );
        },
        Event::Sampled { keep, total, dropped } => if *keep != 0 && *dropped != 0 {
            let mut message: String = text::owned("sampled ");
            message.append(&text::show_size(*keep));
            message.append(" of ");
            message.append(&text::show_i64(*total));
            message.append(" mutants, ");
            message.append(&text::show_size(*dropped));
            message.append(
                " dropped at random, so the score is an ESTIMATE over a random sample, not a full census",
            );
            diagnostics.warn(message);
        },
        Event::Measured { coverage } => if !*coverage {
            diagnostics.warn(
                text::owned(
                    "no per-test coverage (needs `pip install coverage` and a `python -m pytest` test command), no batching, no test selection",
                ),
            );
        },
        Event::Untested { coverage, testable, untested } => if *untested != 0 && !(*coverage
            && *testable == 0) {
            let mut message: String = text::show_size(*untested);
            message.append(
                " mutants sit on lines no test executes, survived without a single run",
            );
            diagnostics.note(message);
        },
        Event::Untestable { already_failing, untestable, .. } => {
            if *already_failing != 0 {
                let mut message: String = text::show_size(*already_failing);
                message.append(" tests were already failing before any mutant was planted");
                diagnostics.warn(message);
            }
            if *untestable != 0 {
                let mut message: String = text::show_size(*untestable);
                message.append(
                    " mutants set untestable, the tests covering them are already red, so a run could not tell a kill from the failure that was already there",
                );
                diagnostics.warn(message);
            }
        },
        _ => {},
    }
    assert(diagnostics@.problems =~= before + remarks(*event));
}

/// One step of a run: from what came of the last action to the next one, saying
/// what there is to say about it. A run starts with the number of mutants that
/// are stored.
///
/// A coverage run that matched no mutant at all is refused before any status is
/// written, or resuming would find nothing pending and report the fabricated
/// score this refuses to print.
pub fn next_action(event: &Event, init_only: bool, diagnostics: &mut Diagnostics) -> (next: Result<
    Action,
    String,
>)
    ensures
        match following(*event, init_only) {
            Ok(action) => next == Ok::<Action, String>(action),
            Err(why) => next matches Err(said) && said@ == why,
        },
        final(diagnostics)@ == (Findings {
            problems: old(diagnostics)@.problems + remarks(*event),
            facts: old(diagnostics)@.facts,
        }),
{
    say_about(event, diagnostics);
    match event {
        Event::Counted(count) => if *count == 0 {
            Ok(Action::Enumerate)
        } else {
            Ok(Action::ListPending)
        },
        Event::Enumerated => Ok(Action::Sample),
        Event::Sampled { .. } => Ok(Action::ListPending),
        Event::Listed(pending) => if init_only {
            Ok(Action::StopBeforeRunning)
        } else if *pending == 0 {
            Ok(Action::Summarise)
        } else {
            Ok(Action::RunBaseline)
        },
        Event::Measured { .. } => Ok(Action::SplitUntested),
        Event::Untested { coverage, testable, untested } => if *coverage && *testable == 0
            && *untested > 0 {
            Err(
                text::owned(
                    "per-test coverage was collected but matched no mutant at all, so every mutant would survive without a run and the score would measure nothing.\nTwo things do this. A pytest plugin in the project's own addopts takes the coverage run over -- pytest-cov through --cov, pytest-xdist through -n auto -- in which case add `--no-cov` or `-o addopts=` to test_command, alongside `warm_workers = false`. Otherwise `paths` names code the suite never imports.",
                ),
            )
        } else if *untested > 0 {
            Ok(Action::MarkSurvived)
        } else {
            Ok(Action::SplitUntestable)
        },
        Event::MarkedSurvived => Ok(Action::SplitUntestable),
        Event::Untestable { testable, untestable, .. } => if *untestable > 0 {
            Ok(Action::MarkUntestable)
        } else if *testable == 0 {
            Ok(Action::Summarise)
        } else {
            Ok(Action::RunBatches)
        },
        Event::MarkedUntestable { testable } => if *testable == 0 {
            Ok(Action::Summarise)
        } else {
            Ok(Action::RunBatches)
        },
        Event::Ran => Ok(Action::Summarise),
    }
}

/// Whether an event can come of an action.
pub open spec fn answers(event: Event, action: Action) -> bool {
    match action {
        Action::Enumerate => event is Enumerated,
        Action::Sample => event is Sampled,
        Action::ListPending => event is Listed,
        Action::RunBaseline => event is Measured,
        Action::SplitUntested => event is Untested,
        Action::MarkSurvived => event is MarkedSurvived,
        Action::SplitUntestable => event is Untestable,
        Action::MarkUntestable => event is MarkedUntestable,
        Action::RunBatches => event is Ran,
        Action::StopBeforeRunning | Action::Summarise => false,
    }
}

/// How far a run has come.
pub open spec fn progress(action: Action) -> int {
    match action {
        Action::Enumerate => 0,
        Action::Sample => 1,
        Action::ListPending => 2,
        Action::RunBaseline => 3,
        Action::SplitUntested => 4,
        Action::MarkSurvived => 5,
        Action::SplitUntestable => 6,
        Action::MarkUntestable => 7,
        Action::RunBatches => 8,
        Action::StopBeforeRunning => 9,
        Action::Summarise => 9,
    }
}

/// A run only ever moves forward: whatever comes of an action, the next one is
/// a later one, so every run ends. Nothing runs when nothing is pending, and
/// with `--init-only` nothing runs at all.
pub proof fn law_a_run_moves_forward_to_its_end(action: Action, event: Event, init_only: bool)
    requires
        answers(event, action),
    ensures
        following(event, init_only) matches Ok(next) ==> progress(next) > progress(action),
        event is Listed && (init_only || event == Event::Listed(0)) ==> (following(
            event,
            init_only,
        ) matches Ok(next) && (next is StopBeforeRunning || next is Summarise)),
{
}

/// A status is only recorded after the check that refuses a fabricated score.
pub proof fn law_a_fabricated_score_is_refused(testable: usize, untested: usize, init_only: bool)
    requires
        testable == 0,
        untested > 0,
    ensures
        following(Event::Untested { coverage: true, testable, untested }, init_only) is Err,
        remarks(Event::Untested { coverage: true, testable, untested }).len() == 0,
{
}

/// The mutants that something holds of, in the order they came.
pub open spec fn picked(mutants: Seq<Planted>, wanted: spec_fn(Planted) -> bool) -> Seq<Planted>
    decreases mutants.len(),
{
    if mutants.len() == 0 {
        Seq::empty()
    } else if wanted(mutants.last()) {
        picked(mutants.drop_last(), wanted).push(mutants.last())
    } else {
        picked(mutants.drop_last(), wanted)
    }
}

/// Taking out what something holds of and what it does not hold of loses no
/// mutant and repeats none.
pub proof fn law_a_split_loses_nothing(mutants: Seq<Planted>, wanted: spec_fn(Planted) -> bool)
    ensures
        picked(mutants, wanted).to_multiset().add(
            picked(mutants, |mutant: Planted| !wanted(mutant)).to_multiset(),
        ) == mutants.to_multiset(),
    decreases mutants.len(),
{
    broadcast use vstd::seq_lib::group_to_multiset_ensures;

    let others = |mutant: Planted| !wanted(mutant);
    if mutants.len() > 0 {
        law_a_split_loses_nothing(mutants.drop_last(), wanted);
        assert(mutants =~= mutants.drop_last().push(mutants.last()));
        assert(picked(mutants, wanted).to_multiset().add(picked(mutants, others).to_multiset())
            =~= mutants.to_multiset());
    } else {
        assert(picked(mutants, wanted).to_multiset().add(picked(mutants, others).to_multiset())
            =~= mutants.to_multiset());
    }
}

/// Whether a mutant needs a run.
pub open spec fn needs_a_run(coverage: Option<Coverage>) -> spec_fn(Planted) -> bool {
    |mutant: Planted|
        match coverage {
            Some(coverage) => !(coverage.standing(mutant) is Untested),
            None => true,
        }
}

/// The mutants that something does not hold of.
pub open spec fn unless(wanted: spec_fn(Planted) -> bool) -> spec_fn(Planted) -> bool {
    |mutant: Planted| !wanted(mutant)
}

proof fn lemma_all_picked(mutants: Seq<Planted>, wanted: spec_fn(Planted) -> bool)
    requires
        forall|mutant: Planted| #[trigger] wanted(mutant),
    ensures
        picked(mutants, wanted) == mutants,
        picked(mutants, unless(wanted)) == Seq::<Planted>::empty(),
    decreases mutants.len(),
{
    if mutants.len() > 0 {
        lemma_all_picked(mutants.drop_last(), wanted);
        assert(wanted(mutants.last()));
        assert(mutants =~= mutants.drop_last().push(mutants.last()));
    } else {
        assert(picked(mutants, wanted) =~= mutants);
    }
}

/// Mutants no test executes cannot be killed, so they never need a run: the ones
/// that need one, and the ones that survive without.
///
/// This has to happen before the fair-trial split: an untested mutant survives
/// without a run whether the baseline is green or red, and its empty selection
/// would otherwise read as untestable.
pub fn split_untested(pending: Vec<Mutant>, coverage: Option<&Coverage>) -> (split: (
    Vec<Mutant>,
    Vec<Mutant>,
))
    requires
        coverage matches Some(coverage) ==> coverage.wf(),
    ensures
        mutate::planted(split.0@) == picked(
            mutate::planted(pending@),
            needs_a_run(batch::coverage_behind(coverage)),
        ),
        mutate::planted(split.1@) == picked(
            mutate::planted(pending@),
            unless(needs_a_run(batch::coverage_behind(coverage))),
        ),
{
    let ghost wanted = needs_a_run(batch::coverage_behind(coverage));
    let ghost all = mutate::planted(pending@);
    let map: &Coverage = match coverage {
        Some(map) => map,
        None => {
            proof {
                lemma_all_picked(all, wanted);
            }
            let nobody: Vec<Mutant> = Vec::new();
            assert(mutate::planted(nobody@) =~= Seq::<Planted>::empty());
            return (pending, nobody);
        },
    };
    let mut testable: Vec<Mutant> = Vec::new();
    let mut untested: Vec<Mutant> = Vec::new();
    assert(mutate::planted(testable@) =~= picked(all.subrange(0, 0), wanted));
    assert(mutate::planted(untested@) =~= picked(all.subrange(0, 0), unless(wanted)));
    let mut at: usize = 0;
    while at < pending.len()
        invariant
            at <= pending@.len(),
            all == mutate::planted(pending@),
            map.wf(),
            wanted == needs_a_run(Some(*map)),
            mutate::planted(testable@) == picked(all.subrange(0, at as int), wanted),
            mutate::planted(untested@) == picked(all.subrange(0, at as int), unless(wanted)),
        decreases pending@.len() - at,
    {
        assert(all.subrange(0, at + 1).drop_last() =~= all.subrange(0, at as int));
        assert(all.subrange(0, at + 1).last() == pending@[at as int]@);
        let mutant: Mutant = pending[at].clone();
        let ghost kept = mutate::planted(testable@);
        let ghost turned = mutate::planted(untested@);
        if matches!(map.classify(&mutant), TestCoverage::Untested) {
            untested.push(mutant);
            assert(mutate::planted(untested@) =~= turned.push(mutant@));
        } else {
            testable.push(mutant);
            assert(mutate::planted(testable@) =~= kept.push(mutant@));
        }
        at += 1;
    }
    assert(all.subrange(0, at as int) =~= all);
    (testable, untested)
}

/// Whether a mutant's run can avoid every test that was already failing.
pub open spec fn is_fair(coverage: Coverage, failing: Seq<Seq<char>>) -> spec_fn(Planted) -> bool {
    |mutant: Planted| coverage.fair(mutant, failing)
}

/// The refusal to work around a red suite without the means to.
pub open spec fn red_without_means(failing: nat) -> Seq<char> {
    "the baseline suite is red ("@ + text::decimal(failing)
        + " tests already failing) and angelo cannot work around that here.\nSkipping the mutants those tests cover needs per-test coverage and test selection: `pip install coverage`, keep a `python -m pytest` test_command, and leave test_selection = true in angelo.conf.\nOtherwise every run executes the whole red suite, exits 1, and every mutant is scored killed."@
}

/// Under a red baseline, keep only the mutants whose run can avoid every test
/// that was already failing. The rest are `untestable`: a run would exit 1
/// because of the failure that was already there and score them `killed`.
///
/// Working around a red baseline needs both a coverage map and test selection.
/// Without either, every run executes the whole red suite, nothing distinguishes
/// a contaminated mutant from a clean one, and every mutant in the project would
/// come back detected. Inventing a perfect score is worse than refusing to run,
/// so that combination stops.
pub fn split_untestable(pending: Vec<Mutant>, baseline: &Baseline, test_selection: bool) -> (split:
    Result<(Vec<Mutant>, Vec<Mutant>), String>)
    requires
        baseline.coverage matches Some(coverage) ==> coverage.wf(),
    ensures
        baseline.already_failing@.len() == 0 ==> (split matches Ok((testable, untestable))
            && testable@ == pending@ && untestable@.len() == 0),
        baseline.already_failing@.len() > 0 && !(test_selection && baseline.coverage.is_some()) ==> (
        split matches Err(why) && why@ == red_without_means(baseline.already_failing@.len())),
        baseline.already_failing@.len() > 0 && test_selection && baseline.coverage.is_some() ==> {
            let fair = is_fair(
                baseline.coverage.unwrap(),
                text::texts(baseline.already_failing@),
            );
            &&& split matches Ok((testable, untestable))
            &&& mutate::planted(testable@) == picked(mutate::planted(pending@), fair)
            &&& mutate::planted(untestable@) == picked(mutate::planted(pending@), unless(fair))
        },
{
    if baseline.is_green() {
        return Ok((pending, Vec::new()));
    }
    let map: &Coverage = match &baseline.coverage {
        Some(map) if test_selection => map,
        _ => {
            let mut why: String = text::owned("the baseline suite is red (");
            why.append(&text::show_size(baseline.already_failing.len()));
            why.append(
                " tests already failing) and angelo cannot work around that here.\nSkipping the mutants those tests cover needs per-test coverage and test selection: `pip install coverage`, keep a `python -m pytest` test_command, and leave test_selection = true in angelo.conf.\nOtherwise every run executes the whole red suite, exits 1, and every mutant is scored killed.",
            );
            return Err(why);
        },
    };
    let ghost failing = text::texts(baseline.already_failing@);
    let ghost fair = is_fair(*map, failing);
    let ghost all = mutate::planted(pending@);
    let mut testable: Vec<Mutant> = Vec::new();
    let mut untestable: Vec<Mutant> = Vec::new();
    assert(mutate::planted(testable@) =~= picked(all.subrange(0, 0), fair));
    assert(mutate::planted(untestable@) =~= picked(all.subrange(0, 0), unless(fair)));
    let mut at: usize = 0;
    while at < pending.len()
        invariant
            at <= pending@.len(),
            all == mutate::planted(pending@),
            map.wf(),
            failing == text::texts(baseline.already_failing@),
            fair == is_fair(*map, failing),
            mutate::planted(testable@) == picked(all.subrange(0, at as int), fair),
            mutate::planted(untestable@) == picked(all.subrange(0, at as int), unless(fair)),
        decreases pending@.len() - at,
    {
        assert(all.subrange(0, at + 1).drop_last() =~= all.subrange(0, at as int));
        assert(all.subrange(0, at + 1).last() == pending@[at as int]@);
        let mutant: Mutant = pending[at].clone();
        let ghost kept = mutate::planted(testable@);
        let ghost turned = mutate::planted(untestable@);
        if map.gets_a_fair_trial(&mutant, &baseline.already_failing) {
            testable.push(mutant);
            assert(mutate::planted(testable@) =~= kept.push(mutant@));
        } else {
            untestable.push(mutant);
            assert(mutate::planted(untestable@) =~= turned.push(mutant@));
        }
        at += 1;
    }
    assert(all.subrange(0, at as int) =~= all);
    Ok((testable, untestable))
}

/// A mutant that is tried under a red baseline has tests of its own that can be
/// named, and none of them is one that was already failing. So a failure in its
/// run is news.
pub proof fn law_a_fair_trial_avoids_every_red_test(
    coverage: Coverage,
    mutant: Planted,
    failing: Seq<Seq<char>>,
    k: int,
)
    requires
        coverage.wf(),
        coverage.fair(mutant, failing),
        0 <= k < failing.len(),
    ensures
        coverage.selection(seq![mutant]).test_ids.len() > 0,
        coverage.context(crate::coverage::normalized(failing[k])) matches Some(id)
            ==> !coverage.tests_of(mutant).contains(id),
{
    assert(!coverage.hits(failing[k], mutant));
}

/// Whether a mutant is compiled into the tree.
pub open spec fn is_hosted(board: Board) -> spec_fn(Planted) -> bool {
    |mutant: Planted| board.hosted.contains_key(mutant.id as i64)
}

/// The batches of a run: the hosted mutants apart from the spliced ones, and
/// ahead of them.
pub open spec fn scheduled(
    mutants: Seq<Planted>,
    coverage: Option<Coverage>,
    batch_size: int,
    board: Option<Board>,
) -> Seq<Group> {
    match board {
        None => batch::composed(mutants, coverage, batch_size, None),
        Some(tree) => batch::composed(
            picked(mutants, is_hosted(tree)),
            coverage,
            batch_size,
            Some(tree),
        ) + batch::composed(
            picked(mutants, unless(is_hosted(tree))),
            coverage,
            batch_size,
            None,
        ),
    }
}

/// Batch the hosted mutants apart from the spliced ones.
///
/// A batch runs on the schemata path only if **every** member is hosted, since
/// one spliced member needs the file written and the re-import that comes with
/// it. Mixing them therefore wastes the feature rather than sharing it.
/// Splitting first makes every hosted batch a fast one, and puts them ahead of
/// the rest so a worker switches paths once. `placed` is called once per mutant.
pub fn compose_batches(
    testable: Vec<Mutant>,
    coverage: Option<&Coverage>,
    batch_size: usize,
    schemata: Option<&Schemata>,
    placed: impl Fn(),
) -> (batches: Vec<Batch>)
    requires
        placed.requires(()),
        coverage matches Some(coverage) ==> coverage.wf(),
    ensures
        batch::groups(batches@) == scheduled(
            mutate::planted(testable@),
            batch::coverage_behind(coverage),
            batch_size as int,
            batch::board_behind(schemata),
        ),
{
    let tree: &Schemata = match schemata {
        None => return batch::compose(testable, coverage, batch_size, None, &placed),
        Some(tree) => tree,
    };
    let ghost all = mutate::planted(testable@);
    let ghost wanted = is_hosted(tree@);
    let mut hosted: Vec<Mutant> = Vec::new();
    let mut spliced: Vec<Mutant> = Vec::new();
    assert(mutate::planted(hosted@) =~= picked(all.subrange(0, 0), wanted));
    assert(mutate::planted(spliced@) =~= picked(all.subrange(0, 0), unless(wanted)));
    let mut at: usize = 0;
    while at < testable.len()
        invariant
            at <= testable@.len(),
            placed.requires(()),
            all == mutate::planted(testable@),
            wanted == is_hosted(tree@),
            mutate::planted(hosted@) == picked(all.subrange(0, at as int), wanted),
            mutate::planted(spliced@) == picked(all.subrange(0, at as int), unless(wanted)),
        decreases testable@.len() - at,
    {
        assert(all.subrange(0, at + 1).drop_last() =~= all.subrange(0, at as int));
        assert(all.subrange(0, at + 1).last() == testable@[at as int]@);
        let mutant: Mutant = testable[at].clone();
        let ghost kept = mutate::planted(hosted@);
        let ghost turned = mutate::planted(spliced@);
        if tree.hosts(&mutant) {
            hosted.push(mutant);
            assert(mutate::planted(hosted@) =~= kept.push(mutant@));
        } else {
            spliced.push(mutant);
            assert(mutate::planted(spliced@) =~= turned.push(mutant@));
        }
        at += 1;
    }
    assert(all.subrange(0, at as int) =~= all);
    let mut batches: Vec<Batch> = batch::compose(hosted, coverage, batch_size, schemata, &placed);
    let ghost first = batch::groups(batches@);
    let mut rest: Vec<Batch> = batch::compose(spliced, coverage, batch_size, None, &placed);
    let ghost second = batch::groups(rest@);
    batches.append(&mut rest);
    assert(batch::groups(batches@) =~= first + second);
    batches
}

/// Splitting the hosted mutants off loses no mutant and repeats none, and every
/// batch keeps what batches keep.
pub proof fn law_every_testable_mutant_is_scheduled_once(
    mutants: Seq<Planted>,
    coverage: Option<Coverage>,
    batch_size: int,
    board: Option<Board>,
)
    requires
        coverage matches Some(coverage) ==> coverage.wf(),
    ensures
        batch::pooled(scheduled(mutants, coverage, batch_size, board)).to_multiset()
            == mutants.to_multiset(),
        forall|b: int|
            0 <= b < scheduled(mutants, coverage, batch_size, board).len() ==> batch::sound(
                #[trigger] scheduled(mutants, coverage, batch_size, board)[b],
                coverage,
                batch_size,
                None,
            ) || (board.is_some() && batch::sound(
                scheduled(mutants, coverage, batch_size, board)[b],
                coverage,
                batch_size,
                board,
            )),
{
    match board {
        None => {
            batch::law_every_mutant_is_placed_once(mutants, coverage, batch_size, None);
            batch::law_members_of_a_batch_are_apart(mutants, coverage, batch_size, None);
        },
        Some(tree) => {
            let hosted = picked(mutants, is_hosted(tree));
            let spliced = picked(mutants, unless(is_hosted(tree)));
            let first = batch::composed(hosted, coverage, batch_size, Some(tree));
            let second = batch::composed(spliced, coverage, batch_size, None);
            batch::law_every_mutant_is_placed_once(hosted, coverage, batch_size, Some(tree));
            batch::law_every_mutant_is_placed_once(spliced, coverage, batch_size, None);
            batch::law_members_of_a_batch_are_apart(hosted, coverage, batch_size, Some(tree));
            batch::law_members_of_a_batch_are_apart(spliced, coverage, batch_size, None);
            law_a_split_loses_nothing(mutants, is_hosted(tree));
            assert((|mutant: Planted| !is_hosted(tree)(mutant)) =~= unless(is_hosted(tree)));
            batch::lemma_pooled_concat(first, second);
            vstd::seq_lib::lemma_multiset_commutative(
                batch::pooled(first),
                batch::pooled(second),
            );
            let out = scheduled(mutants, coverage, batch_size, board);
            assert forall|b: int| 0 <= b < out.len() implies batch::sound(
                #[trigger] out[b],
                coverage,
                batch_size,
                None,
            ) || (board.is_some() && batch::sound(out[b], coverage, batch_size, board)) by {
                if b < first.len() {
                    assert(out[b] == first[b]);
                } else {
                    assert(out[b] == second[b - first.len()]);
                }
            }
        },
    }
}

/// What a run does about schemata.
#[derive(Clone, Copy, Debug, PartialEq, Eq, Structural)]
pub enum SchemataPlan {
    /// Nobody asked for them.
    Off,
    /// They were asked for and cannot be run honestly here.
    Refused,
    Build,
}

/// What a run does about schemata, and what it says.
///
/// Schemata mean a run re-imports nothing, which is the whole saving and also
/// the whole risk: nothing resets the process between mutants either. Only the
/// fork worker gives each mutant a process no other mutant has touched, and
/// `fork()` does not exist on Windows. Rather than leak state there, Windows
/// keeps splicing, which re-imports and is slower and correct.
pub fn plan_schemata(config: &Config, can_fork: bool, diagnostics: &mut Diagnostics) -> (plan:
    SchemataPlan)
    ensures
        plan == if !config.schemata {
            SchemataPlan::Off
        } else if !can_fork || !config.warm_workers {
            SchemataPlan::Refused
        } else {
            SchemataPlan::Build
        },
        final(diagnostics)@ == (Findings {
            problems: if plan is Refused {
                old(diagnostics)@.problems.push(
                    remark(
                        "schemata off: they need the fork worker, which needs warm_workers and a platform with fork(). Mutants are spliced into the files instead"@,
                    ),
                )
            } else {
                old(diagnostics)@.problems
            },
            facts: old(diagnostics)@.facts,
        }),
{
    if !config.schemata {
        return SchemataPlan::Off;
    }
    if !can_fork || !config.warm_workers {
        diagnostics.note(
            text::owned(
                "schemata off: they need the fork worker, which needs warm_workers and a platform with fork(). Mutants are spliced into the files instead",
            ),
        );
        return SchemataPlan::Refused;
    }
    SchemataPlan::Build
}

/// What is compiled in, as a fact of the run.
pub open spec fn schemata_fact(hosted: nat, total: nat) -> (Seq<char>, Seq<char>) {
    (
        "schemata"@,
        text::decimal(hosted) + " of "@ + text::decimal(total)
            + " mutants compiled in, the rest spliced"@,
    )
}

/// Compiles every mutant it can into its file, and notes how many those were.
/// None when there are none.
pub fn build_schemata(sources: &[SourceFile], mutants: &[Mutant], diagnostics: &mut Diagnostics) -> (
schemata: Option<Schemata>)
    ensures
        ({
            let board = schemata::board(schemata::files(sources@), mutate::planted(mutants@));
            &&& schemata.is_some() == (board.hosted.len() != 0)
            &&& schemata matches Some(schemata) ==> schemata@ == board
            &&& final(diagnostics)@ == (Findings {
                problems: old(diagnostics)@.problems,
                facts: old(diagnostics)@.facts.push(
                    schemata_fact(board.hosted.len(), mutants@.len()),
                ),
            })
        }),
{
    let schemata: Schemata = Schemata::build(sources, mutants);
    let mut value: String = text::show_size(schemata.hosted_count());
    value.append(" of ");
    value.append(&text::show_size(mutants.len()));
    value.append(" mutants compiled in, the rest spliced");
    diagnostics.fact(text::owned("schemata"), value);
    if schemata.is_empty() {
        None
    } else {
        Some(schemata)
    }
}

/// How many workers a run starts: no more than there are batches, and at least
/// one.
pub fn worker_count(effective: usize, batches: usize) -> (count: usize)
    ensures
        count == if effective < batches {
            if effective == 0 {
                1
            } else {
                effective
            }
        } else if batches == 0 {
            1
        } else {
            batches
        },
{
    let fewer: usize = if effective < batches {
        effective
    } else {
        batches
    };
    if fewer == 0 {
        1
    } else {
        fewer
    }
}

/// What is said when the batches start.
pub fn fleet_line(batches: usize, workers: usize, selecting: bool) -> (line: String)
    ensures
        line@ == "running "@ + text::decimal(batches as nat) + " batches on "@ + text::decimal(
            workers as nat,
        ) + " workers"@ + (if selecting {
            ", covering tests only"@
        } else {
            ""@
        }),
{
    let mut line: String = text::owned("running ");
    line.append(&text::show_size(batches));
    line.append(" batches on ");
    line.append(&text::show_size(workers));
    line.append(" workers");
    line.append(
        if selecting {
            ", covering tests only"
        } else {
            ""
        },
    );
    line
}

/// How a baseline went.
pub open spec fn baseline_words(green: bool, took: Seq<char>) -> Seq<char> {
    (if green {
        "green"@
    } else {
        "RED"@
    }) + " in "@ + took + "s"@
}

/// The facts of a baseline. `took` is how many seconds it took, with one decimal
/// place.
pub fn baseline_facts(green: bool, took: &str, coverage: bool, diagnostics: &mut Diagnostics)
    ensures
        final(diagnostics)@ == (Findings {
            problems: old(diagnostics)@.problems,
            facts: old(diagnostics)@.facts.push(("baseline"@, baseline_words(green, took@))).push(
                ("per-test coverage"@, switch(coverage)),
            ),
        }),
{
    let mut value: String = text::owned(
        if green {
            "green"
        } else {
            "RED"
        },
    );
    value.append(" in ");
    value.append(took);
    value.append("s");
    diagnostics.fact(text::owned("baseline"), value);
    diagnostics.fact(text::owned("per-test coverage"), text::owned(on_or_off(coverage)));
}

/// What is said when the baseline is through. `budget` is how many seconds a run
/// of the whole suite may take, with one decimal place.
pub fn baseline_line(green: bool, took: &str, budget: &str) -> (line: String)
    ensures
        line@ == "baseline "@ + baseline_words(green, took@) + ", timeout "@ + budget@
            + "s for a whole-suite run, from its own tests for a selected one"@,
{
    let mut words: String = text::owned(
        if green {
            "green"
        } else {
            "RED"
        },
    );
    words.append(" in ");
    words.append(took);
    words.append("s");
    let mut line: String = text::owned("baseline ");
    line.append(&words);
    line.append(", timeout ");
    line.append(budget);
    line.append("s for a whole-suite run, from its own tests for a selected one");
    line
}

/// The facts of the runs.
pub fn run_facts(
    workers: usize,
    batch_size: usize,
    selecting: bool,
    warm_workers: bool,
    diagnostics: &mut Diagnostics,
)
    ensures
        final(diagnostics)@ == (Findings {
            problems: old(diagnostics)@.problems,
            facts: old(diagnostics)@.facts.push(
                ("workers"@, text::decimal(workers as nat)),
            ).push(("batch size"@, text::decimal(batch_size as nat))).push(
                ("test selection"@, switch(selecting)),
            ).push(("warm workers"@, switch(warm_workers))),
        }),
{
    diagnostics.fact(text::owned("workers"), text::show_size(workers));
    diagnostics.fact(text::owned("batch size"), text::show_size(batch_size));
    diagnostics.fact(text::owned("test selection"), text::owned(on_or_off(selecting)));
    diagnostics.fact(text::owned("warm workers"), text::owned(on_or_off(warm_workers)));
}

/// A list of texts in brackets, each in quotes.
pub open spec fn bracketed(list: Seq<Seq<char>>) -> Seq<char> {
    "["@ + text::joined(list.map_values(|s: Seq<char>| text::debug_form(s)), ", "@) + "]"@
}

fn show_list(list: &[String]) -> (out: String)
    ensures
        out@ == bracketed(text::texts(list@)),
{
    let mut shown: Vec<String> = Vec::new();
    while shown.len() < list.len()
        invariant
            shown@.len() <= list@.len(),
            forall|k: int|
                0 <= k < shown@.len() ==> #[trigger] shown@[k]@ == text::debug_form(list@[k]@),
        decreases list@.len() - shown@.len(),
    {
        shown.push(text::debug(list[shown.len()].as_str()));
    }
    assert(text::texts(shown@) =~= text::texts(list@).map_values(
        |s: Seq<char>| text::debug_form(s),
    ));
    let mut out: String = text::owned("[");
    out.append(&text::join(&shown, ", "));
    out.append("]");
    out
}

/// Why a search that found nothing stops the run, if it did: the key that is to
/// blame is named.
pub fn nothing_to_mutate(sources: &Sources, config: &Config) -> (why: Option<String>)
    ensures
        why.is_some() == (sources.files@.len() == 0),
        why matches Some(why) ==> why@ == if sources.excludes@.excluded > 0 {
            "every Python file under paths "@ + bracketed(text::texts(config.paths@))
                + " was excluded by "@ + bracketed(text::texts(config.exclude@))
                + ", check angelo.conf"@
        } else {
            "no Python files found under paths "@ + bracketed(text::texts(config.paths@))
                + ", check angelo.conf"@
        },
{
    if sources.excluded_everything() {
        let mut why: String = text::owned("every Python file under paths ");
        why.append(&show_list(&config.paths));
        why.append(" was excluded by ");
        why.append(&show_list(&config.exclude));
        why.append(", check angelo.conf");
        return Some(why);
    }
    if sources.files.len() == 0 {
        let mut why: String = text::owned("no Python files found under paths ");
        why.append(&show_list(&config.paths));
        why.append(", check angelo.conf");
        return Some(why);
    }
    None
}

/// The mutants of these files, one file after the other, and what the operators
/// counted; or why they could not all be read.
pub open spec fn pool(
    files: Seq<(Seq<char>, Seq<char>)>,
    choice: Choice,
    sums: Seq<(Seq<char>, Seq<char>)>,
) -> Result<(Seq<Planted>, Choice), Seq<char>>
    decreases files.len(),
{
    if files.len() == 0 {
        Ok((Seq::empty(), choice))
    } else {
        match pool(files.drop_last(), choice, sums) {
            Err(why) => Err(why),
            Ok((before, choice)) => {
                let (file, source) = files.last();
                if text::width(source) > u32::MAX {
                    Err("parsing "@ + file + ": the file is too long"@)
                } else {
                    match syntax::parsed(source) {
                        Ok(outline) => {
                            let crop = operators::enumerated(
                                outline,
                                source,
                                file,
                                choice.families,
                                choice.arid_names,
                                sums,
                            );
                            Ok((before + crop.mutants, choice.after(crop)))
                        },
                        Err(message) => Err("parsing "@ + file + ": "@ + message),
                    }
                }
            },
        }
    }
}

proof fn lemma_pool_stays_failed(
    files: Seq<(Seq<char>, Seq<char>)>,
    choice: Choice,
    sums: Seq<(Seq<char>, Seq<char>)>,
    upto: int,
)
    requires
        0 <= upto <= files.len(),
        pool(files.subrange(0, upto), choice, sums) is Err,
    ensures
        pool(files, choice, sums) == pool(files.subrange(0, upto), choice, sums),
    decreases files.len() - upto,
{
    if upto < files.len() {
        assert(files.subrange(0, upto + 1).drop_last() =~= files.subrange(0, upto));
        lemma_pool_stays_failed(files, choice, sums, upto + 1);
    } else {
        assert(files.subrange(0, upto) =~= files);
    }
}

fn cannot_parse(file: &str, message: &str) -> (why: String)
    ensures
        why@ == "parsing "@ + file@ + ": "@ + message@,
{
    let mut why: String = text::owned("parsing ");
    why.append(file);
    why.append(": ");
    why.append(message);
    why
}

/// The mutants of these files, one file after the other. A file that does not
/// parse stops the run.
pub fn enumerate(files: &[SourceFile], operators: &mut Operators, sums: &Sums) -> (mutants: Result<
    Vec<Mutant>,
    String,
>)
    ensures
        match pool(schemata::files(files@), old(operators)@, sums.entries()) {
            Ok((found, choice)) => mutants matches Ok(list) && mutate::planted(list@) == found
                && final(operators)@ == choice,
            Err(why) => mutants matches Err(said) && said@ == why,
        },
{
    let ghost all = schemata::files(files@);
    let ghost start = operators@;
    let ghost known = sums.entries();
    let mut mutants: Vec<Mutant> = Vec::new();
    assert(mutate::planted(mutants@) =~= Seq::<Planted>::empty());
    assert(all.subrange(0, 0) =~= Seq::<(Seq<char>, Seq<char>)>::empty());
    let mut at: usize = 0;
    while at < files.len()
        invariant
            at <= files@.len(),
            all == schemata::files(files@),
            known == sums.entries(),
            start == old(operators)@,
            pool(all.subrange(0, at as int), start, known) == Ok::<(Seq<Planted>, Choice), Seq<char>>(
                (mutate::planted(mutants@), operators@),
            ),
        decreases files@.len() - at,
    {
        let file: &SourceFile = &files[at];
        assert(all.subrange(0, at + 1).drop_last() =~= all.subrange(0, at as int));
        assert(all.subrange(0, at + 1).last() == (file.file@, file.source@));
        let ghost before = mutate::planted(mutants@);
        if text::byte_len(file.source.as_str()) as u64 > 0xffff_ffff {
            proof {
                assert("parsing "@ + file.file@ + ": "@ + "the file is too long"@ =~= "parsing "@
                    + file.file@ + ": the file is too long"@) by {
                    reveal_strlit(": ");
                    reveal_strlit("the file is too long");
                    reveal_strlit(": the file is too long");
                }
                lemma_pool_stays_failed(all, start, known, at + 1);
            }
            return Err(cannot_parse(file.file.as_str(), "the file is too long"));
        }
        match operators.enumerate_source(file.source.as_str(), file.file.as_str(), sums) {
            Ok(found) => {
                let ghost fresh = mutate::planted(found@);
                let mut found: Vec<Mutant> = found;
                mutants.append(&mut found);
                assert(mutate::planted(mutants@) =~= before + fresh);
            },
            Err(message) => {
                proof {
                    lemma_pool_stays_failed(all, start, known, at + 1);
                }
                return Err(cannot_parse(file.file.as_str(), message.as_str()));
            },
        }
        at += 1;
    }
    assert(all.subrange(0, at as int) =~= all);
    Ok(mutants)
}

/// What is said of a finished enumeration.
pub fn enumerated_line(mutants: usize, sources: &Sources, operators: &Operators) -> (line: String)
    ensures
        line@ == "enumerated "@ + text::decimal(mutants as nat) + " mutants across "@
            + text::decimal(sources.files@.len()) + " files"@ + crate::config::note_on(
            sources.excludes@.excluded,
        ) + operators@.note(),
{
    let mut line: String = text::owned("enumerated ");
    line.append(&text::show_size(mutants));
    line.append(" mutants across ");
    line.append(&text::show_size(sources.files.len()));
    line.append(" files");
    line.append(&sources.exclusion_note());
    line.append(&operators.note());
    line
}

/// The warnings about patterns that matched nothing.
pub open spec fn unused_warnings(patterns: Seq<Seq<char>>) -> Seq<Trouble> {
    patterns.map_values(
        |pattern: Seq<char>|
            warning("exclude pattern "@ + text::debug_form(pattern) + " matched nothing"@),
    )
}

/// Warns about every pattern that matched nothing.
pub fn warn_about_unused(sources: &Sources, diagnostics: &mut Diagnostics)
    ensures
        final(diagnostics)@ == (Findings {
            problems: old(diagnostics)@.problems + unused_warnings(sources.excludes@.unused()),
            facts: old(diagnostics)@.facts,
        }),
{
    let patterns: Vec<String> = sources.unused_patterns();
    let ghost all = unused_warnings(sources.excludes@.unused());
    let ghost start = diagnostics@;
    assert(all.len() == patterns@.len());
    assert(start.problems + all.subrange(0, 0) =~= start.problems);
    let mut at: usize = 0;
    while at < patterns.len()
        invariant
            at <= patterns@.len(),
            all == unused_warnings(text::texts(patterns@)),
            diagnostics@.problems == start.problems + all.subrange(0, at as int),
            diagnostics@.facts == start.facts,
        decreases patterns@.len() - at,
    {
        let mut message: String = text::owned("exclude pattern ");
        message.append(&text::debug(patterns[at].as_str()));
        message.append(" matched nothing");
        assert(all[at as int] == warning(message@));
        diagnostics.warn(message);
        assert(diagnostics@.problems =~= start.problems + all.subrange(0, at + 1));
        at += 1;
    }
    assert(all.subrange(0, at as int) =~= all);
}

/// What is said of a pool that a change was held against.
pub open spec fn scope_note(range: Seq<char>, kept: nat, before: nat) -> Seq<char> {
    "diff vs "@ + range + ": "@ + text::decimal(kept) + " of "@ + text::decimal(before)
        + " mutants sit on changed lines, "@ + text::decimal((before - kept) as nat) + " dropped"@
}

/// Keeps the mutants on lines that a change touched, and says how many those
/// were.
pub fn narrow(
    mutants: Vec<Mutant>,
    changed: &ChangedLines,
    range: &str,
    diagnostics: &mut Diagnostics,
) -> (kept: Vec<Mutant>)
    ensures
        mutate::planted(kept@) == diff::touched(changed@, mutate::planted(mutants@)),
        final(diagnostics)@ == (Findings {
            problems: old(diagnostics)@.problems.push(
                remark(scope_note(range@, kept@.len(), mutants@.len())),
            ),
            facts: old(diagnostics)@.facts,
        }),
{
    let before: usize = mutants.len();
    let ghost all = mutate::planted(mutants@);
    let kept: Vec<Mutant> = changed.filter(mutants);
    proof {
        lemma_touched_is_shorter(changed@, all);
        assert(mutate::planted(kept@).len() == kept@.len());
    }
    let mut note: String = text::owned("diff vs ");
    note.append(range);
    note.append(": ");
    note.append(&text::show_size(kept.len()));
    note.append(" of ");
    note.append(&text::show_size(before));
    note.append(" mutants sit on changed lines, ");
    note.append(&text::show_size(before - kept.len()));
    note.append(" dropped");
    diagnostics.note(note);
    kept
}

proof fn lemma_touched_is_shorter(hunks: Seq<diff::Added>, mutants: Seq<Planted>)
    ensures
        diff::touched(hunks, mutants).len() <= mutants.len(),
    decreases mutants.len(),
{
    if mutants.len() > 0 {
        lemma_touched_is_shorter(hunks, mutants.drop_last());
    }
}

/// How a run ends.
pub enum Ending {
    /// No mutant was in scope, and there is nothing for a threshold to judge.
    NothingInScope,
    Passed,
    Failed(String),
}

/// The end of a run. An empty pool is not a pass: a docs-only branch lands there,
/// and a score over nothing would read as one. It is not a failure either.
///
/// `asked` says whether there is a threshold, `cleared` whether the score is at
/// least that much, and `shown` how the two read.
pub fn ending(counts: &[(String, i64)], asked: bool, cleared: bool, shown: &Shown) -> (end: Ending)
    requires
        report::can_be_summed(report::tallies(counts@)),
    ensures
        end is NothingInScope <==> counts@.len() == 0,
        counts@.len() > 0 ==> match report::judged(
            report::summed(report::tallies(counts@)),
            asked,
            cleared,
        ).complaint(*shown) {
            None => end is Passed,
            Some(line) => end matches Ending::Failed(said) && said@ == line,
        },
{
    if counts.len() == 0 {
        return Ending::NothingInScope;
    }
    let summary: Summary = Summary::of(counts);
    match summary.gate(asked, cleared).failure(shown) {
        None => Ending::Passed,
        Some(line) => Ending::Failed(line),
    }
}

/// Picking keeps the order and everything that is wanted, and nothing else.
pub proof fn law_picking_keeps_what_is_wanted(
    mutants: Seq<Planted>,
    wanted: spec_fn(Planted) -> bool,
)
    ensures
        picked(mutants, wanted) == mutants.filter(wanted),
        picked(mutants, unless(wanted)) == mutants.filter(|mutant: Planted| !wanted(mutant)),
    decreases mutants.len(),
{
    reveal(Seq::filter);
    let others = |mutant: Planted| !wanted(mutant);
    if mutants.len() > 0 {
        law_picking_keeps_what_is_wanted(mutants.drop_last(), wanted);
    } else {
        assert(picked(mutants, wanted) =~= mutants.filter(wanted));
        assert(picked(mutants, unless(wanted)) =~= mutants.filter(others));
    }
}

/// A mutant needs a run unless nothing executes its line: no test does, and no
/// import does either. Without coverage every mutant needs one.
pub proof fn law_only_what_nothing_executes_needs_no_run(
    coverage: Coverage,
    mutant: Planted,
)
    ensures
        needs_a_run(None)(mutant),
        needs_a_run(Some(coverage))(mutant) <==> coverage.covering(
            mutate::forward_slashed(mutant.file),
            mutant.line as u32,
        ).len() > 0 || coverage.at_import(
            mutate::forward_slashed(mutant.file),
            mutant.line as u32,
        ),
{
}

/// Under a red suite a mutant is tried exactly when its tests can be named and
/// none of the tests that were failing runs it.
pub proof fn law_a_trial_is_fair_when_no_red_test_runs_it(
    coverage: Coverage,
    mutant: Planted,
    failing: Seq<Seq<char>>,
)
    ensures
        is_fair(coverage, failing)(mutant) <==> coverage.selection(seq![mutant]).test_ids.len() > 0
            && forall|k: int, id: i64|
            0 <= k < failing.len() && coverage.context(
                crate::coverage::normalized(#[trigger] failing[k]),
            ) == Some(id) ==> !#[trigger] coverage.tests_of(mutant).contains(id),
{
    let fair = is_fair(coverage, failing)(mutant);
    if fair {
        assert forall|k: int, id: i64|
            0 <= k < failing.len() && coverage.context(
                crate::coverage::normalized(#[trigger] failing[k]),
            ) == Some(id) implies !#[trigger] coverage.tests_of(mutant).contains(id) by {
            assert(!coverage.hits(failing[k], mutant));
        }
    }
    if coverage.selection(seq![mutant]).test_ids.len() > 0 && forall|k: int, id: i64|
        0 <= k < failing.len() && coverage.context(
            crate::coverage::normalized(#[trigger] failing[k]),
        ) == Some(id) ==> !#[trigger] coverage.tests_of(mutant).contains(id) {
        assert forall|k: int| 0 <= k < failing.len() implies !coverage.hits(
            #[trigger] failing[k],
            mutant,
        ) by {
            if coverage.hits(failing[k], mutant) {
                let id = coverage.context(crate::coverage::normalized(failing[k])).unwrap();
                assert(coverage.tests_of(mutant).contains(id));
            }
        }
    }
}

/// The steps of a run: an empty store is filled and sampled, and a filled one is
/// gone on with. What is pending gets a baseline; what no test runs survives
/// unrun; what only red tests run is set aside; and the rest is run in batches.
pub proof fn law_a_run_takes_its_steps_in_order(
    stored: i64,
    pending: usize,
    testable: usize,
    untested: usize,
    untestable: usize,
    failing: usize,
    coverage: bool,
    init_only: bool,
)
    ensures
        following(Event::Counted(0), init_only) == Ok::<Action, Seq<char>>(Action::Enumerate),
        stored != 0 ==> following(Event::Counted(stored), init_only) == Ok::<Action, Seq<char>>(
            Action::ListPending,
        ),
        following(Event::Enumerated, init_only) == Ok::<Action, Seq<char>>(Action::Sample),
        following(Event::Sampled { keep: pending, total: stored, dropped: untested }, init_only)
            == Ok::<Action, Seq<char>>(Action::ListPending),
        following(Event::Listed(pending), true) == Ok::<Action, Seq<char>>(
            Action::StopBeforeRunning,
        ),
        pending > 0 ==> following(Event::Listed(pending), false) == Ok::<Action, Seq<char>>(
            Action::RunBaseline,
        ),
        following(Event::Listed(0), false) == Ok::<Action, Seq<char>>(Action::Summarise),
        following(Event::Measured { coverage }, init_only) == Ok::<Action, Seq<char>>(
            Action::SplitUntested,
        ),
        untested > 0 && (testable > 0 || !coverage) ==> following(
            Event::Untested { coverage, testable, untested },
            init_only,
        ) == Ok::<Action, Seq<char>>(Action::MarkSurvived),
        following(Event::Untested { coverage, testable, untested: 0 }, init_only) == Ok::<
            Action,
            Seq<char>,
        >(Action::SplitUntestable),
        following(Event::MarkedSurvived, init_only) == Ok::<Action, Seq<char>>(
            Action::SplitUntestable,
        ),
        untestable > 0 ==> following(
            Event::Untestable { already_failing: failing, testable, untestable },
            init_only,
        ) == Ok::<Action, Seq<char>>(Action::MarkUntestable),
        following(
            Event::Untestable { already_failing: failing, testable, untestable: 0 },
            init_only,
        ) == following(Event::MarkedUntestable { testable }, init_only),
        testable > 0 ==> following(Event::MarkedUntestable { testable }, init_only) == Ok::<
            Action,
            Seq<char>,
        >(Action::RunBatches),
        following(Event::MarkedUntestable { testable: 0 }, init_only) == Ok::<Action, Seq<char>>(
            Action::Summarise,
        ),
        following(Event::Ran, init_only) == Ok::<Action, Seq<char>>(Action::Summarise),
{
}

/// The flag beats the configuration, and an empty path in the configuration
/// turns a report off.
pub proof fn law_the_flag_beats_the_configured_path(flag: String, configured: Seq<char>)
    ensures
        destination(Some(flag), configured) == Some(flag@),
        configured.len() > 0 ==> destination(None, configured) == Some(configured),
        destination(None, Seq::empty()).is_none(),
{
}

/// What casts doubt on a score is a warning: a sample, a run without coverage, a
/// suite that was red before, mutants that could not be tested. Each is said
/// exactly when it is so.
pub proof fn law_doubt_about_a_score_is_a_warning(
    keep: usize,
    total: i64,
    dropped: usize,
    coverage: bool,
    failing: usize,
    testable: usize,
    untestable: usize,
)
    ensures
        ({
            let said = remarks(Event::Sampled { keep, total, dropped });
            &&& said.len() == (if keep > 0 && dropped > 0 {
                1int
            } else {
                0
            })
            &&& said.len() > 0 ==> said[0].level is Warn && text::occurs(
                said[0].message,
                "ESTIMATE"@,
            )
        }),
        ({
            let said = remarks(Event::Measured { coverage });
            &&& said.len() == (if coverage {
                0int
            } else {
                1
            })
            &&& said.len() > 0 ==> said[0].level is Warn
        }),
        ({
            let said = remarks(
                Event::Untestable { already_failing: failing, testable, untestable },
            );
            &&& said.len() == (if failing > 0 {
                1int
            } else {
                0
            }) + (if untestable > 0 {
                1int
            } else {
                0
            })
            &&& forall|k: int| 0 <= k < said.len() ==> (#[trigger] said[k]).level is Warn
            &&& failing > 0 ==> text::begins(said[0].message, text::decimal(failing as nat))
            &&& untestable > 0 ==> text::begins(
                said.last().message,
                text::decimal(untestable as nat),
            )
        }),
{
    let head = "sampled "@ + text::decimal(keep as nat) + " of "@ + text::signed(total as int)
        + " mutants, "@ + text::decimal(dropped as nat);
    let tail =
        " dropped at random, so the score is an ESTIMATE over a random sample, not a full census"@;
    reveal_strlit(
        " dropped at random, so the score is an ESTIMATE over a random sample, not a full census",
    );
    reveal_strlit("ESTIMATE");
    assert(tail.subrange(39, 47) =~= "ESTIMATE"@);
    assert(text::occurs_at(tail, "ESTIMATE"@, 39));
    assert(text::occurs(tail, "ESTIMATE"@));
    text::lemma_occurs_within(head, tail, Seq::empty(), "ESTIMATE"@);
    assert(head + tail + Seq::<char>::empty() =~= head + tail);
    let said = remarks(Event::Untestable { already_failing: failing, testable, untestable });
    if failing > 0 {
        let number = text::decimal(failing as nat);
        assert(said[0].message.subrange(0, number.len() as int) =~= number);
    }
    if untestable > 0 {
        let number = text::decimal(untestable as nat);
        assert(said.last().message.subrange(0, number.len() as int) =~= number);
    }
}

proof fn lemma_in_pool(batches: Seq<Group>, b: int, i: int)
    requires
        0 <= b < batches.len(),
        0 <= i < batches[b].mutants.len(),
    ensures
        batch::pooled(batches).contains(batches[b].mutants[i]),
    decreases batches.len(),
{
    let last = batches.last().mutants;
    let before = batch::pooled(batches.drop_last());
    let all = batch::pooled(batches);
    if b == batches.len() - 1 {
        assert(all[before.len() + i] == last[i]);
    } else {
        assert(batches.drop_last()[b] == batches[b]);
        lemma_in_pool(batches.drop_last(), b, i);
        let k = choose|k: int| 0 <= k < before.len() && before[k] == batches[b].mutants[i];
        assert(all[k] == before[k]);
    }
}

proof fn lemma_batched_from(
    mutants: Seq<Planted>,
    wanted: spec_fn(Planted) -> bool,
    coverage: Option<Coverage>,
    batch_size: int,
    board: Option<Board>,
    b: int,
    i: int,
)
    requires
        0 <= b < batch::composed(picked(mutants, wanted), coverage, batch_size, board).len(),
        0 <= i < batch::composed(
            picked(mutants, wanted),
            coverage,
            batch_size,
            board,
        )[b].mutants.len(),
    ensures
        wanted(batch::composed(picked(mutants, wanted), coverage, batch_size, board)[b].mutants[i]),
{
    broadcast use vstd::seq_lib::group_to_multiset_ensures;

    let pool = picked(mutants, wanted);
    let batches = batch::composed(pool, coverage, batch_size, board);
    let mutant = batches[b].mutants[i];
    lemma_in_pool(batches, b, i);
    batch::law_every_mutant_is_placed_once(pool, coverage, batch_size, board);
    assert(batch::pooled(batches).to_multiset().count(mutant) > 0);
    assert(pool.to_multiset().count(mutant) > 0);
    assert(pool.contains(mutant));
    lemma_picked_is_wanted(mutants, wanted, mutant);
}

proof fn lemma_picked_is_wanted(
    mutants: Seq<Planted>,
    wanted: spec_fn(Planted) -> bool,
    mutant: Planted,
)
    requires
        picked(mutants, wanted).contains(mutant),
    ensures
        wanted(mutant),
    decreases mutants.len(),
{
    if mutants.len() > 0 {
        let now = picked(mutants, wanted);
        let k = choose|k: int| 0 <= k < now.len() && now[k] == mutant;
        let before = picked(mutants.drop_last(), wanted);
        if k < before.len() {
            assert(before[k] == mutant);
            lemma_picked_is_wanted(mutants.drop_last(), wanted, mutant);
        }
    }
}

/// No batch mixes mutants that are compiled in with mutants that are not, and
/// the batches of the first kind come before those of the second.
pub proof fn law_hosted_batches_come_first(
    mutants: Seq<Planted>,
    coverage: Option<Coverage>,
    batch_size: int,
    board: Board,
) -> (first: int)
    ensures
        0 <= first <= scheduled(mutants, coverage, batch_size, Some(board)).len(),
        forall|b: int, i: int|
            0 <= b < scheduled(mutants, coverage, batch_size, Some(board)).len() && 0 <= i
                < scheduled(mutants, coverage, batch_size, Some(board))[b].mutants.len() ==> (
            board.hosted.contains_key(
                (#[trigger] scheduled(mutants, coverage, batch_size, Some(board))[b].mutants[i]).id as i64,
            ) <==> b < first),
{
    let wanted = is_hosted(board);
    let fast = batch::composed(picked(mutants, wanted), coverage, batch_size, Some(board));
    let slow = batch::composed(picked(mutants, unless(wanted)), coverage, batch_size, None);
    let all = scheduled(mutants, coverage, batch_size, Some(board));
    assert forall|b: int, i: int|
        0 <= b < all.len() && 0 <= i < all[b].mutants.len() implies (board.hosted.contains_key(
        (#[trigger] all[b].mutants[i]).id as i64,
    ) <==> b < fast.len()) by {
        if b < fast.len() {
            assert(all[b] == fast[b]);
            lemma_batched_from(mutants, wanted, coverage, batch_size, Some(board), b, i);
        } else {
            assert(all[b] == slow[b - fast.len()]);
            lemma_batched_from(
                mutants,
                unless(wanted),
                coverage,
                batch_size,
                None,
                b - fast.len(),
                i,
            );
        }
    }
    fast.len() as int
}

/// The mutants of a file follow those of the files before it.
pub proof fn law_each_file_adds_its_mutants(
    files: Seq<(Seq<char>, Seq<char>)>,
    file: Seq<char>,
    source: Seq<char>,
    choice: Choice,
    sums: Seq<(Seq<char>, Seq<char>)>,
)
    requires
        pool(files, choice, sums) is Ok,
        text::width(source) <= u32::MAX,
        syntax::parsed(source) is Ok,
    ensures
        ({
            let (before, counted) = pool(files, choice, sums)->Ok_0;
            let crop = operators::enumerated(
                syntax::parsed(source)->Ok_0,
                source,
                file,
                counted.families,
                counted.arid_names,
                sums,
            );
            pool(files.push((file, source)), choice, sums) matches Ok(now) && now.0 == before
                + crop.mutants && now.1 == counted.after(crop)
        }),
{
    assert(files.push((file, source)).drop_last() =~= files);
}

/// A file that cannot be read stops the whole enumeration, and the reason names
/// the file.
pub proof fn law_a_file_that_cannot_be_parsed_stops_the_run(
    files: Seq<(Seq<char>, Seq<char>)>,
    file: Seq<char>,
    source: Seq<char>,
    choice: Choice,
    sums: Seq<(Seq<char>, Seq<char>)>,
)
    requires
        pool(files, choice, sums) is Ok,
        text::width(source) <= u32::MAX,
        syntax::parsed(source) is Err,
    ensures
        pool(files.push((file, source)), choice, sums) matches Err(why) && why == "parsing "@ + file
            + ": "@ + syntax::parsed(source)->Err_0,
{
    assert(files.push((file, source)).drop_last() =~= files);
}

/// There is always a worker, there are never more than batches to run, and
/// otherwise there are as many as were asked for.
pub proof fn law_workers_never_outnumber_the_batches(effective: usize, batches: usize, count: usize)
    requires
        call_ensures(worker_count, (effective, batches), count),
    ensures
        count >= 1,
        batches >= 1 ==> count <= batches,
        1 <= effective <= batches ==> count == effective,
        1 <= batches <= effective ==> count == batches,
{
}

/// How a run is said to start: its batches, its workers, and whether each runs
/// only the tests that cover it.
pub proof fn law_the_fleet_is_counted(
    batches: usize,
    workers: usize,
    selecting: bool,
    line: String,
)
    requires
        call_ensures(fleet_line, (batches, workers, selecting), line),
    ensures
        ({
            let head = "running "@ + text::decimal(batches as nat) + " batches on "@
                + text::decimal(workers as nat) + " workers"@;
            &&& !selecting ==> line@ == head
            &&& selecting ==> line@ == head + ", covering tests only"@
        }),
{
    reveal_strlit("");
    assert(""@ =~= Seq::<char>::empty());
    let head = "running "@ + text::decimal(batches as nat) + " batches on "@ + text::decimal(
        workers as nat,
    ) + " workers"@;
    assert(head + ""@ =~= head);
}

/// The facts and notes of a run hold its numbers: how many mutants are compiled
/// in out of how many, how a baseline went and for how long, and how many
/// mutants a change left in and dropped.
pub proof fn law_facts_hold_their_numbers(
    hosted: nat,
    total: nat,
    took: Seq<char>,
    range: Seq<char>,
)
    requires
        hosted <= total,
    ensures
        schemata_fact(hosted, total).1 == text::decimal(hosted) + " of "@ + text::decimal(total)
            + " mutants compiled in, the rest spliced"@,
        baseline_words(true, took) == "green"@ + " in "@ + took + "s"@,
        baseline_words(false, took) == "RED"@ + " in "@ + took + "s"@,
        scope_note(range, hosted, total) == "diff vs "@ + range + ": "@ + text::decimal(hosted)
            + " of "@ + text::decimal(total) + " mutants sit on changed lines, "@ + text::decimal(
            (total - hosted) as nat,
        ) + " dropped"@,
{
}

} // verus!

//! What a run tells its reader: the counts beside the bar, the summary at the
//! end, and whether a threshold was met.
//!
//! A score is a fraction, and how a fraction reads is decided outside: texts of
//! scores and thresholds come in as they are to be shown.

use vstd::prelude::*;

use crate::mutate::{Mutant, Planted, Status};
use crate::runner::BatchOutcome;
use crate::text;

verus! {

broadcast use vstd::seq_lib::group_seq_properties;

/// How a verdict reads on screen.
#[derive(Clone, Copy, Debug, PartialEq, Eq, Structural)]
pub enum Paint {
    Green,
    Yellow,
    Red,
    Dim,
    Bold,
}

impl Paint {
    /// The colour of a settled mutant.
    pub open spec fn colour(status: Status) -> Paint {
        match status {
            Status::Killed | Status::Timeout => Paint::Green,
            Status::Survived => Paint::Yellow,
            Status::Error => Paint::Red,
            Status::Untestable => Paint::Dim,
        }
    }

    /// The colour a settled mutant reads in. Detected is the good outcome, a
    /// survivor is the finding, an error is the one that invalidates a score,
    /// and an untestable mutant is a note rather than a result.
    pub fn of(status: Status) -> (paint: Paint)
        ensures
            paint == Paint::colour(status),
    {
        match status {
            Status::Killed | Status::Timeout => Paint::Green,
            Status::Survived => Paint::Yellow,
            Status::Error => Paint::Red,
            Status::Untestable => Paint::Dim,
        }
    }

    pub open spec fn escape(self) -> Seq<char> {
        match self {
            Paint::Green => "\x1b[32m"@,
            Paint::Yellow => "\x1b[33m"@,
            Paint::Red => "\x1b[31m"@,
            Paint::Dim => "\x1b[2m"@,
            Paint::Bold => "\x1b[1m"@,
        }
    }

    /// The escape code that turns a colour on.
    pub fn code(self) -> (code: &'static str)
        ensures
            code@ == self.escape(),
    {
        match self {
            Paint::Green => "\x1b[32m",
            Paint::Yellow => "\x1b[33m",
            Paint::Red => "\x1b[31m",
            Paint::Dim => "\x1b[2m",
            Paint::Bold => "\x1b[1m",
        }
    }

    pub open spec fn painted(self, s: Seq<char>, colour: bool) -> Seq<char> {
        if colour {
            self.escape() + s + "\x1b[0m"@
        } else {
            s
        }
    }

    /// The text in this colour, or exactly the text when colour is off.
    pub fn on(self, s: &str, colour: bool) -> (out: String)
        ensures
            out@ == self.painted(s@, colour),
    {
        if colour {
            let mut out: String = text::owned(self.code());
            out.append(s);
            out.append("\x1b[0m");
            out
        } else {
            text::owned(s)
        }
    }
}

/// Colour goes to a terminal and nowhere else: a redirected run has to stay
/// byte-for-byte what it was before colour existed.
pub fn colour_wanted(is_terminal: bool, no_color_set: bool) -> (yes: bool)
    ensures
        yes == (is_terminal && !no_color_set),
{
    is_terminal && !no_color_set
}

/// A number of at least two digits.
pub open spec fn two_digits(n: nat) -> Seq<char> {
    if n < 10 {
        "0"@ + text::decimal(n)
    } else {
        text::decimal(n)
    }
}

/// `2h05m`, `4m18s`, `43s`.
pub open spec fn compacted(seconds: nat) -> Seq<char> {
    let hours = seconds / 3600;
    let minutes = (seconds % 3600) / 60;
    if hours == 0 && minutes == 0 {
        text::decimal(seconds % 60) + "s"@
    } else if hours == 0 {
        text::decimal(minutes) + "m"@ + two_digits(seconds % 60) + "s"@
    } else {
        text::decimal(hours) + "h"@ + two_digits(minutes) + "m"@
    }
}

fn show_two_digits(n: u64) -> (s: String)
    ensures
        s@ == two_digits(n as nat),
{
    if n < 10 {
        let mut s: String = text::owned("0");
        s.append(&text::show(n));
        s
    } else {
        text::show(n)
    }
}

/// A number of seconds as `2h05m`, `4m18s` or `43s`.
pub fn compact(seconds: u64) -> (s: String)
    ensures
        s@ == compacted(seconds as nat),
{
    let hours: u64 = seconds / 3600;
    let minutes: u64 = (seconds % 3600) / 60;
    let rest: u64 = seconds % 60;
    if hours == 0 && minutes == 0 {
        let mut s: String = text::show(rest);
        s.append("s");
        s
    } else if hours == 0 {
        let mut s: String = text::show(minutes);
        s.append("m");
        s.append(&show_two_digits(rest));
        s.append("s");
        s
    } else {
        let mut s: String = text::show(hours);
        s.append("h");
        s.append(&show_two_digits(minutes));
        s.append("m");
        s
    }
}

/// How long the rest takes at the rate so far, in whole seconds, or None when
/// nothing is done yet or nothing is left. What lasts too long to say counts as
/// no time at all.
pub open spec fn left_over(done: nat, total: nat, elapsed_nanos: nat) -> Option<nat> {
    if done == 0 || done >= total {
        None
    } else {
        let nanos = (elapsed_nanos * ((total - done) as nat) + done / 2) / done;
        let seconds = nanos / 1_000_000_000;
        Some(
            if seconds > u64::MAX {
                0
            } else {
                seconds
            },
        )
    }
}

/// A linear extrapolation as it is shown.
pub open spec fn estimate(done: nat, total: nat, elapsed_nanos: nat) -> Seq<char> {
    match left_over(done, total, elapsed_nanos) {
        Some(seconds) => compacted(seconds),
        None => "--"@,
    }
}

/// A linear extrapolation, which is all it can honestly be: batching settles
/// mutants in clumps and a red batch bisects into four more runs, so the rate
/// is lumpy by design.
pub fn remaining(done: usize, total: usize, elapsed_nanos: u64) -> (s: String)
    ensures
        s@ == estimate(done as nat, total as nat, elapsed_nanos as nat),
{
    if done == 0 || done >= total {
        return text::owned("--");
    }
    let left: usize = total - done;
    assert(elapsed_nanos as int * left as int <= 0xffff_ffff_ffff_ffff * 0xffff_ffff_ffff_ffff)
        by (nonlinear_arith)
        requires
            0 <= elapsed_nanos <= 0xffff_ffff_ffff_ffff,
            0 <= left <= 0xffff_ffff_ffff_ffff,
    ;
    let product: u128 = elapsed_nanos as u128 * left as u128;
    let nanos: u128 = (product + (done / 2) as u128) / done as u128;
    let seconds: u128 = nanos / 1_000_000_000;
    if seconds > 0xffff_ffff_ffff_ffff {
        compact(0)
    } else {
        compact(seconds as u64)
    }
}

/// The counts that ride alongside the bar.
pub fn counts_message(
    done: usize,
    total: usize,
    detected: usize,
    survived: usize,
    elapsed_nanos: u64,
) -> (message: String)
    ensures
        message@ == "detected "@ + text::decimal(detected as nat) + "  survived "@ + text::decimal(
            survived as nat,
        ) + "  ~"@ + estimate(done as nat, total as nat, elapsed_nanos as nat) + " left"@,
{
    let mut message: String = text::owned("detected ");
    message.append(&text::show_size(detected));
    message.append("  survived ");
    message.append(&text::show_size(survived));
    message.append("  ~");
    message.append(&remaining(done, total, elapsed_nanos));
    message.append(" left");
    message
}

/// How loud something is said.
#[derive(Clone, Copy, Debug, PartialEq, Eq, Structural)]
pub enum Level {
    Warn,
    Info,
}

/// One thing the run has to tell the reader.
pub struct Problem {
    pub level: Level,
    pub message: String,
}

/// A problem as plain values.
#[verifier::ext_equal]
pub struct Trouble {
    pub level: Level,
    pub message: Seq<char>,
}

impl View for Problem {
    type V = Trouble;

    open spec fn view(&self) -> Trouble {
        Trouble { level: self.level, message: self.message@ }
    }
}

/// Problems as plain values.
pub open spec fn troubles(list: Seq<Problem>) -> Seq<Trouble> {
    list.map_values(|problem: Problem| problem@)
}

/// Pairs of texts as plain values.
pub open spec fn pairs(list: Seq<(String, String)>) -> Seq<(Seq<char>, Seq<char>)> {
    list.map_values(|pair: (String, String)| (pair.0@, pair.1@))
}

/// What the run has to tell the reader, gathered as it happens.
///
/// Collected once and rendered twice: on stderr while the run goes, and in the
/// HTML report afterwards. A problem that only ever reached a terminal is a
/// problem nobody can attach to a pull request.
pub struct Diagnostics {
    problems: Vec<Problem>,
    facts: Vec<(String, String)>,
}

/// Diagnostics as plain values.
#[verifier::ext_equal]
pub struct Findings {
    pub problems: Seq<Trouble>,
    pub facts: Seq<(Seq<char>, Seq<char>)>,
}

impl View for Diagnostics {
    type V = Findings;

    closed spec fn view(&self) -> Findings {
        Findings { problems: troubles(self.problems@), facts: pairs(self.facts@) }
    }
}

impl Default for Diagnostics {
    fn default() -> (diagnostics: Diagnostics)
        ensures
            diagnostics@ == (Findings { problems: Seq::empty(), facts: Seq::empty() }),
    {
        let diagnostics: Diagnostics = Diagnostics { problems: Vec::new(), facts: Vec::new() };
        assert(diagnostics@ =~= Findings { problems: Seq::empty(), facts: Seq::empty() });
        diagnostics
    }
}

impl Diagnostics {
    /// Something that casts doubt on the score.
    pub fn warn(&mut self, message: String)
        ensures
            final(self)@ == (Findings {
                problems: old(self)@.problems.push(
                    Trouble { level: Level::Warn, message: message@ },
                ),
                facts: old(self)@.facts,
            }),
    {
        let ghost before = self@.problems;
        let problem: Problem = Problem { level: Level::Warn, message };
        self.problems.push(problem);
        assert(troubles(self.problems@) =~= before.push(problem@));
    }

    /// Something the reader needs in order to read the score correctly, which
    /// is not the same as something being wrong.
    pub fn note(&mut self, message: String)
        ensures
            final(self)@ == (Findings {
                problems: old(self)@.problems.push(
                    Trouble { level: Level::Info, message: message@ },
                ),
                facts: old(self)@.facts,
            }),
    {
        let ghost before = self@.problems;
        let problem: Problem = Problem { level: Level::Info, message };
        self.problems.push(problem);
        assert(troubles(self.problems@) =~= before.push(problem@));
    }

    /// A run fact: a report you cannot reproduce is decoration.
    pub fn fact(&mut self, name: String, value: String)
        ensures
            final(self)@ == (Findings {
                problems: old(self)@.problems,
                facts: old(self)@.facts.push((name@, value@)),
            }),
    {
        let ghost before = self@.facts;
        self.facts.push((name, value));
        assert(pairs(self.facts@) =~= before.push((name@, value@)));
    }

    pub fn problems(&self) -> (list: &[Problem])
        ensures
            troubles(list@) == self@.problems,
    {
        self.problems.as_slice()
    }

    pub fn facts(&self) -> (list: &[(String, String)])
        ensures
            pairs(list@) == self@.facts,
    {
        self.facts.as_slice()
    }
}

/// Where a status is counted.
pub enum Column {
    Detected,
    Survived,
    Error,
    Untestable,
    Pending,
}

/// The column of a status, by its name. What is no status is still pending.
pub open spec fn column(status: Seq<char>) -> Column {
    match Status::named(status) {
        Some(status) => match status {
            Status::Killed | Status::Timeout => Column::Detected,
            Status::Survived => Column::Survived,
            Status::Error => Column::Error,
            Status::Untestable => Column::Untestable,
        },
        None => Column::Pending,
    }
}

/// Counts as plain values.
pub open spec fn tallies(counts: Seq<(String, i64)>) -> Seq<(Seq<char>, int)> {
    counts.map_values(|count: (String, i64)| (count.0@, count.1 as int))
}

/// The total of one column.
pub open spec fn total_of(counts: Seq<(Seq<char>, int)>, wanted: Column) -> int
    decreases counts.len(),
{
    if counts.len() == 0 {
        0
    } else {
        total_of(counts.drop_last(), wanted) + if column(counts.last().0) == wanted {
            counts.last().1
        } else {
            0
        }
    }
}

/// The total of everything.
pub open spec fn grand_total(counts: Seq<(Seq<char>, int)>) -> int
    decreases counts.len(),
{
    if counts.len() == 0 {
        0
    } else {
        grand_total(counts.drop_last()) + counts.last().1
    }
}

/// Whether a sum can be held.
pub open spec fn holds(sum: int) -> bool {
    i64::MIN <= sum <= i64::MAX
}

/// Whether the columns of these counts can be held, and the score with them.
pub open spec fn can_be_summed(counts: Seq<(Seq<char>, int)>) -> bool {
    &&& holds(total_of(counts, Column::Detected))
    &&& holds(total_of(counts, Column::Survived))
    &&& holds(total_of(counts, Column::Error))
    &&& holds(total_of(counts, Column::Untestable))
    &&& holds(total_of(counts, Column::Pending))
    &&& holds(total_of(counts, Column::Detected) + total_of(counts, Column::Survived))
}

/// How many mutants ended how.
pub struct Summary {
    detected: i64,
    survived: i64,
    error: i64,
    untestable: i64,
    pending: i64,
}

/// A summary as plain values.
pub struct Score {
    pub detected: int,
    pub survived: int,
    pub error: int,
    pub untestable: int,
    pub pending: int,
}

impl View for Summary {
    type V = Score;

    closed spec fn view(&self) -> Score {
        Score {
            detected: self.detected as int,
            survived: self.survived as int,
            error: self.error as int,
            untestable: self.untestable as int,
            pending: self.pending as int,
        }
    }
}

/// The summary of these counts.
pub open spec fn summed(counts: Seq<(Seq<char>, int)>) -> Score {
    Score {
        detected: total_of(counts, Column::Detected),
        survived: total_of(counts, Column::Survived),
        error: total_of(counts, Column::Error),
        untestable: total_of(counts, Column::Untestable),
        pending: total_of(counts, Column::Pending),
    }
}

proof fn lemma_total_is_bounded(counts: Seq<(Seq<char>, int)>, wanted: Column)
    requires
        forall|k: int| 0 <= k < counts.len() ==> holds((#[trigger] counts[k]).1),
    ensures
        -(counts.len() * 0x8000_0000_0000_0000) <= total_of(counts, wanted) <= counts.len()
            * 0x8000_0000_0000_0000,
    decreases counts.len(),
{
    if counts.len() > 0 {
        assert forall|k: int| 0 <= k < counts.drop_last().len() implies holds(
            (#[trigger] counts.drop_last()[k]).1,
        ) by {
            assert(holds(counts[k].1));
        }
        lemma_total_is_bounded(counts.drop_last(), wanted);
        assert(holds(counts[counts.len() - 1].1));
    }
}

impl Summary {
    /// What every summary keeps: its score can be divided by.
    pub open spec fn wf(self) -> bool {
        holds(self@.detected + self@.survived)
    }

    pub fn of(counts: &[(String, i64)]) -> (summary: Summary)
        requires
            can_be_summed(tallies(counts@)),
        ensures
            summary@ == summed(tallies(counts@)),
            summary.wf(),
    {
        let ghost all = tallies(counts@);
        let mut detected: i128 = 0;
        let mut survived: i128 = 0;
        let mut error: i128 = 0;
        let mut untestable: i128 = 0;
        let mut pending: i128 = 0;
        let total: usize = counts.len();
        let mut at: usize = 0;
        while at < total
            invariant
                at <= total == counts@.len(),
                all == tallies(counts@),
                detected == total_of(all.subrange(0, at as int), Column::Detected),
                survived == total_of(all.subrange(0, at as int), Column::Survived),
                error == total_of(all.subrange(0, at as int), Column::Error),
                untestable == total_of(all.subrange(0, at as int), Column::Untestable),
                pending == total_of(all.subrange(0, at as int), Column::Pending),
            decreases total - at,
        {
            let ghost here = all.subrange(0, at as int);
            let ghost next = all.subrange(0, at + 1);
            assert(next.drop_last() =~= here);
            assert(next.last() == (counts@[at as int].0@, counts@[at as int].1 as int));
            proof {
                assert forall|k: int| 0 <= k < here.len() implies holds(
                    (#[trigger] here[k]).1,
                ) by {
                    assert(here[k].1 == counts@[k].1);
                }
                lemma_total_is_bounded(here, Column::Detected);
                lemma_total_is_bounded(here, Column::Survived);
                lemma_total_is_bounded(here, Column::Error);
                lemma_total_is_bounded(here, Column::Untestable);
                lemma_total_is_bounded(here, Column::Pending);
            }
            let count: i128 = counts[at].1 as i128;
            match Status::parse(counts[at].0.as_str()) {
                Some(Status::Killed) | Some(Status::Timeout) => detected = detected + count,
                Some(Status::Survived) => survived = survived + count,
                Some(Status::Error) => error = error + count,
                Some(Status::Untestable) => untestable = untestable + count,
                None => pending = pending + count,
            }
            at += 1;
        }
        assert(all.subrange(0, at as int) =~= all);
        Summary {
            detected: detected as i64,
            survived: survived as i64,
            error: error as i64,
            untestable: untestable as i64,
            pending: pending as i64,
        }
    }

    pub fn detected(&self) -> (count: i64)
        ensures
            count == self@.detected,
    {
        self.detected
    }

    /// Error and untestable mutants are excluded, neither got a fair trial:
    /// one broke before pytest could judge it, the other was only ever going
    /// to be judged by a test that was already red.
    ///
    /// This is also what the mutation-testing-report schema calls `valid`, so
    /// the JSON report and stdout divide by the same number.
    pub fn scored(&self) -> (count: i64)
        requires
            self.wf(),
        ensures
            count == self@.detected + self@.survived,
    {
        self.detected + self.survived
    }

    /// How many mutants errored.
    pub fn error(&self) -> (count: i64)
        ensures
            count == self@.error,
    {
        self.error
    }

    /// How many mutants only red tests could have judged.
    pub fn untestable(&self) -> (count: i64)
        ensures
            count == self@.untestable,
    {
        self.untestable
    }

    /// How many mutants still wait for a verdict.
    pub fn pending(&self) -> (count: i64)
        ensures
            count == self@.pending,
    {
        self.pending
    }

    /// Judge the run against a `--fail-under` percentage. `asked` says whether
    /// there is one at all, and `cleared` whether the score, taken as a fraction
    /// rather than as it prints, is at least that much. A threshold has to be
    /// *earned*, so a run that could not be measured or is not finished fails it
    /// rather than passing by default.
    pub fn gate(&self, asked: bool, cleared: bool) -> (gate: Gate)
        requires
            self.wf(),
        ensures
            gate == judged(self@, asked, cleared),
    {
        if !asked {
            Gate::Passed
        } else if self.pending > 0 {
            Gate::Partial(self.pending)
        } else if self.detected + self.survived == 0 {
            Gate::Unmeasured
        } else if cleared {
            Gate::Passed
        } else {
            Gate::Below
        }
    }
}

/// What a `--fail-under` threshold makes of a finished run.
#[derive(Clone, Copy, Debug, PartialEq, Eq, Structural)]
pub enum Gate {
    /// No threshold, or the score cleared it.
    Passed,
    Below,
    /// Nothing was scoreable, which is also what a broken test command looks
    /// like. A tool that could not measure must never report success.
    Unmeasured,
    /// Mutants are still pending, so the score can still move.
    Partial(i64),
}

pub open spec fn judged(score: Score, asked: bool, cleared: bool) -> Gate {
    if !asked {
        Gate::Passed
    } else if score.pending > 0 {
        Gate::Partial(score.pending as i64)
    } else if score.detected + score.survived == 0 {
        Gate::Unmeasured
    } else if cleared {
        Gate::Passed
    } else {
        Gate::Below
    }
}

/// A score and the threshold it is held against, as they read with some number of
/// decimal places.
pub struct Reading {
    pub score: String,
    pub threshold: String,
}

impl Reading {
    /// Whether the two numbers read differently.
    pub open spec fn tells(self) -> bool {
        self.score@ != self.threshold@
    }
}

/// The two numbers with more and more decimal places.
pub struct Shown {
    pub readings: Vec<Reading>,
}

/// The first reading, from this one on, in which the two numbers differ.
pub open spec fn telling(readings: Seq<Reading>, from: int) -> Option<int>
    decreases readings.len() - from,
{
    if from >= readings.len() {
        None
    } else if readings[from].tells() {
        Some(from)
    } else {
        telling(readings, from + 1)
    }
}

fn first_telling(readings: &[Reading]) -> (first: Option<usize>)
    ensures
        first.is_some() == telling(readings@, 0).is_some(),
        first matches Some(at) ==> at < readings@.len() && telling(readings@, 0) == Some(at as int),
{
    let mut at: usize = 0;
    while at < readings.len()
        invariant
            at <= readings@.len(),
            telling(readings@, 0) == telling(readings@, at as int),
        decreases readings@.len() - at,
    {
        if !text::same(readings[at].score.as_str(), readings[at].threshold.as_str()) {
            return Some(at);
        }
        at += 1;
    }
    None
}

impl Gate {
    /// The line a gate fails with.
    pub open spec fn complaint(self, shown: Shown) -> Option<Seq<char>> {
        match self {
            Gate::Passed => None,
            Gate::Below => Some(
                match telling(shown.readings@, 0) {
                    Some(at) => "score "@ + shown.readings@[at].score@
                        + "% is below --fail-under "@ + shown.readings@[at].threshold@ + "%"@,
                    None => "score is below --fail-under by less than the numbers can show"@,
                },
            ),
            Gate::Unmeasured => Some(
                "no score to check against --fail-under: every mutant errored or came back untestable, and a run that could not measure anything is what a broken test command looks like"@,
            ),
            Gate::Partial(pending) => Some(
                text::signed(pending as int)
                    + " mutants still pending, so the score is partial and cannot clear --fail-under"@,
            ),
        }
    }

    /// The one line CI reads, or `None` when the run passed.
    ///
    /// The comparison is on the raw ratio, so a threshold set to the score as
    /// the report printed it can still fail. One decimal would render that as
    /// "62.2% is below 62.2%", which reads as a bug rather than a verdict, so
    /// both widen until they differ.
    pub fn failure(&self, shown: &Shown) -> (line: Option<String>)
        ensures
            line.is_some() == self.complaint(*shown).is_some(),
            line matches Some(line) ==> Some(line@) == self.complaint(*shown),
    {
        match self {
            Gate::Passed => None,
            Gate::Below => {
                match first_telling(&shown.readings) {
                    Some(at) => {
                        let reading: &Reading = &shown.readings[at];
                        let mut line: String = text::owned("score ");
                        line.append(&reading.score);
                        line.append("% is below --fail-under ");
                        line.append(&reading.threshold);
                        line.append("%");
                        Some(line)
                    },
                    None => Some(
                        text::owned("score is below --fail-under by less than the numbers can show"),
                    ),
                }
            },
            Gate::Unmeasured => Some(
                text::owned(
                    "no score to check against --fail-under: every mutant errored or came back untestable, and a run that could not measure anything is what a broken test command looks like",
                ),
            ),
            Gate::Partial(pending) => {
                let mut line: String = text::show_i64(*pending);
                line.append(
                    " mutants still pending, so the score is partial and cannot clear --fail-under",
                );
                Some(line)
            },
        }
    }
}

/// Every mutant is counted in exactly one column.
pub proof fn law_the_columns_add_up(counts: Seq<(Seq<char>, int)>)
    ensures
        summed(counts).detected + summed(counts).survived + summed(counts).error + summed(
            counts,
        ).untestable + summed(counts).pending == grand_total(counts),
    decreases counts.len(),
{
    if counts.len() > 0 {
        law_the_columns_add_up(counts.drop_last());
    }
}

/// A run that is unfinished, or that could score nothing, never passes a
/// threshold, whatever its score would have been; and with no threshold every
/// run passes.
pub proof fn law_a_threshold_has_to_be_earned(score: Score, cleared: bool, shown: Shown)
    ensures
        score.pending > 0 || score.detected + score.survived == 0 ==> judged(
            score,
            true,
            cleared,
        ).complaint(shown).is_some(),
        score.pending <= 0 && score.detected + score.survived != 0 ==> (judged(
            score,
            true,
            cleared,
        ).complaint(shown).is_none() <==> cleared),
        judged(score, false, cleared).complaint(shown).is_none(),
{
}

proof fn lemma_telling(readings: Seq<Reading>, from: int)
    requires
        0 <= from <= readings.len(),
    ensures
        match telling(readings, from) {
            Some(at) => from <= at < readings.len() && readings[at].tells() && forall|k: int|
                from <= k < at ==> !(#[trigger] readings[k]).tells(),
            None => forall|k: int|
                from <= k < readings.len() ==> !(#[trigger] readings[k]).tells(),
        },
    decreases readings.len() - from,
{
    if from < readings.len() && !readings[from].tells() {
        lemma_telling(readings, from + 1);
    }
}

/// A score below its threshold is reported with two numbers that differ, in as
/// few decimal places as it takes. It is reported without numbers only when no
/// reading tells the two apart: never as "x% is below x%".
pub proof fn law_a_near_miss_shows_two_numbers(shown: Shown)
    ensures
        match telling(shown.readings@, 0) {
            Some(at) => 0 <= at < shown.readings@.len() && shown.readings@[at].score@
                != shown.readings@[at].threshold@ && Gate::Below.complaint(shown) == Some(
                "score "@ + shown.readings@[at].score@ + "% is below --fail-under "@
                    + shown.readings@[at].threshold@ + "%"@,
            ) && forall|k: int|
                0 <= k < at ==> (#[trigger] shown.readings@[k]).score@
                    == shown.readings@[k].threshold@,
            None => Gate::Below.complaint(shown) == Some(
                "score is below --fail-under by less than the numbers can show"@,
            ) && forall|k: int|
                0 <= k < shown.readings@.len() ==> (#[trigger] shown.readings@[k]).score@
                    == shown.readings@[k].threshold@,
        },
{
    lemma_telling(shown.readings@, 0);
    match telling(shown.readings@, 0) {
        Some(at) => {
            assert(shown.readings@[at].tells());
            assert forall|k: int| 0 <= k < at implies (#[trigger] shown.readings@[k]).score@
                == shown.readings@[k].threshold@ by {
                assert(!shown.readings@[k].tells());
            }
        },
        None => {
            assert forall|k: int| 0 <= k < shown.readings@.len() implies (
            #[trigger] shown.readings@[k]).score@ == shown.readings@[k].threshold@ by {
                assert(!shown.readings@[k].tells());
            }
        },
    }
}

/// Errors and untestable mutants change neither side of the score.
pub proof fn law_errors_stay_out_of_the_score(
    counts: Seq<(Seq<char>, int)>,
    status: Seq<char>,
    count: int,
)
    requires
        column(status) is Error || column(status) is Untestable,
    ensures
        summed(counts.push((status, count))).detected == summed(counts).detected,
        summed(counts.push((status, count))).survived == summed(counts).survived,
{
    assert(counts.push((status, count)).drop_last() =~= counts);
}

/// A text of at least this many characters, with spaces in front.
pub open spec fn right_aligned(s: Seq<char>, width: nat) -> Seq<char> {
    if s.len() >= width {
        s
    } else {
        Seq::new((width - s.len()) as nat, |i: int| ' ') + s
    }
}

fn align_right(s: &str, width: usize) -> (out: String)
    ensures
        out@ == right_aligned(s@, width as nat),
{
    let chars: Vec<char> = text::chars_of(s);
    let mut out: String = String::new();
    if chars.len() < width {
        let missing: usize = width - chars.len();
        let mut count: usize = 0;
        assert(out@ =~= Seq::new(0, |i: int| ' '));
        while count < missing
            invariant
                count <= missing,
                out@ == Seq::new(count as nat, |i: int| ' '),
            decreases missing - count,
        {
            out.push(' ');
            count += 1;
            assert(out@ =~= Seq::new(count as nat, |i: int| ' '));
        }
    }
    out.append(s);
    assert(out@ =~= right_aligned(s@, width as nat));
    out
}

/// The lines that name the survivors, each behind its place.
pub open spec fn survivor_lines(survivors: Seq<Planted>) -> Seq<Seq<char>> {
    if survivors.len() == 0 {
        Seq::empty()
    } else {
        seq![""@, "survivors (changes your tests never noticed):"@] + survivors.map_values(
            |mutant: Planted| "  "@ + mutant.shown(),
        )
    }
}

/// The line of one count. The status is padded before it is painted, so the
/// column does not count escapes.
pub open spec fn count_line(count: (Seq<char>, int), colour: bool) -> Seq<char> {
    let label = right_aligned(count.0, 10);
    (match Status::named(count.0) {
        Some(status) => Paint::colour(status).painted(label, colour),
        None => label,
    }) + ": "@ + text::signed(count.1)
}

/// The line with the score, when there is one.
pub open spec fn score_line(score: Score, shown: Seq<char>, colour: bool) -> Seq<Seq<char>> {
    if score.detected + score.survived == 0 {
        Seq::empty()
    } else {
        seq![
            Paint::Bold.painted(
                "     score: "@ + shown + "% ("@ + text::signed(score.detected) + "/"@
                    + text::signed(score.detected + score.survived) + " detected)"@,
                colour,
            ),
        ]
    }
}

/// The notes on what sits outside the score.
pub open spec fn note_lines(score: Score, colour: bool) -> Seq<Seq<char>> {
    (if score.error > 0 {
        seq![
            Paint::Red.painted(
                "note: "@ + text::signed(score.error)
                    + " error mutants sit outside the score, a broken test command also looks like this, so check one before trusting the numbers"@,
                colour,
            ),
        ]
    } else {
        Seq::empty()
    }) + (if score.untestable > 0 {
        seq![
            "note: "@ + text::signed(score.untestable)
                + " untestable mutants sit outside the score, the only tests covering them were already failing before any mutant was planted"@,
        ]
    } else {
        Seq::empty()
    }) + (if score.pending > 0 {
        seq![
            "note: "@ + text::signed(score.pending)
                + " mutants still pending, re-run `angelo exec` to resume"@,
        ]
    } else {
        Seq::empty()
    })
}

/// The whole report: survivors first, the score last. A real codebase produces
/// hundreds of survivors, and the score is the number the reader ran the command
/// for.
pub open spec fn report_lines(
    counts: Seq<(Seq<char>, int)>,
    survivors: Seq<Planted>,
    shown: Seq<char>,
    colour: bool,
) -> Seq<Seq<char>> {
    survivor_lines(survivors) + seq![""@, "=== mutation report ==="@] + counts.map_values(
        |count: (Seq<char>, int)| count_line(count, colour),
    ) + score_line(summed(counts), shown, colour) + note_lines(summed(counts), colour)
}

fn add_survivors(lines: &mut Vec<String>, survivors: &[Mutant])
    ensures
        text::texts(final(lines)@) == text::texts(old(lines)@) + survivor_lines(
            crate::mutate::planted(survivors@),
        ),
{
    let ghost before = text::texts(lines@);
    let ghost all = crate::mutate::planted(survivors@);
    assert(all.len() == survivors@.len());
    if survivors.len() == 0 {
        assert(before + survivor_lines(all) =~= before);
        return;
    }
    lines.push(text::owned(""));
    lines.push(text::owned("survivors (changes your tests never noticed):"));
    let ghost shown = all.map_values(|mutant: Planted| "  "@ + mutant.shown());
    let ghost head = before + seq![""@, "survivors (changes your tests never noticed):"@];
    assert(text::texts(lines@) =~= head + shown.subrange(0, 0));
    let mut at: usize = 0;
    while at < survivors.len()
        invariant
            at <= survivors@.len(),
            all == crate::mutate::planted(survivors@),
            shown == all.map_values(|mutant: Planted| "  "@ + mutant.shown()),
            text::texts(lines@) == head + shown.subrange(0, at as int),
        decreases survivors@.len() - at,
    {
        let ghost here = text::texts(lines@);
        let mut line: String = text::owned("  ");
        line.append(&survivors[at].to_text());
        assert(line@ == shown[at as int]);
        lines.push(line);
        assert(text::texts(lines@) =~= here.push(line@));
        assert(text::texts(lines@) =~= head + shown.subrange(0, at + 1));
        at += 1;
    }
    assert(shown.subrange(0, at as int) =~= shown);
    assert(head + shown =~= before + survivor_lines(all));
}

fn show_count(status: &str, count: i64, colour: bool) -> (line: String)
    ensures
        line@ == count_line((status@, count as int), colour),
{
    let label: String = align_right(status, 10);
    let mut line: String = match Status::parse(status) {
        Some(status) => Paint::of(status).on(label.as_str(), colour),
        None => label,
    };
    line.append(": ");
    line.append(&text::show_i64(count));
    line
}

fn add_counts(lines: &mut Vec<String>, counts: &[(String, i64)], colour: bool)
    ensures
        text::texts(final(lines)@) == text::texts(old(lines)@) + tallies(counts@).map_values(
            |count: (Seq<char>, int)| count_line(count, colour),
        ),
{
    let ghost before = text::texts(lines@);
    let ghost shown = tallies(counts@).map_values(
        |count: (Seq<char>, int)| count_line(count, colour),
    );
    assert(text::texts(lines@) =~= before + shown.subrange(0, 0));
    let mut at: usize = 0;
    while at < counts.len()
        invariant
            at <= counts@.len(),
            shown == tallies(counts@).map_values(
                |count: (Seq<char>, int)| count_line(count, colour),
            ),
            text::texts(lines@) == before + shown.subrange(0, at as int),
        decreases counts@.len() - at,
    {
        let ghost here = text::texts(lines@);
        let line: String = show_count(counts[at].0.as_str(), counts[at].1, colour);
        assert(line@ == shown[at as int]);
        lines.push(line);
        assert(text::texts(lines@) =~= here.push(line@));
        assert(text::texts(lines@) =~= before + shown.subrange(0, at + 1));
        at += 1;
    }
    assert(shown.subrange(0, at as int) =~= shown);
}

fn add_score(lines: &mut Vec<String>, summary: &Summary, shown: &str, colour: bool)
    requires
        summary.wf(),
    ensures
        text::texts(final(lines)@) == text::texts(old(lines)@) + score_line(
            summary@,
            shown@,
            colour,
        ),
{
    let ghost before = text::texts(lines@);
    if summary.scored() == 0 {
        assert(before + score_line(summary@, shown@, colour) =~= before);
        return;
    }
    let mut score: String = text::owned("     score: ");
    score.append(shown);
    score.append("% (");
    score.append(&text::show_i64(summary.detected()));
    score.append("/");
    score.append(&text::show_i64(summary.scored()));
    score.append(" detected)");
    let line: String = Paint::Bold.on(score.as_str(), colour);
    lines.push(line);
    assert(text::texts(lines@) =~= before + score_line(summary@, shown@, colour));
}

fn add_notes(lines: &mut Vec<String>, summary: &Summary, colour: bool)
    ensures
        text::texts(final(lines)@) == text::texts(old(lines)@) + note_lines(summary@, colour),
{
    let ghost before = text::texts(lines@);
    if summary.error > 0 {
        let mut note: String = text::owned("note: ");
        note.append(&text::show_i64(summary.error));
        note.append(
            " error mutants sit outside the score, a broken test command also looks like this, so check one before trusting the numbers",
        );
        lines.push(Paint::Red.on(note.as_str(), colour));
    }
    if summary.untestable > 0 {
        let mut note: String = text::owned("note: ");
        note.append(&text::show_i64(summary.untestable));
        note.append(
            " untestable mutants sit outside the score, the only tests covering them were already failing before any mutant was planted",
        );
        lines.push(note);
    }
    if summary.pending > 0 {
        let mut note: String = text::owned("note: ");
        note.append(&text::show_i64(summary.pending));
        note.append(" mutants still pending, re-run `angelo exec` to resume");
        lines.push(note);
    }
    assert(text::texts(lines@) =~= before + note_lines(summary@, colour));
}

/// The report, line by line, at every verbosity. This is the program's output
/// rather than commentary about it. `shown` is the score with one decimal place,
/// read only when there is one.
pub fn summary_lines(
    counts: &[(String, i64)],
    survivors: &[Mutant],
    shown: &str,
    colour: bool,
) -> (lines: Vec<String>)
    requires
        can_be_summed(tallies(counts@)),
    ensures
        text::texts(lines@) == report_lines(
            tallies(counts@),
            crate::mutate::planted(survivors@),
            shown@,
            colour,
        ),
{
    let summary: Summary = Summary::of(counts);
    let mut lines: Vec<String> = Vec::new();
    assert(text::texts(lines@) =~= Seq::<Seq<char>>::empty());
    add_survivors(&mut lines, survivors);
    let ghost first = text::texts(lines@);
    assert(first =~= survivor_lines(crate::mutate::planted(survivors@)));
    lines.push(text::owned(""));
    lines.push(text::owned("=== mutation report ==="));
    assert(text::texts(lines@) =~= first + seq![""@, "=== mutation report ==="@]);
    add_counts(&mut lines, counts, colour);
    add_score(&mut lines, &summary, shown, colour);
    add_notes(&mut lines, &summary, colour);
    lines
}

/// The counts that a progress bar displays.
pub struct Tally {
    pub total: usize,
    pub done: usize,
    pub detected: usize,
    pub survived: usize,
}

/// How many of these verdicts are detections.
pub open spec fn detections(verdicts: Seq<(i64, Status)>) -> int
    decreases verdicts.len(),
{
    if verdicts.len() == 0 {
        0
    } else {
        detections(verdicts.drop_last()) + if verdicts.last().1.detected() {
            1int
        } else {
            0
        }
    }
}

/// How many of these verdicts are survivors.
pub open spec fn survivals(verdicts: Seq<(i64, Status)>) -> int
    decreases verdicts.len(),
{
    if verdicts.len() == 0 {
        0
    } else {
        survivals(verdicts.drop_last()) + if verdicts.last().1 is Survived {
            1int
        } else {
            0
        }
    }
}

/// A sum of counts, up to the largest count there is.
pub open spec fn piled(count: int, more: int) -> int {
    if count + more > usize::MAX {
        usize::MAX as int
    } else {
        count + more
    }
}

proof fn lemma_at_most_all(verdicts: Seq<(i64, Status)>)
    ensures
        0 <= detections(verdicts),
        0 <= survivals(verdicts),
    decreases verdicts.len(),
{
    if verdicts.len() > 0 {
        lemma_at_most_all(verdicts.drop_last());
    }
}

impl Tally {
    pub fn new(total: usize) -> (tally: Tally)
        ensures
            tally.total == total && tally.done == 0 && tally.detected == 0 && tally.survived == 0,
    {
        Tally { total, done: 0, detected: 0, survived: 0 }
    }

    /// Counts the verdicts of one run.
    pub fn settle(&mut self, outcome: &BatchOutcome)
        ensures
            final(self).total == old(self).total,
            final(self).done == piled(old(self).done as int, outcome.verdicts@.len() as int),
            final(self).detected == piled(
                old(self).detected as int,
                detections(outcome.verdicts@),
            ),
            final(self).survived == piled(old(self).survived as int, survivals(outcome.verdicts@)),
    {
        let ghost all = outcome.verdicts@;
        let ghost start = *self;
        let mut at: usize = 0;
        while at < outcome.verdicts.len()
            invariant
                at <= outcome.verdicts@.len(),
                all == outcome.verdicts@,
                self.total == start.total,
                self.done == piled(start.done as int, at as int),
                self.detected == piled(
                    start.detected as int,
                    detections(all.subrange(0, at as int)),
                ),
                self.survived == piled(
                    start.survived as int,
                    survivals(all.subrange(0, at as int)),
                ),
            decreases outcome.verdicts@.len() - at,
        {
            proof {
                lemma_at_most_all(all.subrange(0, at as int));
                assert(all.subrange(0, at + 1).drop_last() =~= all.subrange(0, at as int));
                assert(all.subrange(0, at + 1).last() == all[at as int]);
            }
            let status: Status = outcome.verdicts[at].1;
            self.done = self.done.saturating_add(1);
            if status.is_detected() {
                self.detected = self.detected.saturating_add(1);
            }
            if matches!(status, Status::Survived) {
                self.survived = self.survived.saturating_add(1);
            }
            at += 1;
        }
        assert(all.subrange(0, at as int) =~= all);
    }
}

/// What is said of one settled mutant. `seconds` is how long its run took, with
/// one decimal place.
pub fn verdict_line(
    done: usize,
    total: usize,
    label: &str,
    status: Status,
    batch_size: usize,
    seconds: &str,
) -> (line: String)
    ensures
        line@ == "["@ + text::decimal(done as nat) + "/"@ + text::decimal(total as nat) + "] "@
            + label@ + "  "@ + status.name() + (if batch_size == 1 {
            ""@
        } else {
            "  [batch of "@ + text::decimal(batch_size as nat) + "]"@
        }) + "  ("@ + seconds@ + "s)"@,
{
    let mut line: String = text::owned("[");
    line.append(&text::show_size(done));
    line.append("/");
    line.append(&text::show_size(total));
    line.append("] ");
    line.append(label);
    line.append("  ");
    line.append(status.as_str());
    let ghost before = line@;
    if batch_size == 1 {
        line.append("");
    } else {
        line.append("  [batch of ");
        line.append(&text::show_size(batch_size));
        line.append("]");
        assert(line@ =~= before + ("  [batch of "@ + text::decimal(batch_size as nat) + "]"@));
    }
    line.append("  (");
    line.append(seconds);
    line.append("s)");
    line
}

/// What the counts of one name come to.
pub open spec fn named_total(counts: Seq<(Seq<char>, int)>, name: Seq<char>) -> int
    decreases counts.len(),
{
    if counts.len() == 0 {
        0
    } else {
        named_total(counts.drop_last(), name) + if counts.last().0 == name {
            counts.last().1
        } else {
            0
        }
    }
}

/// What the five names of a verdict stand for in a score: a killed mutant and one
/// that timed out are detected, a survivor is not, an error and an untestable
/// mutant count for neither, and every other name is still pending.
pub proof fn law_each_name_counts_in_its_column(counts: Seq<(Seq<char>, int)>)
    ensures
        summed(counts).detected == named_total(counts, "killed"@) + named_total(
            counts,
            "timeout"@,
        ),
        summed(counts).survived == named_total(counts, "survived"@),
        summed(counts).error == named_total(counts, "error"@),
        summed(counts).untestable == named_total(counts, "untestable"@),
        summed(counts).pending == grand_total(counts) - named_total(counts, "killed"@)
            - named_total(counts, "timeout"@) - named_total(counts, "survived"@) - named_total(
            counts,
            "error"@,
        ) - named_total(counts, "untestable"@),
    decreases counts.len(),
{
    reveal_strlit("killed");
    reveal_strlit("timeout");
    reveal_strlit("survived");
    reveal_strlit("error");
    reveal_strlit("untestable");
    assert("killed"@[0] == 'k' && "timeout"@[0] == 't' && "survived"@[0] == 's' && "error"@[0]
        == 'e' && "untestable"@[0] == 'u');
    if counts.len() > 0 {
        law_each_name_counts_in_its_column(counts.drop_last());
    }
}

/// The score a report prints is the one its counts have: so many of the killed
/// and timed out, out of those and the survivors. It is there whenever something
/// could be scored.
pub proof fn law_the_score_line_shows_what_was_counted(
    counts: Seq<(Seq<char>, int)>,
    survivors: Seq<Planted>,
    shown: Seq<char>,
)
    ensures
        ({
            let detected = named_total(counts, "killed"@) + named_total(counts, "timeout"@);
            let scored = detected + named_total(counts, "survived"@);
            let line = "     score: "@ + shown + "% ("@ + text::signed(detected) + "/"@
                + text::signed(scored) + " detected)"@;
            scored != 0 ==> report_lines(counts, survivors, shown, false).contains(line)
                && report_lines(counts, survivors, shown, true).contains(
                "\x1b[1m"@ + line + "\x1b[0m"@,
            )
        }),
{
    law_each_name_counts_in_its_column(counts);
    let scored = summed(counts).detected + summed(counts).survived;
    if scored != 0 {
        let at = survivor_lines(survivors).len() + 2 + counts.len();
        let plain = report_lines(counts, survivors, shown, false);
        let bright = report_lines(counts, survivors, shown, true);
        assert(plain[at as int] == score_line(summed(counts), shown, false)[0]);
        assert(bright[at as int] == score_line(summed(counts), shown, true)[0]);
    }
}

/// A number below a hundred in two digits.
pub open spec fn digits_of(n: int) -> Seq<char> {
    seq![text::digit((n / 10) as nat), text::digit((n % 10) as nat)]
}

proof fn lemma_two_digits(n: nat)
    requires
        n < 100,
    ensures
        two_digits(n) == digits_of(n as int),
{
    reveal_strlit("0");
    if n < 10 {
        assert(text::decimal(n) =~= seq![text::digit(n)]);
        assert("0"@[0] == '0');
        assert(text::digit(0) == '0');
        assert(two_digits(n) =~= digits_of(n as int));
    } else {
        assert(text::decimal(n / 10) =~= seq![text::digit(n / 10)]);
        assert(two_digits(n) =~= digits_of(n as int));
    }
}

/// A duration is shown with its two leading units, the second of them always in
/// two digits: hours and minutes, minutes and seconds, or the seconds alone.
pub proof fn law_a_duration_shows_its_leading_units(hours: nat, minutes: nat, seconds: nat)
    requires
        minutes < 60,
        seconds < 60,
    ensures
        hours > 0 ==> compacted(3600 * hours + 60 * minutes + seconds) == text::decimal(hours)
            + "h"@ + digits_of(minutes as int) + "m"@,
        minutes > 0 ==> compacted(60 * minutes + seconds) == text::decimal(minutes) + "m"@
            + digits_of(seconds as int) + "s"@,
        compacted(seconds) == text::decimal(seconds) + "s"@,
{
    let all = 3600 * hours + 60 * minutes + seconds;
    assert(all / 3600 == hours && all % 3600 == 60 * minutes + seconds);
    assert((60 * minutes + seconds) / 60 == minutes && (60 * minutes + seconds) % 60 == seconds);
    lemma_two_digits(minutes);
    lemma_two_digits(seconds);
}

/// The estimate is the time the rest takes at the rate so far: what is done took
/// the elapsed time, so each of the rest takes its share of it. Seconds are
/// rounded down.
pub proof fn law_the_rest_takes_its_share(done: nat, total: nat, elapsed_nanos: nat)
    requires
        0 < done < total,
        elapsed_nanos * (total - done) <= u64::MAX,
    ensures
        left_over(done, total, elapsed_nanos) matches Some(seconds) && {
            let nanos = elapsed_nanos * (total - done);
            &&& 1_000_000_000 * seconds * done <= nanos + done / 2
            &&& nanos + done / 2 < 1_000_000_000 * (seconds + 1) * done
        },
{
    let product = elapsed_nanos * ((total - done) as nat) + done / 2;
    assert(elapsed_nanos * ((total - done) as nat) == elapsed_nanos * (total - done));
    let nanos = product / done;
    let seconds = nanos / 1_000_000_000;
    vstd::arithmetic::div_mod::lemma_fundamental_div_mod(product as int, done as int);
    vstd::arithmetic::div_mod::lemma_mod_bound(product as int, done as int);
    assert(1_000_000_000 * seconds <= nanos && nanos + 1 <= 1_000_000_000 * (seconds + 1));
    assert(1_000_000_000 * seconds * done <= done * nanos) by (nonlinear_arith)
        requires
            1_000_000_000 * seconds <= nanos,
            0 < done,
    ;
    assert(done * nanos + done <= 1_000_000_000 * (seconds + 1) * done) by (nonlinear_arith)
        requires
            nanos + 1 <= 1_000_000_000 * (seconds + 1),
            0 < done,
    ;
    assert(nanos <= product) by (nonlinear_arith)
        requires
            done * nanos <= product,
            0 < done,
            0 <= nanos,
    ;
    assert(done <= total);
    assert(seconds <= u64::MAX) by {
        assert(nanos * done <= u64::MAX as int + done / 2) by (nonlinear_arith)
            requires
                done * nanos <= product,
                product <= u64::MAX as int + done / 2,
        ;
        assert(nanos <= u64::MAX as int + 1) by (nonlinear_arith)
            requires
                nanos * done <= u64::MAX as int + done / 2,
                0 < done,
        ;
    }
}

/// Without colour a text is printed as it is. With it the text stands between an
/// escape and the one that ends it.
pub proof fn law_colour_only_surrounds_a_text(paint: Paint, s: Seq<char>)
    ensures
        paint.painted(s, false) == s,
        paint.painted(s, true).len() > s.len() + 4,
        paint.painted(s, true).skip(paint.painted(s, true).len() - s.len() - 4) == s
            + "\x1b[0m"@,
        paint.painted(s, true)[0] == '\x1b',
{
    reveal_strlit("\x1b[0m");
    reveal_strlit("\x1b[32m");
    reveal_strlit("\x1b[33m");
    reveal_strlit("\x1b[31m");
    reveal_strlit("\x1b[2m");
    reveal_strlit("\x1b[1m");
    let out = paint.painted(s, true);
    assert(out.skip(out.len() - s.len() - 4) =~= s + "\x1b[0m"@);
}

/// Detected is green, a survivor yellow, an error red and what could not be
/// tested is dim, each with its own escape.
pub proof fn law_a_status_has_its_colour(status: Status, s: Seq<char>)
    ensures
        Paint::colour(status).painted(s, true) == (match status {
            Status::Killed => "\x1b[32m"@,
            Status::Timeout => "\x1b[32m"@,
            Status::Survived => "\x1b[33m"@,
            Status::Error => "\x1b[31m"@,
            Status::Untestable => "\x1b[2m"@,
        }) + s + "\x1b[0m"@,
{
}

/// The counts of the bar: a detection is a mutant that was killed or ran out of
/// time, a survivor one that did neither and was run.
pub proof fn law_the_bar_counts_each_verdict(verdicts: Seq<(i64, Status)>)
    ensures
        detections(verdicts) == verdicts.filter(
            |verdict: (i64, Status)| verdict.1 == Status::Killed || verdict.1 == Status::Timeout,
        ).len(),
        survivals(verdicts) == verdicts.filter(
            |verdict: (i64, Status)| verdict.1 == Status::Survived,
        ).len(),
    decreases verdicts.len(),
{
    reveal(Seq::filter);
    if verdicts.len() > 0 {
        law_the_bar_counts_each_verdict(verdicts.drop_last());
    }
}

/// A gate passes exactly when nothing was asked for, or when the run is complete,
/// something was scored and the score clears the threshold. Otherwise it names
/// the first of these that is missing.
pub proof fn law_a_gate_names_what_is_missing(score: Score, asked: bool, cleared: bool)
    requires
        0 <= score.pending <= i64::MAX,
    ensures
        judged(score, asked, cleared) == Gate::Passed <==> !asked || (score.pending == 0
            && score.detected + score.survived != 0 && cleared),
        judged(score, asked, cleared) == Gate::Below <==> asked && score.pending == 0
            && score.detected + score.survived != 0 && !cleared,
        judged(score, asked, cleared) == Gate::Unmeasured <==> asked && score.pending == 0
            && score.detected + score.survived == 0,
        judged(score, asked, cleared) == Gate::Partial(score.pending as i64) <==> asked
            && score.pending > 0,
{
}

/// The numbers a gate complains with are the first pair that read differently.
pub proof fn law_the_first_differing_numbers_are_shown(readings: Seq<Reading>, from: int)
    requires
        0 <= from <= readings.len(),
    ensures
        telling(readings, from) matches Some(at) ==> from <= at < readings.len()
            && readings[at].score@ != readings[at].threshold@ && forall|k: int|
            from <= k < at ==> (#[trigger] readings[k]).score@ == readings[k].threshold@,
        telling(readings, from).is_none() ==> forall|k: int|
            from <= k < readings.len() ==> (#[trigger] readings[k]).score@
                == readings[k].threshold@,
    decreases readings.len() - from,
{
    if from < readings.len() && !readings[from].tells() {
        law_the_first_differing_numbers_are_shown(readings, from + 1);
    }
}

/// A report has a line for every count, the status right-aligned in ten
/// columns and the count behind a colon, in the order of the counts.
pub proof fn law_every_count_has_its_line(
    counts: Seq<(Seq<char>, int)>,
    survivors: Seq<Planted>,
    shown: Seq<char>,
    k: int,
)
    requires
        0 <= k < counts.len(),
        counts[k].0.len() <= 10,
    ensures
        report_lines(counts, survivors, shown, false)[(if survivors.len() > 0 {
            survivors.len() + 4
        } else {
            2
        }) + k] == Seq::new((10 - counts[k].0.len()) as nat, |i: int| ' ') + counts[k].0 + ": "@
            + text::signed(counts[k].1),
{
    let head = survivor_lines(survivors) + seq![""@, "=== mutation report ==="@];
    let middle = counts.map_values(|count: (Seq<char>, int)| count_line(count, false));
    let lines = report_lines(counts, survivors, shown, false);
    let at = head.len() + k;
    assert(lines[at] == middle[k]);
    assert(Seq::new(0, |i: int| ' ') + counts[k].0 =~= counts[k].0);
}

/// A report names every survivor, in order, behind a heading.
pub proof fn law_every_survivor_has_its_line(
    counts: Seq<(Seq<char>, int)>,
    survivors: Seq<Planted>,
    shown: Seq<char>,
    colour: bool,
    k: int,
)
    requires
        0 <= k < survivors.len(),
    ensures
        report_lines(counts, survivors, shown, colour)[k + 2] == "  "@ + survivors[k].shown(),
        report_lines(counts, survivors, shown, colour)[1]
            == "survivors (changes your tests never noticed):"@,
{
    let lines = survivor_lines(survivors);
    assert(lines[k + 2] == "  "@ + survivors[k].shown());
    assert(report_lines(counts, survivors, shown, colour)[k + 2] == lines[k + 2]);
    assert(report_lines(counts, survivors, shown, colour)[1] == lines[1]);
}

/// What sits outside the score is said in a note of its own, and only when there
/// is something to say: errors first, then what could not be tested, then what
/// is still pending.
pub proof fn law_what_is_not_scored_is_noted(score: Score)
    ensures
        ({
            let error = if score.error > 0 {
                1int
            } else {
                0
            };
            let untestable = if score.untestable > 0 {
                1int
            } else {
                0
            };
            let pending = if score.pending > 0 {
                1int
            } else {
                0
            };
            let notes = note_lines(score, false);
            &&& notes.len() == error + untestable + pending
            &&& score.error > 0 ==> notes[0] == "note: "@ + text::signed(score.error)
                + " error mutants sit outside the score, a broken test command also looks like this, so check one before trusting the numbers"@
            &&& score.untestable > 0 ==> notes[error] == "note: "@ + text::signed(score.untestable)
                + " untestable mutants sit outside the score, the only tests covering them were already failing before any mutant was planted"@
            &&& score.pending > 0 ==> notes[error + untestable] == "note: "@ + text::signed(
                score.pending,
            ) + " mutants still pending, re-run `angelo exec` to resume"@
        }),
{
}

/// Colour is for a terminal, unless it was turned off.
pub proof fn law_colour_is_for_a_terminal(is_terminal: bool, no_color_set: bool, wanted: bool)
    requires
        call_ensures(colour_wanted, (is_terminal, no_color_set), wanted),
    ensures
        !is_terminal || no_color_set ==> !wanted,
        is_terminal && !no_color_set ==> wanted,
{
}

/// A settled mutant is said with its number, its label and its status, and with
/// the size of its batch when it did not run alone.
pub proof fn law_a_batch_is_said_beside_its_verdict(
    done: usize,
    total: usize,
    label: &str,
    status: Status,
    size: usize,
    seconds: &str,
    line: String,
)
    requires
        call_ensures(verdict_line, (done, total, label, status, size, seconds), line),
    ensures
        ({
            let head = "["@ + text::decimal(done as nat) + "/"@ + text::decimal(total as nat)
                + "] "@ + label@ + "  "@ + status.name();
            &&& size == 1 ==> line@ == head + "  ("@ + seconds@ + "s)"@
            &&& size != 1 ==> line@ == head + "  [batch of "@ + text::decimal(size as nat) + "]"@
                + "  ("@ + seconds@ + "s)"@
        }),
{
    reveal_strlit("");
    assert(""@ =~= Seq::<char>::empty());
    let head = "["@ + text::decimal(done as nat) + "/"@ + text::decimal(total as nat) + "] "@
        + label@ + "  "@ + status.name();
    assert(head + ""@ =~= head);
    let batch = "  [batch of "@ + text::decimal(size as nat) + "]"@;
    assert(head + batch =~= head + "  [batch of "@ + text::decimal(size as nat) + "]"@);
}

} // verus!

//! One self-contained HTML file: a score at the top, the detail underneath.
//!
//! Lighthouse is the model. No tabs, no search box, no framework, and no
//! network: a CI artifact and an aeroplane both have to render it, so the CSS
//! is inline and there is not a single external reference in the document.
//!
//! A score is a fraction, and how it reads is decided outside: percentages come
//! in as they are to be shown.

use vstd::prelude::*;

use crate::db::Settled;
use crate::filing::{self, Entry, Folder};
use crate::mutate::Status;
use crate::names;
use crate::report::{self, Diagnostics, Findings, Level, Problem, Score, Summary, Trouble};
use crate::sorting::{self, Keyed};
use crate::text;

verus! {

broadcast use vstd::seq_lib::group_seq_properties;

/// The page, with a name in double braces where something goes.
pub const TEMPLATE: &'static str = r###"<!doctype html>
<html lang="en">
<head>
<meta charset="utf-8">
<meta name="viewport" content="width=device-width, initial-scale=1">
<title>Angelo: {{SCORE}}</title>
<style>
:root { color-scheme: light dark; --line: #8884; --good: #2a8a3e; --warn: #b7791f; --bad: #c0392b; }
body { font: 15px/1.5 system-ui, sans-serif; margin: 2rem auto; max-width: 60rem; padding: 0 1rem; }
h1 { font-size: 1.1rem; font-weight: 600; }
h2 { font-size: 1rem; margin-top: 2rem; }
h3 { font: 600 .9rem ui-monospace, monospace; }
table { border-collapse: collapse; width: 100%; }
th, td { border-bottom: 1px solid var(--line); padding: .3rem .5rem; text-align: left; }
td.n, th.n { text-align: right; font-variant-numeric: tabular-nums; }
td.file, .mono, li { font-family: ui-monospace, monospace; }
.score { font-size: 3rem; font-weight: 700; }
.good { color: var(--good); }
.warn { color: var(--warn); }
.bad { color: var(--bad); }
.line { opacity: .7; }
.problems { list-style: none; padding: 0; }
.problems li { display: flex; gap: .75rem; font-family: inherit; }
.tag { font-size: .75rem; font-weight: 700; }
</style>
</head>
<body>
<h1>Mutation report</h1>
<p class="score {{SCORE_BAND}}">{{SCORE}}</p>
<p>{{SCORE_DETAIL}}</p>
{{PROBLEMS}}
<h2>Counts</h2>
<table><thead><tr><th>Verdict</th><th class="n">Mutants</th><th>Scored</th></tr></thead><tbody>{{COUNT_ROWS}}</tbody></table>
<h2>Per file</h2>
<table><thead><tr><th>File</th><th class="n">Mutants</th><th class="n">Survivors</th><th class="n">Score</th></tr></thead><tbody>{{FILE_ROWS}}</tbody></table>
<h2>Survivors</h2>
{{SURVIVORS}}
<h2>Run facts</h2>
<table><tbody>{{FACT_ROWS}}</tbody></table>
<p class="line">Angelo {{VERSION}}, <a href="https://github.com/kvandeh/angelo">github.com/kvandeh/angelo</a></p>
</body>
</html>
"###;

/// How a character stands in a page.
pub open spec fn markup_char(c: char) -> Seq<char> {
    if c == '&' {
        "&amp;"@
    } else if c == '<' {
        "&lt;"@
    } else if c == '>' {
        "&gt;"@
    } else if c == '"' {
        "&quot;"@
    } else if c == '\'' {
        "&#39;"@
    } else {
        seq![c]
    }
}

/// How a text stands in a page.
pub open spec fn escaped(s: Seq<char>) -> Seq<char>
    decreases s.len(),
{
    if s.len() == 0 {
        Seq::empty()
    } else {
        escaped(s.drop_last()) + markup_char(s.last())
    }
}

/// Mutants carry raw Python, and `a < b` is a real replacement. Without this a
/// single survivor eats the rest of the page.
///
/// Both quote forms go too: these values land inside attributes as well as
/// between tags, and one escape function that is always right beats two that
/// are each right somewhere.
pub fn escape(s: &str) -> (out: String)
    ensures
        out@ == escaped(s@),
{
    let chars: Vec<char> = text::chars_of(s);
    let mut out: String = String::new();
    assert(out@ =~= escaped(chars@.subrange(0, 0)));
    let mut at: usize = 0;
    while at < chars.len()
        invariant
            at <= chars@.len(),
            out@ == escaped(chars@.subrange(0, at as int)),
        decreases chars@.len() - at,
    {
        let ghost before = out@;
        let c: char = chars[at];
        assert(chars@.subrange(0, at + 1).drop_last() =~= chars@.subrange(0, at as int));
        assert(chars@.subrange(0, at + 1).last() == c);
        if c == '&' {
            out.append("&amp;");
        } else if c == '<' {
            out.append("&lt;");
        } else if c == '>' {
            out.append("&gt;");
        } else if c == '"' {
            out.append("&quot;");
        } else if c == '\'' {
            out.append("&#39;");
        } else {
            out.push(c);
            assert(before.push(c) =~= before + seq![c]);
        }
        at += 1;
    }
    assert(chars@.subrange(0, at as int) =~= s@);
    out
}

/// No character of an escaped text can open or close a tag or an attribute.
pub proof fn law_an_escaped_text_holds_no_markup(s: Seq<char>)
    ensures
        forall|i: int|
            0 <= i < escaped(s).len() ==> (#[trigger] escaped(s)[i]) != '<' && escaped(s)[i] != '>'
                && escaped(s)[i] != '"' && escaped(s)[i] != '\'',
    decreases s.len(),
{
    reveal_strlit("&amp;");
    reveal_strlit("&lt;");
    reveal_strlit("&gt;");
    reveal_strlit("&quot;");
    reveal_strlit("&#39;");
    if s.len() > 0 {
        law_an_escaped_text_holds_no_markup(s.drop_last());
        let before = escaped(s.drop_last());
        assert forall|i: int| 0 <= i < escaped(s).len() implies (#[trigger] escaped(s)[i]) != '<'
            && escaped(s)[i] != '>' && escaped(s)[i] != '"' && escaped(s)[i] != '\'' by {
            if i < before.len() {
                assert(escaped(s)[i] == before[i]);
            } else {
                assert(escaped(s)[i] == markup_char(s.last())[i - before.len()]);
            }
        }
    }
}

/// The colour of a score.
pub open spec fn band(detected: int, scored: int) -> Seq<char> {
    if detected * 100 >= scored * 80 {
        "good"@
    } else if detected * 100 >= scored * 50 {
        "warn"@
    } else {
        "bad"@
    }
}

/// Where a score stops being reassuring: 80% of what was scored, and 50%.
pub fn band_of(detected: i64, scored: i64) -> (name: &'static str)
    ensures
        name@ == band(detected as int, scored as int),
{
    if detected as i128 * 100 >= scored as i128 * 80 {
        "good"
    } else if detected as i128 * 100 >= scored as i128 * 50 {
        "warn"
    } else {
        "bad"
    }
}

/// How one percentage reads, with one decimal place.
pub struct Percent {
    pub detected: i64,
    pub scored: i64,
    pub shown: String,
}

/// A percentage as plain values.
#[verifier::ext_equal]
pub struct Share {
    pub detected: int,
    pub scored: int,
    pub shown: Seq<char>,
}

impl View for Percent {
    type V = Share;

    open spec fn view(&self) -> Share {
        Share { detected: self.detected as int, scored: self.scored as int, shown: self.shown@ }
    }
}

/// Percentages as plain values.
pub open spec fn shares(list: Seq<Percent>) -> Seq<Share> {
    list.map_values(|percent: Percent| percent@)
}

/// How a percentage reads, by a list of them.
pub open spec fn share_of(list: Seq<Share>, detected: int, scored: int) -> Seq<char>
    decreases list.len(),
{
    if list.len() == 0 {
        Seq::empty()
    } else if list.last().detected == detected && list.last().scored == scored {
        list.last().shown
    } else {
        share_of(list.drop_last(), detected, scored)
    }
}

fn percent_of(list: &[Percent], detected: i64, scored: i64) -> (shown: String)
    ensures
        shown@ == share_of(shares(list@), detected as int, scored as int),
{
    let ghost all = shares(list@);
    let mut upto: usize = list.len();
    assert(all.subrange(0, upto as int) =~= all);
    while upto > 0
        invariant
            upto <= list@.len(),
            all == shares(list@),
            share_of(all, detected as int, scored as int) == share_of(
                all.subrange(0, upto as int),
                detected as int,
                scored as int,
            ),
        decreases upto,
    {
        assert(all.subrange(0, upto as int).drop_last() =~= all.subrange(0, upto - 1));
        assert(all.subrange(0, upto as int).last() == list@[upto - 1]@);
        if list[upto - 1].detected == detected && list[upto - 1].scored == scored {
            return list[upto - 1].shown.clone();
        }
        upto -= 1;
    }
    String::new()
}

/// One problem as an item of the list.
pub open spec fn problem_item(problem: Trouble) -> Seq<char> {
    (match problem.level {
        Level::Warn => "<li class=\"warn\"><span class=\"tag\">CHECK</span><span>"@,
        Level::Info => "<li class=\"none\"><span class=\"tag\">NOTE</span><span>"@,
    }) + escaped(problem.message) + "</span></li>"@
}

/// The items of some problems, one after the other.
pub open spec fn problem_items(list: Seq<Trouble>) -> Seq<char>
    decreases list.len(),
{
    if list.len() == 0 {
        Seq::empty()
    } else {
        problem_items(list.drop_last()) + problem_item(list.last())
    }
}

/// The panel of everything the run found wrong. No panel at all when there is
/// nothing wrong, rather than an empty box.
pub open spec fn problem_panel(list: Seq<Trouble>) -> Seq<char> {
    if list.len() == 0 {
        Seq::empty()
    } else {
        "<h2>Worth checking</h2>\n<ul class=\"problems\">"@ + problem_items(list) + "</ul>"@
    }
}

/// Everything the run found wrong, at the top where it cannot be scrolled past.
///
/// A problem that only ever reached a terminal is a problem nobody can attach
/// to a pull request.
pub fn problems(diagnostics: &Diagnostics) -> (out: String)
    ensures
        out@ == problem_panel(diagnostics@.problems),
{
    let list: &[Problem] = diagnostics.problems();
    let ghost all = report::troubles(list@);
    assert(all.len() == list@.len());
    if list.len() == 0 {
        return String::new();
    }
    let mut items: String = String::new();
    assert(items@ =~= problem_items(all.subrange(0, 0)));
    let mut at: usize = 0;
    while at < list.len()
        invariant
            at <= list@.len(),
            all == report::troubles(list@),
            items@ == problem_items(all.subrange(0, at as int)),
        decreases list@.len() - at,
    {
        let problem: &Problem = &list[at];
        assert(all.subrange(0, at + 1).drop_last() =~= all.subrange(0, at as int));
        assert(all.subrange(0, at + 1).last() == problem@);
        let mut item: String = match problem.level {
            Level::Warn => text::owned(
                "<li class=\"warn\"><span class=\"tag\">CHECK</span><span>",
            ),
            Level::Info => text::owned("<li class=\"none\"><span class=\"tag\">NOTE</span><span>"),
        };
        item.append(&escape(problem.message.as_str()));
        item.append("</span></li>");
        items.append(&item);
        at += 1;
    }
    assert(all.subrange(0, at as int) =~= all);
    let mut out: String = text::owned("<h2>Worth checking</h2>\n<ul class=\"problems\">");
    out.append(&items);
    out.append("</ul>");
    out
}

/// Whether a verdict is scored, in words.
pub open spec fn scored_words(status: Seq<char>) -> Seq<char> {
    match Status::named(status) {
        Some(Status::Error) => "no, it never ran cleanly"@,
        Some(Status::Untestable) => "no, its tests were already red"@,
        Some(_) => "yes"@,
        None => "not yet, it has not run"@,
    }
}

/// The row of one count.
pub open spec fn count_row(count: (Seq<char>, int)) -> Seq<char> {
    "<tr><td>"@ + escaped(count.0) + "</td><td class=\"n\">"@ + text::signed(count.1) + "</td><td>"@
        + scored_words(count.0) + "</td></tr>"@
}

/// The rows of some counts, one after the other.
pub open spec fn count_row_list(counts: Seq<(Seq<char>, int)>) -> Seq<char>
    decreases counts.len(),
{
    if counts.len() == 0 {
        Seq::empty()
    } else {
        count_row_list(counts.drop_last()) + count_row(counts.last())
    }
}

/// Each verdict, and whether it counts toward the score.
pub fn count_rows(counts: &[(String, i64)]) -> (out: String)
    ensures
        out@ == count_row_list(report::tallies(counts@)),
{
    let ghost all = report::tallies(counts@);
    let mut out: String = String::new();
    assert(out@ =~= count_row_list(all.subrange(0, 0)));
    let mut at: usize = 0;
    while at < counts.len()
        invariant
            at <= counts@.len(),
            all == report::tallies(counts@),
            out@ == count_row_list(all.subrange(0, at as int)),
        decreases counts@.len() - at,
    {
        assert(all.subrange(0, at + 1).drop_last() =~= all.subrange(0, at as int));
        assert(all.subrange(0, at + 1).last() == (
            counts@[at as int].0@,
            counts@[at as int].1 as int,
        ));
        let mut row: String = text::owned("<tr><td>");
        row.append(&escape(counts[at].0.as_str()));
        row.append("</td><td class=\"n\">");
        row.append(&text::show_i64(counts[at].1));
        row.append("</td><td>");
        row.append(
            match Status::parse(counts[at].0.as_str()) {
                Some(Status::Error) => "no, it never ran cleanly",
                Some(Status::Untestable) => "no, its tests were already red",
                Some(_) => "yes",
                None => "not yet, it has not run",
            },
        );
        row.append("</td></tr>");
        out.append(&row);
        at += 1;
    }
    assert(all.subrange(0, at as int) =~= all);
    out
}

/// How many of these mutants were detected.
pub open spec fn detected_in(list: Seq<Entry>) -> int
    decreases list.len(),
{
    if list.len() == 0 {
        0
    } else {
        detected_in(list.drop_last()) + match list.last().status {
            Some(status) => if status.detected() {
                1int
            } else {
                0
            },
            None => 0,
        }
    }
}

/// How many of these mutants survived.
pub open spec fn survived_in(list: Seq<Entry>) -> int
    decreases list.len(),
{
    if list.len() == 0 {
        0
    } else {
        survived_in(list.drop_last()) + if list.last().status == Some(Status::Survived) {
            1int
        } else {
            0
        }
    }
}

/// One file of the table.
pub struct FileRow {
    pub path: String,
    pub mutants: usize,
    pub survived: i64,
    pub detected: i64,
}

/// A file of the table as plain values.
#[verifier::ext_equal]
pub struct Line {
    pub path: Seq<char>,
    pub mutants: int,
    pub survived: int,
    pub detected: int,
}

impl View for FileRow {
    type V = Line;

    open spec fn view(&self) -> Line {
        Line {
            path: self.path@,
            mutants: self.mutants as int,
            survived: self.survived as int,
            detected: self.detected as int,
        }
    }
}

/// Files of the table as plain values.
pub open spec fn table(list: Seq<FileRow>) -> Seq<Line> {
    list.map_values(|row: FileRow| row@)
}

impl Line {
    /// What is divided by.
    pub open spec fn scored(self) -> int {
        self.detected + self.survived
    }

    /// Whether this file comes before another one: the lower score first, a
    /// file with no score last, and files that score alike by their paths.
    pub open spec fn precedes(self, other: Line) -> bool {
        if self.scored() == 0 && other.scored() == 0 {
            text::before(self.path, other.path)
        } else if self.scored() == 0 {
            false
        } else if other.scored() == 0 {
            true
        } else if self.detected * other.scored() != other.detected * self.scored() {
            self.detected * other.scored() < other.detected * self.scored()
        } else {
            text::before(self.path, other.path)
        }
    }

    /// The row of this file.
    pub open spec fn row(self, percents: Seq<Share>) -> Seq<char> {
        "<tr><td class=\"file\">"@ + escaped(self.path) + "</td><td class=\"n\">"@ + text::decimal(
            self.mutants as nat,
        ) + "</td><td class=\"n\">"@ + text::signed(self.survived) + "</td><td class=\"n "@ + (
        if self.scored() == 0 {
            "none\">&mdash;"@
        } else {
            band(self.detected, self.scored()) + "\">"@ + share_of(
                percents,
                self.detected,
                self.scored(),
            ) + "%"@
        }) + "</td></tr>"@
    }
}

/// The line of one file.
pub open spec fn line_of(folder: (Seq<char>, Seq<Entry>)) -> Line {
    Line {
        path: folder.0,
        mutants: folder.1.len() as int,
        survived: survived_in(folder.1),
        detected: detected_in(folder.1),
    }
}

/// A ranked table with one more line in it, behind those it does not precede.
pub open spec fn with_line(list: Seq<Line>, line: Line) -> Seq<Line>
    decreases list.len(),
{
    if list.len() == 0 || !line.precedes(list.last()) {
        list.push(line)
    } else {
        with_line(list.drop_last(), line).push(list.last())
    }
}

/// The table of these files, the worst first.
pub open spec fn ranked(folders: Seq<(Seq<char>, Seq<Entry>)>) -> Seq<Line>
    decreases folders.len(),
{
    if folders.len() == 0 {
        Seq::empty()
    } else {
        with_line(ranked(folders.drop_last()), line_of(folders.last()))
    }
}

/// The rows of a table, one after the other.
pub open spec fn row_list(lines: Seq<Line>, percents: Seq<Share>) -> Seq<char>
    decreases lines.len(),
{
    if lines.len() == 0 {
        Seq::empty()
    } else {
        row_list(lines.drop_last(), percents) + lines.last().row(percents)
    }
}

proof fn lemma_counts_are_bounded(list: Seq<Entry>)
    ensures
        0 <= detected_in(list),
        0 <= survived_in(list),
        detected_in(list) + survived_in(list) <= list.len(),
    decreases list.len(),
{
    if list.len() > 0 {
        lemma_counts_are_bounded(list.drop_last());
    }
}

fn tally(folder: &Folder<'_>) -> (row: FileRow)
    requires
        folder.entries@.len() <= i64::MAX,
    ensures
        row@ == line_of((folder.path@, filing::entries(folder.entries@))),
        row@.scored() <= i64::MAX,
{
    let ghost all = filing::entries(folder.entries@);
    let mut detected: i64 = 0;
    let mut survived: i64 = 0;
    let mut at: usize = 0;
    while at < folder.entries.len()
        invariant
            at <= folder.entries@.len() <= i64::MAX,
            all == filing::entries(folder.entries@),
            detected == detected_in(all.subrange(0, at as int)),
            survived == survived_in(all.subrange(0, at as int)),
            0 <= detected <= at,
            0 <= survived <= at,
        decreases folder.entries@.len() - at,
    {
        assert(all.subrange(0, at + 1).drop_last() =~= all.subrange(0, at as int));
        assert(all.subrange(0, at + 1).last() == folder.entries@[at as int]@);
        match folder.entries[at].status {
            Some(status) => {
                if status.is_detected() {
                    detected = detected + 1;
                }
                if matches!(status, Status::Survived) {
                    survived = survived + 1;
                }
            },
            None => {},
        }
        at += 1;
    }
    assert(all.subrange(0, at as int) =~= all);
    proof {
        lemma_counts_are_bounded(all);
    }
    FileRow { path: folder.path.clone(), mutants: folder.entries.len(), survived, detected }
}

fn comes_first(a: &FileRow, b: &FileRow) -> (yes: bool)
    requires
        0 <= a.detected,
        0 <= a.survived,
        0 <= b.detected,
        0 <= b.survived,
        a@.scored() <= i64::MAX,
        b@.scored() <= i64::MAX,
    ensures
        yes == a@.precedes(b@),
{
    let a_scored: i64 = a.detected + a.survived;
    let b_scored: i64 = b.detected + b.survived;
    if a_scored == 0 && b_scored == 0 {
        text::comes_before(a.path.as_str(), b.path.as_str())
    } else if a_scored == 0 {
        false
    } else if b_scored == 0 {
        true
    } else {
        assert(0 <= a.detected * b_scored <= 0x7fff_ffff_ffff_ffff * 0x7fff_ffff_ffff_ffff)
            by (nonlinear_arith)
            requires
                0 <= a.detected <= 0x7fff_ffff_ffff_ffff,
                0 <= b_scored <= 0x7fff_ffff_ffff_ffff,
        ;
        assert(0 <= b.detected * a_scored <= 0x7fff_ffff_ffff_ffff * 0x7fff_ffff_ffff_ffff)
            by (nonlinear_arith)
            requires
                0 <= b.detected <= 0x7fff_ffff_ffff_ffff,
                0 <= a_scored <= 0x7fff_ffff_ffff_ffff,
        ;
        let left: i128 = a.detected as i128 * b_scored as i128;
        let right: i128 = b.detected as i128 * a_scored as i128;
        if left != right {
            left < right
        } else {
            text::comes_before(a.path.as_str(), b.path.as_str())
        }
    }
}

proof fn lemma_with_line_at(list: Seq<Line>, line: Line, at: int)
    requires
        0 <= at <= list.len(),
        at > 0 ==> !line.precedes(list[at - 1]),
        forall|i: int| at <= i < list.len() ==> line.precedes(#[trigger] list[i]),
    ensures
        with_line(list, line) == list.insert(at, line),
    decreases list.len(),
{
    if at == list.len() {
        assert(list.insert(at, line) =~= list.push(line));
    } else {
        assert(line.precedes(list[list.len() - 1]));
        lemma_with_line_at(list.drop_last(), line, at);
        assert(list.insert(at, line) =~= list.drop_last().insert(at, line).push(list.last()));
    }
}

/// Whether a line counts what can be counted.
spec fn countable(row: FileRow) -> bool {
    0 <= row.detected && 0 <= row.survived && row@.scored() <= i64::MAX
}

proof fn lemma_entries_in_are_fewer(list: Seq<Entry>, path: Seq<char>)
    ensures
        filing::entries_in(list, path).len() <= list.len(),
    decreases list.len(),
{
    if list.len() > 0 {
        lemma_entries_in_are_fewer(list.drop_last(), path);
    }
}

/// The table of the files, the worst first.
fn rank_files(folders: &[Folder<'_>]) -> (rows: Vec<FileRow>)
    requires
        forall|k: int| 0 <= k < folders@.len() ==> (#[trigger] folders@[k]).entries@.len() <= i64::MAX,
    ensures
        table(rows@) == ranked(filing::folders(folders@)),
        forall|k: int| 0 <= k < rows@.len() ==> countable(#[trigger] rows@[k]),
{
    let ghost all = filing::folders(folders@);
    let mut rows: Vec<FileRow> = Vec::new();
    assert(table(rows@) =~= ranked(all.subrange(0, 0)));
    let mut next: usize = 0;
    while next < folders.len()
        invariant
            next <= folders@.len(),
            all == filing::folders(folders@),
            forall|k: int|
                0 <= k < folders@.len() ==> (#[trigger] folders@[k]).entries@.len() <= i64::MAX,
            table(rows@) == ranked(all.subrange(0, next as int)),
            forall|k: int| 0 <= k < rows@.len() ==> countable(#[trigger] rows@[k]),
        decreases folders@.len() - next,
    {
        let folder: &Folder = &folders[next];
        assert(all.subrange(0, next + 1).drop_last() =~= all.subrange(0, next as int));
        assert(all.subrange(0, next + 1).last() == (
            folder.path@,
            filing::entries(folder.entries@),
        ));
        let row: FileRow = tally(folder);
        proof {
            lemma_counts_are_bounded(filing::entries(folder.entries@));
        }
        let ghost here = table(rows@);
        let mut at: usize = rows.len();
        let mut found: bool = false;
        while at > 0 && !found
            invariant
                at <= rows@.len(),
                here == table(rows@),
                countable(row),
                forall|k: int| 0 <= k < rows@.len() ==> countable(#[trigger] rows@[k]),
                found ==> at > 0 && !row@.precedes(here[at - 1]),
                forall|i: int| at <= i < here.len() ==> row@.precedes(#[trigger] here[i]),
            decreases
                at,
                if found {
                    0int
                } else {
                    1int
                },
        {
            assert(here[at - 1] == rows@[at - 1]@);
            assert(countable(rows@[at - 1]));
            if comes_first(&row, &rows[at - 1]) {
                at -= 1;
            } else {
                found = true;
            }
        }
        proof {
            lemma_with_line_at(here, row@, at as int);
        }
        let ghost placed = row;
        rows.insert(at, row);
        assert(table(rows@) =~= here.insert(at as int, placed@));
        assert forall|k: int| 0 <= k < rows@.len() implies countable(#[trigger] rows@[k]) by {
            if k == at {
                assert(rows@[k] == placed);
            }
        }
        next += 1;
    }
    assert(all.subrange(0, next as int) =~= all);
    rows
}

fn show_row(row: &FileRow, percents: &[Percent]) -> (out: String)
    requires
        countable(*row),
    ensures
        out@ == row@.row(shares(percents@)),
{
    let scored: i64 = row.detected + row.survived;
    let mut out: String = text::owned("<tr><td class=\"file\">");
    out.append(&escape(row.path.as_str()));
    out.append("</td><td class=\"n\">");
    out.append(&text::show_size(row.mutants));
    out.append("</td><td class=\"n\">");
    out.append(&text::show_i64(row.survived));
    out.append("</td><td class=\"n ");
    let mut cell: String = String::new();
    if scored == 0 {
        cell.append("none\">&mdash;");
        assert(cell@ =~= "none\">&mdash;"@);
    } else {
        cell.append(band_of(row.detected, scored));
        assert(cell@ =~= band(row.detected as int, scored as int));
        cell.append("\">");
        cell.append(&percent_of(percents, row.detected, scored));
        cell.append("%");
    }
    out.append(&cell);
    out.append("</td></tr>");
    out
}

fn files_of(settled: &[Settled]) -> (folders: Vec<Folder<'_>>)
    requires
        settled@.len() <= i64::MAX,
    ensures
        filing::folders(folders@) == filing::filed(filing::settled_entries(settled@)),
        forall|k: int|
            0 <= k < folders@.len() ==> (#[trigger] folders@[k]).entries@.len() <= i64::MAX,
{
    let refs: Vec<&Settled> = filing::all_of(settled);
    let folders: Vec<Folder> = filing::by_file(&refs);
    let ghost all = filing::settled_entries(settled@);
    assert forall|k: int| 0 <= k < folders@.len() implies (#[trigger] folders@[k]).entries@.len()
        <= i64::MAX by {
        assert(filing::folders(folders@)[k] == filing::filed(all)[k]);
        assert(filing::folders(folders@)[k].1.len() == folders@[k].entries@.len());
        assert(filing::folders(folders@).len() == filing::paths_of(all).len());
        let path = filing::paths_of(all)[k];
        assert(filing::filed(all)[k] == (path, filing::entries_in(all, path)));
        lemma_entries_in_are_fewer(all, path);
    }
    folders
}

/// The part a terminal cannot do. Worst score first, because that is the file to
/// open next; a file with no score at all sorts last, since it asks a different
/// question.
pub fn file_rows(settled: &[Settled], percents: &[Percent]) -> (out: String)
    requires
        settled@.len() <= i64::MAX,
    ensures
        out@ == row_list(
            ranked(filing::filed(filing::settled_entries(settled@))),
            shares(percents@),
        ),
{
    let ghost all = ranked(filing::filed(filing::settled_entries(settled@)));
    let folders: Vec<Folder> = files_of(settled);
    let rows: Vec<FileRow> = rank_files(&folders);
    assert(all.len() == rows@.len());
    let mut out: String = String::new();
    assert(out@ =~= row_list(all.subrange(0, 0), shares(percents@)));
    let mut at: usize = 0;
    while at < rows.len()
        invariant
            at <= rows@.len(),
            all == table(rows@),
            forall|k: int| 0 <= k < rows@.len() ==> countable(#[trigger] rows@[k]),
            out@ == row_list(all.subrange(0, at as int), shares(percents@)),
        decreases rows@.len() - at,
    {
        assert(all.subrange(0, at + 1).drop_last() =~= all.subrange(0, at as int));
        assert(all.subrange(0, at + 1).last() == rows@[at as int]@);
        assert(countable(rows@[at as int]));
        out.append(&show_row(&rows[at], percents));
        at += 1;
    }
    assert(all.subrange(0, at as int) =~= all);
    out
}

/// A survivor, as the list under its file shows it.
pub struct Survivor {
    pub line: u32,
    pub original: String,
    pub replacement: String,
    pub executed: bool,
}

/// A survivor as plain values.
#[verifier::ext_equal]
pub struct Alive {
    pub line: int,
    pub original: Seq<char>,
    pub replacement: Seq<char>,
    pub executed: bool,
}

impl View for Survivor {
    type V = Alive;

    open spec fn view(&self) -> Alive {
        Alive {
            line: self.line as int,
            original: self.original@,
            replacement: self.replacement@,
            executed: self.executed,
        }
    }
}

impl Keyed for Survivor {
    open spec fn rank(&self) -> int {
        self.line as int
    }

    fn key(&self) -> (key: u128) {
        self.line as u128
    }
}

/// Survivors as plain values.
pub open spec fn living(list: Seq<Survivor>) -> Seq<Alive> {
    list.map_values(|survivor: Survivor| survivor@)
}

/// The survivors among these mutants.
pub open spec fn alive_in(list: Seq<Entry>) -> Seq<Alive>
    decreases list.len(),
{
    if list.len() == 0 {
        Seq::empty()
    } else if list.last().status == Some(Status::Survived) {
        alive_in(list.drop_last()).push(
            Alive {
                line: list.last().mutant.line,
                original: list.last().mutant.original,
                replacement: list.last().mutant.replacement,
                executed: list.last().executed,
            },
        )
    } else {
        alive_in(list.drop_last())
    }
}

/// Survivors by their line.
pub open spec fn by_line() -> spec_fn(Alive) -> int {
    |alive: Alive| alive.line
}

/// What a replacement reads as. A removal has no replacement text, and an empty
/// cell reads as a rendering bug rather than as the deletion it is.
pub open spec fn shown_as(replacement: Seq<char>) -> Seq<char> {
    if replacement.len() == 0 {
        "<em>removed</em>"@
    } else {
        escaped(replacement)
    }
}

pub fn shown(replacement: &str) -> (out: String)
    ensures
        out@ == shown_as(replacement@),
{
    if replacement.is_empty() {
        text::owned("<em>removed</em>")
    } else {
        escape(replacement)
    }
}

impl Alive {
    /// The item of this survivor. One that no test covers is a different finding
    /// and a different fix: its line wants a test at all, not merely a better
    /// assertion.
    pub open spec fn item(self) -> Seq<char> {
        "<li><span class=\"line\">"@ + text::signed(self.line) + "</span> <del>"@ + escaped(
            self.original,
        ) + "</del> &rarr; <ins>"@ + shown_as(self.replacement) + "</ins>"@ + (if self.executed {
            ""@
        } else {
            " <span class=\"line\">no test covers this</span>"@
        }) + "</li>"@
    }
}

/// The items of some survivors, one after the other.
pub open spec fn item_list(list: Seq<Alive>) -> Seq<char>
    decreases list.len(),
{
    if list.len() == 0 {
        Seq::empty()
    } else {
        item_list(list.drop_last()) + list.last().item()
    }
}

/// The sections of some files, one after the other. A file without survivors
/// has none.
pub open spec fn section_list(folders: Seq<(Seq<char>, Seq<Entry>)>) -> Seq<char>
    decreases folders.len(),
{
    if folders.len() == 0 {
        Seq::empty()
    } else {
        let before = section_list(folders.drop_last());
        let (path, list) = folders.last();
        if alive_in(list).len() == 0 {
            before
        } else {
            before + "<h3>"@ + escaped(path) + "</h3><ul>"@ + item_list(
                sorting::in_order(alive_in(list), by_line()),
            ) + "</ul>"@
        }
    }
}

/// The survivors by file, or that there are none.
pub open spec fn survivor_sections(list: Seq<Entry>) -> Seq<char> {
    let sections = section_list(filing::filed(list));
    if sections.len() == 0 {
        "<p class=\"empty\">No survivors. Every mutant your tests could judge, they caught.</p>"@
    } else {
        sections
    }
}

fn collect_alive(entries: &[&Settled]) -> (list: Vec<Survivor>)
    ensures
        living(list@) == alive_in(filing::entries(entries@)),
{
    let ghost all = filing::entries(entries@);
    let mut list: Vec<Survivor> = Vec::new();
    assert(living(list@) =~= alive_in(all.subrange(0, 0)));
    let mut at: usize = 0;
    while at < entries.len()
        invariant
            at <= entries@.len(),
            all == filing::entries(entries@),
            living(list@) == alive_in(all.subrange(0, at as int)),
        decreases entries@.len() - at,
    {
        let entry: &Settled = entries[at];
        assert(all.subrange(0, at + 1).drop_last() =~= all.subrange(0, at as int));
        assert(all.subrange(0, at + 1).last() == entry@);
        let ghost before = living(list@);
        if matches!(entry.status, Some(Status::Survived)) {
            let survivor: Survivor = Survivor {
                line: entry.mutant.line,
                original: entry.mutant.original.clone(),
                replacement: entry.mutant.replacement.clone(),
                executed: entry.executed,
            };
            list.push(survivor);
            assert(living(list@) =~= before.push(survivor@));
        }
        at += 1;
    }
    assert(all.subrange(0, at as int) =~= all);
    list
}

fn show_survivor(survivor: &Survivor) -> (out: String)
    ensures
        out@ == survivor@.item(),
{
    let mut out: String = text::owned("<li><span class=\"line\">");
    out.append(&text::show_i64(survivor.line as i64));
    out.append("</span> <del>");
    out.append(&escape(survivor.original.as_str()));
    out.append("</del> &rarr; <ins>");
    out.append(&shown(survivor.replacement.as_str()));
    out.append("</ins>");
    out.append(
        if survivor.executed {
            ""
        } else {
            " <span class=\"line\">no test covers this</span>"
        },
    );
    out.append("</li>");
    out
}

fn show_survivors(entries: &[&Settled]) -> (out: String)
    ensures
        out@ == item_list(
            sorting::in_order(alive_in(filing::entries(entries@)), by_line()),
        ),
{
    let found: Vec<Survivor> = collect_alive(entries);
    let ghost unsorted = found@;
    let list: Vec<Survivor> = sorting::sort(found);
    let ghost all = sorting::in_order(alive_in(filing::entries(entries@)), by_line());
    proof {
        let picture = |survivor: Survivor| survivor@;
        sorting::lemma_sorting_pictures(
            unsorted,
            sorting::ranks::<Survivor>(),
            picture,
            by_line(),
        );
        assert(living(list@) =~= all);
    }
    let mut out: String = String::new();
    assert(out@ =~= item_list(all.subrange(0, 0)));
    let mut at: usize = 0;
    assert(all.len() == list@.len());
    while at < list.len()
        invariant
            at <= list@.len(),
            all == living(list@),
            out@ == item_list(all.subrange(0, at as int)),
        decreases list@.len() - at,
    {
        assert(all.subrange(0, at + 1).drop_last() =~= all.subrange(0, at as int));
        assert(all.subrange(0, at + 1).last() == list@[at as int]@);
        out.append(&show_survivor(&list[at]));
        at += 1;
    }
    assert(all.subrange(0, at as int) =~= all);
    out
}

/// Grouped by file, because a survivor is only actionable next to its
/// neighbours: five in one function is one missing test, not five.
pub fn survivors(settled: &[Settled]) -> (out: String)
    ensures
        out@ == survivor_sections(filing::settled_entries(settled@)),
{
    let refs: Vec<&Settled> = filing::all_of(settled);
    let folders: Vec<Folder> = filing::by_file(&refs);
    let ghost all = filing::filed(filing::settled_entries(settled@));
    assert(all.len() == folders@.len());
    let mut sections: String = String::new();
    assert(sections@ =~= section_list(all.subrange(0, 0)));
    let mut at: usize = 0;
    while at < folders.len()
        invariant
            at <= folders@.len(),
            all == filing::folders(folders@),
            sections@ == section_list(all.subrange(0, at as int)),
        decreases folders@.len() - at,
    {
        let folder: &Folder = &folders[at];
        assert(all.subrange(0, at + 1).drop_last() =~= all.subrange(0, at as int));
        assert(all.subrange(0, at + 1).last() == (
            folder.path@,
            filing::entries(folder.entries@),
        ));
        let alive: Vec<Survivor> = collect_alive(&folder.entries);
        assert(living(alive@).len() == alive@.len());
        if alive.len() > 0 {
            sections.append("<h3>");
            sections.append(&escape(folder.path.as_str()));
            sections.append("</h3><ul>");
            sections.append(&show_survivors(&folder.entries));
            sections.append("</ul>");
        }
        at += 1;
    }
    assert(all.subrange(0, at as int) =~= all);
    if sections.as_str().is_empty() {
        text::owned(
            "<p class=\"empty\">No survivors. Every mutant your tests could judge, they caught.</p>",
        )
    } else {
        sections
    }
}

/// The rows of some facts, one after the other.
pub open spec fn fact_row_list(facts: Seq<(Seq<char>, Seq<char>)>) -> Seq<char>
    decreases facts.len(),
{
    if facts.len() == 0 {
        Seq::empty()
    } else {
        fact_row_list(facts.drop_last()) + ("<tr><td>"@ + escaped(facts.last().0)
            + "</td><td class=\"mono\">"@ + escaped(facts.last().1) + "</td></tr>"@)
    }
}

/// What the run was made of.
pub fn fact_rows(diagnostics: &Diagnostics) -> (out: String)
    ensures
        out@ == fact_row_list(diagnostics@.facts),
{
    let facts: &[(String, String)] = diagnostics.facts();
    let ghost all = report::pairs(facts@);
    assert(all.len() == facts@.len());
    let mut out: String = String::new();
    assert(out@ =~= fact_row_list(all.subrange(0, 0)));
    let mut at: usize = 0;
    while at < facts.len()
        invariant
            at <= facts@.len(),
            all == report::pairs(facts@),
            out@ == fact_row_list(all.subrange(0, at as int)),
        decreases facts@.len() - at,
    {
        assert(all.subrange(0, at + 1).drop_last() =~= all.subrange(0, at as int));
        assert(all.subrange(0, at + 1).last() == (facts@[at as int].0@, facts@[at as int].1@));
        let mut row: String = text::owned("<tr><td>");
        row.append(&escape(facts[at].0.as_str()));
        row.append("</td><td class=\"mono\">");
        row.append(&escape(facts[at].1.as_str()));
        row.append("</td></tr>");
        out.append(&row);
        at += 1;
    }
    assert(all.subrange(0, at as int) =~= all);
    out
}

/// The score at the top of the page.
pub open spec fn headline(score: Score, percents: Seq<Share>) -> Seq<char> {
    if score.detected + score.survived == 0 {
        "no score"@
    } else {
        share_of(percents, score.detected, score.detected + score.survived) + "%"@
    }
}

/// The colour of the score at the top of the page.
pub open spec fn headline_band(score: Score) -> Seq<char> {
    if score.detected + score.survived == 0 {
        "none"@
    } else {
        band(score.detected, score.detected + score.survived)
    }
}

/// What stands under the score.
pub open spec fn headline_detail(score: Score) -> Seq<char> {
    if score.detected + score.survived == 0 {
        "nothing could be measured, which is also what a broken test command looks like"@
    } else {
        text::signed(score.detected) + " of "@ + text::signed(score.detected + score.survived)
            + " mutants detected"@
    }
}

/// The first of these names, from this one on, that stands at a place of a
/// template. A name without characters stands nowhere.
pub open spec fn placeholder_at(
    template: Seq<char>,
    fillings: Seq<(Seq<char>, Seq<char>)>,
    at: int,
    from: int,
) -> Option<int>
    decreases fillings.len() - from,
{
    if from >= fillings.len() {
        None
    } else if fillings[from].0.len() > 0 && text::occurs_at(template, fillings[from].0, at) {
        Some(from)
    } else {
        placeholder_at(template, fillings, at, from + 1)
    }
}

pub proof fn lemma_placeholder(
    template: Seq<char>,
    fillings: Seq<(Seq<char>, Seq<char>)>,
    at: int,
    from: int,
)
    requires
        0 <= from,
    ensures
        placeholder_at(template, fillings, at, from) matches Some(k) ==> from <= k < fillings.len()
            && fillings[k].0.len() > 0 && text::occurs_at(template, fillings[k].0, at),
    decreases fillings.len() - from,
{
    if from < fillings.len() {
        lemma_placeholder(template, fillings, at, from + 1);
    }
}

/// A template from one place on, with every name in it replaced by what is given
/// for it. Only the template is searched: what is filled in stands as it is,
/// whatever names it holds.
pub open spec fn filled(
    template: Seq<char>,
    fillings: Seq<(Seq<char>, Seq<char>)>,
    at: int,
) -> Seq<char>
    decreases template.len() - at,
{
    proof {
        lemma_placeholder(template, fillings, at, 0);
    }
    if at >= template.len() {
        Seq::empty()
    } else {
        match placeholder_at(template, fillings, at, 0) {
            Some(k) => fillings[k].1 + filled(template, fillings, at + fillings[k].0.len()),
            None => seq![template[at]] + filled(template, fillings, at + 1),
        }
    }
}

/// Names and what is filled in for them, as plain values.
pub open spec fn given_for(list: Seq<(&'static str, String)>) -> Seq<(Seq<char>, Seq<char>)> {
    list.map_values(|pair: (&'static str, String)| (pair.0@, pair.1@))
}

fn find_placeholder(
    template: &[char],
    fillings: &Vec<(&'static str, String)>,
    at: usize,
) -> (found: Option<usize>)
    ensures
        found.is_some() == placeholder_at(
            template@,
            given_for(fillings@),
            at as int,
            0,
        ).is_some(),
        found matches Some(k) ==> k < fillings@.len() && placeholder_at(
            template@,
            given_for(fillings@),
            at as int,
            0,
        ) == Some(k as int) && 0 < fillings@[k as int].0@.len() <= template@.len() - at,
{
    let ghost all = given_for(fillings@);
    let mut next: usize = 0;
    while next < fillings.len()
        invariant
            next <= fillings@.len(),
            all == given_for(fillings@),
            placeholder_at(template@, all, at as int, 0) == placeholder_at(
                template@,
                all,
                at as int,
                next as int,
            ),
        decreases fillings@.len() - next,
    {
        let name: Vec<char> = text::chars_of(fillings[next].0);
        assert(all[next as int].0 == name@);
        if name.len() > 0 && text::stands_at(template, &name, at) {
            return Some(next);
        }
        next += 1;
    }
    None
}

fn fill(template: &str, fillings: &Vec<(&'static str, String)>) -> (out: String)
    ensures
        out@ == filled(template@, given_for(fillings@), 0),
{
    let chars: Vec<char> = text::chars_of(template);
    let ghost all = given_for(fillings@);
    let mut out: String = String::new();
    let mut at: usize = 0;
    assert(out@ + filled(chars@, all, 0) =~= filled(chars@, all, 0));
    while at < chars.len()
        invariant
            at <= chars@.len(),
            all == given_for(fillings@),
            out@ + filled(chars@, all, at as int) == filled(chars@, all, 0),
        decreases chars@.len() - at,
    {
        let ghost before = out@;
        let ghost here = at as int;
        match find_placeholder(&chars, fillings, at) {
            Some(k) => {
                let length: usize = text::chars_of(fillings[k].0).len();
                assert(all[k as int] == (fillings@[k as int].0@, fillings@[k as int].1@));
                out.append(&fillings[k].1);
                at += length;
                assert(out@ + filled(chars@, all, at as int) =~= before + filled(chars@, all, here));
            },
            None => {
                out.push(chars[at]);
                at += 1;
                assert(out@ + filled(chars@, all, at as int) =~= before + filled(chars@, all, here));
            },
        }
    }
    assert(out@ + filled(chars@, all, at as int) =~= out@);
    out
}

/// What stands in for each name in double braces.
pub open spec fn fillings(
    list: Seq<Entry>,
    counts: Seq<(Seq<char>, int)>,
    findings: Findings,
    percents: Seq<Share>,
    version: Seq<char>,
) -> Seq<(Seq<char>, Seq<char>)> {
    let score = report::summed(counts);
    seq![
        ("{{SCORE_BAND}}"@, headline_band(score)),
        ("{{SCORE}}"@, headline(score, percents)),
        ("{{SCORE_DETAIL}}"@, headline_detail(score)),
        ("{{PROBLEMS}}"@, problem_panel(findings.problems)),
        ("{{COUNT_ROWS}}"@, count_row_list(counts)),
        ("{{FILE_ROWS}}"@, row_list(ranked(filing::filed(list)), percents)),
        ("{{SURVIVORS}}"@, survivor_sections(list)),
        ("{{FACT_ROWS}}"@, fact_row_list(findings.facts)),
        ("{{VERSION}}"@, version),
    ]
}

/// The page of a run: the template with every name in double braces replaced.
pub open spec fn page(
    list: Seq<Entry>,
    counts: Seq<(Seq<char>, int)>,
    findings: Findings,
    percents: Seq<Share>,
    version: Seq<char>,
) -> Seq<char> {
    filled(TEMPLATE@, fillings(list, counts, findings, percents, version), 0)
}

/// The page of a run. The score is asked for, never recomputed, so the page and
/// the terminal cannot disagree.
pub fn render(
    settled: &[Settled],
    counts: &[(String, i64)],
    diagnostics: &Diagnostics,
    percents: &[Percent],
    version: &str,
) -> (out: String)
    requires
        settled@.len() <= i64::MAX,
        report::can_be_summed(report::tallies(counts@)),
    ensures
        out@ == page(
            filing::settled_entries(settled@),
            report::tallies(counts@),
            diagnostics@,
            shares(percents@),
            version@,
        ),
{
    let summary: Summary = Summary::of(counts);
    let scored: i64 = summary.scored();
    let detected: i64 = summary.detected();
    let mut score: String = String::new();
    let mut detail: String = String::new();
    let band: &'static str = if scored == 0 {
        score.append("no score");
        detail.append(
            "nothing could be measured, which is also what a broken test command looks like",
        );
        assert(score@ =~= headline(summary@, shares(percents@)));
        assert(detail@ =~= headline_detail(summary@));
        "none"
    } else {
        score.append(&percent_of(percents, detected, scored));
        score.append("%");
        detail.append(&text::show_i64(detected));
        detail.append(" of ");
        detail.append(&text::show_i64(scored));
        detail.append(" mutants detected");
        assert(score@ =~= headline(summary@, shares(percents@)));
        assert(detail@ =~= headline_detail(summary@));
        band_of(detected, scored)
    };
    let mut list: Vec<(&'static str, String)> = Vec::new();
    list.push(("{{SCORE_BAND}}", text::owned(band)));
    list.push(("{{SCORE}}", score));
    list.push(("{{SCORE_DETAIL}}", detail));
    list.push(("{{PROBLEMS}}", problems(diagnostics)));
    list.push(("{{COUNT_ROWS}}", count_rows(counts)));
    list.push(("{{FILE_ROWS}}", file_rows(settled, percents)));
    list.push(("{{SURVIVORS}}", survivors(settled)));
    list.push(("{{FACT_ROWS}}", fact_rows(diagnostics)));
    list.push(("{{VERSION}}", text::owned(version)));
    assert(given_for(list@) =~= fillings(
        filing::settled_entries(settled@),
        report::tallies(counts@),
        diagnostics@,
        shares(percents@),
        version@,
    ));
    fill(TEMPLATE, &list)
}

/// The scores a page shows: of the whole run, and of each file that has one.
pub open spec fn ratios_in(lines: Seq<Line>) -> Seq<(int, int)>
    decreases lines.len(),
{
    if lines.len() == 0 {
        Seq::empty()
    } else if lines.last().scored() == 0 {
        ratios_in(lines.drop_last())
    } else {
        ratios_in(lines.drop_last()).push((lines.last().detected, lines.last().scored()))
    }
}

/// Pairs of counts as plain values.
pub open spec fn ratio_values(list: Seq<(i64, i64)>) -> Seq<(int, int)> {
    list.map_values(|pair: (i64, i64)| (pair.0 as int, pair.1 as int))
}

/// The scores of the files of a page, as detected and scored: what percentages
/// the page needs besides the one at its top.
pub fn ratios(settled: &[Settled]) -> (list: Vec<(i64, i64)>)
    requires
        settled@.len() <= i64::MAX,
    ensures
        ratio_values(list@) == ratios_in(
            ranked(filing::filed(filing::settled_entries(settled@))),
        ),
{
    let ghost all = ranked(filing::filed(filing::settled_entries(settled@)));
    let folders: Vec<Folder> = files_of(settled);
    let rows: Vec<FileRow> = rank_files(&folders);
    assert(all.len() == rows@.len());
    let mut list: Vec<(i64, i64)> = Vec::new();
    assert(ratio_values(list@) =~= ratios_in(all.subrange(0, 0)));
    let mut at: usize = 0;
    while at < rows.len()
        invariant
            at <= rows@.len(),
            all == table(rows@),
            forall|k: int| 0 <= k < rows@.len() ==> countable(#[trigger] rows@[k]),
            ratio_values(list@) == ratios_in(all.subrange(0, at as int)),
        decreases rows@.len() - at,
    {
        assert(all.subrange(0, at + 1).drop_last() =~= all.subrange(0, at as int));
        assert(all.subrange(0, at + 1).last() == rows@[at as int]@);
        assert(countable(rows@[at as int]));
        let detected: i64 = rows[at].detected;
        let scored: i64 = detected + rows[at].survived;
        let ghost before = ratio_values(list@);
        if scored != 0 {
            list.push((detected, scored));
            assert(ratio_values(list@) =~= before.push((detected as int, scored as int)));
        }
        at += 1;
    }
    assert(all.subrange(0, at as int) =~= all);
    list
}

/// Whether no line comes before one that stands above it.
pub open spec fn is_ranked(lines: Seq<Line>) -> bool {
    forall|i: int, j: int|
        0 <= i < j < lines.len() ==> !(#[trigger] lines[j]).precedes(#[trigger] lines[i])
}

/// Whether a line counts at least nothing.
pub open spec fn is_count(line: Line) -> bool {
    line.detected >= 0 && line.survived >= 0
}

proof fn lemma_fractions(a: int, b: int, c: int, d: int, e: int, f: int)
    requires
        b > 0,
        d > 0,
        f > 0,
        a * d <= c * b,
        c * f <= e * d,
    ensures
        a * f <= e * b,
        a * f == e * b ==> a * d == c * b && c * f == e * d,
{
    assert(a * d * f <= c * b * f) by (nonlinear_arith)
        requires
            a * d <= c * b,
            f > 0,
    ;
    assert(c * f * b <= e * d * b) by (nonlinear_arith)
        requires
            c * f <= e * d,
            b > 0,
    ;
    assert(a * f * d <= e * b * d) by (nonlinear_arith)
        requires
            a * d * f <= c * b * f,
            c * f * b <= e * d * b,
    ;
    assert(a * f <= e * b) by (nonlinear_arith)
        requires
            a * f * d <= e * b * d,
            d > 0,
    ;
    if a * f == e * b {
        assert(a * f * d == e * b * d) by (nonlinear_arith)
            requires
                a * f == e * b,
        ;
        assert(a * d * f == c * b * f) by (nonlinear_arith)
            requires
                a * f * d == e * b * d,
                a * d * f <= c * b * f,
                c * f * b <= e * d * b,
        ;
        assert(a * d == c * b) by (nonlinear_arith)
            requires
                a * d * f == c * b * f,
                f > 0,
        ;
        assert(c * f * b == e * d * b) by (nonlinear_arith)
            requires
                a * f * d == e * b * d,
                a * d * f == c * b * f,
        ;
        assert(c * f == e * d) by (nonlinear_arith)
            requires
                c * f * b == e * d * b,
                b > 0,
        ;
    }
}

proof fn lemma_not_preceded(a: Line, b: Line, c: Line)
    requires
        is_count(a),
        is_count(b),
        is_count(c),
        !b.precedes(a),
        !c.precedes(b),
    ensures
        !c.precedes(a),
{
    if c.scored() == 0 && a.scored() == 0 {
        if b.scored() == 0 {
            names::lemma_not_before(a.path, b.path, c.path);
        }
    } else if c.scored() > 0 && a.scored() > 0 && b.scored() > 0 {
        lemma_fractions(
            a.detected,
            a.scored(),
            b.detected,
            b.scored(),
            c.detected,
            c.scored(),
        );
        if c.detected * a.scored() == a.detected * c.scored() {
            names::lemma_not_before(a.path, b.path, c.path);
        }
    }
}

proof fn lemma_never_both(a: Line, b: Line)
    requires
        a.precedes(b),
    ensures
        !b.precedes(a),
{
    text::lemma_before_is_an_order(a.path, b.path);
}

proof fn lemma_with_line(list: Seq<Line>, line: Line)
    requires
        is_ranked(list),
        is_count(line),
        forall|k: int| 0 <= k < list.len() ==> is_count(#[trigger] list[k]),
    ensures
        is_ranked(with_line(list, line)),
        forall|k: int|
            0 <= k < with_line(list, line).len() ==> is_count(#[trigger] with_line(list, line)[k]),
        with_line(list, line).len() == list.len() + 1,
        with_line(list, line).last() == line || (list.len() > 0 && with_line(list, line).last()
            == list.last()),
    decreases list.len(),
{
    let out = with_line(list, line);
    if list.len() == 0 || !line.precedes(list.last()) {
        assert forall|i: int, j: int| 0 <= i < j < out.len() implies !(#[trigger] out[j]).precedes(
            #[trigger] out[i],
        ) by {
            if j == out.len() - 1 && i < list.len() - 1 {
                assert(!list[list.len() - 1].precedes(list[i]));
                assert(is_count(list[i]) && is_count(list[list.len() - 1]));
                lemma_not_preceded(list[i], list.last(), line);
            }
        }
    } else {
        let shorter = list.drop_last();
        lemma_with_line(shorter, line);
        let inside = with_line(shorter, line);
        lemma_never_both(line, list.last());
        assert(is_count(list[list.len() - 1]));
        assert(!list.last().precedes(inside.last())) by {
            if shorter.len() > 0 {
                assert(shorter.last() == list[list.len() - 2]);
                assert(!list[list.len() - 1].precedes(list[list.len() - 2]));
            }
        }
        assert forall|i: int, j: int| 0 <= i < j < out.len() implies !(#[trigger] out[j]).precedes(
            #[trigger] out[i],
        ) by {
            if j < out.len() - 1 {
                assert(!inside[j].precedes(inside[i]));
            } else if i < inside.len() - 1 {
                assert(!inside[inside.len() - 1].precedes(inside[i]));
                assert(is_count(inside[i]) && is_count(inside[inside.len() - 1]));
                lemma_not_preceded(inside[i], inside.last(), list.last());
            }
        }
    }
}

/// The table ranks every file, from the worst score to the best, with the files
/// that have none behind them all.
pub proof fn law_the_worst_file_comes_first(folders: Seq<(Seq<char>, Seq<Entry>)>)
    ensures
        is_ranked(ranked(folders)),
        ranked(folders).len() == folders.len(),
        forall|k: int| 0 <= k < ranked(folders).len() ==> is_count(#[trigger] ranked(folders)[k]),
    decreases folders.len(),
{
    if folders.len() > 0 {
        law_the_worst_file_comes_first(folders.drop_last());
        lemma_counts_are_bounded(folders.last().1);
        lemma_with_line(ranked(folders.drop_last()), line_of(folders.last()));
    }
}

/// Escaping goes character by character: the five characters of markup become
/// what stands for them, and every other one stays.
pub proof fn law_escaping_goes_character_by_character(a: Seq<char>, b: Seq<char>, c: char)
    ensures
        escaped(a + b) == escaped(a) + escaped(b),
        escaped(seq!['&']) == seq!['&', 'a', 'm', 'p', ';'],
        escaped(seq!['<']) == seq!['&', 'l', 't', ';'],
        escaped(seq!['>']) == seq!['&', 'g', 't', ';'],
        escaped(seq!['"']) == seq!['&', 'q', 'u', 'o', 't', ';'],
        escaped(seq!['\'']) == seq!['&', '#', '3', '9', ';'],
        c != '&' && c != '<' && c != '>' && c != '"' && c != '\'' ==> escaped(seq![c]) == seq![c],
    decreases b.len(),
{
    reveal_strlit("&amp;");
    reveal_strlit("&lt;");
    reveal_strlit("&gt;");
    reveal_strlit("&quot;");
    reveal_strlit("&#39;");
    assert forall|one: char| escaped(#[trigger] seq![one]) == markup_char(one) by {
        assert(seq![one].drop_last() =~= Seq::<char>::empty());
        assert(escaped(seq![one].drop_last()) =~= Seq::<char>::empty());
        assert(escaped(seq![one]) =~= markup_char(one));
    }
    assert("&amp;"@ =~= seq!['&', 'a', 'm', 'p', ';']);
    assert("&lt;"@ =~= seq!['&', 'l', 't', ';']);
    assert("&gt;"@ =~= seq!['&', 'g', 't', ';']);
    assert("&quot;"@ =~= seq!['&', 'q', 'u', 'o', 't', ';']);
    assert("&#39;"@ =~= seq!['&', '#', '3', '9', ';']);
    if b.len() == 0 {
        assert(a + b =~= a);
        assert(escaped(a) + escaped(b) =~= escaped(a));
    } else {
        law_escaping_goes_character_by_character(a, b.drop_last(), c);
        assert((a + b).drop_last() =~= a + b.drop_last());
        assert((a + b).last() == b.last());
        assert(escaped(a + b) =~= escaped(a) + escaped(b));
    }
}

/// A score is good from four fifths on, and bad below one half.
pub proof fn law_a_score_has_its_colour(detected: int, scored: int)
    ensures
        5 * detected >= 4 * scored <==> band(detected, scored) == "good"@,
        5 * detected < 4 * scored && 2 * detected >= scored <==> band(detected, scored) == "warn"@,
        5 * detected < 4 * scored && 2 * detected < scored <==> band(detected, scored) == "bad"@,
{
    reveal_strlit("good");
    reveal_strlit("warn");
    reveal_strlit("bad");
    assert("good"@[0] == 'g' && "warn"@[0] == 'w' && "bad"@[0] == 'b');
}

/// A percentage reads as it was given for these two counts, the last one given
/// deciding.
pub proof fn law_a_percentage_is_found_by_its_counts(
    list: Seq<Share>,
    detected: int,
    scored: int,
    k: int,
)
    requires
        0 <= k < list.len(),
        list[k].detected == detected,
        list[k].scored == scored,
        forall|j: int|
            k < j < list.len() ==> (#[trigger] list[j]).detected != detected || list[j].scored
                != scored,
    ensures
        share_of(list, detected, scored) == list[k].shown,
    decreases list.len(),
{
    if k < list.len() - 1 {
        let fewer = list.drop_last();
        assert(fewer[k] == list[k]);
        assert(list[list.len() - 1] == list.last());
        assert forall|j: int| k < j < fewer.len() implies (#[trigger] fewer[j]).detected != detected
            || fewer[j].scored != scored by {
            assert(fewer[j] == list[j]);
        }
        law_a_percentage_is_found_by_its_counts(fewer, detected, scored, k);
    }
}

/// A file counts as detected what was killed or ran out of time, and as survived
/// what survived.
pub proof fn law_a_file_counts_its_mutants(list: Seq<Entry>)
    ensures
        detected_in(list) == list.filter(
            |entry: Entry|
                entry.status == Some(Status::Killed) || entry.status == Some(Status::Timeout),
        ).len(),
        survived_in(list) == list.filter(
            |entry: Entry| entry.status == Some(Status::Survived),
        ).len(),
    decreases list.len(),
{
    reveal(Seq::filter);
    if list.len() > 0 {
        law_a_file_counts_its_mutants(list.drop_last());
    }
}

/// Of two files in the table the upper one has the lower score; files without a
/// score stand at the end; and files that score alike stand by their paths.
pub proof fn law_scores_rise_down_the_table(
    folders: Seq<(Seq<char>, Seq<Entry>)>,
    i: int,
    j: int,
)
    requires
        0 <= i < j < folders.len(),
    ensures
        ({
            let upper = ranked(folders)[i];
            let lower = ranked(folders)[j];
            let upper_scored = upper.detected + upper.survived;
            let lower_scored = lower.detected + lower.survived;
            &&& upper_scored == 0 ==> lower_scored == 0
            &&& upper_scored > 0 && lower_scored > 0 ==> upper.detected * lower_scored
                <= lower.detected * upper_scored
            &&& upper_scored > 0 && lower_scored > 0 && upper.detected * lower_scored
                == lower.detected * upper_scored ==> !text::before(lower.path, upper.path)
            &&& upper_scored == 0 ==> !text::before(lower.path, upper.path)
        }),
{
    law_the_worst_file_comes_first(folders);
    let lines = ranked(folders);
    assert(!lines[j].precedes(lines[i]));
    assert(is_count(lines[i]) && is_count(lines[j]));
}

proof fn lemma_with_line_adds_it(list: Seq<Line>, line: Line)
    ensures
        with_line(list, line).to_multiset() == list.to_multiset().insert(line),
    decreases list.len(),
{
    broadcast use vstd::seq_lib::group_to_multiset_ensures;

    if list.len() == 0 || !line.precedes(list.last()) {
        assert(with_line(list, line).to_multiset() =~= list.to_multiset().insert(line));
    } else {
        lemma_with_line_adds_it(list.drop_last(), line);
        assert(list =~= list.drop_last().push(list.last()));
        assert(with_line(list, line).to_multiset() =~= list.to_multiset().insert(line));
    }
}

/// The table has exactly one line for each file, with the number of its mutants,
/// of its survivors and of those detected.
pub proof fn law_every_file_has_a_line(folders: Seq<(Seq<char>, Seq<Entry>)>)
    ensures
        ranked(folders).to_multiset() == folders.map_values(
            |folder: (Seq<char>, Seq<Entry>)|
                Line {
                    path: folder.0,
                    mutants: folder.1.len() as int,
                    survived: survived_in(folder.1),
                    detected: detected_in(folder.1),
                },
        ).to_multiset(),
    decreases folders.len(),
{
    broadcast use vstd::seq_lib::group_to_multiset_ensures;

    let line = |folder: (Seq<char>, Seq<Entry>)|
        Line {
            path: folder.0,
            mutants: folder.1.len() as int,
            survived: survived_in(folder.1),
            detected: detected_in(folder.1),
        };
    if folders.len() > 0 {
        let fewer = folders.drop_last();
        law_every_file_has_a_line(fewer);
        lemma_with_line_adds_it(ranked(fewer), line_of(folders.last()));
        assert(folders.map_values(line) =~= fewer.map_values(line).push(line(folders.last())));
    } else {
        assert(folders.map_values(line) =~= Seq::<Line>::empty());
        assert(ranked(folders) =~= Seq::<Line>::empty());
    }
}

proof fn lemma_part_of_a_sum(before: Seq<char>, part: Seq<char>, last: Seq<char>)
    requires
        text::occurs(before, part),
    ensures
        text::occurs(before + last, part),
{
    text::lemma_occurs_within(Seq::empty(), before, last, part);
    assert(Seq::<char>::empty() + before + last =~= before + last);
}

proof fn lemma_end_of_a_sum(before: Seq<char>, last: Seq<char>)
    ensures
        text::occurs(before + last, last),
{
    text::lemma_occurs_between(before, last, Seq::empty());
    assert(before + last + Seq::<char>::empty() =~= before + last);
}

/// Every line of the table is a row of the page: the path, the number of mutants
/// and of survivors, and the score in its colour, or a dash without one.
pub proof fn law_every_line_is_a_row(lines: Seq<Line>, percents: Seq<Share>, k: int)
    requires
        0 <= k < lines.len(),
    ensures
        ({
            let line = lines[k];
            let scored = line.detected + line.survived;
            let cells = "<tr><td class=\"file\">"@ + escaped(line.path) + "</td><td class=\"n\">"@
                + text::decimal(line.mutants as nat) + "</td><td class=\"n\">"@ + text::signed(
                line.survived,
            ) + "</td><td class=\"n "@;
            &&& scored == 0 ==> text::occurs(
                row_list(lines, percents),
                cells + "none\">&mdash;"@ + "</td></tr>"@,
            )
            &&& scored != 0 ==> text::occurs(
                row_list(lines, percents),
                cells + (band(line.detected, scored) + "\">"@ + share_of(
                    percents,
                    line.detected,
                    scored,
                ) + "%"@) + "</td></tr>"@,
            )
        }),
    decreases lines.len(),
{
    let before = row_list(lines.drop_last(), percents);
    let last = lines.last().row(percents);
    if k == lines.len() - 1 {
        lemma_end_of_a_sum(before, last);
    } else {
        assert(lines.drop_last()[k] == lines[k]);
        law_every_line_is_a_row(lines.drop_last(), percents, k);
        lemma_part_of_a_sum(before, lines[k].row(percents), last);
    }
}

/// Every count is a row of the page: the status, the number, and whether it is
/// scored. An error and what could not be tested are not, nor is what has no
/// verdict yet.
pub proof fn law_every_count_is_a_row(counts: Seq<(Seq<char>, int)>, k: int)
    requires
        0 <= k < counts.len(),
    ensures
        text::occurs(
            count_row_list(counts),
            "<tr><td>"@ + escaped(counts[k].0) + "</td><td class=\"n\">"@ + text::signed(
                counts[k].1,
            ) + "</td><td>"@ + scored_words(counts[k].0) + "</td></tr>"@,
        ),
        scored_words("killed"@) == "yes"@,
        scored_words("survived"@) == "yes"@,
        scored_words("timeout"@) == "yes"@,
        scored_words("error"@) == "no, it never ran cleanly"@,
        scored_words("untestable"@) == "no, its tests were already red"@,
        scored_words("pending"@) == "not yet, it has not run"@,
    decreases counts.len(),
{
    reveal_strlit("pending");
    reveal_strlit("killed");
    reveal_strlit("survived");
    reveal_strlit("timeout");
    reveal_strlit("error");
    reveal_strlit("untestable");
    assert("pending"@[0] == 'p' && "killed"@[0] == 'k' && "survived"@[0] == 's' && "timeout"@[0]
        == 't' && "error"@[0] == 'e' && "untestable"@[0] == 'u');
    crate::mutate::law_statuses_survive_a_round_trip(Status::Killed);
    crate::mutate::law_statuses_survive_a_round_trip(Status::Survived);
    crate::mutate::law_statuses_survive_a_round_trip(Status::Timeout);
    crate::mutate::law_statuses_survive_a_round_trip(Status::Error);
    crate::mutate::law_statuses_survive_a_round_trip(Status::Untestable);
    let before = count_row_list(counts.drop_last());
    let last = count_row(counts.last());
    if k == counts.len() - 1 {
        lemma_end_of_a_sum(before, last);
    } else {
        assert(counts.drop_last()[k] == counts[k]);
        law_every_count_is_a_row(counts.drop_last(), k);
        lemma_part_of_a_sum(before, count_row(counts[k]), last);
    }
}

/// Every fact of the run is a row of the page.
pub proof fn law_every_fact_is_a_row(facts: Seq<(Seq<char>, Seq<char>)>, k: int)
    requires
        0 <= k < facts.len(),
    ensures
        text::occurs(
            fact_row_list(facts),
            "<tr><td>"@ + escaped(facts[k].0) + "</td><td class=\"mono\">"@ + escaped(facts[k].1)
                + "</td></tr>"@,
        ),
    decreases facts.len(),
{
    let before = fact_row_list(facts.drop_last());
    let last = "<tr><td>"@ + escaped(facts.last().0) + "</td><td class=\"mono\">"@ + escaped(
        facts.last().1,
    ) + "</td></tr>"@;
    if k == facts.len() - 1 {
        lemma_end_of_a_sum(before, last);
    } else {
        assert(facts.drop_last()[k] == facts[k]);
        law_every_fact_is_a_row(facts.drop_last(), k);
        lemma_part_of_a_sum(
            before,
            "<tr><td>"@ + escaped(facts[k].0) + "</td><td class=\"mono\">"@ + escaped(facts[k].1)
                + "</td></tr>"@,
            last,
        );
    }
}

proof fn lemma_every_problem_is_an_item(list: Seq<Trouble>, k: int)
    requires
        0 <= k < list.len(),
    ensures
        text::occurs(problem_items(list), problem_item(list[k])),
    decreases list.len(),
{
    let before = problem_items(list.drop_last());
    let last = problem_item(list.last());
    if k == list.len() - 1 {
        lemma_end_of_a_sum(before, last);
    } else {
        assert(list.drop_last()[k] == list[k]);
        lemma_every_problem_is_an_item(list.drop_last(), k);
        lemma_part_of_a_sum(before, problem_item(list[k]), last);
    }
}

/// Everything that was found wrong is in the panel, a warning as something to
/// check and the rest as a note, and there is no panel when nothing is wrong.
pub proof fn law_every_problem_is_in_the_panel(list: Seq<Trouble>, k: int)
    requires
        0 <= k < list.len(),
    ensures
        list[k].level is Warn ==> text::occurs(
            problem_panel(list),
            "<li class=\"warn\"><span class=\"tag\">CHECK</span><span>"@ + escaped(list[k].message)
                + "</span></li>"@,
        ),
        list[k].level is Info ==> text::occurs(
            problem_panel(list),
            "<li class=\"none\"><span class=\"tag\">NOTE</span><span>"@ + escaped(list[k].message)
                + "</span></li>"@,
        ),
        problem_panel(Seq::empty()).len() == 0,
{
    lemma_every_problem_is_an_item(list, k);
    text::lemma_occurs_within(
        "<h2>Worth checking</h2>\n<ul class=\"problems\">"@,
        problem_items(list),
        "</ul>"@,
        problem_item(list[k]),
    );
}

/// The survivors of a file are its mutants that survived, each with its line and
/// its change.
pub proof fn law_every_survivor_is_alive(list: Seq<Entry>)
    ensures
        alive_in(list) == list.filter(
            |entry: Entry| entry.status == Some(Status::Survived),
        ).map_values(
            |entry: Entry|
                Alive {
                    line: entry.mutant.line,
                    original: entry.mutant.original,
                    replacement: entry.mutant.replacement,
                    executed: entry.executed,
                },
        ),
    decreases list.len(),
{
    reveal(Seq::filter);
    let survived = |entry: Entry| entry.status == Some(Status::Survived);
    let alive = |entry: Entry|
        Alive {
            line: entry.mutant.line,
            original: entry.mutant.original,
            replacement: entry.mutant.replacement,
            executed: entry.executed,
        };
    if list.len() > 0 {
        law_every_survivor_is_alive(list.drop_last());
        let before = list.drop_last().filter(survived);
        if survived(list.last()) {
            assert(list.filter(survived) == before.push(list.last()));
            assert(before.push(list.last()).map_values(alive) =~= before.map_values(alive).push(
                alive(list.last()),
            ));
        }
    } else {
        assert(list.filter(survived).map_values(alive) =~= Seq::<Alive>::empty());
    }
}

proof fn lemma_every_alive_is_an_item(list: Seq<Alive>, k: int)
    requires
        0 <= k < list.len(),
    ensures
        text::occurs(item_list(list), list[k].item()),
    decreases list.len(),
{
    let before = item_list(list.drop_last());
    let last = list.last().item();
    if k == list.len() - 1 {
        lemma_end_of_a_sum(before, last);
    } else {
        assert(list.drop_last()[k] == list[k]);
        lemma_every_alive_is_an_item(list.drop_last(), k);
        lemma_part_of_a_sum(before, list[k].item(), last);
    }
}

/// What the page shows of a survivor: its line, what it replaced and with what,
/// where an empty replacement is called a removal. That no test runs the line is
/// said exactly when none does.
pub proof fn law_an_item_shows_the_change(alive: Alive)
    ensures
        ({
            let change = "<li><span class=\"line\">"@ + text::signed(alive.line)
                + "</span> <del>"@ + escaped(alive.original) + "</del> &rarr; <ins>"@ + (
            if alive.replacement.len() == 0 {
                "<em>removed</em>"@
            } else {
                escaped(alive.replacement)
            }) + "</ins>"@;
            &&& alive.executed ==> alive.item() == change + "</li>"@
            &&& !alive.executed ==> alive.item() == change
                + " <span class=\"line\">no test covers this</span>"@ + "</li>"@
        }),
{
    reveal_strlit("");
    assert(""@ =~= Seq::<char>::empty());
    let change = "<li><span class=\"line\">"@ + text::signed(alive.line) + "</span> <del>"@
        + escaped(alive.original) + "</del> &rarr; <ins>"@ + shown_as(alive.replacement)
        + "</ins>"@;
    assert(change + ""@ =~= change);
}

proof fn lemma_section(
    folders: Seq<(Seq<char>, Seq<Entry>)>,
    p: int,
    alive: Alive,
)
    requires
        0 <= p < folders.len(),
        alive_in(folders[p].1).contains(alive),
    ensures
        text::occurs(section_list(folders), alive.item()),
        text::occurs(section_list(folders), "<h3>"@ + escaped(folders[p].0) + "</h3><ul>"@),
        section_list(folders).len() > 0,
    decreases folders.len(),
{
    let before = section_list(folders.drop_last());
    let (path, list) = folders.last();
    let sorted = sorting::in_order(alive_in(list), by_line());
    let title = "<h3>"@ + escaped(path) + "</h3><ul>"@;
    reveal_strlit("<h3>");
    if p == folders.len() - 1 {
        broadcast use vstd::seq_lib::group_to_multiset_ensures;

        sorting::law_sorting_orders_and_keeps_everything(alive_in(list), by_line());
        assert(alive_in(list).to_multiset().count(alive) > 0);
        assert(sorted.to_multiset().count(alive) > 0);
        assert(sorted.contains(alive));
        let k = choose|k: int| 0 <= k < sorted.len() && sorted[k] == alive;
        lemma_every_alive_is_an_item(sorted, k);
        text::lemma_occurs_within(before + title, item_list(sorted), "</ul>"@, alive.item());
        let rest = item_list(sorted) + "</ul>"@;
        text::lemma_occurs_between(before, title, rest);
        assert(before + title + rest =~= section_list(folders));
        assert(before + title + item_list(sorted) + "</ul>"@ =~= section_list(folders));
    } else {
        assert(folders.drop_last()[p] == folders[p]);
        lemma_section(folders.drop_last(), p, alive);
        if alive_in(list).len() > 0 {
            let more = title + item_list(sorted) + "</ul>"@;
            assert(before + more =~= section_list(folders));
            lemma_part_of_a_sum(before, alive.item(), more);
            lemma_part_of_a_sum(before, "<h3>"@ + escaped(folders[p].0) + "</h3><ul>"@, more);
        }
    }
}

/// Every survivor of a run is shown, in the section of its file.
pub proof fn law_every_survivor_is_shown(list: Seq<Entry>, entry: Entry)
    requires
        list.contains(entry),
        entry.status == Some(Status::Survived),
    ensures
        ({
            let alive = Alive {
                line: entry.mutant.line,
                original: entry.mutant.original,
                replacement: entry.mutant.replacement,
                executed: entry.executed,
            };
            &&& text::occurs(survivor_sections(list), alive.item())
            &&& text::occurs(
                survivor_sections(list),
                "<h3>"@ + escaped(entry.path()) + "</h3><ul>"@,
            )
        }),
{
    let alive = Alive {
        line: entry.mutant.line,
        original: entry.mutant.original,
        replacement: entry.mutant.replacement,
        executed: entry.executed,
    };
    filing::law_every_mutant_is_filed_under_its_path(list, entry);
    let paths = filing::paths_of(list);
    let p = choose|p: int| 0 <= p < paths.len() && paths[p] == entry.path();
    let mine = filing::entries_in(list, entry.path());
    let folders = filing::filed(list);
    assert(folders[p] == (entry.path(), mine));
    let k = choose|k: int| 0 <= k < mine.len() && mine[k] == entry;
    lemma_alive(mine, k);
    lemma_section(folders, p, alive);
}

proof fn lemma_alive(list: Seq<Entry>, k: int)
    requires
        0 <= k < list.len(),
        list[k].status == Some(Status::Survived),
    ensures
        alive_in(list).contains(
            Alive {
                line: list[k].mutant.line,
                original: list[k].mutant.original,
                replacement: list[k].mutant.replacement,
                executed: list[k].executed,
            },
        ),
    decreases list.len(),
{
    let now = alive_in(list);
    let before = alive_in(list.drop_last());
    let alive = Alive {
        line: list[k].mutant.line,
        original: list[k].mutant.original,
        replacement: list[k].mutant.replacement,
        executed: list[k].executed,
    };
    if k == list.len() - 1 {
        assert(now[now.len() - 1] == alive);
    } else {
        assert(list.drop_last()[k] == list[k]);
        lemma_alive(list.drop_last(), k);
        let m = choose|m: int| 0 <= m < before.len() && before[m] == alive;
        assert(now[m] == alive);
    }
}

/// The top of the page shows the score the counts have, out of the killed, those
/// that ran out of time and the survivors, or says that there is none.
pub proof fn law_the_headline_shows_what_was_counted(
    counts: Seq<(Seq<char>, int)>,
    percents: Seq<Share>,
)
    ensures
        ({
            let detected = report::named_total(counts, "killed"@) + report::named_total(
                counts,
                "timeout"@,
            );
            let scored = detected + report::named_total(counts, "survived"@);
            let score = report::summed(counts);
            &&& scored != 0 ==> headline(score, percents) == share_of(percents, detected, scored)
                + "%"@
            &&& scored != 0 ==> headline_band(score) == band(detected, scored)
            &&& scored != 0 ==> headline_detail(score) == text::signed(detected) + " of "@
                + text::signed(scored) + " mutants detected"@
            &&& scored == 0 ==> headline(score, percents) == "no score"@ && headline_band(score)
                == "none"@
        }),
{
    report::law_each_name_counts_in_its_column(counts);
}

/// Each name in the page stands for its own part of the report.
pub proof fn law_each_name_has_its_filling(
    list: Seq<Entry>,
    counts: Seq<(Seq<char>, int)>,
    findings: Findings,
    percents: Seq<Share>,
    version: Seq<char>,
)
    ensures
        ({
            let given = fillings(list, counts, findings, percents, version);
            let score = report::summed(counts);
            &&& given.len() == 9
            &&& given.contains(("{{SCORE}}"@, headline(score, percents)))
            &&& given.contains(("{{SCORE_BAND}}"@, headline_band(score)))
            &&& given.contains(("{{SCORE_DETAIL}}"@, headline_detail(score)))
            &&& given.contains(("{{PROBLEMS}}"@, problem_panel(findings.problems)))
            &&& given.contains(("{{COUNT_ROWS}}"@, count_row_list(counts)))
            &&& given.contains(
                ("{{FILE_ROWS}}"@, row_list(ranked(filing::filed(list)), percents)),
            )
            &&& given.contains(("{{SURVIVORS}}"@, survivor_sections(list)))
            &&& given.contains(("{{FACT_ROWS}}"@, fact_row_list(findings.facts)))
            &&& given.contains(("{{VERSION}}"@, version))
        }),
{
    let given = fillings(list, counts, findings, percents, version);
    let score = report::summed(counts);
    assert(given[0] == ("{{SCORE_BAND}}"@, headline_band(score)));
    assert(given[1] == ("{{SCORE}}"@, headline(score, percents)));
    assert(given[2] == ("{{SCORE_DETAIL}}"@, headline_detail(score)));
    assert(given[3] == ("{{PROBLEMS}}"@, problem_panel(findings.problems)));
    assert(given[4] == ("{{COUNT_ROWS}}"@, count_row_list(counts)));
    assert(given[5] == ("{{FILE_ROWS}}"@, row_list(ranked(filing::filed(list)), percents)));
    assert(given[6] == ("{{SURVIVORS}}"@, survivor_sections(list)));
    assert(given[7] == ("{{FACT_ROWS}}"@, fact_row_list(findings.facts)));
    assert(given[8] == ("{{VERSION}}"@, version));
}

proof fn lemma_no_placeholder(
    template: Seq<char>,
    fillings: Seq<(Seq<char>, Seq<char>)>,
    at: int,
    from: int,
)
    requires
        0 <= from,
        forall|k: int|
            from <= k < fillings.len() ==> (#[trigger] fillings[k]).0.len() == 0
                || !text::occurs_at(template, fillings[k].0, at),
    ensures
        placeholder_at(template, fillings, at, from).is_none(),
    decreases fillings.len() - from,
{
    if from < fillings.len() {
        assert(fillings[from].0.len() == 0 || !text::occurs_at(template, fillings[from].0, at));
        lemma_no_placeholder(template, fillings, at, from + 1);
    }
}

/// What stands in front of the first name of a template stays as it is; the name
/// gives way to what is given for it; and the rest is filled in the same way.
pub proof fn law_a_name_gives_way_to_its_filling(
    template: Seq<char>,
    fillings: Seq<(Seq<char>, Seq<char>)>,
    from: int,
    at: int,
    k: int,
)
    requires
        0 <= from <= at < template.len(),
        forall|i: int, j: int|
            from <= i < at && 0 <= j < fillings.len() ==> (#[trigger] fillings[j]).0.len() == 0
                || !#[trigger] text::occurs_at(template, fillings[j].0, i),
        0 <= k < fillings.len(),
        fillings[k].0.len() > 0,
        text::occurs_at(template, fillings[k].0, at),
        forall|j: int|
            0 <= j < k ==> (#[trigger] fillings[j]).0.len() == 0 || !text::occurs_at(
                template,
                fillings[j].0,
                at,
            ),
    ensures
        filled(template, fillings, from) == template.subrange(from, at) + fillings[k].1 + filled(
            template,
            fillings,
            at + fillings[k].0.len(),
        ),
    decreases at - from,
{
    if from == at {
        lemma_first_placeholder(template, fillings, at, 0, k);
        assert(template.subrange(from, at) + fillings[k].1 =~= fillings[k].1);
    } else {
        assert forall|j: int| 0 <= j < fillings.len() implies (#[trigger] fillings[j]).0.len() == 0
            || !text::occurs_at(template, fillings[j].0, from) by {}
        lemma_no_placeholder(template, fillings, from, 0);
        law_a_name_gives_way_to_its_filling(template, fillings, from + 1, at, k);
        let rest = filled(template, fillings, at + fillings[k].0.len());
        assert(seq![template[from]] + (template.subrange(from + 1, at) + fillings[k].1 + rest)
            =~= template.subrange(from, at) + fillings[k].1 + rest);
    }
}

proof fn lemma_first_placeholder(
    template: Seq<char>,
    fillings: Seq<(Seq<char>, Seq<char>)>,
    at: int,
    from: int,
    k: int,
)
    requires
        0 <= from <= k < fillings.len(),
        fillings[k].0.len() > 0,
        text::occurs_at(template, fillings[k].0, at),
        forall|j: int|
            from <= j < k ==> (#[trigger] fillings[j]).0.len() == 0 || !text::occurs_at(
                template,
                fillings[j].0,
                at,
            ),
    ensures
        placeholder_at(template, fillings, at, from) == Some(k),
    decreases k - from,
{
    if from < k {
        assert(fillings[from].0.len() == 0 || !text::occurs_at(template, fillings[from].0, at));
        lemma_first_placeholder(template, fillings, at, from + 1, k);
    }
}

/// The scores a page needs to show are those of the files that have one.
pub proof fn law_every_scored_file_has_a_ratio(lines: Seq<Line>)
    ensures
        ratios_in(lines) == lines.filter(
            |line: Line| line.detected + line.survived != 0,
        ).map_values(|line: Line| (line.detected, line.detected + line.survived)),
    decreases lines.len(),
{
    reveal(Seq::filter);
    let scored = |line: Line| line.detected + line.survived != 0;
    let ratio = |line: Line| (line.detected, line.detected + line.survived);
    if lines.len() > 0 {
        law_every_scored_file_has_a_ratio(lines.drop_last());
        let before = lines.drop_last().filter(scored);
        if scored(lines.last()) {
            assert(lines.filter(scored) == before.push(lines.last()));
            assert(before.push(lines.last()).map_values(ratio) =~= before.map_values(ratio).push(
                ratio(lines.last()),
            ));
        }
    } else {
        assert(lines.filter(scored).map_values(ratio) =~= Seq::<(int, int)>::empty());
    }
}

} // verus!

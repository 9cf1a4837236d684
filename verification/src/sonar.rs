//! SonarQube's generic issue import format.
//!
//! A `rules` array declaring `cleanCodeAttribute` and `impacts` is what sets the
//! current shape apart from the deprecated one. **Nothing is installed on the
//! server.** SonarQube registers the two rules below as *external* rules from
//! this file alone, which is also why they never appear in a quality profile.

use vstd::prelude::*;
use vstd::utf8::*;

use crate::db::Settled;
use crate::filing::{self, Entry, Folder};
use crate::lines::{self, Lines, Position};
use crate::mutate::{self, NO_COVERAGE_RULE, SURVIVED_RULE};
use crate::schemata::{self, SourceFile};
use crate::stryker::{self, json, quoted};
use crate::text;

verus! {

broadcast use vstd::seq_lib::group_seq_properties;

/// A rule as the format declares it. `type` and `severity` are deliberately
/// absent: they are the older pair, optional once `impacts` is given.
pub open spec fn declared(
    id: Seq<char>,
    name: Seq<char>,
    description: Seq<char>,
    severity: Seq<char>,
) -> Seq<char> {
    "    { \"id\": "@ + json(id) + ", \"name\": "@ + json(name) + ", \"description\": "@ + json(
        description,
    ) + ", \"engineId\": "@ + json("Angelo"@) + ", \"cleanCodeAttribute\": "@ + json("TESTED"@)
        + ", \"impacts\": [{ \"softwareQuality\": \"MAINTAINABILITY\", \"severity\": \""@ + severity
        + "\" }] }"@
}

/// A rule as the format declares it.
pub fn rule(id: &str, name: &str, description: &str, severity: &str) -> (out: String)
    ensures
        out@ == declared(id@, name@, description@, severity@),
{
    let mut out: String = text::owned("    { \"id\": ");
    out.append(&quoted(id));
    out.append(", \"name\": ");
    out.append(&quoted(name));
    out.append(", \"description\": ");
    out.append(&quoted(description));
    out.append(", \"engineId\": ");
    out.append(&quoted("Angelo"));
    out.append(", \"cleanCodeAttribute\": ");
    out.append(&quoted("TESTED"));
    out.append(
        ", \"impacts\": [{ \"softwareQuality\": \"MAINTAINABILITY\", \"severity\": \"",
    );
    out.append(severity);
    out.append("\" }] }");
    out
}

impl Entry {
    /// The rule this mutant raises, if it raises one.
    pub open spec fn raised(self) -> Option<Seq<char>> {
        match self.status {
            Some(status) => status.raises(self.executed),
            None => None,
        }
    }

    /// What an issue about this mutant says.
    pub open spec fn message(self, rule: Seq<char>) -> Seq<char> {
        (if rule == NO_COVERAGE_RULE@ {
            "A mutant was not covered by any of the tests. "@
        } else {
            "A mutant survived after running the tests. "@
        }) + "The "@ + mutate::family_of(self.mutant.original, self.mutant.replacement)
            + " was mutated to "@ + self.mutant.replacement + " without any tests failing."@
    }

    /// An issue about this mutant. Sonar counts columns from 0 where the
    /// mutation-testing schema counts from 1, so every column loses one. Lines
    /// are 1-based in both and do not.
    pub open spec fn raised_issue(
        self,
        rule: Seq<char>,
        path: Seq<char>,
        source: Seq<char>,
    ) -> Seq<char> {
        let (start, end) = self.places(source);
        "    { \"ruleId\": "@ + json(rule)
            + ", \"effortMinutes\": 10, \"primaryLocation\": { \"message\": "@ + json(
            self.message(rule),
        ) + ", \"filePath\": "@ + json(path) + ", \"textRange\": { \"startLine\": "@ + text::signed(
            start.0,
        ) + ", \"startColumn\": "@ + text::signed(start.1 - 1) + ", \"endLine\": "@ + text::signed(
            end.0,
        ) + ", \"endColumn\": "@ + text::signed(end.1 - 1) + " } } }"@
    }
}

/// One issue, given the file's text and a cursor to walk it with. The issue
/// lands on the mutant's own line and columns, whatever the cursor was asked
/// before. A mutant that raises none leaves the cursor where it is.
pub fn issue(entry: &Settled, path: &str, source: &str, lines: &mut Lines) -> (out: Option<String>)
    ensures
        match entry@.raised() {
            Some(rule) => out matches Some(out) && out@ == entry@.raised_issue(
                rule,
                path@,
                source@,
            ) && final(lines)@ == lines::fresh().advanced(
                encode_utf8(source@),
                entry.mutant.byte_end as nat,
            ),
            None => out.is_none() && final(lines)@ == old(lines)@,
        },
{
    let rule_id: &'static str = match entry.raises() {
        Some(rule_id) => rule_id,
        None => return None,
    };
    let start: Position = lines.locate(source, entry.mutant.byte_start);
    let end: Position = lines.locate(source, entry.mutant.byte_end);
    let mut message: String = if text::same(rule_id, NO_COVERAGE_RULE) {
        text::owned("A mutant was not covered by any of the tests. ")
    } else {
        text::owned("A mutant survived after running the tests. ")
    };
    message.append("The ");
    message.append(entry.mutant.mutator());
    message.append(" was mutated to ");
    message.append(&entry.mutant.replacement);
    message.append(" without any tests failing.");
    assert(message@ == entry@.message(rule_id@));

    let mut out: String = text::owned("    { \"ruleId\": ");
    out.append(&quoted(rule_id));
    out.append(", \"effortMinutes\": 10, \"primaryLocation\": { \"message\": ");
    out.append(&quoted(message.as_str()));
    out.append(", \"filePath\": ");
    out.append(&quoted(path));
    out.append(", \"textRange\": { \"startLine\": ");
    out.append(&text::show_i64(start.line as i64));
    out.append(", \"startColumn\": ");
    out.append(&text::show_i64(start.column as i64 - 1));
    out.append(", \"endLine\": ");
    out.append(&text::show_i64(end.line as i64));
    out.append(", \"endColumn\": ");
    out.append(&text::show_i64(end.column as i64 - 1));
    out.append(" } } }");
    Some(out)
}

/// The mutants that raise an issue.
pub open spec fn raising(list: Seq<Entry>) -> Seq<Entry>
    decreases list.len(),
{
    if list.len() == 0 {
        Seq::empty()
    } else if list.last().raised().is_some() {
        raising(list.drop_last()).push(list.last())
    } else {
        raising(list.drop_last())
    }
}

/// The mutants that raise an issue. Everything a developer cannot act on in
/// their own file stays out.
pub fn raisers(settled: &[Settled]) -> (list: Vec<&Settled>)
    ensures
        filing::entries(list@) == raising(filing::settled_entries(settled@)),
{
    let ghost all = filing::settled_entries(settled@);
    let mut list: Vec<&Settled> = Vec::new();
    assert(filing::entries(list@) =~= raising(all.subrange(0, 0)));
    let mut at: usize = 0;
    while at < settled.len()
        invariant
            at <= settled@.len(),
            all == filing::settled_entries(settled@),
            filing::entries(list@) == raising(all.subrange(0, at as int)),
        decreases settled@.len() - at,
    {
        let entry: &Settled = &settled[at];
        assert(all.subrange(0, at + 1).drop_last() =~= all.subrange(0, at as int));
        assert(all.subrange(0, at + 1).last() == entry@);
        let ghost before = filing::entries(list@);
        if entry.raises().is_some() {
            list.push(entry);
            assert(filing::entries(list@) =~= before.push(entry@));
        }
        at += 1;
    }
    assert(all.subrange(0, at as int) =~= all);
    list
}

/// The issues of one file.
pub open spec fn issues_in(list: Seq<Entry>, path: Seq<char>, source: Seq<char>) -> Seq<Seq<char>>
    decreases list.len(),
{
    if list.len() == 0 {
        Seq::empty()
    } else {
        let before = issues_in(list.drop_last(), path, source);
        match list.last().raised() {
            Some(rule) => before.push(list.last().raised_issue(rule, path, source)),
            None => before,
        }
    }
}

/// The issues of several files, one file after the other.
pub open spec fn issues(
    folders: Seq<(Seq<char>, Seq<Entry>)>,
    sources: Seq<(Seq<char>, Seq<char>)>,
) -> Seq<Seq<char>>
    decreases folders.len(),
{
    if folders.len() == 0 {
        Seq::empty()
    } else {
        let (path, list) = folders.last();
        issues(folders.drop_last(), sources) + issues_in(
            list,
            path,
            stryker::text_of(sources, path),
        )
    }
}

/// The whole document.
pub open spec fn document(list: Seq<Entry>, sources: Seq<(Seq<char>, Seq<char>)>) -> Seq<char> {
    "{\n  \"rules\": [\n"@ + declared(
        SURVIVED_RULE@,
        "Mutant survived"@,
        "A fault was planted in this code and the test suite still passed. A test executes this line but asserts nothing about its behaviour. Add an assertion."@,
        "MEDIUM"@,
    ) + ",\n"@ + declared(
        NO_COVERAGE_RULE@,
        "Mutant not covered by any test"@,
        "A fault was planted in this code and no test executed it at all. This is a gap in the suite rather than a weak assertion. Write a test."@,
        "HIGH"@,
    ) + "\n  ],\n  \"issues\": [\n"@ + text::joined(
        issues(filing::filed(raising(list)), sources),
        ",\n"@,
    ) + "\n  ]\n}\n"@
}

fn add_issues(list: &mut Vec<String>, folder: &Folder<'_>, source: &str)
    ensures
        text::texts(final(list)@) == text::texts(old(list)@) + issues_in(
            filing::entries(folder.entries@),
            folder.path@,
            source@,
        ),
{
    let ghost start = text::texts(list@);
    let ghost all = filing::entries(folder.entries@);
    let mut lines: Lines = Lines::default();
    let ghost mut mine: Seq<Seq<char>> = Seq::empty();
    assert(text::texts(list@) =~= start + mine);
    assert(all.subrange(0, 0) =~= Seq::<Entry>::empty());
    let mut at: usize = 0;
    while at < folder.entries.len()
        invariant
            at <= folder.entries@.len(),
            all == filing::entries(folder.entries@),
            issues_in(all.subrange(0, at as int), folder.path@, source@) == mine,
            text::texts(list@) == start + mine,
        decreases folder.entries@.len() - at,
    {
        assert(all.subrange(0, at + 1).drop_last() =~= all.subrange(0, at as int));
        assert(all.subrange(0, at + 1).last() == folder.entries@[at as int]@);
        let ghost before = text::texts(list@);
        match issue(folder.entries[at], folder.path.as_str(), source, &mut lines) {
            Some(shown) => {
                list.push(shown);
                proof {
                    mine = mine.push(shown@);
                }
                assert(text::texts(list@) =~= before.push(shown@));
                assert(text::texts(list@) =~= start + mine);
            },
            None => {},
        }
        at += 1;
    }
    assert(all.subrange(0, at as int) =~= all);
}

/// The report of a run. `sources` are the texts of the files that raise an
/// issue, by the path a report names them with.
pub fn render(settled: &[Settled], sources: &[SourceFile]) -> (out: String)
    ensures
        out@ == document(filing::settled_entries(settled@), schemata::files(sources@)),
{
    let ghost known = schemata::files(sources@);
    let refs: Vec<&Settled> = raisers(settled);
    let folders: Vec<Folder> = filing::by_file(&refs);
    let ghost all = filing::folders(folders@);
    let mut list: Vec<String> = Vec::new();
    assert(text::texts(list@) =~= issues(all.subrange(0, 0), known));
    let mut at: usize = 0;
    while at < folders.len()
        invariant
            at <= folders@.len(),
            all == filing::folders(folders@),
            known == schemata::files(sources@),
            text::texts(list@) == issues(all.subrange(0, at as int), known),
        decreases folders@.len() - at,
    {
        assert(all.subrange(0, at + 1).drop_last() =~= all.subrange(0, at as int));
        assert(all.subrange(0, at + 1).last() == (
            folders@[at as int].path@,
            filing::entries(folders@[at as int].entries@),
        ));
        let source: String = stryker::find_text(sources, folders[at].path.as_str());
        add_issues(&mut list, &folders[at], source.as_str());
        at += 1;
    }
    assert(all.subrange(0, at as int) =~= all);
    let mut out: String = text::owned("{\n  \"rules\": [\n");
    out.append(
        &rule(
            SURVIVED_RULE,
            "Mutant survived",
            "A fault was planted in this code and the test suite still passed. A test executes this line but asserts nothing about its behaviour. Add an assertion.",
            "MEDIUM",
        ),
    );
    out.append(",\n");
    out.append(
        &rule(
            NO_COVERAGE_RULE,
            "Mutant not covered by any test",
            "A fault was planted in this code and no test executed it at all. This is a gap in the suite rather than a weak assertion. Write a test.",
            "HIGH",
        ),
    );
    out.append("\n  ],\n  \"issues\": [\n");
    out.append(&text::join(&list, ",\n"));
    out.append("\n  ]\n}\n");
    out
}

proof fn lemma_every_raiser_raises(list: Seq<Entry>)
    ensures
        forall|k: int|
            0 <= k < raising(list).len() ==> (#[trigger] raising(list)[k]).raised().is_some(),
    decreases list.len(),
{
    if list.len() > 0 {
        lemma_every_raiser_raises(list.drop_last());
    }
}

/// A file has exactly as many issues as mutants that raise one.
pub proof fn law_every_raiser_becomes_an_issue(
    list: Seq<Entry>,
    path: Seq<char>,
    source: Seq<char>,
)
    ensures
        issues_in(raising(list), path, source).len() == raising(list).len(),
        forall|k: int|
            0 <= k < raising(list).len() ==> (#[trigger] raising(list)[k]).status
                == Some(crate::mutate::Status::Survived),
    decreases list.len(),
{
    lemma_every_raiser_raises(list);
    if list.len() > 0 {
        law_every_raiser_becomes_an_issue(list.drop_last(), path, source);
        let now = raising(list);
        if list.last().raised().is_some() {
            assert(now.drop_last() =~= raising(list.drop_last()));
        }
    }
}

/// The mutants that raise an issue are the survivors, all of them, in order.
pub proof fn law_exactly_the_survivors_raise_an_issue(list: Seq<Entry>)
    ensures
        raising(list) == list.filter(
            |entry: Entry| entry.status == Some(crate::mutate::Status::Survived),
        ),
    decreases list.len(),
{
    reveal(Seq::filter);
    if list.len() > 0 {
        law_exactly_the_survivors_raise_an_issue(list.drop_last());
    } else {
        assert(raising(list) =~= list.filter(
            |entry: Entry| entry.status == Some(crate::mutate::Status::Survived),
        ));
    }
}

/// A survivor that no test ran raises the rule about coverage, and one that a
/// test ran the other.
pub proof fn law_a_survivor_raises_the_rule_it_breaks(entry: Entry)
    requires
        entry.status == Some(crate::mutate::Status::Survived),
    ensures
        entry.executed ==> entry.raised() == Some("MutantSurvived"@),
        !entry.executed ==> entry.raised() == Some("MutantNoCoverage"@),
{
}

/// An issue names its rule, its file and the range of the mutant: lines count
/// from one and columns from zero. The message says whether a test ran the line
/// and what the change was.
pub proof fn law_an_issue_says_where_and_what(
    entry: Entry,
    rule: Seq<char>,
    path: Seq<char>,
    source: Seq<char>,
)
    ensures
        ({
            let out = entry.raised_issue(rule, path, source);
            let start = lines::place_of(source, entry.mutant.byte_start);
            let end = lines::place_of(source, entry.mutant.byte_end);
            &&& text::occurs(out, json(rule))
            &&& text::occurs(out, json(path))
            &&& text::occurs(
                out,
                "\"startLine\": "@ + text::signed(start.0) + ", \"startColumn\": "@
                    + text::signed(start.1 - 1) + ", \"endLine\": "@ + text::signed(end.0)
                    + ", \"endColumn\": "@ + text::signed(end.1 - 1) + " } } }"@,
            )
            &&& text::occurs(out, json(entry.message(rule)))
        }),
{
    reveal_strlit(", \"textRange\": { \"startLine\": ");
    reveal_strlit(", \"textRange\": { ");
    reveal_strlit("\"startLine\": ");
    let start = lines::place_of(source, entry.mutant.byte_start);
    let end = lines::place_of(source, entry.mutant.byte_end);
    assert(", \"textRange\": { \"startLine\": "@ =~= ", \"textRange\": { "@ + "\"startLine\": "@);
    lemma_issue(
        "    { \"ruleId\": "@,
        json(rule),
        ", \"effortMinutes\": 10, \"primaryLocation\": { \"message\": "@,
        json(entry.message(rule)),
        ", \"filePath\": "@,
        json(path),
        ", \"textRange\": { "@,
        "\"startLine\": "@,
        text::signed(start.0),
        ", \"startColumn\": "@,
        text::signed(start.1 - 1),
        ", \"endLine\": "@,
        text::signed(end.0),
        ", \"endColumn\": "@,
        text::signed(end.1 - 1),
        " } } }"@,
    );
}

proof fn lemma_issue(
    a: Seq<char>,
    rule: Seq<char>,
    b: Seq<char>,
    message: Seq<char>,
    c: Seq<char>,
    path: Seq<char>,
    d: Seq<char>,
    e: Seq<char>,
    start_line: Seq<char>,
    f: Seq<char>,
    start_column: Seq<char>,
    g: Seq<char>,
    end_line: Seq<char>,
    h: Seq<char>,
    end_column: Seq<char>,
    i: Seq<char>,
)
    ensures
        ({
            let out = a + rule + b + message + c + path + (d + e) + start_line + f + start_column
                + g + end_line + h + end_column + i;
            let range = e + start_line + f + start_column + g + end_line + h + end_column + i;
            &&& text::occurs(out, rule)
            &&& text::occurs(out, message)
            &&& text::occurs(out, path)
            &&& text::occurs(out, range)
        }),
{
    let out = a + rule + b + message + c + path + (d + e) + start_line + f + start_column + g
        + end_line + h + end_column + i;
    let range = e + start_line + f + start_column + g + end_line + h + end_column + i;
    let front = a + rule + b + message + c + path + d;
    assert(front + range + Seq::<char>::empty() =~= out);
    text::lemma_occurs_between(front, range, Seq::empty());
    let x = b + message + c + path + d + range;
    assert(a + rule + x =~= out);
    text::lemma_occurs_between(a, rule, x);
    let y = a + rule + b;
    let z = c + path + d + range;
    assert(y + message + z =~= out);
    text::lemma_occurs_between(y, message, z);
    let u = y + message + c;
    let v = d + range;
    assert(u + path + v =~= out);
    text::lemma_occurs_between(u, path, v);
}

/// What an issue says: that no test ran the mutant or that the tests that ran it
/// passed, and what was changed into what.
pub proof fn law_a_message_tells_the_two_kinds_apart(entry: Entry)
    ensures
        entry.message("MutantNoCoverage"@) == "A mutant was not covered by any of the tests. "@
            + "The "@ + mutate::family_of(entry.mutant.original, entry.mutant.replacement)
            + " was mutated to "@ + entry.mutant.replacement + " without any tests failing."@,
        entry.message("MutantSurvived"@) == "A mutant survived after running the tests. "@
            + "The "@ + mutate::family_of(entry.mutant.original, entry.mutant.replacement)
            + " was mutated to "@ + entry.mutant.replacement + " without any tests failing."@,
{
    reveal_strlit("MutantNoCoverage");
    reveal_strlit("MutantSurvived");
    assert("MutantNoCoverage"@.len() != "MutantSurvived"@.len());
}

proof fn lemma_issue_in_file(list: Seq<Entry>, path: Seq<char>, source: Seq<char>, k: int)
    requires
        0 <= k < list.len(),
        list[k].raised().is_some(),
    ensures
        issues_in(list, path, source).contains(
            list[k].raised_issue(list[k].raised().unwrap(), path, source),
        ),
    decreases list.len(),
{
    let now = issues_in(list, path, source);
    let before = issues_in(list.drop_last(), path, source);
    let wanted = list[k].raised_issue(list[k].raised().unwrap(), path, source);
    if k == list.len() - 1 {
        assert(now[now.len() - 1] == wanted);
    } else {
        assert(list.drop_last()[k] == list[k]);
        lemma_issue_in_file(list.drop_last(), path, source, k);
        let m = choose|m: int| 0 <= m < before.len() && before[m] == wanted;
        assert(now[m] == wanted);
    }
}

proof fn lemma_issue_in_folders(
    folders: Seq<(Seq<char>, Seq<Entry>)>,
    sources: Seq<(Seq<char>, Seq<char>)>,
    p: int,
    wanted: Seq<char>,
)
    requires
        0 <= p < folders.len(),
        issues_in(folders[p].1, folders[p].0, stryker::text_of(sources, folders[p].0)).contains(
            wanted,
        ),
    ensures
        issues(folders, sources).contains(wanted),
    decreases folders.len(),
{
    let now = issues(folders, sources);
    let before = issues(folders.drop_last(), sources);
    let mine = issues_in(
        folders.last().1,
        folders.last().0,
        stryker::text_of(sources, folders.last().0),
    );
    if p == folders.len() - 1 {
        let m = choose|m: int| 0 <= m < mine.len() && mine[m] == wanted;
        assert(now[before.len() + m] == wanted);
    } else {
        assert(folders.drop_last()[p] == folders[p]);
        lemma_issue_in_folders(folders.drop_last(), sources, p, wanted);
        let m = choose|m: int| 0 <= m < before.len() && before[m] == wanted;
        assert(now[m] == wanted);
    }
}

/// Every survivor of the run is an issue of the report, under its own path and
/// located in the text of its own file.
pub proof fn law_every_survivor_is_in_the_report(
    list: Seq<Entry>,
    sources: Seq<(Seq<char>, Seq<char>)>,
    entry: Entry,
)
    requires
        list.contains(entry),
        entry.status == Some(crate::mutate::Status::Survived),
    ensures
        text::occurs(
            document(list, sources),
            entry.raised_issue(
                entry.raised().unwrap(),
                entry.path(),
                stryker::text_of(sources, entry.path()),
            ),
        ),
{
    let path = entry.path();
    let source = stryker::text_of(sources, path);
    let wanted = entry.raised_issue(entry.raised().unwrap(), path, source);
    let raisers = raising(list);
    let survivor = |entry: Entry| entry.status == Some(crate::mutate::Status::Survived);
    law_exactly_the_survivors_raise_an_issue(list);
    assert(raisers.contains(entry)) by {
        broadcast use vstd::seq_lib::group_filter_ensures;

        assert(survivor(entry));
        let k = choose|k: int| 0 <= k < list.len() && list[k] == entry;
        assert(list.filter(survivor).contains(list[k]));
    }
    filing::law_every_mutant_is_filed_under_its_path(raisers, entry);
    let paths = filing::paths_of(raisers);
    let p = choose|p: int| 0 <= p < paths.len() && paths[p] == path;
    let mine = filing::entries_in(raisers, path);
    let k = choose|k: int| 0 <= k < mine.len() && mine[k] == entry;
    let folders = filing::filed(raisers);
    assert(folders[p] == (path, mine));
    lemma_issue_in_file(mine, path, source, k);
    lemma_issue_in_folders(folders, sources, p, wanted);
    let all = issues(folders, sources);
    let m = choose|m: int| 0 <= m < all.len() && all[m] == wanted;
    text::law_every_piece_is_joined(all, ",\n"@, m);
    let inner = text::joined(all, ",\n"@);
    let out = document(list, sources);
    let tail = "\n  ]\n}\n"@;
    let head = out.subrange(0, out.len() - tail.len() - inner.len());
    assert(head + inner + tail =~= out);
    text::lemma_occurs_within(head, inner, tail, wanted);
}

/// A report declares the two rules its issues can break, the missing test being
/// the graver one.
pub proof fn law_both_rules_are_declared(list: Seq<Entry>, sources: Seq<(Seq<char>, Seq<char>)>)
    ensures
        text::begins(
            document(list, sources),
            "{\n  \"rules\": [\n"@ + declared(
                "MutantSurvived"@,
                "Mutant survived"@,
                "A fault was planted in this code and the test suite still passed. A test executes this line but asserts nothing about its behaviour. Add an assertion."@,
                "MEDIUM"@,
            ) + ",\n"@ + declared(
                "MutantNoCoverage"@,
                "Mutant not covered by any test"@,
                "A fault was planted in this code and no test executed it at all. This is a gap in the suite rather than a weak assertion. Write a test."@,
                "HIGH"@,
            ) + "\n  ],\n  \"issues\": [\n"@,
        ),
{
    let out = document(list, sources);
    let issues = text::joined(issues(filing::filed(raising(list)), sources), ",\n"@);
    let tail = issues + "\n  ]\n}\n"@;
    let head = "{\n  \"rules\": [\n"@ + declared(
        "MutantSurvived"@,
        "Mutant survived"@,
        "A fault was planted in this code and the test suite still passed. A test executes this line but asserts nothing about its behaviour. Add an assertion."@,
        "MEDIUM"@,
    ) + ",\n"@ + declared(
        "MutantNoCoverage"@,
        "Mutant not covered by any test"@,
        "A fault was planted in this code and no test executed it at all. This is a gap in the suite rather than a weak assertion. Write a test."@,
        "HIGH"@,
    ) + "\n  ],\n  \"issues\": [\n"@;
    assert(out == head + issues + "\n  ]\n}\n"@);
    assert(out.subrange(0, head.len() as int) =~= head);
}

/// A declared rule holds its id, its name, its description and its severity.
pub proof fn law_a_rule_holds_what_it_declares(
    id: Seq<char>,
    name: Seq<char>,
    description: Seq<char>,
    severity: Seq<char>,
)
    ensures
        ({
            let out = declared(id, name, description, severity);
            &&& text::begins(out, "    { \"id\": "@ + json(id) + ", \"name\": "@ + json(name))
            &&& text::occurs(out, ", \"description\": "@ + json(description))
            &&& text::ends(out, "\"severity\": \""@ + severity + "\" }] }"@)
        }),
{
    reveal_strlit(
        ", \"impacts\": [{ \"softwareQuality\": \"MAINTAINABILITY\", \"severity\": \"",
    );
    reveal_strlit("\"severity\": \"");
    reveal_strlit(", \"impacts\": [{ \"softwareQuality\": \"MAINTAINABILITY\", ");
    let out = declared(id, name, description, severity);
    let head = "    { \"id\": "@ + json(id) + ", \"name\": "@ + json(name);
    let middle = ", \"description\": "@ + json(description);
    let impacts =
        ", \"impacts\": [{ \"softwareQuality\": \"MAINTAINABILITY\", \"severity\": \""@;
    assert(impacts =~= ", \"impacts\": [{ \"softwareQuality\": \"MAINTAINABILITY\", "@
        + "\"severity\": \""@);
    lemma_declared(
        head,
        middle,
        ", \"engineId\": "@ + json("Angelo"@) + ", \"cleanCodeAttribute\": "@ + json("TESTED"@),
        ", \"impacts\": [{ \"softwareQuality\": \"MAINTAINABILITY\", "@,
        "\"severity\": \""@,
        severity,
        "\" }] }"@,
    );
    let engine = ", \"engineId\": "@ + json("Angelo"@) + ", \"cleanCodeAttribute\": "@ + json(
        "TESTED"@,
    );
    assert(out =~= head + middle + engine + impacts + severity + "\" }] }"@);
}

proof fn lemma_declared(
    head: Seq<char>,
    middle: Seq<char>,
    engine: Seq<char>,
    a: Seq<char>,
    b: Seq<char>,
    severity: Seq<char>,
    close: Seq<char>,
)
    ensures
        ({
            let out = head + middle + engine + (a + b) + severity + close;
            &&& text::begins(out, head)
            &&& text::occurs(out, middle)
            &&& text::ends(out, b + severity + close)
        }),
{
    let out = head + middle + engine + (a + b) + severity + close;
    assert(out.subrange(0, head.len() as int) =~= head);
    let rest = engine + (a + b) + severity + close;
    assert(out =~= head + middle + rest);
    text::lemma_occurs_between(head, middle, rest);
    let tail = b + severity + close;
    assert(out.subrange(out.len() - tail.len(), out.len() as int) =~= tail);
}

} // verus!

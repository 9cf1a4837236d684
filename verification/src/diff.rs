//! Which lines a change touched.

use vstd::prelude::*;

use crate::literals::{self, Read};
use crate::mutate::{self, Mutant, Planted};
use crate::text;

verus! {

broadcast use vstd::seq_lib::group_seq_properties;

/// Which lines a run is allowed to mutate.
///
/// The two variants answer different questions and only one of them suits a
/// pull request. `Since` compares a revision against the working tree, so on a
/// pushed branch, where nothing is uncommitted, it finds nothing at all.
/// `Branch` compares against the merge base, which is what the branch adds
/// however many commits it took and however far the base moved since.
pub enum Scope {
    /// `--diff [REV]`: everything that differs from REV right now.
    Since(String),
    /// `--diff-base [REV]`: what this branch adds on top of REV. `None` means
    /// work the base branch out.
    Branch(Option<String>),
}

/// Three dots, not two: `A...B` diffs merge-base(A, B) against B. The base
/// branch's own new commits never show up, and the branch's commits collapse
/// into one net change, so a line added in the first commit and deleted in
/// the third counts for nothing.
pub open spec fn from_merge_base(base: Seq<char>) -> Seq<char> {
    base + "...HEAD"@
}

pub fn merge_base_range(base: &str) -> (range: String)
    ensures
        range@ == from_merge_base(base@),
{
    let mut range: String = text::owned(base);
    range.append("...HEAD");
    range
}

impl Scope {
    /// The scope that the two flags ask for. At most one of them is given; the
    /// plain revision wins should both be.
    pub fn from_flags(diff: Option<String>, base: Option<Option<String>>) -> (scope: Option<Scope>)
        ensures
            scope == match (diff, base) {
                (Some(revision), _) => Some(Scope::Since(revision)),
                (None, Some(base)) => Some(Scope::Branch(base)),
                (None, None) => None,
            },
    {
        match (diff, base) {
            (Some(revision), _) => Some(Scope::Since(revision)),
            (None, Some(base)) => Some(Scope::Branch(base)),
            (None, None) => None,
        }
    }

    /// The revision range of a scope, or why there is none.
    pub open spec fn resolved(self, shallow: bool, default_base: Option<String>) -> Result<
        Seq<char>,
        Seq<char>,
    > {
        match self {
            Scope::Since(revision) => Ok(revision@),
            Scope::Branch(base) => if shallow {
                Err(
                    "--diff-base needs the history back to the merge base, but this is a shallow clone. In GitHub Actions, set `fetch-depth: 0` on actions/checkout"@,
                )
            } else {
                match base {
                    Some(base) => Ok(from_merge_base(base@)),
                    None => match default_base {
                        Some(base) => Ok(from_merge_base(base@)),
                        None => Err(
                            "no base branch found, name one: `angelo exec --diff-base main`"@,
                        ),
                    },
                }
            },
        }
    }

    /// The revision range to diff, resolved and fit to print. `shallow` says
    /// whether the clone is, and `default_base` is the base branch that was
    /// worked out, if there is one.
    ///
    /// A shallow clone has no merge base to find. Falling back to a two-dot
    /// diff would mutate whatever the two histories happen to disagree about
    /// and then report a confident score for it, so that stops instead.
    pub fn range(&self, shallow: bool, default_base: &Option<String>) -> (range: Result<
        String,
        String,
    >)
        ensures
            match self.resolved(shallow, *default_base) {
                Ok(expected) => range matches Ok(found) && found@ == expected,
                Err(why) => range matches Err(said) && said@ == why,
            },
    {
        match self {
            Scope::Since(revision) => Ok(revision.clone()),
            Scope::Branch(base) => {
                if shallow {
                    return Err(
                        text::owned(
                            "--diff-base needs the history back to the merge base, but this is a shallow clone. In GitHub Actions, set `fetch-depth: 0` on actions/checkout",
                        ),
                    );
                }
                match base {
                    Some(base) => Ok(merge_base_range(base.as_str())),
                    None => match default_base {
                        Some(base) => Ok(merge_base_range(base.as_str())),
                        None => Err(
                            text::owned(
                                "no base branch found, name one: `angelo exec --diff-base main`",
                            ),
                        ),
                    },
                }
            },
        }
    }
}

/// The branch that `GITHUB_BASE_REF` names, with and without its remote.
pub open spec fn from_actions(github_base_ref: Option<&str>) -> Seq<Seq<char>> {
    match github_base_ref {
        Some(branch) => if branch@.len() == 0 {
            Seq::empty()
        } else {
            seq!["origin/"@ + branch@, branch@]
        },
        None => Seq::empty(),
    }
}

/// The branch that origin's own HEAD points at.
pub open spec fn from_origin(origin_head: Option<&str>) -> Seq<Seq<char>> {
    match origin_head {
        Some(head) => if text::begins(text::trimmed(head@), "refs/remotes/"@) {
            seq![text::without_prefix(text::trimmed(head@), "refs/remotes/"@)]
        } else {
            Seq::empty()
        },
        None => Seq::empty(),
    }
}

/// Where to look for a base branch, in this order.
pub open spec fn candidates(github_base_ref: Option<&str>, origin_head: Option<&str>) -> Seq<
    Seq<char>,
> {
    from_actions(github_base_ref) + from_origin(origin_head) + seq![
        "origin/main"@,
        "main"@,
        "master"@,
    ]
}

/// Where to diff from when `--diff-base` is given no revision: the first of
/// these that names a revision.
///
/// GitHub Actions knows the answer exactly, so it comes first: `GITHUB_BASE_REF`
/// names the branch the pull request targets, and the checkout has it as a
/// remote branch rather than a local one. Otherwise origin's own HEAD is the
/// next best thing, and the usual names are the last resort.
pub fn base_candidates(github_base_ref: Option<&str>, origin_head: Option<&str>) -> (list: Vec<
    String,
>)
    ensures
        text::texts(list@) == candidates(github_base_ref, origin_head),
{
    let mut list: Vec<String> = Vec::new();
    match github_base_ref {
        Some(branch) => if !branch.is_empty() {
            let mut remote: String = text::owned("origin/");
            remote.append(branch);
            list.push(remote);
            list.push(text::owned(branch));
        },
        None => {},
    }
    assert(text::texts(list@) =~= from_actions(github_base_ref));
    match origin_head {
        Some(head) => {
            let trimmed: String = text::trim(head);
            match text::strip_prefix(trimmed.as_str(), "refs/remotes/") {
                Some(name) => list.push(name),
                None => {},
            }
        },
        None => {},
    }
    assert(text::texts(list@) =~= from_actions(github_base_ref) + from_origin(origin_head));
    list.push(text::owned("origin/main"));
    list.push(text::owned("main"));
    list.push(text::owned("master"));
    assert(text::texts(list@) =~= candidates(github_base_ref, origin_head));
    list
}

/// An unsigned number in decimal, when it fits in 32 bits.
pub open spec fn number_in(s: Seq<char>) -> Option<u32> {
    match literals::integer_value(s, 10) {
        Some(value) => if s[0] != '-' && value <= u32::MAX {
            Some(value as u32)
        } else {
            None
        },
        None => None,
    }
}

fn read_number(s: &str) -> (number: Option<u32>)
    ensures
        number == number_in(s@),
{
    let chars: Vec<char> = text::chars_of(s);
    if chars.len() > 0 && chars[0] == '-' {
        return None;
    }
    match literals::read_integer(&chars, 10, 0xffff_ffff) {
        Read::Integer { size, .. } => Some(size as u32),
        _ => None,
    }
}

/// The first word that names added lines, without its plus sign.
pub open spec fn first_added(words: Seq<Seq<char>>) -> Option<Seq<char>>
    decreases words.len(),
{
    if words.len() == 0 {
        None
    } else if text::begins(words[0], "+"@) {
        Some(text::without_prefix(words[0], "+"@))
    } else {
        first_added(words.drop_first())
    }
}

/// The lines a hunk added: the first one and how many. A missing count means
/// one line.
pub open spec fn added_in(hunk: Seq<char>) -> Option<(u32, u32)> {
    match first_added(text::words_of(hunk)) {
        None => None,
        Some(added) => {
            let (start, count) = match text::halves(added, ',') {
                Some((start, count)) => (start, number_in(count)),
                None => (added, Some(1u32)),
            };
            match (number_in(start), count) {
                (Some(start), Some(count)) => Some((start, count)),
                _ => None,
            }
        },
    }
}

fn find_added(words: &[String]) -> (added: Option<String>)
    ensures
        added.is_some() == first_added(text::texts(words@)).is_some(),
        added.is_some() ==> added.unwrap()@ == first_added(text::texts(words@)).unwrap(),
{
    let ghost all = text::texts(words@);
    assert(all.subrange(0, all.len() as int) =~= all);
    let mut at: usize = 0;
    while at < words.len()
        invariant
            at <= words@.len(),
            all == text::texts(words@),
            first_added(all) == first_added(all.subrange(at as int, all.len() as int)),
        decreases words@.len() - at,
    {
        let ghost rest = all.subrange(at as int, all.len() as int);
        assert(rest.drop_first() =~= all.subrange(at + 1, all.len() as int));
        assert(rest[0] == words@[at as int]@);
        match text::strip_prefix(words[at].as_str(), "+") {
            Some(added) => return Some(added),
            None => {},
        }
        at += 1;
    }
    None
}

/// "-12,0 +13,2 @@ def f():" -> (13, 2). A missing count means one line.
pub fn added_range(hunk: &str) -> (range: Option<(u32, u32)>)
    ensures
        range == added_in(hunk@),
{
    let words: Vec<String> = text::words(hunk);
    match find_added(&words) {
        None => None,
        Some(added) => {
            let (start, count): (String, Option<u32>) = match text::split_once(
                added.as_str(),
                ',',
            ) {
                Some((start, count)) => (start, read_number(count.as_str())),
                None => (added, Some(1)),
            };
            match (read_number(start.as_str()), count) {
                (Some(start), Some(count)) => Some((start, count)),
                _ => None,
            }
        },
    }
}

/// Lines that were added to one file, one after the other.
pub struct Hunk {
    pub file: String,
    pub start: u32,
    pub count: u32,
}

/// A hunk as plain values.
#[verifier::ext_equal]
pub struct Added {
    pub file: Seq<char>,
    pub start: int,
    pub count: int,
}

impl View for Hunk {
    type V = Added;

    open spec fn view(&self) -> Added {
        Added { file: self.file@, start: self.start as int, count: self.count as int }
    }
}

/// Hunks as plain values.
pub open spec fn additions(list: Seq<Hunk>) -> Seq<Added> {
    list.map_values(|hunk: Hunk| hunk@)
}

/// The file a diff is about after some of its lines.
pub open spec fn current_file(lines: Seq<Seq<char>>) -> Seq<char>
    decreases lines.len(),
{
    if lines.len() == 0 {
        Seq::empty()
    } else if text::begins(lines.last(), "+++ b/"@) {
        text::without_prefix(lines.last(), "+++ b/"@)
    } else {
        current_file(lines.drop_last())
    }
}

/// The hunks that some lines of a diff announce.
pub open spec fn hunks_in(lines: Seq<Seq<char>>) -> Seq<Added>
    decreases lines.len(),
{
    if lines.len() == 0 {
        Seq::empty()
    } else {
        let before = hunks_in(lines.drop_last());
        let line = lines.last();
        if text::begins(line, "+++ b/"@) || !text::begins(line, "@@ "@) {
            before
        } else {
            match added_in(text::without_prefix(line, "@@ "@)) {
                Some((start, count)) => before.push(
                    Added {
                        file: current_file(lines.drop_last()),
                        start: start as int,
                        count: count as int,
                    },
                ),
                None => before,
            }
        }
    }
}

/// Whether hunks added this line of this file.
pub open spec fn adds(hunks: Seq<Added>, file: Seq<char>, line: int) -> bool {
    exists|k: int|
        0 <= k < hunks.len() && (#[trigger] hunks[k]).file == file && hunks[k].start <= line
            < hunks[k].start + hunks[k].count
}

/// The mutants that sit on an added line, in the order they came.
pub open spec fn touched(hunks: Seq<Added>, mutants: Seq<Planted>) -> Seq<Planted>
    decreases mutants.len(),
{
    if mutants.len() == 0 {
        Seq::empty()
    } else {
        let before = touched(hunks, mutants.drop_last());
        let mutant = mutants.last();
        if adds(hunks, mutate::forward_slashed(mutant.file), mutant.line) {
            before.push(mutant)
        } else {
            before
        }
    }
}

/// Lines touched over a revision range, per file. Mutating only these is the
/// biggest lever there is on a big repo: the pool shrinks with the change,
/// not with the codebase.
pub struct ChangedLines {
    hunks: Vec<Hunk>,
}

impl View for ChangedLines {
    type V = Seq<Added>;

    closed spec fn view(&self) -> Seq<Added> {
        additions(self.hunks@)
    }
}

impl ChangedLines {
    /// The lines that a `git diff --unified=0` added.
    pub fn parse(diff: &str) -> (changed: ChangedLines)
        ensures
            changed@ == hunks_in(text::lines_of(diff@)),
    {
        let lines: Vec<String> = text::lines(diff);
        let ghost all = text::lines_of(diff@);
        assert(all.len() == lines@.len());
        let mut hunks: Vec<Hunk> = Vec::new();
        let mut current: String = String::new();
        assert(additions(hunks@) =~= hunks_in(all.subrange(0, 0)));
        assert(current@ =~= current_file(all.subrange(0, 0)));
        let mut at: usize = 0;
        while at < lines.len()
            invariant
                at <= lines@.len(),
                all == text::texts(lines@),
                current@ == current_file(all.subrange(0, at as int)),
                additions(hunks@) == hunks_in(all.subrange(0, at as int)),
            decreases lines@.len() - at,
        {
            let line: &str = lines[at].as_str();
            assert(all.subrange(0, at + 1).drop_last() =~= all.subrange(0, at as int));
            assert(all.subrange(0, at + 1).last() == line@);
            let ghost before = additions(hunks@);
            match text::strip_prefix(line, "+++ b/") {
                Some(path) => {
                    current = path;
                },
                None => match text::strip_prefix(line, "@@ ") {
                    Some(hunk) => match added_range(hunk.as_str()) {
                        Some((start, count)) => {
                            let found: Hunk = Hunk { file: current.clone(), start, count };
                            hunks.push(found);
                            assert(additions(hunks@) =~= before.push(found@));
                        },
                        None => {},
                    },
                    None => {},
                },
            }
            at += 1;
        }
        assert(all.subrange(0, at as int) =~= all);
        ChangedLines { hunks }
    }

    /// Whether a mutant sits on a line that was added.
    pub fn contains(&self, mutant: &Mutant) -> (yes: bool)
        ensures
            yes == adds(self@, mutate::forward_slashed(mutant@.file), mutant@.line),
    {
        let ghost all = self@;
        let file: String = mutant.coverage_file();
        let mut at: usize = 0;
        while at < self.hunks.len()
            invariant
                at <= self.hunks@.len(),
                all == additions(self.hunks@),
                all == self@,
                file@ == mutate::forward_slashed(mutant@.file),
                forall|k: int|
                    0 <= k < at ==> !((#[trigger] all[k]).file == file@ && all[k].start
                        <= mutant@.line < all[k].start + all[k].count),
            decreases self.hunks@.len() - at,
        {
            let hunk: &Hunk = &self.hunks[at];
            assert(all[at as int] == hunk@);
            if text::same(hunk.file.as_str(), file.as_str()) && hunk.start <= mutant.line
                && mutant.line - hunk.start < hunk.count {
                return true;
            }
            at += 1;
        }
        false
    }

    /// Keeps the mutants that sit on a line that was added.
    pub fn filter(&self, mutants: Vec<Mutant>) -> (kept: Vec<Mutant>)
        ensures
            mutate::planted(kept@) == touched(self@, mutate::planted(mutants@)),
    {
        let ghost all = mutate::planted(mutants@);
        let mut kept: Vec<Mutant> = Vec::new();
        assert(mutate::planted(kept@) =~= touched(self@, all.subrange(0, 0)));
        let mut at: usize = 0;
        while at < mutants.len()
            invariant
                at <= mutants@.len(),
                all == mutate::planted(mutants@),
                mutate::planted(kept@) == touched(self@, all.subrange(0, at as int)),
            decreases mutants@.len() - at,
        {
            assert(all.subrange(0, at + 1).drop_last() =~= all.subrange(0, at as int));
            assert(all.subrange(0, at + 1).last() == mutants@[at as int]@);
            let ghost before = mutate::planted(kept@);
            if self.contains(&mutants[at]) {
                let mutant: Mutant = mutants[at].clone();
                kept.push(mutant);
                assert(mutate::planted(kept@) =~= before.push(mutant@));
            }
            at += 1;
        }
        assert(all.subrange(0, at as int) =~= all);
        kept
    }
}

/// A diff keeps a mutant exactly when one of its hunks added the mutant's line,
/// and it invents none.
pub proof fn law_only_touched_mutants_are_kept(
    hunks: Seq<Added>,
    mutants: Seq<Planted>,
    mutant: Planted,
)
    ensures
        touched(hunks, mutants).contains(mutant) <==> mutants.contains(mutant) && adds(
            hunks,
            mutate::forward_slashed(mutant.file),
            mutant.line,
        ),
        touched(hunks, mutants).len() <= mutants.len(),
    decreases mutants.len(),
{
    if mutants.len() > 0 {
        let shorter = mutants.drop_last();
        law_only_touched_mutants_are_kept(hunks, shorter, mutant);
        let kept = touched(hunks, mutants);
        let before = touched(hunks, shorter);
        if kept.contains(mutant) {
            let k = choose|k: int| 0 <= k < kept.len() && kept[k] == mutant;
            if k < before.len() {
                assert(before[k] == mutant);
                assert(shorter.contains(mutant));
                let m = choose|m: int| 0 <= m < shorter.len() && shorter[m] == mutant;
                assert(mutants[m] == mutant);
            } else {
                assert(mutants[mutants.len() - 1] == mutant);
            }
        }
        if mutants.contains(mutant) && adds(
            hunks,
            mutate::forward_slashed(mutant.file),
            mutant.line,
        ) {
            let m = choose|m: int| 0 <= m < mutants.len() && mutants[m] == mutant;
            if m < shorter.len() {
                assert(shorter[m] == mutant);
                assert(shorter.contains(mutant));
                let k = choose|k: int| 0 <= k < before.len() && before[k] == mutant;
                assert(kept[k] == mutant);
            } else {
                assert(kept[kept.len() - 1] == mutant);
            }
        }
    }
}

/// A diff that announces nothing keeps nothing.
pub proof fn law_an_empty_diff_keeps_nothing(mutants: Seq<Planted>)
    ensures
        touched(hunks_in(Seq::empty()), mutants).len() == 0,
    decreases mutants.len(),
{
    if mutants.len() > 0 {
        law_an_empty_diff_keeps_nothing(mutants.drop_last());
    }
}

/// A hunk that starts at a line and counts some lines keeps exactly those: a
/// mutant of its file on one of them is kept, and a mutant of a file none of
/// whose hunks reaches the mutant's line is dropped.
pub proof fn law_a_hunk_keeps_exactly_its_lines(
    hunks: Seq<Added>,
    mutants: Seq<Planted>,
    mutant: Planted,
)
    requires
        mutants.contains(mutant),
    ensures
        forall|k: int, i: int|
            #![trigger hunks[k], mutant.line - i]
            0 <= k < hunks.len() && hunks[k].file == mutate::forward_slashed(mutant.file) && 0 <= i
                < hunks[k].count && mutant.line == hunks[k].start + i ==> touched(
                hunks,
                mutants,
            ).contains(mutant),
        (forall|k: int|
            0 <= k < hunks.len() && (#[trigger] hunks[k]).file == mutate::forward_slashed(
                mutant.file,
            ) ==> mutant.line < hunks[k].start || mutant.line >= hunks[k].start + hunks[k].count)
            ==> !touched(hunks, mutants).contains(mutant),
{
    law_only_touched_mutants_are_kept(hunks, mutants, mutant);
}

proof fn lemma_number(n: u32)
    ensures
        number_in(text::decimal(n as nat)) == Some(n),
        text::decimal(n as nat).len() > 0,
        forall|i: int|
            0 <= i < text::decimal(n as nat).len() ==> '0' <= #[trigger] text::decimal(n as nat)[i]
                <= '9',
{
    text::law_decimal_digits(n as nat);
    literals::law_a_written_number_reads_back(n as int);
    assert(text::signed(n as int) == text::decimal(n as nat));
}

proof fn lemma_added_word(old: Seq<char>, word: Seq<char>, rest: Seq<char>)
    requires
        old.len() > 0,
        old[0] != '+',
        forall|i: int| 0 <= i < old.len() ==> !text::is_space_spec(#[trigger] old[i]),
        forall|i: int| 0 <= i < word.len() ==> !text::is_space_spec(#[trigger] word[i]),
    ensures
        first_added(text::words_of(old + seq![' '] + (seq!['+'] + word) + seq![' '] + rest))
            == Some(word),
{
    reveal_strlit("+");
    let new = seq!['+'] + word;
    assert forall|i: int| 0 <= i < new.len() implies !text::is_space_spec(#[trigger] new[i]) by {
        if i > 0 {
            assert(new[i] == word[i - 1]);
        }
    }
    text::law_a_text_without_white_space_is_a_word(old);
    text::law_a_text_without_white_space_is_a_word(new);
    text::law_white_space_separates_words(old, ' ', new);
    text::law_white_space_separates_words(old + seq![' '] + new, ' ', rest);
    let words = seq![old] + seq![new] + text::words_of(rest);
    assert(words[0] == old);
    assert(!text::begins(old, "+"@)) by {
        if text::begins(old, "+"@) {
            assert(old.subrange(0, 1)[0] == '+');
        }
    }
    let more = words.drop_first();
    assert(more[0] == new);
    assert(new.subrange(0, 1) =~= "+"@);
    assert(text::begins(new, "+"@));
    assert(new.subrange(1, new.len() as int) =~= word);
    assert(first_added(more) == Some(word));
    assert(first_added(words) == first_added(more));
}

/// The header of a hunk says which lines it added: the number behind the plus
/// sign is the first, and the one behind the comma how many. Without a comma it
/// is one line.
pub proof fn law_a_header_says_what_was_added(
    old: Seq<char>,
    start: u32,
    count: u32,
    rest: Seq<char>,
)
    requires
        old.len() > 0,
        old[0] != '+',
        forall|i: int| 0 <= i < old.len() ==> !text::is_space_spec(#[trigger] old[i]),
    ensures
        added_in(
            old + seq![' '] + (seq!['+'] + (text::decimal(start as nat) + seq![','] + text::decimal(
                count as nat,
            ))) + seq![' '] + rest,
        ) == Some((start, count)),
        added_in(
            old + seq![' '] + (seq!['+'] + text::decimal(start as nat)) + seq![' '] + rest,
        ) == Some((start, 1u32)),
{
    let first = text::decimal(start as nat);
    let many = text::decimal(count as nat);
    lemma_number(start);
    lemma_number(count);
    let both = first + seq![','] + many;
    assert forall|i: int| 0 <= i < both.len() implies !text::is_space_spec(#[trigger] both[i]) by {
        if i < first.len() {
            assert('0' <= first[i] <= '9');
        } else if i > first.len() {
            assert('0' <= many[i - first.len() - 1] <= '9');
        }
    }
    assert forall|i: int| 0 <= i < first.len() implies !text::is_space_spec(#[trigger] first[i]) by {
        assert('0' <= first[i] <= '9');
    }
    lemma_added_word(old, both, rest);
    lemma_added_word(old, first, rest);
    assert(!first.contains(',')) by {
        if first.contains(',') {
            let k = choose|k: int| 0 <= k < first.len() && first[k] == ',';
            assert('0' <= first[k] <= '9');
        }
    }
    text::law_cutting_undoes_joining(first, ',', many);
    text::law_a_text_is_cut_at_its_first_separator(first, ',');
}

proof fn lemma_current_file(lines: Seq<Seq<char>>, file: Seq<char>, more: Seq<Seq<char>>)
    requires
        forall|k: int| 0 <= k < more.len() ==> !text::begins(#[trigger] more[k], "+++ b/"@),
    ensures
        current_file(lines.push("+++ b/"@ + file) + more) == file,
    decreases more.len(),
{
    let head = "+++ b/"@ + file;
    let whole = lines.push(head) + more;
    if more.len() == 0 {
        assert(whole =~= lines.push(head));
        assert(head.subrange(0, "+++ b/"@.len() as int) =~= "+++ b/"@);
        assert(head.subrange("+++ b/"@.len() as int, head.len() as int) =~= file);
    } else {
        assert(whole.drop_last() =~= lines.push(head) + more.drop_last());
        assert(whole.last() == more[more.len() - 1]);
        assert forall|k: int| 0 <= k < more.drop_last().len() implies !text::begins(
            #[trigger] more.drop_last()[k],
            "+++ b/"@,
        ) by {
            assert(more.drop_last()[k] == more[k]);
        }
        lemma_current_file(lines, file, more.drop_last());
    }
}

/// A hunk belongs to the file that was named last before it, and joins the hunks
/// that came before.
pub proof fn law_a_hunk_belongs_to_the_file_before_it(
    lines: Seq<Seq<char>>,
    file: Seq<char>,
    more: Seq<Seq<char>>,
    header: Seq<char>,
    start: u32,
    count: u32,
)
    requires
        forall|k: int| 0 <= k < more.len() ==> !text::begins(#[trigger] more[k], "+++ b/"@),
        added_in(header) == Some((start, count)),
    ensures
        ({
            let before = lines.push("+++ b/"@ + file) + more;
            hunks_in(before.push("@@ "@ + header)) == hunks_in(before).push(
                Added { file, start: start as int, count: count as int },
            )
        }),
{
    reveal_strlit("+++ b/");
    reveal_strlit("@@ ");
    let before = lines.push("+++ b/"@ + file) + more;
    let line = "@@ "@ + header;
    lemma_current_file(lines, file, more);
    assert(before.push(line).drop_last() =~= before);
    assert(line.subrange(0, 3) =~= "@@ "@);
    assert(line.subrange(3, line.len() as int) =~= header);
    assert(!text::begins(line, "+++ b/"@)) by {
        if text::begins(line, "+++ b/"@) {
            assert(line.subrange(0, 6)[0] == '+');
            assert(line[0] == '@');
        }
    }
}

/// A line that is no hunk header adds no hunk.
pub proof fn law_only_a_header_adds_a_hunk(lines: Seq<Seq<char>>, line: Seq<char>)
    requires
        !text::begins(line, "@@ "@),
    ensures
        hunks_in(lines.push(line)) == hunks_in(lines),
        hunks_in(Seq::empty()).len() == 0,
{
    assert(lines.push(line).drop_last() =~= lines);
}

/// A branch is diffed from where it left its base, and a revision as it is
/// given. The branch named beats the one that was found, and a shallow clone has
/// no base at all.
pub proof fn law_a_branch_is_diffed_from_its_base(
    revision: String,
    named: String,
    found: Option<String>,
    shallow: bool,
)
    ensures
        Scope::Since(revision).resolved(shallow, found) == Ok::<Seq<char>, Seq<char>>(revision@),
        Scope::Branch(Some(named)).resolved(false, found) == Ok::<Seq<char>, Seq<char>>(
            named@ + "...HEAD"@,
        ),
        found matches Some(base) ==> Scope::Branch(None).resolved(false, found) == Ok::<
            Seq<char>,
            Seq<char>,
        >(base@ + "...HEAD"@),
        found.is_none() ==> Scope::Branch(None).resolved(false, found).is_err(),
        Scope::Branch(Some(named)).resolved(true, found).is_err(),
        Scope::Branch(None).resolved(true, found).is_err(),
{
}

/// The branch a pull request targets comes first, on its remote and then by its
/// own name; behind it come the branch origin points at and the usual names.
pub proof fn law_the_target_of_a_pull_request_comes_first(
    target: Option<&str>,
    head: Option<&str>,
)
    ensures
        target matches Some(branch) ==> branch@.len() > 0 ==> {
            &&& candidates(target, head)[0] == "origin/"@ + branch@
            &&& candidates(target, head)[1] == branch@
            &&& candidates(target, head).skip(2) == candidates(None, head)
        },
        target matches Some(branch) ==> branch@.len() == 0 ==> candidates(target, head)
            == candidates(None, head),
        candidates(None, None) == seq!["origin/main"@, "main"@, "master"@],
        head matches Some(head) ==> {
            let name = text::trimmed(head@);
            text::begins(name, "refs/remotes/"@) ==> candidates(None, Some(head)) == seq![
                name.skip("refs/remotes/"@.len() as int),
                "origin/main"@,
                "main"@,
                "master"@,
            ]
        },
{
    assert(candidates(None, None) =~= seq!["origin/main"@, "main"@, "master"@]);
    if let Some(branch) = target {
        if branch@.len() > 0 {
            assert(candidates(target, head).skip(2) =~= candidates(None, head));
        } else {
            assert(candidates(target, head) =~= candidates(None, head));
        }
    }
    if let Some(head) = head {
        let name = text::trimmed(head@);
        if text::begins(name, "refs/remotes/"@) {
            let rest = name.skip("refs/remotes/"@.len() as int);
            assert(text::without_prefix(name, "refs/remotes/"@) =~= rest);
            assert(candidates(None, Some(head)) =~= seq![
                rest,
                "origin/main"@,
                "main"@,
                "master"@,
            ]);
        }
    }
}

/// A revision that is named plainly beats a base, and without either nothing is
/// narrowed down.
pub proof fn law_a_plain_revision_beats_a_base(
    revision: String,
    base: Option<String>,
    scope: Option<Scope>,
)
    ensures
        call_ensures(Scope::from_flags, (Some(revision), Some(base)), scope) ==> scope == Some(
            Scope::Since(revision),
        ),
        call_ensures(Scope::from_flags, (Some(revision), None), scope) ==> scope == Some(
            Scope::Since(revision),
        ),
        call_ensures(Scope::from_flags, (None, Some(base)), scope) ==> scope == Some(
            Scope::Branch(base),
        ),
        call_ensures(Scope::from_flags, (None, None), scope) ==> scope.is_none(),
{
}

} // verus!

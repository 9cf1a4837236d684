//! Mutants by the file they are in.

use vstd::prelude::*;

use crate::db::Settled;
use crate::mutate::{self, Planted, Status};
use crate::names;
use crate::text;

verus! {

broadcast use vstd::seq_lib::group_seq_properties;

/// A mutant and what became of it, as plain values.
#[verifier::ext_equal]
pub struct Entry {
    pub mutant: Planted,
    pub status: Option<Status>,
    pub executed: bool,
    pub duration_ms: Option<i64>,
    pub failed_tests: Seq<Seq<char>>,
}

impl View for Settled {
    type V = Entry;

    open spec fn view(&self) -> Entry {
        Entry {
            mutant: self.mutant@,
            status: self.status,
            executed: self.executed,
            duration_ms: self.duration_ms,
            failed_tests: text::texts(self.failed_tests@),
        }
    }
}

impl Entry {
    /// How reports name the file.
    pub open spec fn path(self) -> Seq<char> {
        mutate::report_name(self.mutant.file)
    }
}

/// Mutants behind references as plain values.
pub open spec fn entries(list: Seq<&Settled>) -> Seq<Entry> {
    list.map_values(|settled: &Settled| settled@)
}

/// Mutants as plain values.
pub open spec fn settled_entries(list: Seq<Settled>) -> Seq<Entry> {
    list.map_values(|settled: Settled| settled@)
}

/// The files of these mutants, each once, in order.
pub open spec fn paths_of(list: Seq<Entry>) -> Seq<Seq<char>>
    decreases list.len(),
{
    if list.len() == 0 {
        Seq::empty()
    } else {
        names::with_name(paths_of(list.drop_last()), list.last().path())
    }
}

/// The mutants of one file, in the order they came.
pub open spec fn entries_in(list: Seq<Entry>, path: Seq<char>) -> Seq<Entry>
    decreases list.len(),
{
    if list.len() == 0 {
        Seq::empty()
    } else if list.last().path() == path {
        entries_in(list.drop_last(), path).push(list.last())
    } else {
        entries_in(list.drop_last(), path)
    }
}

/// The mutants of one file.
pub struct Folder<'a> {
    pub path: String,
    pub entries: Vec<&'a Settled>,
}

/// The folders of these mutants as plain values.
pub open spec fn filed(list: Seq<Entry>) -> Seq<(Seq<char>, Seq<Entry>)> {
    paths_of(list).map_values(|path: Seq<char>| (path, entries_in(list, path)))
}

/// Folders as plain values.
pub open spec fn folders(list: Seq<Folder<'_>>) -> Seq<(Seq<char>, Seq<Entry>)> {
    list.map_values(|folder: Folder<'_>| (folder.path@, entries(folder.entries@)))
}

proof fn lemma_paths_are_sorted(list: Seq<Entry>)
    ensures
        names::is_sorted(paths_of(list)),
    decreases list.len(),
{
    if list.len() > 0 {
        lemma_paths_are_sorted(list.drop_last());
        names::lemma_with_name(paths_of(list.drop_last()), list.last().path());
    }
}

fn collect<'a>(settled: &[&'a Settled], path: &str) -> (mine: Vec<&'a Settled>)
    ensures
        entries(mine@) == entries_in(entries(settled@), path@),
{
    let ghost all = entries(settled@);
    let mut mine: Vec<&'a Settled> = Vec::new();
    assert(entries(mine@) =~= entries_in(all.subrange(0, 0), path@));
    let mut at: usize = 0;
    while at < settled.len()
        invariant
            at <= settled@.len(),
            all == entries(settled@),
            entries(mine@) == entries_in(all.subrange(0, at as int), path@),
        decreases settled@.len() - at,
    {
        let entry: &'a Settled = settled[at];
        assert(all.subrange(0, at + 1).drop_last() =~= all.subrange(0, at as int));
        assert(all.subrange(0, at + 1).last() == entry@);
        let ghost before = entries(mine@);
        let name: String = entry.mutant.report_path();
        if text::same(name.as_str(), path) {
            mine.push(entry);
            assert(entries(mine@) =~= before.push(entry@));
        }
        at += 1;
    }
    assert(all.subrange(0, at as int) =~= all);
    mine
}

/// Mutants by file, the files in order, so the same run always writes the same
/// bytes and two reports can be diffed.
pub fn by_file<'a>(settled: &[&'a Settled]) -> (list: Vec<Folder<'a>>)
    ensures
        folders(list@) == filed(entries(settled@)),
{
    let ghost all = entries(settled@);
    let mut paths: Vec<String> = Vec::new();
    assert(text::texts(paths@) =~= paths_of(all.subrange(0, 0)));
    let mut at: usize = 0;
    while at < settled.len()
        invariant
            at <= settled@.len(),
            all == entries(settled@),
            text::texts(paths@) == paths_of(all.subrange(0, at as int)),
        decreases settled@.len() - at,
    {
        proof {
            lemma_paths_are_sorted(all.subrange(0, at as int));
        }
        assert(all.subrange(0, at + 1).drop_last() =~= all.subrange(0, at as int));
        assert(all.subrange(0, at + 1).last() == settled@[at as int]@);
        let name: String = settled[at].mutant.report_path();
        let _new: bool = names::add_name(&mut paths, name.as_str());
        at += 1;
    }
    assert(all.subrange(0, at as int) =~= all);
    let mut list: Vec<Folder<'a>> = Vec::new();
    while list.len() < paths.len()
        invariant
            list@.len() <= paths@.len(),
            all == entries(settled@),
            text::texts(paths@) == paths_of(all),
            forall|k: int|
                0 <= k < list@.len() ==> #[trigger] list@[k].path@ == paths@[k]@ && entries(
                    list@[k].entries@,
                ) == entries_in(all, paths@[k]@),
        decreases paths@.len() - list@.len(),
    {
        let path: String = paths[list.len()].clone();
        let mine: Vec<&'a Settled> = collect(settled, path.as_str());
        list.push(Folder { path, entries: mine });
    }
    assert(paths_of(all).len() == paths@.len());
    assert forall|k: int| 0 <= k < list@.len() implies folders(list@)[k] == filed(all)[k] by {
        assert(list@[k].path@ == paths@[k]@);
        assert(text::texts(paths@)[k] == paths@[k]@);
    }
    assert(folders(list@) =~= filed(all));
    list
}

/// References to every mutant of a list.
pub fn all_of(settled: &[Settled]) -> (list: Vec<&Settled>)
    ensures
        entries(list@) == settled_entries(settled@),
{
    let mut list: Vec<&Settled> = Vec::new();
    while list.len() < settled.len()
        invariant
            list@.len() <= settled@.len(),
            forall|k: int| 0 <= k < list@.len() ==> #[trigger] list@[k]@ == settled@[k]@,
        decreases settled@.len() - list@.len(),
    {
        list.push(&settled[list.len()]);
    }
    assert(entries(list@) =~= settled_entries(settled@));
    list
}

/// Every mutant is filed under its own path and no other, and every path that a
/// mutant has is there once.
pub proof fn law_every_mutant_is_filed_under_its_path(list: Seq<Entry>, entry: Entry)
    ensures
        names::is_sorted(paths_of(list)),
        list.contains(entry) ==> paths_of(list).contains(entry.path()) && entries_in(
            list,
            entry.path(),
        ).contains(entry),
        forall|path: Seq<char>| #[trigger]
            entries_in(list, path).contains(entry) ==> path == entry.path() && list.contains(entry),
    decreases list.len(),
{
    lemma_paths_are_sorted(list);
    if list.len() > 0 {
        let shorter = list.drop_last();
        let last = list.last();
        law_every_mutant_is_filed_under_its_path(shorter, entry);
        names::lemma_with_name(paths_of(shorter), last.path());
        if list.contains(entry) {
            let k = choose|k: int| 0 <= k < list.len() && list[k] == entry;
            let before = entries_in(shorter, entry.path());
            let now = entries_in(list, entry.path());
            if k < shorter.len() {
                assert(shorter[k] == entry);
                assert(shorter.contains(entry));
                let m = choose|m: int| 0 <= m < before.len() && before[m] == entry;
                assert(now[m] == entry);
            } else {
                assert(now[now.len() - 1] == entry);
            }
        }
        assert forall|path: Seq<char>| #[trigger] entries_in(list, path).contains(entry) implies path
            == entry.path() && list.contains(entry) by {
            let now = entries_in(list, path);
            let before = entries_in(shorter, path);
            let m = choose|m: int| 0 <= m < now.len() && now[m] == entry;
            if m < before.len() {
                assert(before[m] == entry);
                assert(before.contains(entry));
                let k = choose|k: int| 0 <= k < shorter.len() && shorter[k] == entry;
                assert(list[k] == entry);
            } else {
                assert(list[list.len() - 1] == entry);
            }
        }
    }
}

/// The mutants of a file are all that name it, in the order they came.
pub proof fn law_a_folder_holds_the_mutants_of_its_file(list: Seq<Entry>, path: Seq<char>)
    ensures
        entries_in(list, path) == list.filter(
            |entry: Entry| mutate::report_name(entry.mutant.file) == path,
        ),
    decreases list.len(),
{
    reveal(Seq::filter);
    if list.len() > 0 {
        law_a_folder_holds_the_mutants_of_its_file(list.drop_last(), path);
    } else {
        assert(entries_in(list, path) =~= list.filter(
            |entry: Entry| mutate::report_name(entry.mutant.file) == path,
        ));
    }
}

} // verus!

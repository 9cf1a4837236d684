//! Which tests run which lines, and what that decides about a mutant.

use std::collections::{HashMap, HashSet};

use vstd::prelude::*;

use crate::db::CoverageRow;
use crate::ids;
use crate::mutate::{self, Mutant, Planted, Status};
use crate::names;
use crate::pytest::{self, Case, Chosen, Selection, TestCase};
use crate::text;

verus! {

broadcast use {
    vstd::seq_lib::group_seq_properties,
    vstd::std_specs::hash::group_hash_axioms,
};

/// A row of coverage.py's data file as plain values.
#[verifier::ext_equal]
pub struct Row {
    pub file: Seq<char>,
    pub context_id: i64,
    pub context: Seq<char>,
    pub numbits: Seq<u8>,
}

impl View for CoverageRow {
    type V = Row;

    open spec fn view(&self) -> Row {
        Row {
            file: self.file@,
            context_id: self.context_id,
            context: self.context@,
            numbits: self.numbits@,
        }
    }
}

/// Rows as plain values.
pub open spec fn rows_of(list: Seq<CoverageRow>) -> Seq<Row> {
    list.map_values(|row: CoverageRow| row@)
}

/// Whether this bit of a bitmap is set.
pub open spec fn bit_set(numbits: Seq<u8>, bit: int) -> bool {
    (numbits[bit / 8] >> ((bit % 8) as u8)) & 1 == 1
}

/// The lines whose bits are set among the first bits of a bitmap.
pub open spec fn lines_upto(numbits: Seq<u8>, bits: int) -> Seq<u32>
    decreases bits,
{
    if bits <= 0 {
        Seq::empty()
    } else if bit_set(numbits, bits - 1) {
        lines_upto(numbits, bits - 1).push((bits - 1) as u32)
    } else {
        lines_upto(numbits, bits - 1)
    }
}

/// coverage.py stores executed lines as a bitmap: bit N set = line N ran.
pub open spec fn lines_set(numbits: Seq<u8>) -> Seq<u32> {
    lines_upto(numbits, 8 * numbits.len() as int)
}

/// The lines a bitmap says ran, in ascending order.
pub fn lines_in(numbits: &[u8]) -> (lines: Vec<u32>)
    ensures
        lines@ == lines_set(numbits@),
{
    let mut lines: Vec<u32> = Vec::new();
    let mut at: usize = 0;
    while at < numbits.len()
        invariant
            at <= numbits@.len(),
            lines@ == lines_upto(numbits@, 8 * at),
        decreases numbits@.len() - at,
    {
        let byte: u8 = numbits[at];
        let mut bit: u8 = 0;
        while bit < 8
            invariant
                at < numbits@.len(),
                byte == numbits@[at as int],
                bit <= 8,
                lines@ == lines_upto(numbits@, 8 * at + bit),
            decreases 8 - bit,
        {
            let number: u128 = at as u128 * 8 + bit as u128;
            assert((8 * at + bit) / 8 == at && (8 * at + bit) % 8 == bit);
            assert(bit_set(numbits@, 8 * at + bit) == ((byte >> bit) & 1 == 1));
            if (byte >> bit) & 1 == 1 {
                #[verifier::truncate]
                let line: u32 = number as u32;
                lines.push(line);
            }
            bit += 1;
        }
        at += 1;
    }
    lines
}

/// Whether a row says that this line of this file ran.
pub open spec fn touches(row: Row, file: Seq<char>, line: u32) -> bool {
    row.file == file && lines_set(row.numbits).contains(line)
}

/// The ids of the tests that ran a line, by these rows.
pub open spec fn covered_by(rows: Seq<Row>, file: Seq<char>, line: u32) -> Seq<i64>
    decreases rows.len(),
{
    if rows.len() == 0 {
        Seq::empty()
    } else {
        let before = covered_by(rows.drop_last(), file, line);
        let row = rows.last();
        if row.context.len() > 0 && touches(row, file, line) {
            ids::with_id(before, row.context_id)
        } else {
            before
        }
    }
}

/// Whether a line ran outside any test, by these rows.
pub open spec fn imported_by(rows: Seq<Row>, file: Seq<char>, line: u32) -> bool {
    exists|k: int|
        0 <= k < rows.len() && (#[trigger] rows[k]).context.len() == 0 && touches(
            rows[k],
            file,
            line,
        )
}

/// The id of a test, by these rows: the last row that names it decides.
pub open spec fn context_by(rows: Seq<Row>, name: Seq<char>) -> Option<i64>
    decreases rows.len(),
{
    if rows.len() == 0 {
        None
    } else if rows.last().context.len() > 0 && rows.last().context == name {
        Some(rows.last().context_id)
    } else {
        context_by(rows.drop_last(), name)
    }
}

/// The lines of one file that ran.
struct Page {
    /// line -> ids of the tests that ran it
    tested: HashMap<u32, Vec<i64>>,
    /// lines that ran outside any test
    imported: HashSet<u32>,
}

impl Page {
    spec fn ids(self, line: u32) -> Seq<i64> {
        if self.tested@.contains_key(line) {
            self.tested@[line]@
        } else {
            Seq::empty()
        }
    }

    spec fn wf(self) -> bool {
        forall|line: u32| ids::is_set(#[trigger] self.ids(line))
    }

    fn new() -> (page: Page)
        ensures
            page.wf(),
            forall|line: u32| #[trigger] page.ids(line) == Seq::<i64>::empty(),
            page.imported@ == Set::<u32>::empty(),
    {
        Page { tested: HashMap::new(), imported: HashSet::new() }
    }

    fn note(&mut self, line: u32, id: i64)
        requires
            old(self).wf(),
        ensures
            final(self).wf(),
            final(self).ids(line) == ids::with_id(old(self).ids(line), id),
            forall|other: u32|
                other != line ==> #[trigger] final(self).ids(other) == old(self).ids(other),
            final(self).imported@ == old(self).imported@,
    {
        let mut set: Vec<i64> = match self.tested.remove(&line) {
            Some(set) => set,
            None => Vec::new(),
        };
        assert(set@ =~= old(self).ids(line));
        proof {
            ids::lemma_with_id(set@, id);
        }
        ids::add_id(&mut set, id);
        self.tested.insert(line, set);
        assert forall|other: u32| other != line implies #[trigger] self.ids(other) == old(
            self,
        ).ids(other) by {}
    }

    fn note_all(&mut self, lines: &[u32], id: i64)
        requires
            old(self).wf(),
        ensures
            final(self).wf(),
            forall|line: u32| #[trigger]
                final(self).ids(line) == if lines@.contains(line) {
                    ids::with_id(old(self).ids(line), id)
                } else {
                    old(self).ids(line)
                },
            final(self).imported@ == old(self).imported@,
    {
        let ghost start = *self;
        let mut at: usize = 0;
        while at < lines.len()
            invariant
                at <= lines@.len(),
                start.wf(),
                self.wf(),
                self.imported@ == start.imported@,
                forall|line: u32| #[trigger]
                    self.ids(line) == if lines@.subrange(0, at as int).contains(line) {
                        ids::with_id(start.ids(line), id)
                    } else {
                        start.ids(line)
                    },
            decreases lines@.len() - at,
        {
            let ghost before = *self;
            let line: u32 = lines[at];
            self.note(line, id);
            proof {
                let now = lines@.subrange(0, at + 1);
                let then = lines@.subrange(0, at as int);
                assert(now =~= then.push(line));
                ids::lemma_with_id_twice(start.ids(line), id);
                assert forall|other: u32| #[trigger]
                    self.ids(other) == if now.contains(other) {
                        ids::with_id(start.ids(other), id)
                    } else {
                        start.ids(other)
                    } by {
                    assert(before.ids(other) == if then.contains(other) {
                        ids::with_id(start.ids(other), id)
                    } else {
                        start.ids(other)
                    });
                    if other == line {
                        assert(now[at as int] == line);
                    } else {
                        assert(now.contains(other) == then.contains(other)) by {
                            if now.contains(other) {
                                let k = choose|k: int| 0 <= k < now.len() && now[k] == other;
                                assert(then[k] == other);
                            }
                            if then.contains(other) {
                                let k = choose|k: int| 0 <= k < then.len() && then[k] == other;
                                assert(now[k] == other);
                            }
                        }
                    }
                }
            }
            at += 1;
        }
        assert(lines@.subrange(0, at as int) =~= lines@);
    }

    fn import_all(&mut self, lines: &[u32])
        requires
            old(self).wf(),
        ensures
            final(self).wf(),
            forall|line: u32| #[trigger] final(self).ids(line) == old(self).ids(line),
            forall|line: u32| #[trigger]
                final(self).imported@.contains(line) == (old(self).imported@.contains(line)
                    || lines@.contains(line)),
    {
        let ghost start = *self;
        let mut at: usize = 0;
        while at < lines.len()
            invariant
                at <= lines@.len(),
                self.tested == start.tested,
                forall|line: u32| #[trigger]
                    self.imported@.contains(line) == (start.imported@.contains(line) || exists|
                        k: int,
                    |
                        0 <= k < at && lines@[k] == line),
            decreases lines@.len() - at,
        {
            let line: u32 = lines[at];
            self.imported.insert(line);
            at += 1;
        }
        assert forall|line: u32| #[trigger] self.ids(line) == start.ids(line) by {}
        assert(self.wf()) by {
            assert forall|line: u32| ids::is_set(#[trigger] self.ids(line)) by {
                assert(ids::is_set(start.ids(line)));
            }
        }
    }
}

/// Where a file stands in a list of files, or -1.
spec fn slot(files: Seq<String>, file: Seq<char>, upto: int) -> int
    decreases upto,
{
    if upto <= 0 {
        -1
    } else if files[upto - 1]@ == file {
        upto - 1
    } else {
        slot(files, file, upto - 1)
    }
}

proof fn lemma_slot_bounds(files: Seq<String>, file: Seq<char>, upto: int)
    requires
        0 <= upto <= files.len(),
    ensures
        -1 <= slot(files, file, upto) < upto,
        slot(files, file, upto) >= 0 ==> files[slot(files, file, upto)]@ == file,
    decreases upto,
{
    if upto > 0 && files[upto - 1]@ != file {
        lemma_slot_bounds(files, file, upto - 1);
    }
}

proof fn lemma_slot_same(a: Seq<String>, b: Seq<String>, file: Seq<char>, upto: int)
    requires
        0 <= upto <= a.len(),
        upto <= b.len(),
        forall|k: int| 0 <= k < upto ==> a[k] == b[k],
    ensures
        slot(a, file, upto) == slot(b, file, upto),
    decreases upto,
{
    if upto > 0 {
        lemma_slot_same(a, b, file, upto - 1);
    }
}

fn slot_of(files: &[String], file: &str) -> (found: Option<usize>)
    ensures
        match found {
            Some(at) => at == slot(files@, file@, files@.len() as int),
            None => slot(files@, file@, files@.len() as int) == -1,
        },
        found.is_some() ==> found.unwrap() < files@.len() && files@[found.unwrap() as int]@
            == file@,
{
    let mut upto: usize = files.len();
    while upto > 0
        invariant
            upto <= files@.len(),
            slot(files@, file@, files@.len() as int) == slot(files@, file@, upto as int),
        decreases upto,
    {
        if text::same(files[upto - 1].as_str(), file) {
            return Some(upto - 1);
        }
        upto -= 1;
    }
    None
}

/// The id behind a name, the last entry deciding.
spec fn last_named(tests: Seq<(String, i64)>, name: Seq<char>) -> Option<i64>
    decreases tests.len(),
{
    if tests.len() == 0 {
        None
    } else if tests.last().0@ == name {
        Some(tests.last().1)
    } else {
        last_named(tests.drop_last(), name)
    }
}

/// Which test cases executed which lines, from one coverage.py baseline run.
pub struct Coverage {
    /// files, with forward slashes
    files: Vec<String>,
    /// what ran in each of them
    pages: Vec<Page>,
    /// "module.function" and its context id
    tests: Vec<(String, i64)>,
    /// context id -> pytest node id, empty until the baseline resolves them
    node_ids: HashMap<i64, String>,
    /// context id -> what that node id took in the baseline run, in nanoseconds
    durations: HashMap<i64, u64>,
}

/// What the tests say about a mutant.
pub enum TestCoverage {
    /// Executed by these test contexts, in ascending order.
    Tested(Vec<i64>),
    /// Executed only at import time, affects every test, cannot batch.
    ImportOnly,
    /// Never executed, no test can kill it.
    Untested,
}

/// What the tests say about a mutant, as plain values.
#[verifier::ext_equal]
pub enum Standing {
    Tested(Seq<i64>),
    ImportOnly,
    Untested,
}

impl View for TestCoverage {
    type V = Standing;

    open spec fn view(&self) -> Standing {
        match *self {
            TestCoverage::Tested(ids) => Standing::Tested(ids@),
            TestCoverage::ImportOnly => Standing::ImportOnly,
            TestCoverage::Untested => Standing::Untested,
        }
    }
}

/// A sum that stops at the largest number there is.
pub open spec fn capped(sum: int) -> u64 {
    if sum > u64::MAX {
        u64::MAX
    } else {
        sum as u64
    }
}

/// Both spellings of a test id become the coverage context "module.test_name":
/// junit gives "pkg.test_mod::test_x", the warm worker gives the pytest node id
/// "pkg/test_mod.py::test_x". Parameters are dropped either way.
pub open spec fn normalized(test_id: Seq<char>) -> Seq<char> {
    let bare = pytest::base_name(test_id);
    match text::found(bare, "::"@, 0) {
        None => dotted(bare),
        Some(at) => dotted(bare.subrange(0, at)) + "."@ + text::with_all(
            bare.subrange(at + 2, bare.len() as int),
            "::"@,
            "."@,
        ),
    }
}

/// A path to a module as a dotted name.
pub open spec fn dotted(module: Seq<char>) -> Seq<char> {
    text::with_char(text::with_char(text::without_suffix(module, ".py"@), '/', '.'), '\\', '.')
}

fn dotted_name(module: &str) -> (name: String)
    ensures
        name@ == dotted(module@),
{
    let bare: String = match text::strip_suffix(module, ".py") {
        Some(rest) => rest,
        None => text::owned(module),
    };
    let slashed: String = text::replace_char(bare.as_str(), '/', '.');
    text::replace_char(slashed.as_str(), '\\', '.')
}

/// The coverage context that a test id names.
pub fn normalize(test_id: &str) -> (name: String)
    ensures
        name@ == normalized(test_id@),
{
    let bare: String = pytest::without_parameters(test_id);
    let chars: Vec<char> = text::chars_of(bare.as_str());
    let needle: Vec<char> = text::chars_of("::");
    proof {
        reveal_strlit("::");
        text::lemma_found(bare@, "::"@, 0);
    }
    match text::find(&chars, &needle, 0) {
        None => dotted_name(bare.as_str()),
        Some(at) => {
            assert(text::found(bare@, "::"@, 0) == Some(at as int));
            let total: usize = chars.len();
            assert(at + 2 <= total);
            let module: String = text::part_of(&chars, 0, at);
            let rest: String = text::part_of(&chars, at + 2, total);
            let mut name: String = dotted_name(module.as_str());
            name.append(".");
            name.append(&text::replace(rest.as_str(), "::", "."));
            name
        },
    }
}

impl Coverage {
    /// The ids of the tests that ran a line, in ascending order.
    pub closed spec fn covering(self, file: Seq<char>, line: u32) -> Seq<i64> {
        let at = slot(self.files@, file, self.files@.len() as int);
        if at < 0 {
            Seq::empty()
        } else {
            self.pages@[at].ids(line)
        }
    }

    /// Whether a line ran outside any test.
    pub closed spec fn at_import(self, file: Seq<char>, line: u32) -> bool {
        let at = slot(self.files@, file, self.files@.len() as int);
        at >= 0 && self.pages@[at].imported@.contains(line)
    }

    /// The context id of a test.
    pub closed spec fn context(self, name: Seq<char>) -> Option<i64> {
        last_named(self.tests@, name)
    }

    /// The pytest node id that runs a context.
    pub closed spec fn node(self, id: i64) -> Option<Seq<char>> {
        if self.node_ids@.contains_key(id) {
            Some(self.node_ids@[id]@)
        } else {
            None
        }
    }

    /// What a context took in the baseline run, in nanoseconds.
    pub closed spec fn cost(self, id: i64) -> u64 {
        if self.durations@.contains_key(id) {
            self.durations@[id]
        } else {
            0
        }
    }

    /// What every coverage map keeps.
    pub closed spec fn wf(self) -> bool {
        &&& self.files@.len() == self.pages@.len()
        &&& forall|k: int| 0 <= k < self.pages@.len() ==> (#[trigger] self.pages@[k]).wf()
    }

    /// The tests of a line are a set.
    pub proof fn lemma_covering_is_a_set(self, file: Seq<char>, line: u32)
        requires
            self.wf(),
        ensures
            ids::is_set(self.covering(file, line)),
    {
        lemma_slot_bounds(self.files@, file, self.files@.len() as int);
        let at = slot(self.files@, file, self.files@.len() as int);
        if at >= 0 {
            assert(self.pages@[at].wf());
            assert(ids::is_set(self.pages@[at].ids(line)));
        }
    }

    fn empty() -> (coverage: Coverage)
        ensures
            coverage.wf(),
            forall|file: Seq<char>, line: u32| #[trigger]
                coverage.covering(file, line) == Seq::<i64>::empty(),
            forall|file: Seq<char>, line: u32| !#[trigger] coverage.at_import(file, line),
            forall|name: Seq<char>| #[trigger] coverage.context(name) == None::<i64>,
            forall|id: i64| #[trigger] coverage.node(id) == None::<Seq<char>>,
            forall|id: i64| #[trigger] coverage.cost(id) == 0,
    {
        Coverage {
            files: Vec::new(),
            pages: Vec::new(),
            tests: Vec::new(),
            node_ids: HashMap::new(),
            durations: HashMap::new(),
        }
    }

    fn page_for(&mut self, file: &str) -> (at: usize)
        requires
            old(self).wf(),
        ensures
            final(self).wf(),
            at == slot(final(self).files@, file@, final(self).files@.len() as int),
            at < final(self).files@.len(),
            forall|other: Seq<char>, line: u32| #[trigger]
                final(self).covering(other, line) == old(self).covering(other, line),
            forall|other: Seq<char>, line: u32| #[trigger]
                final(self).at_import(other, line) == old(self).at_import(other, line),
            final(self).tests == old(self).tests,
            final(self).node_ids == old(self).node_ids,
            final(self).durations == old(self).durations,
    {
        match slot_of(&self.files, file) {
            Some(at) => at,
            None => {
                let at: usize = self.files.len();
                let ghost files = self.files@;
                let name: String = text::owned(file);
                self.files.push(name);
                self.pages.push(Page::new());
                proof {
                    let now = self.files@;
                    assert forall|other: Seq<char>|
                        other != file@ implies #[trigger] slot(now, other, now.len() as int) == slot(
                        files,
                        other,
                        files.len() as int,
                    ) by {
                        lemma_slot_same(now, files, other, files.len() as int);
                    }
                    assert forall|other: Seq<char>, line: u32| #[trigger]
                        self.covering(other, line) == old(self).covering(other, line) by {
                        lemma_slot_bounds(files, other, files.len() as int);
                        assert(self.covering(other, line) =~= old(self).covering(other, line));
                    }
                    assert forall|other: Seq<char>, line: u32| #[trigger]
                        self.at_import(other, line) == old(self).at_import(other, line) by {
                        lemma_slot_bounds(files, other, files.len() as int);
                    }
                }
                at
            },
        }
    }

    fn add_row(&mut self, row: &CoverageRow)
        requires
            old(self).wf(),
        ensures
            final(self).wf(),
            forall|file: Seq<char>, line: u32| #[trigger]
                final(self).covering(file, line) == if row@.context.len() > 0 && touches(
                    row@,
                    file,
                    line,
                ) {
                    ids::with_id(old(self).covering(file, line), row.context_id)
                } else {
                    old(self).covering(file, line)
                },
            forall|file: Seq<char>, line: u32| #[trigger]
                final(self).at_import(file, line) == (old(self).at_import(file, line) || (
                row@.context.len() == 0 && touches(row@, file, line))),
            forall|name: Seq<char>| #[trigger]
                final(self).context(name) == if row@.context.len() > 0 && row@.context == name {
                    Some(row.context_id)
                } else {
                    old(self).context(name)
                },
            final(self).node_ids == old(self).node_ids,
            final(self).durations == old(self).durations,
    {
        let lines: Vec<u32> = lines_in(&row.numbits);
        let at: usize = self.page_for(row.file.as_str());
        let ghost start = *self;
        let outside: bool = row.context.as_str().is_empty();
        if outside {
            self.pages[at].import_all(&lines);
        } else {
            self.pages[at].note_all(&lines, row.context_id);
            self.tests.push((row.context.clone(), row.context_id));
            assert(self.tests@.drop_last() =~= start.tests@);
        }
        proof {
            let files = self.files@;
            assert(files == start.files@);
            lemma_slot_bounds(files, row.file@, files.len() as int);
            assert forall|file: Seq<char>, line: u32| #[trigger]
                self.covering(file, line) == if row@.context.len() > 0 && touches(row@, file, line) {
                    ids::with_id(start.covering(file, line), row.context_id)
                } else {
                    start.covering(file, line)
                } by {
                lemma_slot_bounds(files, file, files.len() as int);
                let k = slot(files, file, files.len() as int);
                if k >= 0 {
                    assert(self.pages@[k].ids(line) == self.pages@[k].ids(line));
                    assert(start.pages@[k].ids(line) == start.pages@[k].ids(line));
                }
            }
            assert forall|file: Seq<char>, line: u32| #[trigger]
                self.at_import(file, line) == (start.at_import(file, line) || (row@.context.len()
                    == 0 && touches(row@, file, line))) by {
                lemma_slot_bounds(files, file, files.len() as int);
                let k = slot(files, file, files.len() as int);
                if k >= 0 {
                    assert(self.pages@[k].imported@.contains(line)
                        == self.pages@[k].imported@.contains(line));
                }
            }
        }
    }

    /// The map that these rows describe.
    pub fn build(rows: &[CoverageRow]) -> (coverage: Coverage)
        ensures
            coverage.wf(),
            forall|file: Seq<char>, line: u32| #[trigger]
                coverage.covering(file, line) == covered_by(rows_of(rows@), file, line),
            forall|file: Seq<char>, line: u32| #[trigger]
                coverage.at_import(file, line) == imported_by(rows_of(rows@), file, line),
            forall|name: Seq<char>| #[trigger]
                coverage.context(name) == context_by(rows_of(rows@), name),
            forall|id: i64| #[trigger] coverage.node(id) == None::<Seq<char>>,
            forall|id: i64| #[trigger] coverage.cost(id) == 0,
    {
        let ghost all = rows_of(rows@);
        let mut coverage: Coverage = Coverage::empty();
        let mut at: usize = 0;
        while at < rows.len()
            invariant
                at <= rows@.len(),
                all == rows_of(rows@),
                coverage.wf(),
                forall|file: Seq<char>, line: u32| #[trigger]
                    coverage.covering(file, line) == covered_by(
                        all.subrange(0, at as int),
                        file,
                        line,
                    ),
                forall|file: Seq<char>, line: u32| #[trigger]
                    coverage.at_import(file, line) == imported_by(
                        all.subrange(0, at as int),
                        file,
                        line,
                    ),
                forall|name: Seq<char>| #[trigger]
                    coverage.context(name) == context_by(all.subrange(0, at as int), name),
                forall|id: i64| #[trigger] coverage.node(id) == None::<Seq<char>>,
                forall|id: i64| #[trigger] coverage.cost(id) == 0,
            decreases rows@.len() - at,
        {
            let ghost before = coverage;
            coverage.add_row(&rows[at]);
            proof {
                let now = all.subrange(0, at + 1);
                let then = all.subrange(0, at as int);
                assert(now.drop_last() =~= then);
                assert(now.last() == rows@[at as int]@);
                assert forall|file: Seq<char>, line: u32| #[trigger]
                    coverage.covering(file, line) == covered_by(now, file, line) by {
                    assert(before.covering(file, line) == covered_by(then, file, line));
                }
                assert forall|file: Seq<char>, line: u32| #[trigger]
                    coverage.at_import(file, line) == imported_by(now, file, line) by {
                    assert(before.at_import(file, line) == imported_by(then, file, line));
                    if imported_by(then, file, line) {
                        let k = choose|k: int|
                            0 <= k < then.len() && (#[trigger] then[k]).context.len() == 0
                                && touches(then[k], file, line);
                        assert(now[k] == then[k]);
                    }
                    if imported_by(now, file, line) && !imported_by(then, file, line) {
                        let k = choose|k: int|
                            0 <= k < now.len() && (#[trigger] now[k]).context.len() == 0
                                && touches(now[k], file, line);
                        if k < at {
                            assert(then[k] == now[k]);
                        }
                    }
                    assert(now[at as int] == rows@[at as int]@);
                }
                assert forall|name: Seq<char>| #[trigger]
                    coverage.context(name) == context_by(now, name) by {
                    assert(before.context(name) == context_by(then, name));
                }
                assert forall|id: i64| #[trigger] coverage.node(id) == None::<Seq<char>> by {
                    assert(before.node(id) == None::<Seq<char>>);
                }
                assert forall|id: i64| #[trigger] coverage.cost(id) == 0 by {
                    assert(before.cost(id) == 0);
                }
            }
            at += 1;
        }
        assert(all.subrange(0, at as int) =~= all);
        coverage
    }

    /// The tests that run a mutant's line.
    pub open spec fn tests_of(self, mutant: Planted) -> Seq<i64> {
        self.covering(mutate::forward_slashed(mutant.file), mutant.line as u32)
    }

    /// What the tests say about a mutant.
    pub open spec fn standing(self, mutant: Planted) -> Standing {
        if self.tests_of(mutant).len() > 0 {
            Standing::Tested(self.tests_of(mutant))
        } else if self.at_import(mutate::forward_slashed(mutant.file), mutant.line as u32) {
            Standing::ImportOnly
        } else {
            Standing::Untested
        }
    }

    pub fn classify(&self, mutant: &Mutant) -> (standing: TestCoverage)
        requires
            self.wf(),
        ensures
            standing@ == self.standing(mutant@),
            standing is Tested ==> ids::is_set(self.tests_of(mutant@)),
    {
        let file: String = mutant.coverage_file();
        proof {
            self.lemma_covering_is_a_set(file@, mutant.line);
        }
        match slot_of(&self.files, file.as_str()) {
            None => TestCoverage::Untested,
            Some(at) => {
                match self.pages[at].tested.get(&mutant.line) {
                    Some(set) => if set.len() > 0 {
                        let copy: Vec<i64> = set.clone();
                        assert(copy@ =~= set@);
                        return TestCoverage::Tested(copy);
                    },
                    None => {},
                }
                if self.pages[at].imported.contains(&mutant.line) {
                    TestCoverage::ImportOnly
                } else {
                    TestCoverage::Untested
                }
            },
        }
    }

    fn context_id(&self, name: &str) -> (id: Option<i64>)
        ensures
            id == self.context(name@),
    {
        let mut upto: usize = self.tests.len();
        assert(self.tests@.subrange(0, upto as int) =~= self.tests@);
        while upto > 0
            invariant
                upto <= self.tests@.len(),
                self.context(name@) == last_named(self.tests@.subrange(0, upto as int), name@),
            decreases upto,
        {
            let ghost here = self.tests@.subrange(0, upto as int);
            assert(here.drop_last() =~= self.tests@.subrange(0, upto - 1));
            assert(here.last() == self.tests@[upto - 1]);
            if text::same(self.tests[upto - 1].0.as_str(), name) {
                return Some(self.tests[upto - 1].1);
            }
            upto -= 1;
        }
        None
    }
}

/// Whether a test of the baseline names the pytest node that runs a context.
pub open spec fn names_context(
    coverage: Coverage,
    test: Case,
    files: Seq<Seq<char>>,
    id: i64,
) -> bool {
    coverage.context(test.context()) == Some(id) && test.node(files).is_some()
}

/// The node id of a context, once these tests have been seen: the last test
/// that names it decides.
pub open spec fn node_after(
    coverage: Coverage,
    tests: Seq<Case>,
    files: Seq<Seq<char>>,
    id: i64,
) -> Option<Seq<char>>
    decreases tests.len(),
{
    if tests.len() == 0 {
        coverage.node(id)
    } else if names_context(coverage, tests.last(), files, id) {
        tests.last().node(files)
    } else {
        node_after(coverage, tests.drop_last(), files, id)
    }
}

/// What a context costs, once these tests have been seen. Parametrised cases
/// collapse onto one context and one node id, and running that id runs every
/// parameter, so their times add up.
pub open spec fn cost_after(
    coverage: Coverage,
    tests: Seq<Case>,
    files: Seq<Seq<char>>,
    id: i64,
) -> u64
    decreases tests.len(),
{
    if tests.len() == 0 {
        coverage.cost(id)
    } else {
        let before = cost_after(coverage, tests.drop_last(), files, id);
        if names_context(coverage, tests.last(), files, id) {
            capped(before + tests.last().duration)
        } else {
            before
        }
    }
}

/// The mutants behind a list of references.
pub open spec fn members(list: Seq<&Mutant>) -> Seq<Planted> {
    list.map_values(|mutant: &Mutant| mutant@)
}

impl Coverage {
    /// Pair each coverage context with the pytest node id that can run it, and
    /// with what that node id cost. Contexts that cannot be resolved simply
    /// stay out, which costs a full-suite run rather than a wrong one. `files`
    /// are the files that exist, named from the project root.
    pub fn resolve_node_ids(&mut self, testcases: &[TestCase], files: &[String])
        requires
            old(self).wf(),
        ensures
            final(self).wf(),
            forall|file: Seq<char>, line: u32| #[trigger]
                final(self).covering(file, line) == old(self).covering(file, line),
            forall|file: Seq<char>, line: u32| #[trigger]
                final(self).at_import(file, line) == old(self).at_import(file, line),
            forall|name: Seq<char>| #[trigger]
                final(self).context(name) == old(self).context(name),
            forall|id: i64| #[trigger]
                final(self).node(id) == node_after(
                    *old(self),
                    pytest::cases(testcases@),
                    text::texts(files@),
                    id,
                ),
            forall|id: i64| #[trigger]
                final(self).cost(id) == cost_after(
                    *old(self),
                    pytest::cases(testcases@),
                    text::texts(files@),
                    id,
                ),
    {
        let ghost start = *self;
        let ghost all = pytest::cases(testcases@);
        let ghost known = text::texts(files@);
        let mut at: usize = 0;
        while at < testcases.len()
            invariant
                at <= testcases@.len(),
                all == pytest::cases(testcases@),
                known == text::texts(files@),
                self.files == start.files,
                self.pages == start.pages,
                self.tests == start.tests,
                forall|id: i64| #[trigger]
                    self.node(id) == node_after(start, all.subrange(0, at as int), known, id),
                forall|id: i64| #[trigger]
                    self.cost(id) == cost_after(start, all.subrange(0, at as int), known, id),
            decreases testcases@.len() - at,
        {
            let ghost before = *self;
            let test: &TestCase = &testcases[at];
            let name: String = test.context_name();
            let context: Option<i64> = self.context_id(name.as_str());
            let node: Option<String> = test.node_id(files);
            assert(context == start.context(test@.context()));
            match (context, node) {
                (Some(id), Some(node)) => {
                    self.node_ids.insert(id, node);
                    let so_far: u64 = match self.durations.get(&id) {
                        Some(so_far) => *so_far,
                        None => 0,
                    };
                    assert(so_far == before.cost(id));
                    self.durations.insert(id, so_far.saturating_add(test.duration));
                },
                _ => {},
            }
            proof {
                let now = all.subrange(0, at + 1);
                let then = all.subrange(0, at as int);
                assert(now.drop_last() =~= then);
                assert(now.last() == test@);
                assert forall|id: i64| #[trigger]
                    self.node(id) == node_after(start, now, known, id) by {
                    assert(before.node(id) == node_after(start, then, known, id));
                }
                assert forall|id: i64| #[trigger]
                    self.cost(id) == cost_after(start, now, known, id) by {
                    assert(before.cost(id) == cost_after(start, then, known, id));
                }
            }
            at += 1;
        }
        assert(all.subrange(0, at as int) =~= all);
    }

    /// Every test that covers one of these mutants, when each of them has some.
    pub open spec fn contexts(self, mutants: Seq<Planted>) -> Option<Seq<i64>>
        decreases mutants.len(),
    {
        if mutants.len() == 0 {
            Some(Seq::empty())
        } else {
            match self.contexts(mutants.drop_last()) {
                None => None,
                Some(before) => if self.tests_of(mutants.last()).len() == 0 {
                    None
                } else {
                    Some(ids::with_ids(before, self.tests_of(mutants.last())))
                },
            }
        }
    }

    /// The node ids of these contexts and what they took together, when each of
    /// them has one. A node id that several share is charged once.
    pub open spec fn nodes(self, contexts: Seq<i64>) -> Option<(Seq<Seq<char>>, u64)>
        decreases contexts.len(),
    {
        if contexts.len() == 0 {
            Some((Seq::empty(), 0))
        } else {
            match (self.nodes(contexts.drop_last()), self.node(contexts.last())) {
                (Some((names, cost)), Some(node)) => Some(
                    (
                        names::with_name(names, node),
                        if names.contains(node) {
                            cost
                        } else {
                            capped(cost + self.cost(contexts.last()))
                        },
                    ),
                ),
                _ => None,
            }
        }
    }

    /// The tests that can possibly kill these mutants.
    pub open spec fn selection(self, mutants: Seq<Planted>) -> Chosen {
        match self.contexts(mutants) {
            None => pytest::everything(),
            Some(contexts) => match self.nodes(contexts) {
                None => pytest::everything(),
                Some((test_ids, cost)) => if test_ids.len() == 0 {
                    pytest::everything()
                } else {
                    Chosen {
                        test_ids,
                        stop_at_first_failure: mutants.len() == 1,
                        baseline_time: Some(cost),
                    }
                },
            },
        }
    }

    proof fn lemma_contexts(self, mutants: Seq<Planted>)
        requires
            self.wf(),
            self.contexts(mutants).is_some(),
        ensures
            ids::is_set(self.contexts(mutants).unwrap()),
            forall|id: i64| #[trigger]
                self.contexts(mutants).unwrap().contains(id) <==> exists|k: int|
                    0 <= k < mutants.len() && (#[trigger] self.tests_of(mutants[k])).contains(id),
            forall|k: int|
                0 <= k < mutants.len() ==> (#[trigger] self.tests_of(mutants[k])).len() > 0,
        decreases mutants.len(),
    {
        if mutants.len() > 0 {
            let shorter = mutants.drop_last();
            self.lemma_contexts(shorter);
            let before = self.contexts(shorter).unwrap();
            let last = mutants.last();
            self.lemma_covering_is_a_set(mutate::forward_slashed(last.file), last.line as u32);
            ids::lemma_with_ids(before, self.tests_of(last));
            assert forall|id: i64| #[trigger]
                self.contexts(mutants).unwrap().contains(id) <==> exists|k: int|
                    0 <= k < mutants.len() && (#[trigger] self.tests_of(mutants[k])).contains(
                        id,
                    ) by {
                if before.contains(id) {
                    let k = choose|k: int|
                        0 <= k < shorter.len() && (#[trigger] self.tests_of(shorter[k])).contains(id);
                    assert(mutants[k] == shorter[k]);
                    assert(self.tests_of(mutants[k]).contains(id));
                }
                if self.tests_of(last).contains(id) {
                    assert(mutants[mutants.len() - 1] == last);
                    assert(self.tests_of(mutants[mutants.len() - 1]).contains(id));
                }
                if exists|k: int|
                    0 <= k < mutants.len() && (#[trigger] self.tests_of(mutants[k])).contains(id) {
                    let k = choose|k: int|
                        0 <= k < mutants.len() && (#[trigger] self.tests_of(mutants[k])).contains(id);
                    if k < shorter.len() {
                        assert(shorter[k] == mutants[k]);
                        assert(self.tests_of(shorter[k]).contains(id));
                    }
                }
            }
            assert forall|k: int| 0 <= k < mutants.len() implies (#[trigger] self.tests_of(
                mutants[k],
            )).len() > 0 by {
                if k < shorter.len() {
                    assert(self.tests_of(shorter[k]).len() > 0);
                }
            }
        }
    }

    proof fn lemma_nodes(self, contexts: Seq<i64>)
        requires
            self.nodes(contexts).is_some(),
        ensures
            names::is_sorted(self.nodes(contexts).unwrap().0),
            forall|name: Seq<char>| #[trigger]
                self.nodes(contexts).unwrap().0.contains(name) <==> exists|k: int|
                    0 <= k < contexts.len() && #[trigger] self.node(contexts[k]) == Some(name),
            forall|k: int| 0 <= k < contexts.len() ==> (#[trigger] self.node(contexts[k])).is_some(),
        decreases contexts.len(),
    {
        if contexts.len() > 0 {
            let shorter = contexts.drop_last();
            self.lemma_nodes(shorter);
            let before = self.nodes(shorter).unwrap().0;
            let node = self.node(contexts.last()).unwrap();
            names::lemma_with_name(before, node);
            assert forall|name: Seq<char>| #[trigger]
                self.nodes(contexts).unwrap().0.contains(name) <==> exists|k: int|
                    0 <= k < contexts.len() && #[trigger] self.node(contexts[k]) == Some(name) by {
                if before.contains(name) {
                    let k = choose|k: int|
                        0 <= k < shorter.len() && #[trigger] self.node(shorter[k]) == Some(name);
                    assert(contexts[k] == shorter[k]);
                    assert(self.node(contexts[k]) == Some(name));
                }
                if name == node {
                    assert(contexts[contexts.len() - 1] == contexts.last());
                    assert(self.node(contexts[contexts.len() - 1]) == Some(name));
                }
                if exists|k: int|
                    0 <= k < contexts.len() && #[trigger] self.node(contexts[k]) == Some(name) {
                    let k = choose|k: int|
                        0 <= k < contexts.len() && #[trigger] self.node(contexts[k]) == Some(name);
                    if k < shorter.len() {
                        assert(shorter[k] == contexts[k]);
                        assert(self.node(shorter[k]) == Some(name));
                    }
                }
            }
            assert forall|k: int| 0 <= k < contexts.len() implies (#[trigger] self.node(
                contexts[k],
            )).is_some() by {
                if k < shorter.len() {
                    assert(self.node(shorter[k]).is_some());
                }
            }
        }
    }

    proof fn lemma_no_contexts(self, mutants: Seq<Planted>, upto: int)
        requires
            0 <= upto <= mutants.len(),
            self.contexts(mutants.subrange(0, upto)).is_none(),
        ensures
            self.contexts(mutants).is_none(),
        decreases mutants.len() - upto,
    {
        if upto < mutants.len() {
            assert(mutants.subrange(0, upto + 1).drop_last() =~= mutants.subrange(0, upto));
            self.lemma_no_contexts(mutants, upto + 1);
        } else {
            assert(mutants.subrange(0, upto) =~= mutants);
        }
    }

    proof fn lemma_no_nodes(self, contexts: Seq<i64>, upto: int)
        requires
            0 <= upto <= contexts.len(),
            self.nodes(contexts.subrange(0, upto)).is_none(),
        ensures
            self.nodes(contexts).is_none(),
        decreases contexts.len() - upto,
    {
        if upto < contexts.len() {
            assert(contexts.subrange(0, upto + 1).drop_last() =~= contexts.subrange(0, upto));
            self.lemma_no_nodes(contexts, upto + 1);
        } else {
            assert(contexts.subrange(0, upto) =~= contexts);
        }
    }

    fn union_of_tests(&self, mutants: &[&Mutant]) -> (contexts: Option<Vec<i64>>)
        requires
            self.wf(),
        ensures
            contexts.is_some() == self.contexts(members(mutants@)).is_some(),
            contexts.is_some() ==> contexts.unwrap()@ == self.contexts(members(mutants@)).unwrap(),
    {
        let ghost all = members(mutants@);
        let mut contexts: Vec<i64> = Vec::new();
        assert(self.contexts(all.subrange(0, 0)) == Some(contexts@));
        let mut at: usize = 0;
        while at < mutants.len()
            invariant
                at <= mutants@.len(),
                self.wf(),
                all == members(mutants@),
                self.contexts(all.subrange(0, at as int)) == Some(contexts@),
            decreases mutants@.len() - at,
        {
            assert(all.subrange(0, at + 1).drop_last() =~= all.subrange(0, at as int));
            assert(all.subrange(0, at + 1).last() == mutants@[at as int]@);
            match self.classify(mutants[at]) {
                TestCoverage::Tested(covering) => {
                    ids::add_ids(&mut contexts, &covering);
                },
                _ => {
                    assert(self.contexts(all.subrange(0, at + 1)).is_none());
                    proof {
                        self.lemma_no_contexts(all, at + 1);
                    }
                    return None;
                },
            }
            at += 1;
        }
        assert(all.subrange(0, at as int) =~= all);
        Some(contexts)
    }

    /// The tests that can possibly kill this batch, and what they cost in the
    /// baseline. Falls back to the whole suite whenever a member's tests cannot
    /// be named exactly, running too many tests is slow, running too few would
    /// invent survivors.
    ///
    /// Times come from a run wrapped in coverage.py, so they are longer than an
    /// unwrapped run's. Erring long is the safe direction for a budget.
    pub fn select(&self, mutants: &[&Mutant]) -> (selection: Selection)
        requires
            self.wf(),
        ensures
            selection@ == self.selection(members(mutants@)),
    {
        let contexts: Vec<i64> = match self.union_of_tests(mutants) {
            Some(contexts) => contexts,
            None => return Selection::whole_suite(),
        };
        let ghost all = contexts@;
        let mut test_ids: Vec<String> = Vec::new();
        let mut baseline_time: u64 = 0;
        assert(text::texts(test_ids@) =~= Seq::<Seq<char>>::empty());
        assert(all.subrange(0, 0) =~= Seq::<i64>::empty());
        let mut at: usize = 0;
        while at < contexts.len()
            invariant
                at <= contexts@.len(),
                all == contexts@,
                self.contexts(members(mutants@)) == Some(all),
                self.nodes(all.subrange(0, at as int)) == Some(
                    (text::texts(test_ids@), baseline_time),
                ),
            decreases contexts@.len() - at,
        {
            assert(all.subrange(0, at + 1).drop_last() =~= all.subrange(0, at as int));
            assert(all.subrange(0, at + 1).last() == all[at as int]);
            let id: i64 = contexts[at];
            match self.node_ids.get(&id) {
                Some(node_id) => {
                    proof {
                        self.lemma_nodes(all.subrange(0, at as int));
                    }
                    if names::add_name(&mut test_ids, node_id.as_str()) {
                        let cost: u64 = match self.durations.get(&id) {
                            Some(cost) => *cost,
                            None => 0,
                        };
                        baseline_time = baseline_time.saturating_add(cost);
                    }
                },
                None => {
                    assert(self.nodes(all.subrange(0, at + 1)).is_none());
                    proof {
                        self.lemma_no_nodes(all, at + 1);
                    }
                    return Selection::whole_suite();
                },
            }
            at += 1;
        }
        assert(all.subrange(0, at as int) =~= all);
        assert(text::texts(test_ids@).len() == test_ids@.len());
        if test_ids.len() == 0 {
            return Selection::whole_suite();
        }
        assert(members(mutants@).len() == mutants@.len());
        let selection: Selection = Selection {
            test_ids,
            stop_at_first_failure: mutants.len() == 1,
            baseline_time: Some(baseline_time),
        };
        assert(selection@ =~= self.selection(members(mutants@)));
        selection
    }

    /// Whether a failed test is one of those that run this mutant.
    pub open spec fn hits(self, failed: Seq<char>, mutant: Planted) -> bool {
        match self.context(normalized(failed)) {
            Some(id) => self.tests_of(mutant).contains(id),
            None => false,
        }
    }

    /// Whether some member of a batch explains a failed test.
    pub open spec fn explains(self, mutants: Seq<Planted>, failed: Seq<char>) -> bool {
        exists|k: int| 0 <= k < mutants.len() && self.hits(failed, #[trigger] mutants[k])
    }

    /// Whether a failed test points at one member of a batch and no other.
    pub open spec fn tells_apart(self, mutants: Seq<Planted>) -> bool {
        forall|failed: Seq<char>, i: int, j: int|
            0 <= i < mutants.len() && 0 <= j < mutants.len() && #[trigger] self.hits(
                failed,
                mutants[i],
            ) && #[trigger] self.hits(failed, mutants[j]) ==> i == j
    }

    /// What the failed tests decide about a mutant.
    pub open spec fn verdict(self, mutant: Planted, failed_tests: Seq<Seq<char>>) -> Status {
        if exists|k: int|
            0 <= k < failed_tests.len() && self.hits(#[trigger] failed_tests[k], mutant) {
            Status::Killed
        } else {
            Status::Survived
        }
    }

    /// Map a red batch run to per-mutant verdicts: a failed test kills the
    /// batch member it covers. None = a failure nobody explains, caller must
    /// split the batch instead.
    pub fn attribute(&self, mutants: &[&Mutant], failed_tests: &[String]) -> (verdicts: Option<
        Vec<(i64, Status)>,
    >)
        requires
            self.wf(),
        ensures
            verdicts.is_some() <==> forall|k: int|
                0 <= k < failed_tests@.len() ==> self.explains(
                    members(mutants@),
                    (#[trigger] failed_tests@[k])@,
                ),
            verdicts matches Some(list) ==> list@ == Seq::new(
                mutants@.len(),
                |i: int|
                    (
                        mutants@[i].id,
                        self.verdict(mutants@[i]@, text::texts(failed_tests@)),
                    ),
            ),
    {
        let ghost failed = text::texts(failed_tests@);
        let ghost all = members(mutants@);
        let mut verdicts: Vec<(i64, Status)> = Vec::new();
        while verdicts.len() < mutants.len()
            invariant
                verdicts@.len() <= mutants@.len(),
                forall|i: int|
                    0 <= i < verdicts@.len() ==> #[trigger] verdicts@[i] == (
                        mutants@[i].id,
                        Status::Survived,
                    ),
            decreases mutants@.len() - verdicts@.len(),
        {
            verdicts.push((mutants[verdicts.len()].id, Status::Survived));
        }
        assert(failed.subrange(0, 0) =~= Seq::<Seq<char>>::empty());
        let mut at: usize = 0;
        while at < failed_tests.len()
            invariant
                at <= failed_tests@.len(),
                self.wf(),
                failed == text::texts(failed_tests@),
                all == members(mutants@),
                verdicts@.len() == mutants@.len(),
                forall|i: int|
                    0 <= i < verdicts@.len() ==> #[trigger] verdicts@[i] == (
                        mutants@[i].id,
                        self.verdict(mutants@[i]@, failed.subrange(0, at as int)),
                    ),
                forall|k: int|
                    0 <= k < at ==> self.explains(all, (#[trigger] failed_tests@[k])@),
            decreases failed_tests@.len() - at,
        {
            let ghost then = failed.subrange(0, at as int);
            let ghost now = failed.subrange(0, at + 1);
            let ghost name = failed_tests@[at as int]@;
            assert(now =~= then.push(name));
            let context: String = normalize(failed_tests[at].as_str());
            let id: i64 = match self.context_id(context.as_str()) {
                Some(id) => id,
                None => {
                    assert(!self.explains(all, failed_tests@[at as int]@));
                    return None;
                },
            };
            let mut explained: bool = false;
            let mut index: usize = 0;
            while index < mutants.len()
                invariant
                    at < failed_tests@.len(),
                    index <= mutants@.len(),
                    self.wf(),
                    all == members(mutants@),
                    verdicts@.len() == mutants@.len(),
                    now == then.push(name),
                    self.context(normalized(name)) == Some(id),
                    forall|i: int|
                        0 <= i < index ==> #[trigger] verdicts@[i] == (
                            mutants@[i].id,
                            self.verdict(mutants@[i]@, now),
                        ),
                    forall|i: int|
                        index <= i < verdicts@.len() ==> #[trigger] verdicts@[i] == (
                            mutants@[i].id,
                            self.verdict(mutants@[i]@, then),
                        ),
                    explained <==> exists|k: int|
                        0 <= k < index && self.hits(name, #[trigger] all[k]),
                decreases mutants@.len() - index,
            {
                let mutant: &Mutant = mutants[index];
                assert(all[index as int] == mutant@);
                let struck: bool = match self.classify(mutant) {
                    TestCoverage::Tested(covering) => ids::has_id(&covering, id),
                    _ => false,
                };
                assert(struck == self.hits(name, mutant@));
                proof {
                    if struck {
                        assert(now[then.len() as int] == name);
                        assert(self.hits(now[then.len() as int], mutant@));
                    } else {
                        if self.verdict(mutant@, now) is Killed {
                            let k = choose|k: int|
                                0 <= k < now.len() && self.hits(#[trigger] now[k], mutant@);
                            assert(then[k] == now[k]);
                        }
                        if self.verdict(mutant@, then) is Killed {
                            let k = choose|k: int|
                                0 <= k < then.len() && self.hits(#[trigger] then[k], mutant@);
                            assert(now[k] == then[k]);
                        }
                    }
                }
                if struck {
                    verdicts.set(index, (mutant.id, Status::Killed));
                    explained = true;
                }
                index += 1;
            }
            if !explained {
                assert(!self.explains(all, failed_tests@[at as int]@));
                return None;
            }
            assert(self.explains(all, name));
            at += 1;
        }
        assert(failed.subrange(0, at as int) =~= failed);
        assert(verdicts@ =~= Seq::new(
            mutants@.len(),
            |i: int| (mutants@[i].id, self.verdict(mutants@[i]@, failed)),
        ));
        Some(verdicts)
    }

    /// Whether a run of a mutant's own tests says something about the mutant:
    /// they can all be named, and none of them was failing before.
    pub open spec fn fair(self, mutant: Planted, failing: Seq<Seq<char>>) -> bool {
        &&& self.selection(seq![mutant]).test_ids.len() > 0
        &&& forall|k: int| 0 <= k < failing.len() ==> !self.hits(#[trigger] failing[k], mutant)
    }

    /// Whether a run of this mutant can avoid every test that was already
    /// failing. A run that would have to execute one of them exits 1 because of
    /// the failure that was already there.
    pub fn gets_a_fair_trial(&self, mutant: &Mutant, already_failing: &[String]) -> (yes: bool)
        requires
            self.wf(),
        ensures
            yes == self.fair(mutant@, text::texts(already_failing@)),
    {
        let ghost failing = text::texts(already_failing@);
        let mut alone: Vec<&Mutant> = Vec::new();
        alone.push(mutant);
        let selection: Selection = self.select(&alone);
        assert(members(alone@) =~= seq![mutant@]);
        assert(selection@.test_ids.len() == selection.test_ids@.len());
        if selection.test_ids.len() == 0 {
            return false;
        }
        let covering: Vec<i64> = match self.classify(mutant) {
            TestCoverage::Tested(covering) => covering,
            _ => Vec::new(),
        };
        assert(covering@ =~= self.tests_of(mutant@));
        let mut at: usize = 0;
        while at < already_failing.len()
            invariant
                at <= already_failing@.len(),
                failing == text::texts(already_failing@),
                covering@ == self.tests_of(mutant@),
                forall|k: int| 0 <= k < at ==> !self.hits(#[trigger] failing[k], mutant@),
            decreases already_failing@.len() - at,
        {
            let context: String = normalize(already_failing[at].as_str());
            assert(failing[at as int] == already_failing@[at as int]@);
            match self.context_id(context.as_str()) {
                Some(id) => if ids::has_id(&covering, id) {
                    assert(self.hits(failing[at as int], mutant@));
                    return false;
                },
                None => {},
            }
            at += 1;
        }
        true
    }
}

/// A selection that names its tests names every test that runs one of the
/// mutants, and no other, each of them once and in order. So a selected run
/// leaves out no test that could kill a member.
pub proof fn law_a_selection_names_every_covering_test(coverage: Coverage, mutants: Seq<Planted>)
    requires
        coverage.wf(),
        coverage.selection(mutants).test_ids.len() > 0,
    ensures
        names::is_sorted(coverage.selection(mutants).test_ids),
        forall|m: int, id: i64|
            0 <= m < mutants.len() && #[trigger] coverage.tests_of(mutants[m]).contains(id)
                ==> coverage.node(id).is_some() && coverage.selection(mutants).test_ids.contains(
                coverage.node(id).unwrap(),
            ),
        forall|name: Seq<char>| #[trigger]
            coverage.selection(mutants).test_ids.contains(name) ==> exists|m: int, id: i64|
                0 <= m < mutants.len() && #[trigger] coverage.tests_of(mutants[m]).contains(id)
                    && coverage.node(id) == Some(name),
{
    coverage.lemma_contexts(mutants);
    let contexts = coverage.contexts(mutants).unwrap();
    coverage.lemma_nodes(contexts);
    let chosen = coverage.selection(mutants).test_ids;
    assert forall|m: int, id: i64|
        0 <= m < mutants.len() && #[trigger] coverage.tests_of(mutants[m]).contains(
            id,
        ) implies coverage.node(id).is_some() && chosen.contains(coverage.node(id).unwrap()) by {
        assert(contexts.contains(id));
        let k = choose|k: int| 0 <= k < contexts.len() && contexts[k] == id;
        assert(coverage.node(contexts[k]).is_some());
        assert(chosen.contains(coverage.node(contexts[k]).unwrap()));
    }
    assert forall|name: Seq<char>| #[trigger] chosen.contains(name) implies exists|m: int, id: i64|
        0 <= m < mutants.len() && #[trigger] coverage.tests_of(mutants[m]).contains(id)
            && coverage.node(id) == Some(name) by {
        let k = choose|k: int|
            0 <= k < contexts.len() && #[trigger] coverage.node(contexts[k]) == Some(name);
        assert(contexts.contains(contexts[k]));
        let m = choose|m: int|
            0 <= m < mutants.len() && (#[trigger] coverage.tests_of(mutants[m])).contains(
                contexts[k],
            );
        assert(coverage.tests_of(mutants[m]).contains(contexts[k]));
    }
}

/// A mutant whose tests cannot all be named runs the whole suite: some member
/// has no test of its own, or some test of a member has no node id.
pub proof fn law_what_cannot_be_named_runs_everything(coverage: Coverage, mutants: Seq<Planted>, m: int)
    requires
        coverage.wf(),
        0 <= m < mutants.len(),
        coverage.tests_of(mutants[m]).len() == 0 || exists|id: i64| #[trigger]
            coverage.tests_of(mutants[m]).contains(id) && coverage.node(id).is_none(),
    ensures
        coverage.selection(mutants) == pytest::everything(),
{
    if coverage.selection(mutants).test_ids.len() > 0 {
        law_a_selection_names_every_covering_test(coverage, mutants);
        coverage.lemma_contexts(mutants);
        assert(coverage.tests_of(mutants[m]).len() > 0);
        let id = choose|id: i64| #[trigger]
            coverage.tests_of(mutants[m]).contains(id) && coverage.node(id).is_none();
        assert(coverage.tests_of(mutants[m]).contains(id));
    }
}

/// An uncosted run is a whole-suite run, and the other way round.
pub proof fn law_only_the_whole_suite_is_uncosted(coverage: Coverage, mutants: Seq<Planted>)
    ensures
        coverage.selection(mutants).baseline_time.is_none() <==> coverage.selection(mutants)
            == pytest::everything(),
        coverage.selection(mutants).baseline_time.is_none() <==> coverage.selection(
            mutants,
        ).test_ids.len() == 0,
{
}

/// A batch never stops at its first failure.
pub proof fn law_a_batch_never_stops_early(coverage: Coverage, mutants: Seq<Planted>)
    requires
        mutants.len() != 1,
    ensures
        !coverage.selection(mutants).stop_at_first_failure,
{
}

/// The command that runs a suite under coverage.py. `owned` says whether the
/// command starts with a virtualenv's own interpreter.
pub open spec fn wrapped(command: Seq<Seq<char>>, owned: bool, rcfile: Seq<char>) -> Option<
    Seq<Seq<char>>,
> {
    if command.len() >= 3 && (command[0] == "python"@ || owned) && command[1] == "-m"@ && command[2]
        == "pytest"@ {
        Some(
            seq![
                command[0],
                "-m"@,
                "coverage"@,
                "run"@,
                "--rcfile"@,
                rcfile,
                "-m"@,
                "pytest"@,
            ] + command.subrange(3, command.len() as int),
        )
    } else {
        None
    }
}

/// The test command under coverage.py. Only the default pytest command can be
/// wrapped: any other one may not run python at all. A virtualenv's own
/// interpreter counts, and carries over; whether the command names one, which
/// only the disk can tell, is for the caller to say.
pub fn coverage_command(test_command: &[String], owned: bool, rcfile: &str) -> (command: Option<
    Vec<String>,
>)
    ensures
        command.is_some() == wrapped(text::texts(test_command@), owned, rcfile@).is_some(),
        command.is_some() ==> text::texts(command.unwrap()@) == wrapped(
            text::texts(test_command@),
            owned,
            rcfile@,
        ).unwrap(),
{
    let ghost given = text::texts(test_command@);
    if test_command.len() < 3 {
        return None;
    }
    assert(given[0] == test_command@[0]@ && given[1] == test_command@[1]@ && given[2]
        == test_command@[2]@);
    let default: bool = (owned || text::same(test_command[0].as_str(), "python")) && text::same(
        test_command[1].as_str(),
        "-m",
    ) && text::same(test_command[2].as_str(), "pytest");
    if !default {
        return None;
    }
    let mut command: Vec<String> = Vec::new();
    command.push(test_command[0].clone());
    command.push(text::owned("-m"));
    command.push(text::owned("coverage"));
    command.push(text::owned("run"));
    command.push(text::owned("--rcfile"));
    command.push(text::owned(rcfile));
    command.push(text::owned("-m"));
    command.push(text::owned("pytest"));
    let ghost first = text::texts(command@);
    assert(first =~= seq![
        given[0],
        "-m"@,
        "coverage"@,
        "run"@,
        "--rcfile"@,
        rcfile@,
        "-m"@,
        "pytest"@,
    ]);
    let rest: &[String] = vstd::slice::slice_subrange(test_command, 3, test_command.len());
    let mut copied: Vec<String> = text::copy_list(rest);
    command.append(&mut copied);
    assert(text::texts(command@) =~= first + given.subrange(3, given.len() as int));
    Some(command)
}

/// What coverage.py is told about a run.
pub open spec fn settings(data_file: Seq<char>) -> Seq<char> {
    "[run]\ndata_file = "@ + data_file
        + "\ndynamic_context = test_function\nrelative_files = true\n"@
}

/// The configuration file of a coverage.py run.
pub fn coverage_settings(data_file: &str) -> (text: String)
    ensures
        text@ == settings(data_file@),
{
    let mut text: String = text::owned("[run]\ndata_file = ");
    text.append(data_file);
    text.append("\ndynamic_context = test_function\nrelative_files = true\n");
    text
}

/// What one run of the untouched suite showed.
pub struct Baseline {
    pub coverage: Option<Coverage>,
    /// How long it took, in nanoseconds.
    pub duration: u64,
    /// The tests that failed with no mutant planted.
    pub already_failing: Vec<String>,
}

impl Baseline {
    pub fn is_green(&self) -> (yes: bool)
        ensures
            yes == (self.already_failing@.len() == 0),
    {
        self.already_failing.len() == 0
    }
}

proof fn lemma_lines_upto(numbits: Seq<u8>, bits: int, line: int)
    requires
        0 <= bits,
        bits <= 0x1_0000_0000,
        0 <= line <= u32::MAX,
    ensures
        lines_upto(numbits, bits).contains(line as u32) <==> line < bits && (numbits[line / 8] >> ((
        line % 8) as u8)) & 1 == 1,
        forall|i: int|
            0 <= i < lines_upto(numbits, bits).len() ==> (#[trigger] lines_upto(
                numbits,
                bits,
            )[i]) < bits,
        forall|i: int, j: int|
            0 <= i < j < lines_upto(numbits, bits).len() ==> (#[trigger] lines_upto(
                numbits,
                bits,
            )[i]) < (#[trigger] lines_upto(numbits, bits)[j]),
    decreases bits,
{
    if bits > 0 {
        lemma_lines_upto(numbits, bits - 1, line);
        let before = lines_upto(numbits, bits - 1);
        let now = lines_upto(numbits, bits);
        if now.len() > before.len() {
            assert(now[before.len() as int] == (bits - 1) as u32);
            if before.contains(line as u32) {
                let k = choose|k: int| 0 <= k < before.len() && before[k] == line as u32;
                assert(now[k] == line as u32);
            }
            if now.contains(line as u32) && line != bits - 1 {
                let k = choose|k: int| 0 <= k < now.len() && now[k] == line as u32;
                assert(before[k] == line as u32);
            }
        }
    }
}

/// A line is among the lines of a bitmap exactly when its bit is set: bit `n % 8`
/// of byte `n / 8`, the lowest bit first. Each line is listed once, in ascending
/// order.
pub proof fn law_a_line_ran_exactly_when_its_bit_is_set(numbits: Seq<u8>, line: int)
    requires
        8 * numbits.len() <= 0x1_0000_0000,
        0 <= line <= u32::MAX,
    ensures
        line < 8 * numbits.len() ==> (lines_set(numbits).contains(line as u32) <==> (numbits[line
            / 8] >> ((line % 8) as u8)) & 1 == 1),
        line >= 8 * numbits.len() ==> !lines_set(numbits).contains(line as u32),
        forall|i: int, j: int|
            0 <= i < j < lines_set(numbits).len() ==> (#[trigger] lines_set(numbits)[i]) < (
            #[trigger] lines_set(numbits)[j]),
{
    lemma_lines_upto(numbits, 8 * numbits.len() as int, line);
}

/// Whether a bitmap has the bit of a line set.
pub open spec fn marks(numbits: Seq<u8>, line: u32) -> bool {
    line < 8 * numbits.len() && (numbits[line as int / 8] >> ((line % 8) as u8)) & 1 == 1
}

/// A test covers a line exactly when some row of that test, for that file, has
/// the bit of the line set. Rows without a context are no test. Each test is
/// listed once, in ascending order.
pub proof fn law_a_test_covers_exactly_what_it_ran(
    rows: Seq<Row>,
    file: Seq<char>,
    line: u32,
    id: i64,
)
    requires
        forall|k: int|
            0 <= k < rows.len() ==> 8 * (#[trigger] rows[k]).numbits.len() <= 0x1_0000_0000,
    ensures
        covered_by(rows, file, line).contains(id) <==> exists|k: int|
            0 <= k < rows.len() && (#[trigger] rows[k]).context_id == id && rows[k].context.len() > 0
                && rows[k].file == file && marks(rows[k].numbits, line),
        forall|i: int, j: int|
            0 <= i < j < covered_by(rows, file, line).len() ==> (#[trigger] covered_by(
                rows,
                file,
                line,
            )[i]) < (#[trigger] covered_by(rows, file, line)[j]),
    decreases rows.len(),
{
    if rows.len() > 0 {
        let fewer = rows.drop_last();
        let row = rows.last();
        assert forall|k: int| 0 <= k < fewer.len() implies 8 * (
        #[trigger] fewer[k]).numbits.len() <= 0x1_0000_0000 by {
            assert(fewer[k] == rows[k]);
        }
        law_a_test_covers_exactly_what_it_ran(fewer, file, line, id);
        assert(rows[rows.len() - 1] == row);
        law_a_line_ran_exactly_when_its_bit_is_set(row.numbits, line as int);
        ids::lemma_with_id(covered_by(fewer, file, line), row.context_id);
        assert forall|k: int| 0 <= k < fewer.len() implies #[trigger] fewer[k] == rows[k] by {}
        if covered_by(fewer, file, line).contains(id) {
            let k = choose|k: int|
                0 <= k < fewer.len() && (#[trigger] fewer[k]).context_id == id
                    && fewer[k].context.len() > 0 && fewer[k].file == file && marks(
                    fewer[k].numbits,
                    line,
                );
            assert(rows[k] == fewer[k]);
        }
        if exists|k: int|
            0 <= k < rows.len() && (#[trigger] rows[k]).context_id == id && rows[k].context.len()
                > 0 && rows[k].file == file && marks(rows[k].numbits, line) {
            let k = choose|k: int|
                0 <= k < rows.len() && (#[trigger] rows[k]).context_id == id
                    && rows[k].context.len() > 0 && rows[k].file == file && marks(
                    rows[k].numbits,
                    line,
                );
            if k < fewer.len() {
                assert(fewer[k] == rows[k]);
            }
        }
    }
}

/// A line ran at import exactly when a row that belongs to no test, for that
/// file, has the bit of the line set.
pub proof fn law_an_imported_line_ran_outside_every_test(rows: Seq<Row>, file: Seq<char>, line: u32)
    requires
        forall|k: int|
            0 <= k < rows.len() ==> 8 * (#[trigger] rows[k]).numbits.len() <= 0x1_0000_0000,
    ensures
        imported_by(rows, file, line) <==> exists|k: int|
            0 <= k < rows.len() && (#[trigger] rows[k]).context.len() == 0 && rows[k].file == file
                && marks(rows[k].numbits, line),
{
    assert forall|k: int| 0 <= k < rows.len() implies (touches(#[trigger] rows[k], file, line)
        <==> rows[k].file == file && marks(rows[k].numbits, line)) by {
        law_a_line_ran_exactly_when_its_bit_is_set(rows[k].numbits, line as int);
    }
}

/// A test has the id of the last row that names it, and no row has the empty
/// name of no test.
pub proof fn law_a_test_has_the_id_of_its_last_row(rows: Seq<Row>, name: Seq<char>)
    ensures
        context_by(rows, name) matches Some(id) ==> name.len() > 0 && exists|k: int|
            0 <= k < rows.len() && (#[trigger] rows[k]).context == name && rows[k].context_id == id
                && forall|j: int| k < j < rows.len() ==> (#[trigger] rows[j]).context != name,
        context_by(rows, name).is_none() ==> name.len() == 0 || forall|k: int|
            0 <= k < rows.len() ==> (#[trigger] rows[k]).context != name,
    decreases rows.len(),
{
    if rows.len() > 0 {
        let fewer = rows.drop_last();
        law_a_test_has_the_id_of_its_last_row(fewer, name);
        assert(rows[rows.len() - 1] == rows.last());
        assert forall|k: int| 0 <= k < fewer.len() implies #[trigger] rows[k] == fewer[k] by {}
        if !(rows.last().context.len() > 0 && rows.last().context == name) {
            if let Some(id) = context_by(fewer, name) {
                let k = choose|k: int|
                    0 <= k < fewer.len() && (#[trigger] fewer[k]).context == name
                        && fewer[k].context_id == id && forall|j: int|
                        k < j < fewer.len() ==> (#[trigger] fewer[j]).context != name;
                assert(rows[k] == fewer[k]);
                assert forall|j: int| k < j < rows.len() implies (#[trigger] rows[j]).context
                    != name by {
                    if j < fewer.len() {
                        assert(fewer[j].context != name);
                    }
                }
            }
        } else {
            assert(rows[rows.len() - 1].context == name);
        }
    }
}

/// What these tests took together.
pub open spec fn time_of(tests: Seq<Case>) -> int
    decreases tests.len(),
{
    if tests.len() == 0 {
        0
    } else {
        time_of(tests.drop_last()) + tests.last().duration
    }
}

/// What a context costs is what its tests took together, as far as a number can
/// count it: every parameter of a test counts, and nothing else does.
pub proof fn law_a_context_costs_what_its_tests_took(
    coverage: Coverage,
    tests: Seq<Case>,
    files: Seq<Seq<char>>,
    id: i64,
)
    ensures
        ({
            let own = tests.filter(
                |test: Case|
                    coverage.context(test.context()) == Some(id) && test.node(files).is_some(),
            );
            let sum = coverage.cost(id) + time_of(own);
            cost_after(coverage, tests, files, id) == (if sum <= u64::MAX {
                sum
            } else {
                u64::MAX as int
            })
        }),
    decreases tests.len(),
{
    reveal(Seq::filter);
    let own = |test: Case|
        coverage.context(test.context()) == Some(id) && test.node(files).is_some();
    if tests.len() > 0 {
        law_a_context_costs_what_its_tests_took(coverage, tests.drop_last(), files, id);
        let before = tests.drop_last().filter(own);
        if own(tests.last()) {
            assert(tests.filter(own) == before.push(tests.last()));
            assert(before.push(tests.last()).drop_last() =~= before);
        }
    }
}

/// The node id of a context is that of the last test that names it; a context
/// that no test names keeps what it had.
pub proof fn law_the_last_test_names_a_context(
    coverage: Coverage,
    tests: Seq<Case>,
    files: Seq<Seq<char>>,
    id: i64,
    k: int,
)
    requires
        0 <= k < tests.len(),
        coverage.context(tests[k].context()) == Some(id),
        tests[k].node(files).is_some(),
        forall|j: int|
            k < j < tests.len() ==> coverage.context((#[trigger] tests[j]).context()) != Some(id)
                || tests[j].node(files).is_none(),
    ensures
        node_after(coverage, tests, files, id) == tests[k].node(files),
    decreases tests.len(),
{
    if k < tests.len() - 1 {
        let fewer = tests.drop_last();
        assert(fewer[k] == tests[k]);
        assert(tests[tests.len() - 1] == tests.last());
        assert forall|j: int| k < j < fewer.len() implies coverage.context(
            (#[trigger] fewer[j]).context(),
        ) != Some(id) || fewer[j].node(files).is_none() by {
            assert(fewer[j] == tests[j]);
        }
        law_the_last_test_names_a_context(coverage, fewer, files, id, k);
    }
}

/// What these contexts cost together.
pub open spec fn cost_of(coverage: Coverage, contexts: Seq<i64>) -> int
    decreases contexts.len(),
{
    if contexts.len() == 0 {
        0
    } else {
        cost_of(coverage, contexts.drop_last()) + coverage.cost(contexts.last())
    }
}

/// A selection whose contexts all have a node id of their own is charged the
/// sum of what they cost.
pub proof fn law_a_selection_costs_what_its_tests_took(coverage: Coverage, contexts: Seq<i64>)
    requires
        forall|k: int| 0 <= k < contexts.len() ==> coverage.node(#[trigger] contexts[k]).is_some(),
        forall|i: int, j: int|
            0 <= i < j < contexts.len() ==> coverage.node(#[trigger] contexts[i]) != coverage.node(
                #[trigger] contexts[j],
            ),
    ensures
        coverage.nodes(contexts).is_some(),
        coverage.nodes(contexts).unwrap().1 == (if cost_of(coverage, contexts) <= u64::MAX {
            cost_of(coverage, contexts)
        } else {
            u64::MAX as int
        }),
        forall|name: Seq<char>| #[trigger]
            coverage.nodes(contexts).unwrap().0.contains(name) <==> exists|k: int|
                0 <= k < contexts.len() && coverage.node(#[trigger] contexts[k]) == Some(name),
    decreases contexts.len(),
{
    if contexts.len() > 0 {
        let fewer = contexts.drop_last();
        assert forall|k: int| 0 <= k < fewer.len() implies #[trigger] fewer[k] == contexts[k] by {}
        law_a_selection_costs_what_its_tests_took(coverage, fewer);
        coverage.lemma_nodes(fewer);
        coverage.lemma_nodes(contexts);
        let (names, cost) = coverage.nodes(fewer).unwrap();
        let last = contexts[contexts.len() - 1];
        assert(last == contexts.last());
        let node = coverage.node(last).unwrap();
        if names.contains(node) {
            let k = choose|k: int|
                0 <= k < fewer.len() && coverage.node(#[trigger] fewer[k]) == Some(node);
            assert(contexts[k] == fewer[k]);
            assert(false);
        }
        names::lemma_with_name(names, node);
        assert forall|name: Seq<char>| #[trigger]
            coverage.nodes(contexts).unwrap().0.contains(name) <==> exists|k: int|
                0 <= k < contexts.len() && coverage.node(#[trigger] contexts[k]) == Some(name) by {
            if names.contains(name) {
                let k = choose|k: int|
                    0 <= k < fewer.len() && coverage.node(#[trigger] fewer[k]) == Some(name);
                assert(contexts[k] == fewer[k]);
            }
            if name == node {
                assert(coverage.node(contexts[contexts.len() - 1]) == Some(name));
            }
            if exists|k: int|
                0 <= k < contexts.len() && coverage.node(#[trigger] contexts[k]) == Some(name) {
                let k = choose|k: int|
                    0 <= k < contexts.len() && coverage.node(#[trigger] contexts[k]) == Some(name);
                if k < fewer.len() {
                    assert(fewer[k] == contexts[k]);
                }
            }
        }
    }
}

/// The wrapped command is the given one with coverage.py put in front of
/// pytest: the interpreter stays first, and every argument behind `pytest`
/// follows in its place. Only `python -m pytest` and a virtualenv's own
/// interpreter are wrapped.
pub proof fn law_a_wrapped_command_keeps_its_arguments(
    command: Seq<Seq<char>>,
    owned: bool,
    rcfile: Seq<char>,
)
    ensures
        wrapped(command, owned, rcfile).is_some() <==> command.len() >= 3 && (owned || command[0]
            == "python"@) && command[1] == "-m"@ && command[2] == "pytest"@,
        wrapped(command, owned, rcfile) matches Some(out) ==> {
            &&& out.len() == command.len() + 5
            &&& out[0] == command[0]
            &&& out.subrange(1, 6) == seq!["-m"@, "coverage"@, "run"@, "--rcfile"@, rcfile]
            &&& forall|k: int| 1 <= k < command.len() ==> out[k + 5] == #[trigger] command[k]
        },
{
    if let Some(out) = wrapped(command, owned, rcfile) {
        assert(out.subrange(1, 6) =~= seq!["-m"@, "coverage"@, "run"@, "--rcfile"@, rcfile]);
        assert forall|k: int| 1 <= k < command.len() implies out[k + 5] == #[trigger] command[k] by {
            if k >= 3 {
                assert(command.subrange(3, command.len() as int)[k - 3] == command[k]);
            }
        }
    }
}

proof fn lemma_no_double_colon(s: Seq<char>)
    requires
        !s.contains(':'),
    ensures
        !text::occurs(s, "::"@),
{
    reveal_strlit("::");
    if text::occurs(s, "::"@) {
        let at = choose|at: int| text::occurs_at(s, "::"@, at);
        assert(s.subrange(at, at + 2)[0] == ':');
        assert(s[at] == ':');
    }
}

proof fn lemma_first_double_colon(a: Seq<char>, b: Seq<char>)
    requires
        !a.contains(':'),
    ensures
        text::found(a + "::"@ + b, "::"@, 0) == Some(a.len() as int),
{
    reveal_strlit("::");
    let s = a + "::"@ + b;
    text::lemma_found(s, "::"@, 0);
    assert(s.subrange(a.len() as int, a.len() as int + 2) =~= "::"@);
    assert(text::occurs_at(s, "::"@, a.len() as int));
    assert forall|j: int| 0 <= j < a.len() implies !text::occurs_at(s, "::"@, j) by {
        if text::occurs_at(s, "::"@, j) {
            assert(s.subrange(j, j + 2)[0] == ':');
            assert(a[j] == ':');
        }
    }
}

proof fn lemma_dotted(module: Seq<char>)
    ensures
        dotted(module + ".py"@) == module.map_values(
            |c: char|
                if c == '/' || c == '\\' {
                    '.'
                } else {
                    c
                },
        ),
        !text::ends(module, ".py"@) ==> dotted(module) == dotted(module + ".py"@),
{
    reveal_strlit(".py");
    let s = module + ".py"@;
    assert(s.subrange(module.len() as int, s.len() as int) =~= ".py"@);
    assert(text::without_suffix(s, ".py"@) =~= module);
    assert(dotted(s) =~= module.map_values(
        |c: char|
            if c == '/' || c == '\\' {
                '.'
            } else {
                c
            },
    ));
}

/// Every spelling of a test id is one context: the junit name `pkg.mod::test`,
/// the node id `pkg/mod.py::test`, and either of them with parameters behind it
/// become `pkg.mod.test`.
pub proof fn law_both_spellings_of_a_test_are_one_context(
    module: Seq<char>,
    function: Seq<char>,
    parameters: Seq<char>,
)
    requires
        !module.contains(':'),
        !module.contains('['),
        !text::ends(module, ".py"@),
        !function.contains(':'),
        !function.contains('['),
    ensures
        ({
            let context = module.map_values(
                |c: char|
                    if c == '/' || c == '\\' {
                        '.'
                    } else {
                        c
                    },
            ) + seq!['.'] + function;
            &&& normalized(module + "::"@ + function) == context
            &&& normalized(module + ".py"@ + "::"@ + function) == context
            &&& normalized(module + "::"@ + function + seq!['['] + parameters) == context
            &&& normalized(module + ".py"@ + "::"@ + function + seq!['['] + parameters) == context
        }),
{
    reveal_strlit("::");
    reveal_strlit(".py");
    reveal_strlit(".");
    assert("."@ =~= seq!['.']);
    let short = module + "::"@ + function;
    let long = module + ".py"@ + "::"@ + function;
    let path = module + ".py"@;
    assert(!path.contains(':')) by {
        if path.contains(':') {
            let k = choose|k: int| 0 <= k < path.len() && path[k] == ':';
            assert(module[k] == ':');
        }
    }
    assert(!short.contains('[')) by {
        if short.contains('[') {
            let k = choose|k: int| 0 <= k < short.len() && short[k] == '[';
            if k < module.len() {
                assert(module[k] == '[');
            } else {
                assert(function[k - module.len() - 2] == '[');
            }
        }
    }
    assert(!long.contains('[')) by {
        if long.contains('[') {
            let k = choose|k: int| 0 <= k < long.len() && long[k] == '[';
            if k < module.len() {
                assert(module[k] == '[');
            } else {
                assert(function[k - module.len() - 5] == '[');
            }
        }
    }
    pytest::law_parameters_start_at_the_first_bracket(short, parameters);
    pytest::law_parameters_start_at_the_first_bracket(long, parameters);
    lemma_first_double_colon(module, function);
    lemma_first_double_colon(path, function);
    assert(short.subrange(0, module.len() as int) =~= module);
    assert(short.subrange(module.len() as int + 2, short.len() as int) =~= function);
    assert(long.subrange(0, path.len() as int) =~= path);
    assert(long.subrange(path.len() as int + 2, long.len() as int) =~= function);
    lemma_no_double_colon(function);
    text::law_replacing_nothing_changes_nothing(function, "::"@, "."@);
    lemma_dotted(module);
}

/// coverage.py is told where to write, to record which test ran which line, and
/// to name files from the project root.
pub proof fn law_coverage_records_each_test(data_file: Seq<char>)
    ensures
        text::occurs(settings(data_file), "data_file = "@ + data_file + "\n"@),
        text::occurs(settings(data_file), "dynamic_context = test_function\n"@),
        text::occurs(settings(data_file), "relative_files = true\n"@),
{
    reveal_strlit("[run]\ndata_file = ");
    reveal_strlit("[run]\n");
    reveal_strlit("data_file = ");
    reveal_strlit("\n");
    reveal_strlit("dynamic_context = test_function\n");
    reveal_strlit("relative_files = true\n");
    reveal_strlit("\ndynamic_context = test_function\nrelative_files = true\n");
    let context = "dynamic_context = test_function\n"@;
    let relative = "relative_files = true\n"@;
    let named = "data_file = "@ + data_file + "\n"@;
    assert("[run]\ndata_file = "@ =~= "[run]\n"@ + "data_file = "@);
    assert("\ndynamic_context = test_function\nrelative_files = true\n"@ =~= "\n"@ + context
        + relative);
    assert(settings(data_file) =~= "[run]\n"@ + named + (context + relative));
    text::lemma_occurs_between("[run]\n"@, named, context + relative);
    let front = "[run]\n"@ + named;
    assert(settings(data_file) =~= front + context + relative);
    text::lemma_occurs_between(front, context, relative);
    assert(settings(data_file) =~= (front + context) + relative + Seq::<char>::empty());
    text::lemma_occurs_between(front + context, relative, Seq::empty());
}

/// A run of selected tests stops at its first failure exactly when it judges a
/// single mutant.
pub proof fn law_only_a_single_mutant_stops_early(coverage: Coverage, mutants: Seq<Planted>)
    requires
        coverage.selection(mutants).test_ids.len() > 0,
    ensures
        coverage.selection(mutants).stop_at_first_failure <==> mutants.len() == 1,
{
}

/// A mutant is tested by the tests that run its line; without one it is import
/// time when an import runs the line; and untested when nothing does.
pub proof fn law_a_mutant_stands_by_what_runs_its_line(coverage: Coverage, mutant: Planted)
    ensures
        ({
            let file = mutate::forward_slashed(mutant.file);
            let line = mutant.line as u32;
            let tests = coverage.covering(file, line);
            &&& tests.len() > 0 ==> coverage.standing(mutant) == Standing::Tested(tests)
            &&& tests.len() == 0 && coverage.at_import(file, line) ==> coverage.standing(mutant)
                == Standing::ImportOnly
            &&& tests.len() == 0 && !coverage.at_import(file, line) ==> coverage.standing(mutant)
                == Standing::Untested
        }),
{
}

/// A node id that several contexts share is named once and charged once.
pub proof fn law_a_shared_node_is_charged_once(coverage: Coverage, contexts: Seq<i64>, id: i64)
    requires
        coverage.nodes(contexts).is_some(),
        coverage.node(id).is_some(),
        coverage.nodes(contexts).unwrap().0.contains(coverage.node(id).unwrap()),
    ensures
        coverage.nodes(contexts.push(id)) matches Some(now) && now.1 == coverage.nodes(
            contexts,
        ).unwrap().1 && forall|name: Seq<char>| #[trigger]
            now.0.contains(name) <==> coverage.nodes(contexts).unwrap().0.contains(name),
{
    assert(contexts.push(id).drop_last() =~= contexts);
    let (names, cost) = coverage.nodes(contexts).unwrap();
    coverage.lemma_nodes(contexts);
    names::lemma_with_name(names, coverage.node(id).unwrap());
}

/// A failed test kills exactly the mutants whose line it runs.
pub proof fn law_a_failed_test_kills_what_it_runs(
    coverage: Coverage,
    mutant: Planted,
    failed: Seq<Seq<char>>,
)
    ensures
        coverage.verdict(mutant, failed) is Killed <==> exists|k: int, id: i64|
            0 <= k < failed.len() && coverage.context(normalized(#[trigger] failed[k])) == Some(id)
                && #[trigger] coverage.covering(
                mutate::forward_slashed(mutant.file),
                mutant.line as u32,
            ).contains(id),
        !(coverage.verdict(mutant, failed) is Killed) ==> coverage.verdict(
            mutant,
            failed,
        ) is Survived,
{
    let tests = coverage.covering(mutate::forward_slashed(mutant.file), mutant.line as u32);
    assert(tests == coverage.tests_of(mutant));
    if coverage.verdict(mutant, failed) is Killed {
        let k = choose|k: int|
            0 <= k < failed.len() && coverage.hits(#[trigger] failed[k], mutant);
        let id = coverage.context(normalized(failed[k])).unwrap();
        assert(tests.contains(id));
    }
    if exists|k: int, id: i64|
        0 <= k < failed.len() && coverage.context(normalized(#[trigger] failed[k])) == Some(id)
            && #[trigger] tests.contains(id) {
        let (k, id) = choose|k: int, id: i64|
            0 <= k < failed.len() && coverage.context(normalized(#[trigger] failed[k])) == Some(id)
                && #[trigger] tests.contains(id);
        assert(coverage.hits(failed[k], mutant));
    }
}

} // verus!

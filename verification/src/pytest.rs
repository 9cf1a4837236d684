//! How a pytest run ended, which tests it ran, and what its report says.

use vstd::prelude::*;

use crate::literals::{self, Read};
use crate::mutate::Status;
use crate::text;

verus! {

broadcast use vstd::seq_lib::group_seq_properties;

/// The report a pytest run writes into the copy it runs in.
pub const JUNIT_FILE: &'static str = "angelo-junit.xml";

/// How a pytest run ended. Exit codes: 0 passed, 1 failures, 2-4 usage or
/// internal error, 5 nothing collected.
#[derive(Clone, Copy, Debug, PartialEq, Eq, Structural)]
pub enum SuiteResult {
    Finished(i64),
    TimedOut,
}

impl SuiteResult {
    pub open spec fn verdict(self) -> Status {
        match self {
            SuiteResult::TimedOut => Status::Timeout,
            SuiteResult::Finished(code) => if code == 0 {
                Status::Survived
            } else if code == 1 {
                Status::Killed
            } else {
                Status::Error
            },
        }
    }

    pub fn status(&self) -> (status: Status)
        ensures
            status == self.verdict(),
    {
        match self {
            SuiteResult::TimedOut => Status::Timeout,
            SuiteResult::Finished(code) => if *code == 0 {
                Status::Survived
            } else if *code == 1 {
                Status::Killed
            } else {
                Status::Error
            },
        }
    }

    pub fn exit_code(&self) -> (code: Option<i64>)
        ensures
            code == match *self {
                SuiteResult::Finished(code) => Some(code),
                SuiteResult::TimedOut => None,
            },
    {
        match self {
            SuiteResult::Finished(code) => Some(*code),
            SuiteResult::TimedOut => None,
        }
    }

    pub open spec fn explanation(self) -> Option<Seq<char>> {
        match self {
            SuiteResult::Finished(code) => if code == 5 {
                Some("pytest collected no tests, a selected test id may no longer exist"@)
            } else if code == 0 || code == 1 {
                None
            } else {
                Some(
                    "pytest exited with "@ + text::signed(code as int)
                        + ", usually a mutant that broke the syntax or an import"@,
                )
            },
            SuiteResult::TimedOut => None,
        }
    }

    /// Why an `error` verdict happened, for the progress line.
    pub fn explain(&self) -> (why: Option<String>)
        ensures
            why.is_some() == self.explanation().is_some(),
            why.is_some() ==> why.unwrap()@ == self.explanation().unwrap(),
    {
        match self {
            SuiteResult::Finished(code) => if *code == 5 {
                Some(
                    text::owned(
                        "pytest collected no tests, a selected test id may no longer exist",
                    ),
                )
            } else if *code == 0 || *code == 1 {
                None
            } else {
                let mut why: String = text::owned("pytest exited with ");
                why.append(&text::show_i64(*code));
                why.append(", usually a mutant that broke the syntax or an import");
                Some(why)
            },
            SuiteResult::TimedOut => None,
        }
    }
}

/// A run is explained exactly when its verdict is an error.
pub proof fn law_only_errors_are_explained(result: SuiteResult)
    ensures
        result.explanation().is_some() <==> result.verdict() is Error,
{
}

/// Which tests one run should execute. Empty ids mean the whole suite, which is
/// always safe, selection can only ever be an optimisation.
pub struct Selection {
    pub test_ids: Vec<String>,
    /// Only for a run judging a single mutant: the first failure settles it, so
    /// there is nothing to learn from the rest of the suite. A batch must see
    /// every failure to attribute them, so it never stops early.
    pub stop_at_first_failure: bool,
    /// What the tests took in the baseline, in nanoseconds, when they are named.
    pub baseline_time: Option<u64>,
}

/// A selection as plain values.
#[verifier::ext_equal]
pub struct Chosen {
    pub test_ids: Seq<Seq<char>>,
    pub stop_at_first_failure: bool,
    pub baseline_time: Option<u64>,
}

impl View for Selection {
    type V = Chosen;

    open spec fn view(&self) -> Chosen {
        Chosen {
            test_ids: text::texts(self.test_ids@),
            stop_at_first_failure: self.stop_at_first_failure,
            baseline_time: self.baseline_time,
        }
    }
}

/// Every test there is.
pub open spec fn everything() -> Chosen {
    Chosen { test_ids: Seq::empty(), stop_at_first_failure: false, baseline_time: None }
}

impl Selection {
    pub fn whole_suite() -> (selection: Selection)
        ensures
            selection@ == everything(),
    {
        let selection: Selection = Selection {
            test_ids: Vec::new(),
            stop_at_first_failure: false,
            baseline_time: None,
        };
        assert(selection@ =~= everything());
        selection
    }

    /// What a selection adds to the pytest command line.
    pub fn arguments(&self) -> (list: Vec<String>)
        ensures
            text::texts(list@) == if self.stop_at_first_failure {
                seq!["-x"@] + text::texts(self.test_ids@)
            } else {
                text::texts(self.test_ids@)
            },
    {
        let mut list: Vec<String> = Vec::new();
        if self.stop_at_first_failure {
            list.push(text::owned("-x"));
        }
        let ghost first = list@;
        let mut ids: Vec<String> = text::copy_list(&self.test_ids);
        list.append(&mut ids);
        assert(list@ =~= first + self.test_ids@);
        assert(text::texts(list@) =~= text::texts(first) + text::texts(self.test_ids@));
        assert(self.stop_at_first_failure ==> text::texts(first) =~= seq!["-x"@]);
        assert(!self.stop_at_first_failure ==> text::texts(list@) =~= text::texts(self.test_ids@));
        list
    }
}

/// A test of the suite, as the junit report lists it.
pub struct TestCase {
    /// Dotted module path, plus class names for methods.
    pub classname: String,
    pub name: String,
    pub failed: bool,
    /// What the test took, in nanoseconds.
    pub duration: u64,
}

/// A test as plain values.
#[verifier::ext_equal]
pub struct Case {
    pub classname: Seq<char>,
    pub name: Seq<char>,
    pub failed: bool,
    pub duration: u64,
}

impl View for TestCase {
    type V = Case;

    open spec fn view(&self) -> Case {
        Case {
            classname: self.classname@,
            name: self.name@,
            failed: self.failed,
            duration: self.duration,
        }
    }
}

/// The tests of a list as plain values.
pub open spec fn cases(list: Seq<TestCase>) -> Seq<Case> {
    list.map_values(|test: TestCase| test@)
}

/// A test's name without its parameters.
pub open spec fn base_name(name: Seq<char>) -> Seq<char> {
    match text::halves(name, '[') {
        Some((base, _)) => base,
        None => name,
    }
}

pub fn without_parameters(name: &str) -> (base: String)
    ensures
        base@ == base_name(name@),
{
    match text::split_once(name, '[') {
        Some((base, _)) => base,
        None => text::owned(name),
    }
}

/// The module that the first segments of a dotted name would be.
pub open spec fn module_file(parts: Seq<Seq<char>>, upto: int) -> Seq<char> {
    text::joined(parts.subrange(0, upto), "/"@) + ".py"@
}

/// The node id of a test whose module ends after this many segments.
pub open spec fn node_in(parts: Seq<Seq<char>>, upto: int, name: Seq<char>) -> Seq<char> {
    module_file(parts, upto) + classes(parts.subrange(upto, parts.len() as int)) + "::"@
        + base_name(name)
}

/// The segments that are classes, each behind a double colon.
pub open spec fn classes(parts: Seq<Seq<char>>) -> Seq<char>
    decreases parts.len(),
{
    if parts.len() == 0 {
        Seq::empty()
    } else {
        classes(parts.drop_last()) + "::"@ + parts.last()
    }
}

impl Case {
    /// How coverage.py names this test.
    pub open spec fn context(self) -> Seq<char> {
        self.classname + "."@ + base_name(self.name)
    }

    /// The node id, trying at most this many segments for the module: the
    /// longest prefix that exists as a file wins.
    pub open spec fn node_upto(self, files: Seq<Seq<char>>, upto: int) -> Option<Seq<char>>
        decreases upto,
    {
        let parts = text::split_on(self.classname, '.');
        if upto < 1 {
            None
        } else if files.contains(module_file(parts, upto)) {
            Some(node_in(parts, upto, self.name))
        } else {
            self.node_upto(files, upto - 1)
        }
    }

    /// The node id of this test, given which files exist.
    pub open spec fn node(self, files: Seq<Seq<char>>) -> Option<Seq<char>> {
        self.node_upto(files, text::split_on(self.classname, '.').len() as int)
    }
}

fn module_of(parts: &[String], upto: usize) -> (path: String)
    requires
        upto <= parts@.len(),
    ensures
        path@ == module_file(text::texts(parts@), upto as int),
{
    let head: &[String] = vstd::slice::slice_subrange(parts, 0, upto);
    assert(text::texts(head@) =~= text::texts(parts@).subrange(0, upto as int));
    let mut path: String = text::join(head, "/");
    path.append(".py");
    path
}

impl TestCase {
    /// How coverage.py names this test under `dynamic_context = test_function`.
    /// Parameters are dropped: coverage records one context per function.
    pub fn context_name(&self) -> (name: String)
        ensures
            name@ == self@.context(),
    {
        let mut name: String = self.classname.clone();
        name.append(".");
        name.append(&without_parameters(self.name.as_str()));
        name
    }

    /// The pytest node id, e.g. `tests/test_x.py::TestY::test_z`. The dotted
    /// classname does not say where the module ends and classes begin, so the
    /// longest prefix that exists as a file wins. `files` are the files that
    /// exist, named from the project root; `module_candidates` says which ones
    /// matter.
    pub fn node_id(&self, files: &[String]) -> (id: Option<String>)
        ensures
            id.is_some() == self@.node(text::texts(files@)).is_some(),
            id.is_some() ==> id.unwrap()@ == self@.node(text::texts(files@)).unwrap(),
    {
        let parts: Vec<String> = text::split(self.classname.as_str(), '.');
        let ghost segments = text::split_on(self.classname@, '.');
        assert(segments.len() == parts@.len());
        let mut upto: usize = parts.len();
        while upto > 0
            invariant
                upto <= parts@.len(),
                segments == text::split_on(self.classname@, '.'),
                segments == text::texts(parts@),
                self@.node(text::texts(files@)) == self@.node_upto(
                    text::texts(files@),
                    upto as int,
                ),
            decreases upto,
        {
            let module: String = module_of(&parts, upto);
            if text::listed(files, module.as_str()) {
                let mut id: String = module;
                let mut at: usize = upto;
                assert(id@ + classes(segments.subrange(upto as int, upto as int)) =~= id@);
                while at < parts.len()
                    invariant
                        upto <= at <= parts@.len(),
                        segments == text::texts(parts@),
                        id@ == module_file(segments, upto as int) + classes(
                            segments.subrange(upto as int, at as int),
                        ),
                    decreases parts@.len() - at,
                {
                    let ghost wider = segments.subrange(upto as int, at + 1);
                    assert(wider.drop_last() =~= segments.subrange(upto as int, at as int));
                    assert(wider.last() == parts@[at as int]@);
                    id.append("::");
                    id.append(&parts[at]);
                    assert(id@ =~= module_file(segments, upto as int) + classes(wider));
                    at += 1;
                }
                assert(segments.subrange(upto as int, at as int) =~= segments.subrange(
                    upto as int,
                    segments.len() as int,
                ));
                id.append("::");
                id.append(&without_parameters(self.name.as_str()));
                return Some(id);
            }
            upto -= 1;
        }
        None
    }

    /// The files whose existence decides the node id, the longest path first.
    pub fn module_candidates(&self) -> (list: Vec<String>)
        ensures
            text::texts(list@) == Seq::new(
                text::split_on(self.classname@, '.').len(),
                |k: int|
                    module_file(
                        text::split_on(self.classname@, '.'),
                        text::split_on(self.classname@, '.').len() - k,
                    ),
            ),
    {
        let parts: Vec<String> = text::split(self.classname.as_str(), '.');
        let ghost segments = text::split_on(self.classname@, '.');
        assert(segments.len() == parts@.len());
        let total: usize = parts.len();
        let mut list: Vec<String> = Vec::new();
        while list.len() < total
            invariant
                list@.len() <= total == parts@.len() == segments.len(),
                segments == text::texts(parts@),
                forall|k: int|
                    0 <= k < list@.len() ==> #[trigger] list@[k]@ == module_file(
                        segments,
                        total - k,
                    ),
            decreases total - list@.len(),
        {
            let path: String = module_of(&parts, total - list.len());
            list.push(path);
        }
        assert(text::texts(list@) =~= Seq::new(
            segments.len(),
            |k: int| module_file(segments, segments.len() - k),
        ));
        list
    }
}

/// Exit 1 means the suite is genuinely red. Everything else means pytest never
/// got as far as judging the code, which is usually a missing dependency.
pub open spec fn diagnosis(code: i64) -> Seq<char> {
    if code == 1 {
        "Tests are failing. Fix them first, angelo can only tell you what a passing suite misses."@
    } else if code == 2 {
        "pytest was interrupted."@
    } else if code == 3 {
        "pytest hit an internal error, usually a plugin or config problem: an option in pyproject.toml/pytest.ini that belongs to a plugin you have not installed."@
    } else if code == 4 {
        "pytest usage error, check test_command in angelo.conf."@
    } else if code == 5 {
        "pytest collected no tests, check test_command and its path in angelo.conf."@
    } else {
        "pytest could not run the suite."@
    }
}

pub fn diagnose_baseline(code: i64) -> (why: &'static str)
    ensures
        why@ == diagnosis(code),
{
    if code == 1 {
        "Tests are failing. Fix them first, angelo can only tell you what a passing suite misses."
    } else if code == 2 {
        "pytest was interrupted."
    } else if code == 3 {
        "pytest hit an internal error, usually a plugin or config problem: an option in pyproject.toml/pytest.ini that belongs to a plugin you have not installed."
    } else if code == 4 {
        "pytest usage error, check test_command in angelo.conf."
    } else if code == 5 {
        "pytest collected no tests, check test_command and its path in angelo.conf."
    } else {
        "pytest could not run the suite."
    }
}

/// The last lines of a text.
pub open spec fn tail_of(s: Seq<char>, lines: int) -> Seq<char> {
    let all = text::lines_of(s);
    let start = if all.len() > lines {
        all.len() - lines
    } else {
        0
    };
    text::joined(all.subrange(start, all.len() as int), "\n"@)
}

/// Collection failures bury the useful line under hundreds of tracebacks.
pub fn tail(s: &str, lines: usize) -> (kept: String)
    ensures
        kept@ == tail_of(s@, lines as int),
{
    let all: Vec<String> = text::lines(s);
    let start: usize = all.len().saturating_sub(lines);
    let last: &[String] = vstd::slice::slice_subrange(all.as_slice(), start, all.len());
    assert(text::texts(last@) =~= text::lines_of(s@).subrange(
        start as int,
        text::lines_of(s@).len() as int,
    )) by {
        assert(text::texts(all@).len() == all@.len());
    }
    text::join(last, "\n")
}

/// Why a baseline stops the run, if it does: exit 0 is a green suite and exit 1
/// a red one, and with any other code pytest never judged the code at all.
pub open spec fn unjudged(code: i64, output: Seq<char>) -> Option<Seq<char>> {
    if code == 0 || code == 1 {
        None
    } else {
        Some(
            "angelo could not run the baseline suite, pytest exited "@ + text::signed(code as int)
                + ".\n"@ + diagnosis(code) + "\n\n"@ + tail_of(output, 40),
        )
    }
}

/// Exit 2 to 5 mean pytest never judged the code at all, so there is no duration
/// to measure and no report to read. Those stop the run, with the end of what
/// pytest printed.
pub fn baseline_failure(code: i64, output: &str) -> (why: Option<String>)
    ensures
        why.is_some() == unjudged(code, output@).is_some(),
        why matches Some(why) ==> Some(why@) == unjudged(code, output@),
{
    if code == 0 || code == 1 {
        return None;
    }
    let mut why: String = text::owned("angelo could not run the baseline suite, pytest exited ");
    why.append(&text::show_i64(code));
    why.append(".\n");
    why.append(diagnose_baseline(code));
    why.append("\n\n");
    why.append(&tail(output, 40));
    Some(why)
}

/// One node of a junit report: an element, or anything else when it has no tag.
pub struct Element {
    pub id: usize,
    pub parent: Option<usize>,
    /// The element's name without its namespace.
    pub tag: String,
    pub classname: Option<String>,
    pub name: Option<String>,
    pub time: Option<String>,
}

/// A node of a report as plain values.
#[verifier::ext_equal]
pub struct Item {
    pub id: int,
    pub parent: Option<usize>,
    pub tag: Seq<char>,
    pub classname: Option<Seq<char>>,
    pub name: Option<Seq<char>>,
    pub time: Option<Seq<char>>,
}

/// What an optional string says.
pub open spec fn said(s: Option<String>) -> Option<Seq<char>> {
    match s {
        Some(s) => Some(s@),
        None => None,
    }
}

impl View for Element {
    type V = Item;

    open spec fn view(&self) -> Item {
        Item {
            id: self.id as int,
            parent: self.parent,
            tag: self.tag@,
            classname: said(self.classname),
            name: said(self.name),
            time: said(self.time),
        }
    }
}

/// The nodes of a list as plain values.
pub open spec fn items(list: Seq<Element>) -> Seq<Item> {
    list.map_values(|element: Element| element@)
}

/// The outcome of reading a report as plain values.
pub open spec fn listing(outcome: Result<Vec<Element>, String>) -> Result<Seq<Item>, Seq<char>> {
    match outcome {
        Ok(list) => Ok(items(list@)),
        Err(message) => Err(message@),
    }
}

/// What `roxmltree::Document::parse` makes of a text: every node of the
/// document, in document order, or its message about a text that is no document.
pub uninterp spec fn document(xml: Seq<char>) -> Result<Seq<Item>, Seq<char>>;

/// `roxmltree::Document::parse` and `Document::descendants`: the nodes of the
/// document, as a function of its text alone. Which nodes a text has is left to
/// the parser, which keeps offsets in 32 bits.
#[verifier::external_body]
fn read_document(xml: &str) -> (outcome: Result<Vec<Element>, String>)
    requires
        text::width(xml@) <= u32::MAX,
    ensures
        listing(outcome) == document(xml@),
{
    let parsed = roxmltree::Document::parse(xml).map_err(|error| error.to_string())?;
    Ok(parsed.descendants().map(|node| Element {
        id: node.id().get_usize(),
        parent: node.parent().map(|parent| parent.id().get_usize()),
        tag: node.tag_name().name().to_string(),
        classname: node.attribute("classname").map(String::from),
        name: node.attribute("name").map(String::from),
        time: node.attribute("time").map(String::from),
    }).collect())
}

/// The value of a text of at most nine digits, as so many billionths.
pub open spec fn billionths(digits: Seq<char>, count: int) -> Option<nat>
    decreases count,
{
    if count <= 0 {
        Some(0)
    } else {
        match billionths(digits, count - 1) {
            None => None,
            Some(high) => if count - 1 < digits.len() {
                match literals::digit_value(digits[count - 1], 10) {
                    Some(low) => Some(high * 10 + low),
                    None => None,
                }
            } else {
                Some(high * 10)
            },
        }
    }
}

/// A number of seconds in decimal, in nanoseconds. What is no such number, or
/// is too many of them, counts as none.
pub open spec fn nanoseconds(seconds: Seq<char>) -> u64 {
    let (whole, fraction) = match text::halves(seconds, '.') {
        Some(pair) => pair,
        None => (seconds, Seq::empty()),
    };
    match (literals::integer_value(whole, 10), billionths(fraction, 9)) {
        (Some(count), Some(part)) => if 0 <= count <= 0xffff_ffff {
            (count * 1_000_000_000 + part) as u64
        } else {
            0
        },
        _ => 0,
    }
}

fn read_billionths(digits: &[char]) -> (part: Option<u64>)
    ensures
        part.is_some() == billionths(digits@, 9).is_some(),
        part.is_some() ==> part.unwrap() as nat == billionths(digits@, 9).unwrap()
            && part.unwrap() < 1_000_000_000,
{
    let mut count: usize = 0;
    let mut value: u64 = 0;
    let mut scale: u64 = 1;
    while count < 9
        invariant
            count <= 9,
            billionths(digits@, count as int) == Some(value as nat),
            value < scale,
            count == 0 ==> scale == 1,
            count == 1 ==> scale == 10,
            count == 2 ==> scale == 100,
            count == 3 ==> scale == 1_000,
            count == 4 ==> scale == 10_000,
            count == 5 ==> scale == 100_000,
            count == 6 ==> scale == 1_000_000,
            count == 7 ==> scale == 10_000_000,
            count == 8 ==> scale == 100_000_000,
            count == 9 ==> scale == 1_000_000_000,
        decreases 9 - count,
    {
        if count < digits.len() {
            let code: u32 = digits[count] as u32;
            assert(billionths(digits@, count + 1) == match literals::digit_value(
                digits@[count as int],
                10,
            ) {
                Some(low) => Some((value * 10 + low) as nat),
                None => None,
            });
            if code < 48 || code > 57 {
                assert(literals::digit_value(digits@[count as int], 10).is_none());
                proof {
                    lemma_billionths_fail(digits@, count + 1);
                }
                return None;
            }
            value = value * 10 + (code - 48) as u64;
        } else {
            value = value * 10;
        }
        scale = scale * 10;
        count += 1;
    }
    Some(value)
}

proof fn lemma_billionths_fail(digits: Seq<char>, count: int)
    requires
        0 <= count <= 9,
        billionths(digits, count).is_none(),
    ensures
        billionths(digits, 9).is_none(),
    decreases 9 - count,
{
    if count < 9 {
        lemma_billionths_fail(digits, count + 1);
    }
}

/// A number of seconds in decimal, in nanoseconds.
pub fn read_seconds(seconds: &str) -> (nanos: u64)
    ensures
        nanos == nanoseconds(seconds@),
{
    let (whole, fraction): (String, String) = match text::split_once(seconds, '.') {
        Some(pair) => pair,
        None => (text::owned(seconds), String::new()),
    };
    let whole_chars: Vec<char> = text::chars_of(whole.as_str());
    let fraction_chars: Vec<char> = text::chars_of(fraction.as_str());
    let count: u64 = match literals::read_integer(&whole_chars, 10, 0xffff_ffff) {
        Read::Integer { negative, size } => if negative && size > 0 {
            return 0;
        } else {
            size as u64
        },
        _ => return 0,
    };
    match read_billionths(&fraction_chars) {
        Some(part) => count * 1_000_000_000 + part,
        None => 0,
    }
}

/// Whether a node has a child with one of the tags of a failure.
pub open spec fn has_failed(list: Seq<Item>, id: int) -> bool {
    exists|k: int|
        0 <= k < list.len() && (#[trigger] list[k]).parent == Some(id as usize) && (list[k].tag
            == "failure"@ || list[k].tag == "error"@)
}

/// The tests among the first nodes of a report.
pub open spec fn tests_in(list: Seq<Item>, upto: int) -> Seq<Case>
    decreases upto,
{
    if upto <= 0 {
        Seq::empty()
    } else {
        let before = tests_in(list, upto - 1);
        let item = list[upto - 1];
        if item.tag == "testcase"@ {
            before.push(
                Case {
                    classname: match item.classname {
                        Some(classname) => classname,
                        None => Seq::empty(),
                    },
                    name: match item.name {
                        Some(name) => name,
                        None => "?"@,
                    },
                    failed: has_failed(list, item.id),
                    duration: match item.time {
                        Some(time) => nanoseconds(time),
                        None => 0,
                    },
                },
            )
        } else {
            before
        }
    }
}

fn failed_child(list: &[Element], id: usize) -> (yes: bool)
    ensures
        yes == has_failed(items(list@), id as int),
{
    let ghost all = items(list@);
    let mut at: usize = 0;
    while at < list.len()
        invariant
            at <= list@.len(),
            all == items(list@),
            forall|k: int|
                0 <= k < at ==> !((#[trigger] all[k]).parent == Some(id) && (all[k].tag
                    == "failure"@ || all[k].tag == "error"@)),
        decreases list@.len() - at,
    {
        assert(all[at as int] == list@[at as int]@);
        let under: bool = match list[at].parent {
            Some(parent) => parent == id,
            None => false,
        };
        if under && (text::same(list[at].tag.as_str(), "failure") || text::same(
            list[at].tag.as_str(),
            "error",
        )) {
            return true;
        }
        at += 1;
    }
    false
}

/// The tests of a report whose nodes have been read.
pub fn tests_of(list: &[Element]) -> (tests: Vec<TestCase>)
    ensures
        cases(tests@) == tests_in(items(list@), list@.len() as int),
{
    let ghost all = items(list@);
    let mut tests: Vec<TestCase> = Vec::new();
    assert(cases(tests@) =~= Seq::<Case>::empty());
    let mut at: usize = 0;
    while at < list.len()
        invariant
            at <= list@.len(),
            all == items(list@),
            cases(tests@) == tests_in(all, at as int),
        decreases list@.len() - at,
    {
        let element: &Element = &list[at];
        assert(all[at as int] == element@);
        let ghost before = cases(tests@);
        if text::same(element.tag.as_str(), "testcase") {
            let test: TestCase = TestCase {
                classname: match &element.classname {
                    Some(classname) => classname.clone(),
                    None => String::new(),
                },
                name: match &element.name {
                    Some(name) => name.clone(),
                    None => text::owned("?"),
                },
                failed: failed_child(list, element.id),
                duration: match &element.time {
                    Some(time) => read_seconds(time.as_str()),
                    None => 0,
                },
            };
            tests.push(test);
            assert(cases(tests@) =~= before.push(test@));
            assert(test@ =~= tests_in(all, at + 1).last());
        }
        at += 1;
    }
    tests
}

/// The tests of a junit report, or the parser's message about a text that is no
/// report.
pub fn parse_testcases(xml: &str) -> (tests: Result<Vec<TestCase>, String>)
    requires
        text::width(xml@) <= u32::MAX,
    ensures
        match document(xml@) {
            Ok(list) => tests matches Ok(found) && cases(found@) == tests_in(
                list,
                list.len() as int,
            ),
            Err(message) => tests matches Err(said) && said@ == message,
        },
{
    match read_document(xml) {
        Ok(list) => Ok(tests_of(&list)),
        Err(message) => Err(message),
    }
}

/// How the failed tests are named: the class, a double colon and the test.
pub open spec fn failures_in(list: Seq<Case>) -> Seq<Seq<char>>
    decreases list.len(),
{
    if list.len() == 0 {
        Seq::empty()
    } else {
        let before = failures_in(list.drop_last());
        let test = list.last();
        if test.failed {
            before.push(test.classname + "::"@ + test.name)
        } else {
            before
        }
    }
}

/// The names of the tests that failed.
pub fn failed_tests(tests: &[TestCase]) -> (names: Vec<String>)
    ensures
        text::texts(names@) == failures_in(cases(tests@)),
{
    let ghost all = cases(tests@);
    let mut names: Vec<String> = Vec::new();
    assert(text::texts(names@) =~= Seq::<Seq<char>>::empty());
    let mut at: usize = 0;
    while at < tests.len()
        invariant
            at <= tests@.len(),
            all == cases(tests@),
            text::texts(names@) == failures_in(all.subrange(0, at as int)),
        decreases tests@.len() - at,
    {
        let test: &TestCase = &tests[at];
        assert(all.subrange(0, at + 1).drop_last() =~= all.subrange(0, at as int));
        assert(all.subrange(0, at + 1).last() == test@);
        let ghost before = text::texts(names@);
        if test.failed {
            let mut name: String = test.classname.clone();
            name.append("::");
            name.append(&test.name);
            names.push(name);
            assert(text::texts(names@) =~= before.push(name@));
        }
        at += 1;
    }
    assert(all.subrange(0, at as int) =~= all);
    names
}

/// A path inside a directory.
pub open spec fn inside(directory: Seq<char>, file: Seq<char>) -> Seq<char> {
    if directory.len() == 0 || directory.last() == '/' {
        directory + file
    } else {
        directory + "/"@ + file
    }
}

pub fn path_inside(directory: &str, file: &str) -> (path: String)
    ensures
        path@ == inside(directory@, file@),
{
    let chars: Vec<char> = text::chars_of(directory);
    let mut path: String = text::owned(directory);
    if chars.len() > 0 && chars[chars.len() - 1] != '/' {
        path.append("/");
    }
    path.append(file);
    path
}

/// Where the baseline writes its report, under .angelo, never the user's tree.
pub fn baseline_junit_path(angelo_dir: &str) -> (path: String)
    ensures
        path@ == inside(angelo_dir@, "baseline-junit.xml"@),
{
    path_inside(angelo_dir, "baseline-junit.xml")
}

/// Only exit 1 kills a mutant and only exit 0 lets it survive. A run that was
/// cut off is a timeout, and any other exit code is an error.
pub proof fn law_an_exit_code_decides_the_status(result: SuiteResult)
    ensures
        result.verdict() is Killed <==> result == SuiteResult::Finished(1),
        result.verdict() is Survived <==> result == SuiteResult::Finished(0),
        result.verdict() is Timeout <==> result is TimedOut,
        result.verdict() is Error <==> result is Finished && result != SuiteResult::Finished(0)
            && result != SuiteResult::Finished(1),
{
}

proof fn lemma_tests_in(list: Seq<Item>, upto: int)
    requires
        0 <= upto <= list.len(),
    ensures
        ({
            let nodes = list.subrange(0, upto).filter(|item: Item| item.tag == "testcase"@);
            let tests = tests_in(list, upto);
            &&& tests.len() == nodes.len()
            &&& forall|k: int|
                0 <= k < nodes.len() ==> {
                    let test = #[trigger] tests[k];
                    let node = nodes[k];
                    &&& node.classname matches Some(classname) ==> test.classname == classname
                    &&& node.classname.is_none() ==> test.classname.len() == 0
                    &&& node.name matches Some(name) ==> test.name == name
                    &&& node.name.is_none() ==> test.name == "?"@
                    &&& test.failed == has_failed(list, node.id)
                    &&& node.time matches Some(time) ==> test.duration == nanoseconds(time)
                    &&& node.time.is_none() ==> test.duration == 0
                }
        }),
    decreases upto,
{
    reveal(Seq::filter);
    let wanted = |item: Item| item.tag == "testcase"@;
    if upto > 0 {
        lemma_tests_in(list, upto - 1);
        let now = list.subrange(0, upto);
        assert(now.drop_last() =~= list.subrange(0, upto - 1));
        assert(now.last() == list[upto - 1]);
        let before = list.subrange(0, upto - 1).filter(wanted);
        if wanted(list[upto - 1]) {
            assert(now.filter(wanted) == before.push(list[upto - 1]));
        } else {
            assert(now.filter(wanted) == before);
        }
    }
}

/// A report gives one test for every `testcase` element, in the order of the
/// report. A test failed exactly when a `failure` or an `error` stands directly
/// under it; its name, its class and its time are the element's own.
pub proof fn law_every_testcase_is_a_test(list: Seq<Item>)
    ensures
        ({
            let nodes = list.filter(|item: Item| item.tag == "testcase"@);
            let tests = tests_in(list, list.len() as int);
            &&& tests.len() == nodes.len()
            &&& forall|k: int|
                0 <= k < nodes.len() ==> {
                    let test = #[trigger] tests[k];
                    let node = nodes[k];
                    &&& node.classname matches Some(classname) ==> test.classname == classname
                    &&& node.name matches Some(name) ==> test.name == name
                    &&& test.failed <==> exists|j: int|
                        0 <= j < list.len() && (#[trigger] list[j]).parent == Some(node.id as usize)
                            && (list[j].tag == "failure"@ || list[j].tag == "error"@)
                    &&& node.time matches Some(time) ==> test.duration == nanoseconds(time)
                    &&& node.time.is_none() ==> test.duration == 0
                }
        }),
{
    lemma_tests_in(list, list.len() as int);
    assert(list.subrange(0, list.len() as int) =~= list);
}

/// The failed tests are named in their order, each of them once, and no other
/// test is named.
pub proof fn law_exactly_the_failed_tests_are_named(tests: Seq<Case>)
    ensures
        failures_in(tests) == tests.filter(|test: Case| test.failed).map_values(
            |test: Case| test.classname + "::"@ + test.name,
        ),
    decreases tests.len(),
{
    reveal(Seq::filter);
    let red = |test: Case| test.failed;
    let named = |test: Case| test.classname + "::"@ + test.name;
    if tests.len() > 0 {
        law_exactly_the_failed_tests_are_named(tests.drop_last());
        let before = tests.drop_last().filter(red);
        if tests.last().failed {
            assert(tests.filter(red) == before.push(tests.last()));
            assert(before.push(tests.last()).map_values(named) =~= before.map_values(named).push(
                named(tests.last()),
            ));
        }
    } else {
        assert(tests.filter(red).map_values(named) =~= Seq::<Seq<char>>::empty());
    }
}

/// A test's name without its parameters is what stands in front of the first
/// bracket, or the whole name.
pub proof fn law_parameters_start_at_the_first_bracket(base: Seq<char>, parameters: Seq<char>)
    requires
        !base.contains('['),
    ensures
        base_name(base) == base,
        base_name(base + seq!['['] + parameters) == base,
{
    text::law_a_text_is_cut_at_its_first_separator(base, '[');
    text::law_cutting_undoes_joining(base, '[', parameters);
}

proof fn lemma_node_upto(test: Case, files: Seq<Seq<char>>, upto: int, module: int)
    requires
        1 <= module <= upto,
        files.contains(module_file(text::split_on(test.classname, '.'), module)),
        forall|longer: int|
            module < longer <= upto ==> !files.contains(
                #[trigger] module_file(text::split_on(test.classname, '.'), longer),
            ),
    ensures
        test.node_upto(files, upto) == Some(
            node_in(text::split_on(test.classname, '.'), module, test.name),
        ),
    decreases upto,
{
    if module < upto {
        assert(!files.contains(module_file(text::split_on(test.classname, '.'), upto)));
        lemma_node_upto(test, files, upto - 1, module);
    }
}

proof fn lemma_no_node_upto(test: Case, files: Seq<Seq<char>>, upto: int)
    requires
        forall|module: int|
            1 <= module <= upto ==> !files.contains(
                #[trigger] module_file(text::split_on(test.classname, '.'), module),
            ),
    ensures
        test.node_upto(files, upto).is_none(),
    decreases upto,
{
    if upto >= 1 {
        assert(!files.contains(module_file(text::split_on(test.classname, '.'), upto)));
        lemma_no_node_upto(test, files, upto - 1);
    }
}

proof fn lemma_classes(parts: Seq<Seq<char>>)
    requires
        parts.len() > 0,
    ensures
        classes(parts) == "::"@ + text::joined(parts, "::"@),
    decreases parts.len(),
{
    if parts.len() == 1 {
        assert(parts.drop_last() =~= Seq::<Seq<char>>::empty());
        assert(classes(parts.drop_last()) =~= Seq::<char>::empty());
        assert(classes(parts) =~= "::"@ + parts[0]);
        assert(text::joined(parts, "::"@) =~= parts[0]);
    } else {
        lemma_classes(parts.drop_last());
        assert(classes(parts) =~= "::"@ + text::joined(parts, "::"@));
    }
}

/// The node id of a method: the path of the module, the classes and the
/// function, without parameters. `module` are the segments of the module and
/// `classes` those behind it, when no longer path of the class name is a file.
pub proof fn law_a_node_id_names_the_file_and_the_test(
    test: Case,
    files: Seq<Seq<char>>,
    module: Seq<Seq<char>>,
    inner: Seq<Seq<char>>,
    function: Seq<char>,
)
    requires
        module.len() > 0,
        forall|k: int| 0 <= k < module.len() ==> !(#[trigger] module[k]).contains('.'),
        forall|k: int| 0 <= k < inner.len() ==> !(#[trigger] inner[k]).contains('.'),
        test.classname == text::joined(module + inner, "."@),
        base_name(test.name) == function,
        files.contains(text::joined(module, "/"@) + ".py"@),
        forall|k: int|
            1 <= k <= inner.len() ==> !files.contains(
                text::joined(module + #[trigger] inner.subrange(0, k), "/"@) + ".py"@,
            ),
    ensures
        inner.len() == 0 ==> test.node(files) == Some(
            text::joined(module, "/"@) + ".py::"@ + function,
        ),
        inner.len() > 0 ==> test.node(files) == Some(
            text::joined(module, "/"@) + ".py::"@ + text::joined(inner, "::"@) + "::"@ + function,
        ),
{
    reveal_strlit(".");
    reveal_strlit(".py");
    reveal_strlit("::");
    reveal_strlit(".py::");
    let parts = module + inner;
    assert("."@ =~= seq!['.']);
    assert forall|k: int| 0 <= k < parts.len() implies !(#[trigger] parts[k]).contains('.') by {
        if k < module.len() {
            assert(parts[k] == module[k]);
        } else {
            assert(parts[k] == inner[k - module.len()]);
        }
    }
    text::law_splitting_undoes_joining(parts, '.');
    let count = module.len() as int;
    assert(parts.subrange(0, count) =~= module);
    assert(parts.subrange(count, parts.len() as int) =~= inner);
    assert forall|longer: int| count < longer <= parts.len() implies !files.contains(
        #[trigger] module_file(parts, longer),
    ) by {
        let k = longer - count;
        assert(parts.subrange(0, longer) =~= module + inner.subrange(0, k));
    }
    lemma_node_upto(test, files, parts.len() as int, count);
    let path = text::joined(module, "/"@);
    assert(".py"@ + "::"@ =~= ".py::"@);
    if inner.len() == 0 {
        assert(classes(inner) =~= Seq::<char>::empty());
        assert(path + ".py"@ + classes(inner) + "::"@ + function =~= path + ".py::"@ + function);
    } else {
        lemma_classes(inner);
        let within = text::joined(inner, "::"@);
        assert(path + ".py"@ + ("::"@ + within) + "::"@ + function =~= path + ".py::"@ + within
            + "::"@ + function);
    }
}

/// A test whose module is no file has no node id.
pub proof fn law_a_test_without_a_file_has_no_node_id(test: Case, files: Seq<Seq<char>>)
    requires
        forall|module: int|
            1 <= module <= text::split_on(test.classname, '.').len() ==> !files.contains(
                text::joined(
                    #[trigger] text::split_on(test.classname, '.').subrange(0, module),
                    "/"@,
                ) + ".py"@,
            ),
    ensures
        test.node(files).is_none(),
{
    let parts = text::split_on(test.classname, '.');
    assert forall|module: int| 1 <= module <= parts.len() implies !files.contains(
        #[trigger] module_file(parts, module),
    ) by {
        assert(parts.subrange(0, module) == parts.subrange(0, module));
    }
    lemma_no_node_upto(test, files, parts.len() as int);
}

proof fn lemma_billionths(digits: Seq<char>, d: char, count: int)
    requires
        '0' <= d <= '9',
        0 <= count,
        billionths(digits, count).is_some(),
    ensures
        count <= digits.len() ==> billionths(digits.push(d), count) == billionths(digits, count),
        count > digits.len() ==> billionths(digits.push(d), count) == Some(
            (billionths(digits, count).unwrap() + (d as u32 - 48) * vstd::arithmetic::power::pow(
                10,
                (count - digits.len() - 1) as nat,
            )) as nat,
        ),
    decreases count,
{
    if count > 0 {
        lemma_billionths(digits, d, count - 1);
        vstd::arithmetic::power::lemma_pow0(10);
        let gap = count - digits.len() - 1;
        let value = d as u32 - 48;
        if gap >= 0 {
            vstd::arithmetic::power::lemma_pow_positive(10, gap as nat);
        }
        if gap > 0 {
            reveal(vstd::arithmetic::power::pow);
            let smaller = vstd::arithmetic::power::pow(10, (gap - 1) as nat);
            assert(vstd::arithmetic::power::pow(10, gap as nat) == 10 * smaller);
            assert((value * smaller) * 10 == value * (10 * smaller)) by (nonlinear_arith);
            assert(0 <= value * smaller) by (nonlinear_arith)
                requires
                    0 <= value,
                    0 <= smaller,
            ;
        } else if gap == 0 {
            assert(digits.push(d)[count - 1] == d);
            assert(value * 1 == value);
        } else {
            assert(digits.push(d)[count - 1] == digits[count - 1]);
        }
    }
}

proof fn lemma_billionths_read(digits: Seq<char>, count: int)
    requires
        forall|i: int| 0 <= i < digits.len() ==> '0' <= #[trigger] digits[i] <= '9',
    ensures
        billionths(digits, count) matches Some(value) && (digits.len() == 0 ==> value == 0),
    decreases count,
{
    if count > 0 {
        lemma_billionths_read(digits, count - 1);
        if count - 1 < digits.len() {
            assert('0' <= digits[count - 1] <= '9');
        }
    }
}

proof fn lemma_billionths_bound(digits: Seq<char>, count: int)
    requires
        0 <= count,
        billionths(digits, count).is_some(),
    ensures
        billionths(digits, count).unwrap() < vstd::arithmetic::power::pow(10, count as nat),
    decreases count,
{
    reveal(vstd::arithmetic::power::pow);
    if count > 0 {
        lemma_billionths_bound(digits, count - 1);
    }
}

/// A time in seconds counts a billion nanoseconds each. Each digit behind the
/// point counts a tenth of the one before it, down to a single nanosecond.
pub proof fn law_seconds_are_read_digit_by_digit(seconds: u32, fraction: Seq<char>, d: char)
    requires
        '0' <= d <= '9',
        fraction.len() < 9,
        forall|i: int| 0 <= i < fraction.len() ==> '0' <= #[trigger] fraction[i] <= '9',
    ensures
        nanoseconds(text::decimal(seconds as nat)) == seconds * 1_000_000_000,
        nanoseconds(text::decimal(seconds as nat) + seq!['.']) == seconds * 1_000_000_000,
        nanoseconds(text::decimal(seconds as nat) + seq!['.'] + fraction.push(d)) == nanoseconds(
            text::decimal(seconds as nat) + seq!['.'] + fraction,
        ) + (d as u32 - 48) * vstd::arithmetic::power::pow(10, (8 - fraction.len()) as nat),
{
    let whole = text::decimal(seconds as nat);
    text::law_decimal_digits(seconds as nat);
    literals::law_a_written_number_reads_back(seconds as int);
    assert(text::signed(seconds as int) == whole);
    assert(!whole.contains('.')) by {
        if whole.contains('.') {
            let k = choose|k: int| 0 <= k < whole.len() && whole[k] == '.';
            assert('0' <= whole[k] <= '9');
        }
    }
    text::law_a_text_is_cut_at_its_first_separator(whole, '.');
    text::law_cutting_undoes_joining(whole, '.', Seq::empty());
    text::law_cutting_undoes_joining(whole, '.', fraction);
    text::law_cutting_undoes_joining(whole, '.', fraction.push(d));
    assert(whole + seq!['.'] + Seq::<char>::empty() =~= whole + seq!['.']);
    lemma_billionths_read(Seq::empty(), 9);
    lemma_billionths_read(fraction, 9);
    lemma_billionths(fraction, d, 9);
    lemma_billionths_bound(fraction, 9);
    lemma_billionths_bound(fraction.push(d), 9);
    vstd::arithmetic::power::lemma_pow_positive(10, (8 - fraction.len()) as nat);
    assert(vstd::arithmetic::power::pow(10, 9) == 1_000_000_000) by {
        reveal_with_fuel(vstd::arithmetic::power::pow, 10);
    }
    let step = vstd::arithmetic::power::pow(10, (8 - fraction.len()) as nat);
    let value = d as u32 - 48;
    assert(0 <= value * step) by (nonlinear_arith)
        requires
            0 <= value,
            0 <= step,
    ;
}

/// A path inside a directory has one slash between the two.
pub proof fn law_a_path_has_one_slash(directory: Seq<char>, file: Seq<char>)
    requires
        directory.len() > 0,
        directory.last() != '/',
    ensures
        inside(directory, file) == directory + seq!['/'] + file,
        inside(directory.push('/'), file) == directory + seq!['/'] + file,
{
    reveal_strlit("/");
    assert("/"@ =~= seq!['/']);
    assert(directory.push('/') + file =~= directory + seq!['/'] + file);
}

/// A selection is handed to pytest as its test ids, behind the flag that stops at
/// the first failure when it is to.
pub proof fn law_a_selection_becomes_arguments(selection: Selection, list: Vec<String>)
    requires
        call_ensures(Selection::arguments, (&selection,), list),
    ensures
        selection.stop_at_first_failure ==> text::texts(list@).len() == selection.test_ids@.len() + 1
            && text::texts(list@)[0] == "-x"@ && text::texts(list@).skip(1) == text::texts(
            selection.test_ids@,
        ),
        !selection.stop_at_first_failure ==> text::texts(list@) == text::texts(
            selection.test_ids@,
        ),
{
    if selection.stop_at_first_failure {
        assert(text::texts(list@).skip(1) =~= text::texts(selection.test_ids@));
    }
}

/// A baseline stops the run exactly when pytest judged nothing: with any exit
/// code but 0 and 1. The reason begins with the code and ends with the end of
/// what pytest printed.
pub proof fn law_only_a_judged_baseline_goes_on(code: i64, output: Seq<char>)
    ensures
        unjudged(code, output).is_none() <==> code == 0 || code == 1,
        unjudged(code, output) matches Some(why) ==> text::begins(
            why,
            "angelo could not run the baseline suite, pytest exited "@ + text::signed(code as int)
                + ".\n"@,
        ) && text::ends(why, "\n\n"@ + tail_of(output, 40)),
{
    if let Some(why) = unjudged(code, output) {
        let head = "angelo could not run the baseline suite, pytest exited "@ + text::signed(
            code as int,
        ) + ".\n"@;
        let tail = "\n\n"@ + tail_of(output, 40);
        assert(why.subrange(0, head.len() as int) =~= head);
        assert(why.subrange(why.len() - tail.len(), why.len() as int) =~= tail);
    }
}

/// The end of a text is its last lines, all of them when there are no more.
pub proof fn law_the_tail_is_the_last_lines(front: Seq<Seq<char>>, last: Seq<Seq<char>>)
    requires
        last.len() > 0,
        last.last().len() > 0,
        forall|k: int| 0 <= k < front.len() ==> !(#[trigger] front[k]).contains('\n'),
        forall|k: int|
            0 <= k < front.len() ==> (#[trigger] front[k]).len() == 0 || front[k].last() != '\r',
        forall|k: int| 0 <= k < last.len() ==> !(#[trigger] last[k]).contains('\n'),
        forall|k: int|
            0 <= k < last.len() ==> (#[trigger] last[k]).len() == 0 || last[k].last() != '\r',
    ensures
        tail_of(text::joined(front + last, seq!['\n']), last.len() as int) == text::joined(
            last,
            seq!['\n'],
        ),
{
    reveal_strlit("\n");
    assert("\n"@ =~= seq!['\n']);
    let all = front + last;
    assert forall|k: int| 0 <= k < all.len() implies !(#[trigger] all[k]).contains('\n') && (
    all[k].len() == 0 || all[k].last() != '\r') by {
        if k < front.len() {
            assert(all[k] == front[k]);
        } else {
            assert(all[k] == last[k - front.len()]);
        }
    }
    text::law_joined_lines_read_back(all);
    assert(all.last() == last.last());
    assert(all.subrange(front.len() as int, all.len() as int) =~= last);
}

/// What is said of a baseline names the cause of its exit code: red tests, an
/// interruption, an internal error, a wrong command and no tests at all.
pub proof fn law_every_exit_code_has_its_reason(code: i64)
    ensures
        text::begins(diagnosis(1), "Tests are failing."@),
        text::begins(diagnosis(2), "pytest was interrupted."@),
        text::begins(diagnosis(3), "pytest hit an internal error"@),
        text::begins(diagnosis(4), "pytest usage error"@),
        text::begins(diagnosis(5), "pytest collected no tests"@),
        code < 1 || code > 5 ==> diagnosis(code) == "pytest could not run the suite."@,
{
    reveal_strlit("Tests are failing.");
    reveal_strlit("pytest was interrupted.");
    reveal_strlit("pytest hit an internal error");
    reveal_strlit("pytest usage error");
    reveal_strlit("pytest collected no tests");
    reveal_strlit(
        "Tests are failing. Fix them first, angelo can only tell you what a passing suite misses.",
    );
    reveal_strlit(
        "pytest hit an internal error, usually a plugin or config problem: an option in pyproject.toml/pytest.ini that belongs to a plugin you have not installed.",
    );
    reveal_strlit("pytest usage error, check test_command in angelo.conf.");
    reveal_strlit("pytest collected no tests, check test_command and its path in angelo.conf.");
    assert(diagnosis(1).subrange(0, "Tests are failing."@.len() as int) =~= "Tests are failing."@);
    assert(diagnosis(2).subrange(0, "pytest was interrupted."@.len() as int)
        =~= "pytest was interrupted."@);
    assert(diagnosis(3).subrange(0, "pytest hit an internal error"@.len() as int)
        =~= "pytest hit an internal error"@);
    assert(diagnosis(4).subrange(0, "pytest usage error"@.len() as int) =~= "pytest usage error"@);
    assert(diagnosis(5).subrange(0, "pytest collected no tests"@.len() as int)
        =~= "pytest collected no tests"@);
}

} // verus!

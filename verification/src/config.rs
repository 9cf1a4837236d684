//! What a run is configured to do, and which files it looks at.

use vstd::prelude::*;

use crate::mutate;
use crate::operators::{OperatorError, Operators};
use crate::paths::{self, trails, FilePath, Step, Trail};
use crate::text;

verus! {

broadcast use vstd::seq_lib::group_seq_properties;

/// The configuration file, in the project root.
pub const CONFIG_FILE: &'static str = "angelo.conf";

/// Directories that hold nothing to mutate and nothing to copy.
pub open spec fn junk() -> Seq<Seq<char>> {
    seq![
        ".git"@,
        ".angelo"@,
        ".pytest_cache"@,
        ".venv"@,
        "venv"@,
        "__pycache__"@,
        "node_modules"@,
        "target"@,
    ]
}

/// Whether a directory of this name is never copied.
pub fn is_junk(name: &str) -> (yes: bool)
    ensures
        yes == junk().contains(name@),
{
    proof {
        let list = junk();
        assert(list[0] == ".git"@ && list[1] == ".angelo"@ && list[2] == ".pytest_cache"@ && list[3]
            == ".venv"@ && list[4] == "venv"@ && list[5] == "__pycache__"@ && list[6]
            == "node_modules"@ && list[7] == "target"@);
    }
    text::same(name, ".git") || text::same(name, ".angelo") || text::same(name, ".pytest_cache")
        || text::same(name, ".venv") || text::same(name, "venv") || text::same(name, "__pycache__")
        || text::same(name, "node_modules") || text::same(name, "target")
}

/// What a run is configured to do. The two settings that are fractions, the
/// timeout factor and the threshold, live with the program that reads the file.
pub struct Config {
    pub paths: Vec<String>,
    pub test_command: String,
    /// 0 = one per CPU core.
    pub workers: usize,
    /// Mutants per pytest run; 1 = no batching.
    pub batch_size: usize,
    /// Run only the tests that cover a batch instead of the whole suite.
    pub test_selection: bool,
    /// Host runs in a long-lived pytest process (angelo's stand-in for fork).
    pub warm_workers: bool,
    /// Restart that process every N runs, bounding accumulated state.
    pub warm_recycle_after: usize,
    /// Compile every mutant of a file into the file at once and pick one with an
    /// environment variable, so a run re-imports nothing. Needs the fork worker
    /// to stay honest, so it does nothing where `fork()` does not exist.
    pub schemata: bool,
    /// Cap the mutant pool at this many, dropping the rest at random.
    /// 0 = keep every mutant.
    pub sample: usize,
    /// Glob patterns, relative to the project root, that `paths` cannot express:
    /// generated code, vendored code, one module that hangs. `**` matches any
    /// run of directories, `*` matches within one name.
    pub exclude: Vec<String>,
    /// Write the run to this path in the mutation-testing-report schema. Empty =
    /// off.
    pub report: String,
    /// Write one self-contained HTML file to this path. Empty = off.
    pub html_report: String,
    /// Write the survivors to this path in SonarQube's generic issue import
    /// format. Empty = off.
    pub sonar_report: String,
    /// Which operator families to plant mutants from, named the way a report
    /// names them.
    pub operators: Vec<String>,
    /// Call names not worth mutating whatever the operator: logging, printing,
    /// warning. Empty = mutate everything.
    pub arid: Vec<String>,
    /// Keep at most this many mutants on any one source line, dropping the rest
    /// at random. 0 = keep every mutant.
    pub per_line_cap: usize,
}

fn owned_list(list: &[&'static str]) -> (copy: Vec<String>)
    ensures
        text::texts(copy@) == mutate::names(list@),
{
    let mut copy: Vec<String> = Vec::new();
    while copy.len() < list.len()
        invariant
            copy@.len() <= list@.len(),
            forall|k: int| 0 <= k < copy@.len() ==> #[trigger] copy@[k]@ == list@[k]@,
        decreases list@.len() - copy@.len(),
    {
        copy.push(text::owned(list[copy.len()]));
    }
    assert(text::texts(copy@) =~= mutate::names(list@));
    copy
}

impl Config {
    /// What a project that says nothing gets.
    pub open spec fn is_default(self) -> bool {
        &&& self.test_command@ == "python -m pytest"@
        &&& self.workers == 0
        &&& self.batch_size == 8
        &&& self.test_selection
        &&& self.warm_workers
        &&& self.warm_recycle_after == 50
        &&& self.schemata
        &&& self.sample == 0
        &&& self.exclude@.len() == 0
        &&& self.report@.len() == 0
        &&& self.html_report@.len() == 0
        &&& self.sonar_report@.len() == 0
        &&& text::texts(self.operators@) == mutate::usual_families()
        &&& text::texts(self.arid@) == mutate::usual_arid()
        &&& self.per_line_cap == 0
    }
}

impl Default for Config {
    fn default() -> (config: Config)
        ensures
            config.is_default(),
            text::texts(config.paths@) == seq!["."@],
    {
        let mut paths: Vec<String> = Vec::new();
        paths.push(text::owned("."));
        assert(text::texts(paths@) =~= seq!["."@]);
        Config {
            paths,
            test_command: text::owned("python -m pytest"),
            workers: 0,
            batch_size: 8,
            test_selection: true,
            warm_workers: true,
            warm_recycle_after: 50,
            schemata: true,
            sample: 0,
            exclude: Vec::new(),
            report: String::new(),
            html_report: String::new(),
            sonar_report: String::new(),
            operators: owned_list(&mutate::default_families()),
            arid: owned_list(&mutate::default_arid()),
            per_line_cap: 0,
        }
    }
}

impl Config {
    /// The configuration a project starts with: its `src` directory when it has
    /// one, and everything otherwise.
    pub fn detect(has_src: bool) -> (config: Config)
        ensures
            config.is_default(),
            text::texts(config.paths@) == seq![
                if has_src {
                    "src"@
                } else {
                    "."@
                },
            ],
    {
        let mut config: Config = Config::default();
        if has_src {
            let mut paths: Vec<String> = Vec::new();
            paths.push(text::owned("src"));
            assert(text::texts(paths@) =~= seq!["src"@]);
            config.paths = paths;
        }
        config
    }

    /// The test command taken apart at its spaces, unless there is nothing in
    /// it.
    pub fn test_command_parts(&self) -> (parts: Result<Vec<String>, String>)
        ensures
            parts is Ok <==> text::words_of(self.test_command@).len() > 0,
            parts matches Ok(parts) ==> text::texts(parts@) == text::words_of(self.test_command@),
            parts matches Err(why) ==> why@ == "test_command in angelo.conf is empty"@,
    {
        let parts: Vec<String> = text::words(self.test_command.as_str());
        assert(text::texts(parts@).len() == parts@.len());
        if parts.len() == 0 {
            return Err(text::owned("test_command in angelo.conf is empty"));
        }
        Ok(parts)
    }

    /// How many workers to run: what the command line says, what the file says,
    /// or one per core, of which there are `available`.
    pub fn effective_workers(&self, cli_override: Option<usize>, available: usize) -> (count: usize)
        ensures
            ({
                let configured = match cli_override {
                    Some(count) => count,
                    None => self.workers,
                };
                count == if configured > 0 {
                    configured
                } else {
                    available
                }
            }),
    {
        let configured: usize = match cli_override {
            Some(count) => count,
            None => self.workers,
        };
        if configured > 0 {
            configured
        } else {
            available
        }
    }

    /// What this run will plant and where, with the family names checked
    /// before a single file is parsed: an unknown one has to stop the run
    /// rather than quietly shrink the pool.
    pub fn operators(&self) -> (operators: Result<Operators, OperatorError>)
        ensures
            operators matches Ok(chosen) ==> self.operators@.len() > 0
                && crate::operators::first_unknown(text::texts(self.operators@)).is_none()
                && chosen@.families == text::texts(self.operators@) && chosen@.arid_names
                == text::texts(self.arid@) && chosen@.suppressed == 0 && chosen@.filtered == 0,
            operators matches Err(error) ==> (error is Empty <==> self.operators@.len() == 0),
            operators matches Err(OperatorError::Unknown(family))
                ==> crate::operators::first_unknown(text::texts(self.operators@)) == Some(family@),
    {
        Operators::new(&self.operators, &self.arid)
    }
}

/// Why a fresh configuration file is not written, if it is not.
pub fn refuses_to_overwrite(exists: bool, force: bool) -> (why: Option<String>)
    ensures
        why.is_some() == (exists && !force),
        why matches Some(why) ==> why@
            == "angelo.conf already exists. Delete it, or pass --force, for a fresh one"@,
{
    if exists && !force {
        Some(
            text::owned(
                "angelo.conf already exists. Delete it, or pass --force, for a fresh one",
            ),
        )
    } else {
        None
    }
}

/// Whether the search stays out of a directory.
pub open spec fn skipped(dir: Seq<Step>) -> bool {
    match paths::file_name(dir) {
        Some(name) => junk().contains(name) || name == "tests"@,
        None => true,
    }
}

pub fn is_skipped(dir: &FilePath) -> (yes: bool)
    ensures
        yes == skipped(dir@.steps),
{
    match dir.name() {
        Some(name) => is_junk(name) || text::same(name, "tests"),
        None => true,
    }
}

/// Whether a file is one to plant mutants in: Python, and not a test.
pub open spec fn is_target(path: Seq<Step>) -> bool {
    match paths::file_name(path) {
        Some(name) => text::ends(name, ".py"@) && !(text::begins(name, "test_"@) || text::ends(
            name,
            "_test.py"@,
        ) || name == "conftest.py"@),
        None => false,
    }
}

pub fn is_mutation_target(path: &FilePath) -> (yes: bool)
    ensures
        yes == is_target(path@.steps),
{
    match path.name() {
        Some(name) => {
            let test: bool = text::starts_with(name, "test_") || text::ends_with(name, "_test.py")
                || text::same(name, "conftest.py");
            text::ends_with(name, ".py") && !test
        },
        None => false,
    }
}

/// Whether a name matches a pattern in which `*` stands for any characters.
pub open spec fn segment(pattern: Seq<char>, name: Seq<char>) -> bool
    decreases pattern.len(),
{
    match text::halves(pattern, '*') {
        None => pattern == name,
        Some((before, after)) => {
            proof {
                lemma_halves_are_shorter(pattern, '*');
            }
            text::begins(name, before) && exists|at: int|
                before.len() <= at <= name.len() && segment(
                    after,
                    #[trigger] name.subrange(at, name.len() as int),
                )
        },
    }
}

pub proof fn lemma_halves_are_shorter(s: Seq<char>, separator: char)
    ensures
        text::halves(s, separator) matches Some((before, after)) ==> before.len() + 1 + after.len()
            == s.len(),
{
    text::lemma_found(s, seq![separator], 0);
}

/// Whether the segments of a path match those of a pattern: `**` matches any
/// run of segments, `*` matches within one segment, and anything else is
/// literal. Zero segments count as a run, so `**/migrations/**` turns away the
/// directory itself and not only the files under it.
pub open spec fn glob(pattern: Seq<Seq<char>>, path: Seq<Seq<char>>) -> bool
    decreases pattern.len(),
{
    if pattern.len() == 0 {
        path.len() == 0
    } else if pattern[0] == "**"@ {
        exists|taken: int|
            0 <= taken <= path.len() && glob(
                pattern.drop_first(),
                #[trigger] path.subrange(taken, path.len() as int),
            )
    } else {
        path.len() > 0 && segment(pattern[0], path[0]) && glob(
            pattern.drop_first(),
            path.drop_first(),
        )
    }
}

fn segment_chars(pattern: &[char], name: &[char]) -> (yes: bool)
    ensures
        yes == segment(pattern@, name@),
    decreases pattern@.len(),
{
    let mut star: Vec<char> = Vec::new();
    star.push('*');
    assert(star@ =~= seq!['*']);
    proof {
        text::lemma_found(pattern@, seq!['*'], 0);
    }
    match text::find(pattern, &star, 0) {
        None => {
            let equal: bool = pattern.len() == name.len() && text::stands_at(name, pattern, 0);
            assert(name@.subrange(0, name@.len() as int) =~= name@);
            equal
        },
        Some(at) => {
            let total: usize = pattern.len();
            assert(text::found(pattern@, seq!['*'], 0) == Some(at as int));
            assert(at + 1 <= total);
            let before: &[char] = vstd::slice::slice_subrange(pattern, 0, at);
            let after: &[char] = vstd::slice::slice_subrange(pattern, at + 1, total);
            assert(text::halves(pattern@, '*') == Some((before@, after@)));
            if !text::stands_at(name, before, 0) {
                return false;
            }
            let size: usize = name.len();
            let mut from: usize = at;
            while from <= size
                invariant
                    size == name@.len(),
                    at == before@.len(),
                    at <= from <= size + 1,
                    at <= size,
                    after@.len() < pattern@.len(),
                    text::begins(name@, before@),
                    text::halves(pattern@, '*') == Some((before@, after@)),
                    forall|k: int|
                        at <= k < from ==> !segment(
                            after@,
                            #[trigger] name@.subrange(k, name@.len() as int),
                        ),
                decreases size + 1 - from,
            {
                let rest: &[char] = vstd::slice::slice_subrange(name, from, size);
                if segment_chars(after, rest) {
                    assert(segment(after@, name@.subrange(from as int, name@.len() as int)));
                    return true;
                }
                if from == size {
                    assert(forall|k: int|
                        at <= k <= size ==> !segment(
                            after@,
                            #[trigger] name@.subrange(k, name@.len() as int),
                        ));
                    return false;
                }
                from += 1;
            }
            false
        },
    }
}

/// Whether a name matches a pattern in which `*` stands for any characters.
pub fn segment_matches(pattern: &str, name: &str) -> (yes: bool)
    ensures
        yes == segment(pattern@, name@),
{
    let pattern_chars: Vec<char> = text::chars_of(pattern);
    let name_chars: Vec<char> = text::chars_of(name);
    segment_chars(&pattern_chars, &name_chars)
}

/// Whether the segments of a path match those of a pattern.
pub fn path_matches(pattern: &[String], path: &[String]) -> (yes: bool)
    ensures
        yes == glob(text::texts(pattern@), text::texts(path@)),
    decreases pattern@.len(),
{
    let ghost wanted = text::texts(pattern@);
    let ghost given = text::texts(path@);
    let total: usize = pattern.len();
    let size: usize = path.len();
    if total == 0 {
        return size == 0;
    }
    let rest: &[String] = vstd::slice::slice_subrange(pattern, 1, total);
    assert(text::texts(rest@) =~= wanted.drop_first());
    assert(wanted[0] == pattern@[0]@);
    if text::same(pattern[0].as_str(), "**") {
        let mut taken: usize = 0;
        while taken <= size
            invariant
                taken <= size + 1,
                size == path@.len(),
                given == text::texts(path@),
                wanted == text::texts(pattern@),
                wanted.len() > 0,
                wanted[0] == "**"@,
                rest@.len() < pattern@.len(),
                text::texts(rest@) == wanted.drop_first(),
                forall|k: int|
                    0 <= k < taken ==> !glob(
                        wanted.drop_first(),
                        #[trigger] given.subrange(k, given.len() as int),
                    ),
            decreases size + 1 - taken,
        {
            let tail: &[String] = vstd::slice::slice_subrange(path, taken, size);
            assert(text::texts(tail@) =~= given.subrange(taken as int, given.len() as int));
            if path_matches(rest, tail) {
                assert(glob(
                    wanted.drop_first(),
                    given.subrange(taken as int, given.len() as int),
                ));
                return true;
            }
            if taken == size {
                assert(forall|k: int|
                    0 <= k <= size ==> !glob(
                        wanted.drop_first(),
                        #[trigger] given.subrange(k, given.len() as int),
                    ));
                return false;
            }
            taken += 1;
        }
        return false;
    }
    if size == 0 {
        return false;
    }
    let tail: &[String] = vstd::slice::slice_subrange(path, 1, size);
    assert(text::texts(tail@) =~= given.drop_first());
    assert(given[0] == path@[0]@);
    segment_matches(pattern[0].as_str(), path[0].as_str()) && path_matches(rest, tail)
}

/// The segments of a pattern.
pub open spec fn pattern_segments(source: Seq<char>) -> Seq<Seq<char>> {
    text::split_on(mutate::forward_slashed(source), '/')
}

/// The segments of a path, in the one form that patterns are matched against:
/// forward slashes, relative to the project root.
pub open spec fn path_segments(path: Seq<char>) -> Seq<Seq<char>> {
    text::split_on(mutate::undotted(mutate::forward_slashed(path)), '/')
}

/// One `exclude` pattern, and how often it fired.
pub struct Pattern {
    /// Kept verbatim so a warning can quote what the user actually wrote.
    pub source: String,
    segments: Vec<String>,
    hits: usize,
}

/// A pattern as plain values.
#[verifier::ext_equal]
pub struct Glob {
    pub source: Seq<char>,
    pub segments: Seq<Seq<char>>,
    pub hits: int,
}

impl View for Pattern {
    type V = Glob;

    closed spec fn view(&self) -> Glob {
        Glob {
            source: self.source@,
            segments: text::texts(self.segments@),
            hits: self.hits as int,
        }
    }
}

/// Patterns as plain values.
pub open spec fn globs(list: Seq<Pattern>) -> Seq<Glob> {
    list.map_values(|pattern: Pattern| pattern@)
}

/// The `exclude` patterns, and how often each one fired.
pub struct Excludes {
    patterns: Vec<Pattern>,
    excluded: usize,
}

/// The patterns as plain values.
#[verifier::ext_equal]
pub struct Refusals {
    pub patterns: Seq<Glob>,
    pub excluded: int,
}

impl View for Excludes {
    type V = Refusals;

    closed spec fn view(&self) -> Refusals {
        Refusals { patterns: globs(self.patterns@), excluded: self.excluded as int }
    }
}

/// Whether a path matches one of the patterns.
pub open spec fn refused(patterns: Seq<Glob>, path: Seq<Seq<char>>) -> bool {
    exists|k: int| 0 <= k < patterns.len() && glob((#[trigger] patterns[k]).segments, path)
}

/// One more, up to the largest count there is.
pub open spec fn counted(count: int) -> int {
    if count < usize::MAX {
        count + 1
    } else {
        count
    }
}

/// Patterns that have not fired yet.
pub open spec fn fresh(sources: Seq<Seq<char>>) -> Seq<Glob> {
    sources.map_values(
        |source: Seq<char>| Glob { source, segments: pattern_segments(source), hits: 0 },
    )
}

impl Refusals {
    /// The patterns after a path was asked about: every one that it matches
    /// fired, and the path counts once.
    pub open spec fn asked(self, path: Seq<Seq<char>>) -> Refusals {
        Refusals {
            patterns: self.patterns.map_values(
                |pattern: Glob|
                    if glob(pattern.segments, path) {
                        Glob { hits: counted(pattern.hits), ..pattern }
                    } else {
                        pattern
                    },
            ),
            excluded: if refused(self.patterns, path) {
                counted(self.excluded)
            } else {
                self.excluded
            },
        }
    }

    /// The patterns after these paths were asked about, one after the other.
    pub open spec fn asked_all(self, paths: Seq<Seq<Seq<char>>>) -> Refusals
        decreases paths.len(),
    {
        if paths.len() == 0 {
            self
        } else {
            self.asked_all(paths.drop_last()).asked(paths.last())
        }
    }

    /// The patterns that matched nothing.
    pub open spec fn unused(self) -> Seq<Seq<char>> {
        never_hit(self.patterns)
    }
}

/// The sources of the patterns that never fired.
pub open spec fn never_hit(patterns: Seq<Glob>) -> Seq<Seq<char>>
    decreases patterns.len(),
{
    if patterns.len() == 0 {
        Seq::empty()
    } else if patterns.last().hits == 0 {
        never_hit(patterns.drop_last()).push(patterns.last().source)
    } else {
        never_hit(patterns.drop_last())
    }
}

impl Excludes {
    pub fn new(patterns: &[String]) -> (excludes: Excludes)
        ensures
            excludes@ == (Refusals { patterns: fresh(text::texts(patterns@)), excluded: 0 }),
    {
        let ghost sources = text::texts(patterns@);
        let mut list: Vec<Pattern> = Vec::new();
        while list.len() < patterns.len()
            invariant
                list@.len() <= patterns@.len(),
                sources == text::texts(patterns@),
                forall|k: int|
                    0 <= k < list@.len() ==> #[trigger] list@[k]@ == (Glob {
                        source: sources[k],
                        segments: pattern_segments(sources[k]),
                        hits: 0,
                    }),
            decreases patterns@.len() - list@.len(),
        {
            let source: &String = &patterns[list.len()];
            assert(sources[list@.len() as int] == source@);
            let slashed: String = text::replace_char(source.as_str(), '\\', '/');
            let pattern: Pattern = Pattern {
                source: source.clone(),
                segments: text::split(slashed.as_str(), '/'),
                hits: 0,
            };
            list.push(pattern);
        }
        assert(globs(list@) =~= fresh(sources));
        Excludes { patterns: list, excluded: 0 }
    }

    /// Whether a path is turned away, counting every pattern that would have done
    /// it: a pattern that matches is in use, whether or not another one got there
    /// first. Patterns match one path form only: a `./` prefix and a Windows
    /// backslash must not change the answer.
    pub fn excludes(&mut self, path: &str) -> (yes: bool)
        ensures
            yes == refused(old(self)@.patterns, path_segments(path@)),
            final(self)@ == old(self)@.asked(path_segments(path@)),
    {
        let ghost before = self@;
        let ghost wanted = path_segments(path@);
        let slashed: String = text::replace_char(path, '\\', '/');
        let relative: String = mutate::undot(slashed);
        let segments: Vec<String> = text::split(relative.as_str(), '/');
        assert(text::texts(segments@) == wanted);
        let mut yes: bool = false;
        let mut at: usize = 0;
        while at < self.patterns.len()
            invariant
                at <= self.patterns@.len(),
                before == old(self)@,
                self.excluded as int == before.excluded,
                self.patterns@.len() == before.patterns.len(),
                wanted == path_segments(path@),
                text::texts(segments@) == wanted,
                yes == exists|k: int|
                    0 <= k < at && glob((#[trigger] before.patterns[k]).segments, wanted),
                forall|k: int|
                    0 <= k < at ==> #[trigger] self.patterns@[k]@ == before.asked(
                        wanted,
                    ).patterns[k],
                forall|k: int|
                    at <= k < self.patterns@.len() ==> #[trigger] self.patterns@[k]@
                        == before.patterns[k],
            decreases self.patterns@.len() - at,
        {
            assert(before.patterns[at as int] == self.patterns@[at as int]@);
            if path_matches(&self.patterns[at].segments, &segments) {
                let hits: usize = self.patterns[at].hits;
                self.patterns[at].hits = hits.saturating_add(1);
                yes = true;
                assert(glob(before.patterns[at as int].segments, wanted));
            }
            at += 1;
        }
        if yes {
            self.excluded = self.excluded.saturating_add(1);
        }
        assert(self@ =~= before.asked(wanted));
        yes
    }

    /// The patterns that matched nothing, as they were written.
    pub fn unused_patterns(&self) -> (list: Vec<String>)
        ensures
            text::texts(list@) == self@.unused(),
    {
        let ghost all = self@.patterns;
        let mut list: Vec<String> = Vec::new();
        assert(text::texts(list@) =~= never_hit(all.subrange(0, 0)));
        let mut at: usize = 0;
        while at < self.patterns.len()
            invariant
                at <= self.patterns@.len(),
                all == globs(self.patterns@),
                text::texts(list@) == never_hit(all.subrange(0, at as int)),
            decreases self.patterns@.len() - at,
        {
            assert(all.subrange(0, at + 1).drop_last() =~= all.subrange(0, at as int));
            assert(all.subrange(0, at + 1).last() == self.patterns@[at as int]@);
            let ghost before = text::texts(list@);
            if self.patterns[at].hits == 0 {
                list.push(self.patterns[at].source.clone());
                assert(text::texts(list@) =~= before.push(self.patterns@[at as int]@.source));
            }
            at += 1;
        }
        assert(all.subrange(0, at as int) =~= all);
        list
    }
}

/// What the search found, and what the `exclude` patterns turned away. The two
/// travel together because a silent exclusion raises the score, so the caller
/// has to be able to report the second alongside the first.
pub struct Sources {
    pub files: Vec<FilePath>,
    pub excludes: Excludes,
}

/// The clause about exclusions.
pub open spec fn note_on(excluded: int) -> Seq<char> {
    if excluded == 0 {
        Seq::empty()
    } else if excluded == 1 {
        " (1 path excluded by angelo.conf)"@
    } else {
        " ("@ + text::decimal(excluded as nat) + " paths excluded by angelo.conf)"@
    }
}

/// A sorted list with one more path in it, behind those it does not precede.
pub open spec fn with_path(list: Seq<Trail>, path: Trail) -> Seq<Trail>
    decreases list.len(),
{
    if list.len() == 0 || !paths::path_before(path.steps, list.last().steps) {
        list.push(path)
    } else {
        with_path(list.drop_last(), path).push(list.last())
    }
}

/// Paths in order.
pub open spec fn in_path_order(list: Seq<Trail>) -> Seq<Trail>
    decreases list.len(),
{
    if list.len() == 0 {
        list
    } else {
        with_path(in_path_order(list.drop_last()), list.last())
    }
}

proof fn lemma_with_path_at(list: Seq<Trail>, path: Trail, at: int)
    requires
        0 <= at <= list.len(),
        at > 0 ==> !paths::path_before(path.steps, list[at - 1].steps),
        forall|i: int|
            at <= i < list.len() ==> paths::path_before(path.steps, (#[trigger] list[i]).steps),
    ensures
        with_path(list, path) == list.insert(at, path),
    decreases list.len(),
{
    if at == list.len() {
        assert(list.insert(at, path) =~= list.push(path));
    } else {
        assert(paths::path_before(path.steps, list[list.len() - 1].steps));
        lemma_with_path_at(list.drop_last(), path, at);
        assert(list.insert(at, path) =~= list.drop_last().insert(at, path).push(list.last()));
    }
}

impl Sources {
    pub fn new(exclude: &[String]) -> (sources: Sources)
        ensures
            sources.files@.len() == 0,
            sources.excludes@ == (Refusals { patterns: fresh(text::texts(exclude@)), excluded: 0 }),
    {
        Sources { files: Vec::new(), excludes: Excludes::new(exclude) }
    }

    /// Whether the search goes into a directory. An excluded directory is never
    /// descended into, so an exclusion costs less than the scan it replaces
    /// rather than more.
    pub fn enters(&mut self, dir: &FilePath) -> (yes: bool)
        ensures
            final(self).files == old(self).files,
            skipped(dir@.steps) ==> !yes && final(self).excludes@ == old(self).excludes@,
            !skipped(dir@.steps) ==> yes == !refused(
                old(self).excludes@.patterns,
                path_segments(dir@.text),
            ) && final(self).excludes@ == old(self).excludes@.asked(path_segments(dir@.text)),
    {
        !is_skipped(dir) && !self.excludes.excludes(dir.text.as_str())
    }

    /// Takes a file, under the name it is to be known by, unless it is no target
    /// or a pattern turns it away.
    pub fn offer(&mut self, path: &FilePath, name: FilePath)
        ensures
            !is_target(path@.steps) ==> *final(self) == *old(self),
            is_target(path@.steps) ==> final(self).excludes@ == old(self).excludes@.asked(
                path_segments(path@.text),
            ) && final(self).files@ == if refused(
                old(self).excludes@.patterns,
                path_segments(path@.text),
            ) {
                old(self).files@
            } else {
                old(self).files@.push(name)
            },
    {
        if is_mutation_target(path) && !self.excludes.excludes(path.text.as_str()) {
            self.files.push(name);
        }
    }

    /// Puts the files in order.
    pub fn sort(&mut self)
        ensures
            trails(final(self).files@) == in_path_order(trails(old(self).files@)),
            final(self).excludes == old(self).excludes,
    {
        let ghost all = trails(self.files@);
        let mut sorted: Vec<FilePath> = Vec::new();
        assert(trails(sorted@) =~= in_path_order(all.subrange(0, 0)));
        let mut next: usize = 0;
        while next < self.files.len()
            invariant
                next <= self.files@.len(),
                all == trails(self.files@),
                self.excludes == old(self).excludes,
                all == trails(old(self).files@),
                trails(sorted@) == in_path_order(all.subrange(0, next as int)),
            decreases self.files@.len() - next,
        {
            assert(all.subrange(0, next + 1).drop_last() =~= all.subrange(0, next as int));
            assert(all.subrange(0, next + 1).last() == self.files@[next as int]@);
            let path: FilePath = self.files[next].copied();
            let ghost here = trails(sorted@);
            let mut at: usize = sorted.len();
            let mut found: bool = false;
            while at > 0 && !found
                invariant
                    at <= sorted@.len(),
                    here == trails(sorted@),
                    found ==> at > 0 && !paths::path_before(path@.steps, here[at - 1].steps),
                    forall|i: int|
                        at <= i < here.len() ==> paths::path_before(
                            path@.steps,
                            (#[trigger] here[i]).steps,
                        ),
                decreases
                    at,
                    if found {
                        0int
                    } else {
                        1int
                    },
            {
                assert(here[at - 1] == sorted@[at - 1]@);
                if path.comes_before(&sorted[at - 1]) {
                    at -= 1;
                } else {
                    found = true;
                }
            }
            proof {
                lemma_with_path_at(here, path@, at as int);
            }
            sorted.insert(at, path);
            assert(trails(sorted@) =~= here.insert(at as int, path@));
            next += 1;
        }
        assert(all.subrange(0, next as int) =~= all);
        self.files = sorted;
    }

    /// Rendered as a trailing clause, empty when nothing was excluded.
    pub fn exclusion_note(&self) -> (note: String)
        ensures
            note@ == note_on(self.excludes@.excluded),
    {
        if self.excludes.excluded == 0 {
            String::new()
        } else if self.excludes.excluded == 1 {
            text::owned(" (1 path excluded by angelo.conf)")
        } else {
            let mut note: String = text::owned(" (");
            note.append(&text::show_size(self.excludes.excluded));
            note.append(" paths excluded by angelo.conf)");
            note
        }
    }

    /// Whether `exclude` is why nothing was found, so an empty result blames
    /// the right key rather than sending the reader to `paths`.
    pub fn excluded_everything(&self) -> (yes: bool)
        ensures
            yes == (self.files@.len() == 0 && self.excludes@.excluded > 0),
    {
        self.files.len() == 0 && self.excludes.excluded > 0
    }

    /// A pattern that matches nothing is not an error, because a project may
    /// legitimately not have a `migrations/` yet. It is almost always a typo.
    pub fn unused_patterns(&self) -> (list: Vec<String>)
        ensures
            text::texts(list@) == self.excludes@.unused(),
    {
        self.excludes.unused_patterns()
    }
}

/// Whether a pattern, as it was written, matches none of these paths.
pub open spec fn matches_none(source: Seq<char>, paths: Seq<Seq<Seq<char>>>) -> bool {
    forall|k: int|
        0 <= k < paths.len() ==> !glob(pattern_segments(source), #[trigger] paths[k])
}

/// The pattern at one place, after these paths were asked about.
proof fn lemma_asked_all(sources: Seq<Seq<char>>, paths: Seq<Seq<Seq<char>>>)
    ensures
        ({
            let after = (Refusals { patterns: fresh(sources), excluded: 0 }).asked_all(paths);
            after.patterns.len() == sources.len() && after.excluded >= 0 && forall|i: int|
                0 <= i < sources.len() ==> (#[trigger] after.patterns[i]).source == sources[i]
                    && after.patterns[i].segments == pattern_segments(sources[i])
                    && after.patterns[i].hits >= 0 && (after.patterns[i].hits == 0 <==> matches_none(
                    sources[i],
                    paths,
                ))
        }),
    decreases paths.len(),
{
    let start = Refusals { patterns: fresh(sources), excluded: 0 };
    let after = start.asked_all(paths);
    if paths.len() > 0 {
        let shorter = paths.drop_last();
        let before = start.asked_all(shorter);
        lemma_asked_all(sources, shorter);
        assert forall|i: int| 0 <= i < sources.len() implies (#[trigger] after.patterns[i]).source
            == sources[i] && after.patterns[i].segments == pattern_segments(sources[i])
            && after.patterns[i].hits >= 0 && (after.patterns[i].hits == 0 <==> matches_none(
            sources[i],
            paths,
        )) by {
            assert(before.patterns[i].source == sources[i]);
            if matches_none(sources[i], shorter) && !glob(
                pattern_segments(sources[i]),
                paths.last(),
            ) {
                assert forall|k: int| 0 <= k < paths.len() implies !glob(
                    pattern_segments(sources[i]),
                    #[trigger] paths[k],
                ) by {
                    if k < shorter.len() {
                        assert(shorter[k] == paths[k]);
                    }
                }
            }
            if matches_none(sources[i], paths) {
                assert(paths[paths.len() - 1] == paths.last());
                assert forall|k: int| 0 <= k < shorter.len() implies !glob(
                    pattern_segments(sources[i]),
                    #[trigger] shorter[k],
                ) by {
                    assert(shorter[k] == paths[k]);
                }
            }
        }
    }
}

proof fn lemma_never_hit_is_a_filter(patterns: Seq<Glob>, paths: Seq<Seq<Seq<char>>>)
    requires
        forall|i: int|
            0 <= i < patterns.len() ==> ((#[trigger] patterns[i]).hits == 0 <==> matches_none(
                patterns[i].source,
                paths,
            )),
    ensures
        never_hit(patterns) == patterns.map_values(|pattern: Glob| pattern.source).filter(
            |source: Seq<char>| matches_none(source, paths),
        ),
    decreases patterns.len(),
{
    reveal(Seq::filter);
    let sources = patterns.map_values(|pattern: Glob| pattern.source);
    if patterns.len() > 0 {
        let shorter = patterns.drop_last();
        assert forall|i: int| 0 <= i < shorter.len() implies ((#[trigger] shorter[i]).hits == 0
            <==> matches_none(shorter[i].source, paths)) by {
            assert(shorter[i] == patterns[i]);
        }
        lemma_never_hit_is_a_filter(shorter, paths);
        assert(sources.drop_last() =~= shorter.map_values(|pattern: Glob| pattern.source));
        assert(patterns[patterns.len() - 1] == patterns.last());
    }
}

/// A pattern is reported as unused exactly when it matched no path that was asked
/// about, whichever other patterns did, and the reported ones keep their order.
pub proof fn law_an_unused_pattern_matched_no_path(
    sources: Seq<Seq<char>>,
    paths: Seq<Seq<Seq<char>>>,
)
    ensures
        (Refusals { patterns: fresh(sources), excluded: 0 }).asked_all(paths).unused()
            == sources.filter(|source: Seq<char>| matches_none(source, paths)),
{
    let after = (Refusals { patterns: fresh(sources), excluded: 0 }).asked_all(paths);
    lemma_asked_all(sources, paths);
    lemma_never_hit_is_a_filter(after.patterns, paths);
    assert(after.patterns.map_values(|pattern: Glob| pattern.source) =~= sources);
}

/// A path that was asked about counts as excluded once, however many patterns it
/// matches, and not at all when it matches none.
pub proof fn law_an_excluded_path_counts_once(refusals: Refusals, path: Seq<Seq<char>>)
    requires
        0 <= refusals.excluded < usize::MAX,
    ensures
        refusals.asked(path).excluded == refusals.excluded + if refused(refusals.patterns, path) {
            1int
        } else {
            0
        },
{
}

/// Whether a segment of a pattern stands for itself.
pub open spec fn is_literal(segment: Seq<char>) -> bool {
    forall|i: int| 0 <= i < segment.len() ==> segment[i] != '*'
}

proof fn lemma_literal(pattern: Seq<char>, name: Seq<char>)
    requires
        is_literal(pattern),
    ensures
        segment(pattern, name) <==> pattern == name,
        pattern != "**"@,
{
    reveal_strlit("**");
    text::lemma_found(pattern, seq!['*'], 0);
    match text::found(pattern, seq!['*'], 0) {
        Some(at) => {
            assert(text::occurs_at(pattern, seq!['*'], at));
            assert(pattern.subrange(at, at + 1)[0] == pattern[at]);
            assert(seq!['*'][0] == '*');
        },
        None => {},
    }
    if pattern == "**"@ {
        assert(pattern[0] == '*');
    }
}

/// A pattern without stars matches its own path and no other.
pub proof fn law_a_literal_pattern_matches_exactly_itself(
    pattern: Seq<Seq<char>>,
    path: Seq<Seq<char>>,
)
    requires
        forall|k: int| 0 <= k < pattern.len() ==> is_literal(#[trigger] pattern[k]),
    ensures
        glob(pattern, path) <==> pattern == path,
    decreases pattern.len(),
{
    if pattern.len() == 0 {
        assert(path.len() == 0 ==> pattern =~= path);
    } else {
        let rest = pattern.drop_first();
        assert(is_literal(pattern[0]));
        assert forall|k: int| 0 <= k < rest.len() implies is_literal(#[trigger] rest[k]) by {
            assert(is_literal(pattern[k + 1]));
        }
        if path.len() > 0 {
            lemma_literal(pattern[0], path[0]);
            law_a_literal_pattern_matches_exactly_itself(rest, path.drop_first());
            if rest == path.drop_first() && pattern[0] == path[0] {
                assert(pattern =~= seq![pattern[0]] + rest);
                assert(path =~= seq![path[0]] + path.drop_first());
            }
        } else {
            lemma_literal(pattern[0], pattern[0]);
        }
    }
}

proof fn lemma_any_rest(path: Seq<Seq<char>>)
    ensures
        glob(seq!["**"@], path),
{
    let end = path.len() as int;
    assert(seq!["**"@].drop_first() =~= Seq::<Seq<char>>::empty());
    assert(glob(seq!["**"@].drop_first(), path.subrange(end, path.len() as int)));
}

/// `**/name/**` matches every path with a segment of that name, the directory
/// itself among them, and no other path.
pub proof fn law_a_name_between_double_stars_matches_wherever_it_stands(
    name: Seq<char>,
    path: Seq<Seq<char>>,
)
    requires
        is_literal(name),
    ensures
        glob(seq!["**"@, name, "**"@], path) <==> path.contains(name),
{
    let pattern = seq!["**"@, name, "**"@];
    let rest = pattern.drop_first();
    assert(rest =~= seq![name, "**"@]);
    assert(rest.drop_first() =~= seq!["**"@]);
    lemma_literal(name, name);
    if path.contains(name) {
        let at = choose|at: int| 0 <= at < path.len() && path[at] == name;
        let tail = path.subrange(at, path.len() as int);
        assert(tail[0] == name);
        lemma_any_rest(tail.drop_first());
        assert(glob(rest, tail));
        assert(glob(pattern.drop_first(), path.subrange(at, path.len() as int)));
    }
    if glob(pattern, path) {
        let taken = choose|taken: int|
            0 <= taken <= path.len() && glob(
                pattern.drop_first(),
                #[trigger] path.subrange(taken, path.len() as int),
            );
        let tail = path.subrange(taken, path.len() as int);
        lemma_literal(name, tail[0]);
        assert(path[taken] == name);
    }
}

/// Backslashes and a leading `./`, however often it stands there, do not change
/// which patterns a path matches.
pub proof fn law_one_path_has_one_form(path: Seq<char>)
    ensures
        path_segments(mutate::forward_slashed(path)) == path_segments(path),
        path_segments("./"@ + path) == path_segments(path),
        path_segments(".\\"@ + path) == path_segments(path),
{
    let slashed = mutate::forward_slashed(path);
    assert(mutate::forward_slashed(slashed) =~= slashed);
    mutate::law_a_report_path_has_one_form(path);
}

/// Backslashes do not change what a pattern matches.
pub proof fn law_one_pattern_has_one_form(source: Seq<char>)
    ensures
        pattern_segments(mutate::forward_slashed(source)) == pattern_segments(source),
{
    assert(mutate::forward_slashed(mutate::forward_slashed(source))
        =~= mutate::forward_slashed(source));
}

/// Whether no path comes before one that stands in front of it.
pub open spec fn is_in_path_order(list: Seq<Trail>) -> bool {
    forall|i: int, j: int|
        0 <= i < j < list.len() ==> !paths::path_before(
            (#[trigger] list[j]).steps,
            (#[trigger] list[i]).steps,
        )
}

proof fn lemma_with_path_is_ordered(list: Seq<Trail>, path: Trail)
    requires
        is_in_path_order(list),
    ensures
        is_in_path_order(with_path(list, path)),
        with_path(list, path).len() == list.len() + 1,
        with_path(list, path).last() == path || (list.len() > 0 && with_path(list, path).last()
            == list.last()),
    decreases list.len(),
{
    let out = with_path(list, path);
    if list.len() == 0 || !paths::path_before(path.steps, list.last().steps) {
        assert forall|i: int, j: int| 0 <= i < j < out.len() implies !paths::path_before(
            (#[trigger] out[j]).steps,
            (#[trigger] out[i]).steps,
        ) by {
            if j == out.len() - 1 && i < list.len() - 1 {
                assert(!paths::path_before(list[list.len() - 1].steps, list[i].steps));
                paths::lemma_path_not_before(list[i].steps, list.last().steps, path.steps);
            }
        }
    } else {
        let shorter = list.drop_last();
        lemma_with_path_is_ordered(shorter, path);
        let inside = with_path(shorter, path);
        paths::lemma_path_order(path.steps, list.last().steps);
        assert(!paths::path_before(list.last().steps, inside.last().steps)) by {
            if shorter.len() > 0 {
                assert(shorter.last() == list[list.len() - 2]);
                assert(!paths::path_before(
                    list[list.len() - 1].steps,
                    list[list.len() - 2].steps,
                ));
            }
        }
        assert forall|i: int, j: int| 0 <= i < j < out.len() implies !paths::path_before(
            (#[trigger] out[j]).steps,
            (#[trigger] out[i]).steps,
        ) by {
            if j < out.len() - 1 {
                assert(!paths::path_before(inside[j].steps, inside[i].steps));
            } else if i < inside.len() - 1 {
                assert(!paths::path_before(inside[inside.len() - 1].steps, inside[i].steps));
                paths::lemma_path_not_before(
                    inside[i].steps,
                    inside.last().steps,
                    list.last().steps,
                );
            }
        }
    }
}

/// Putting files in order leaves them in order, loses none and repeats none.
pub proof fn law_ordering_files_keeps_every_file(list: Seq<Trail>)
    ensures
        is_in_path_order(in_path_order(list)),
        in_path_order(list).to_multiset() == list.to_multiset(),
    decreases list.len(),
{
    broadcast use vstd::seq_lib::group_to_multiset_ensures;

    if list.len() > 0 {
        law_ordering_files_keeps_every_file(list.drop_last());
        lemma_with_path_keeps(in_path_order(list.drop_last()), list.last());
        lemma_with_path_is_ordered(in_path_order(list.drop_last()), list.last());
        assert(list =~= list.drop_last().push(list.last()));
    }
}

proof fn lemma_with_path_keeps(list: Seq<Trail>, path: Trail)
    ensures
        with_path(list, path).to_multiset() == list.to_multiset().insert(path),
    decreases list.len(),
{
    broadcast use vstd::seq_lib::group_to_multiset_ensures;

    if list.len() > 0 && paths::path_before(path.steps, list.last().steps) {
        lemma_with_path_keeps(list.drop_last(), path);
        assert(list =~= list.drop_last().push(list.last()));
        assert(with_path(list, path).to_multiset() =~= list.to_multiset().insert(path));
    }
}

proof fn lemma_segment_without_star(pattern: Seq<char>, name: Seq<char>)
    requires
        !pattern.contains('*'),
    ensures
        segment(pattern, name) <==> pattern == name,
{
    text::law_a_text_is_cut_at_its_first_separator(pattern, '*');
}

/// A star stands for any characters: a name matches when it begins with what
/// stands in front of the star and ends with what stands behind it, and has room
/// for both.
pub proof fn law_a_star_stands_for_any_characters(
    front: Seq<char>,
    back: Seq<char>,
    name: Seq<char>,
)
    requires
        !front.contains('*'),
        !back.contains('*'),
    ensures
        segment(front + seq!['*'] + back, name) <==> name.len() >= front.len() + back.len()
            && name.subrange(0, front.len() as int) == front && name.subrange(
            name.len() - back.len(),
            name.len() as int,
        ) == back,
{
    let pattern = front + seq!['*'] + back;
    text::law_cutting_undoes_joining(front, '*', back);
    lemma_halves_are_shorter(pattern, '*');
    assert forall|tail: Seq<char>| #[trigger] segment(back, tail) <==> back == tail by {
        lemma_segment_without_star(back, tail);
    }
    if segment(pattern, name) {
        let at = choose|at: int|
            front.len() <= at <= name.len() && segment(
                back,
                #[trigger] name.subrange(at, name.len() as int),
            );
        assert(name.subrange(at, name.len() as int) == back);
        assert(at == name.len() - back.len());
    }
    if name.len() >= front.len() + back.len() && name.subrange(0, front.len() as int) == front
        && name.subrange(name.len() - back.len(), name.len() as int) == back {
        let at = name.len() - back.len();
        assert(segment(back, name.subrange(at, name.len() as int)));
    }
}

/// A single star never crosses a slash, and a double one crosses any number of
/// them.
pub proof fn law_only_a_double_star_crosses_a_slash(
    pattern: Seq<char>,
    path: Seq<Seq<char>>,
)
    ensures
        pattern != "**"@ ==> (glob(seq![pattern], path) <==> path.len() == 1 && segment(
            pattern,
            path[0],
        )),
        glob(seq!["**"@], path),
        glob(Seq::empty(), path) <==> path.len() == 0,
{
    let one = seq![pattern];
    assert(one.drop_first() =~= Seq::<Seq<char>>::empty());
    assert(one[0] == pattern);
    if path.len() > 0 {
        let rest = path.drop_first();
        assert(glob(one.drop_first(), rest) <==> rest.len() == 0);
        assert(pattern != "**"@ ==> (glob(one, path) <==> segment(pattern, path[0]) && glob(
            one.drop_first(),
            rest,
        )));
    }
    let many = seq!["**"@];
    assert(many.drop_first() =~= Seq::<Seq<char>>::empty());
    assert(glob(many.drop_first(), path.subrange(path.len() as int, path.len() as int)));
}

/// A file is planted in exactly when it is Python and no test: its name ends in
/// `.py`, and neither starts with `test_` nor ends in `_test.py` nor is the name
/// of the shared fixtures.
pub proof fn law_only_python_that_is_no_test_is_planted_in(path: Seq<Step>, stem: Seq<char>)
    requires
        paths::file_name(path) == Some(stem + ".py"@),
    ensures
        is_target(path) <==> !text::begins(stem + ".py"@, "test_"@) && !text::ends(stem, "_test"@)
            && stem != "conftest"@,
{
    reveal_strlit(".py");
    reveal_strlit("test_");
    reveal_strlit("_test");
    reveal_strlit("_test.py");
    reveal_strlit("conftest");
    reveal_strlit("conftest.py");
    let name = stem + ".py"@;
    assert(name.subrange(name.len() - 3, name.len() as int) =~= ".py"@);
    assert("_test.py"@ =~= "_test"@ + ".py"@);
    assert("conftest.py"@ =~= "conftest"@ + ".py"@);
    if text::ends(name, "_test.py"@) {
        let end = name.subrange(name.len() - 8, name.len() as int);
        assert(stem.subrange(stem.len() - 5, stem.len() as int) =~= end.subrange(0, 5));
        assert(end.subrange(0, 5) =~= "_test"@);
    }
    if text::ends(stem, "_test"@) {
        assert(name.subrange(name.len() - 8, name.len() as int) =~= stem.subrange(
            stem.len() - 5,
            stem.len() as int,
        ) + ".py"@);
    }
    if name == "conftest.py"@ {
        assert(stem =~= name.subrange(0, name.len() - 3));
        assert(name.subrange(0, name.len() - 3) =~= "conftest"@);
    }
}

/// What does not end in `.py` is never planted in.
pub proof fn law_only_python_is_planted_in(path: Seq<Step>, name: Seq<char>)
    requires
        paths::file_name(path) == Some(name),
        !text::ends(name, ".py"@),
    ensures
        !is_target(path),
{
}

/// The search stays out of the directories of tools, of environments and of
/// tests, and goes into every other one.
pub proof fn law_only_these_directories_are_skipped(dir: Seq<Step>, name: Seq<char>)
    requires
        paths::file_name(dir) == Some(name),
    ensures
        skipped(dir) <==> name == ".git"@ || name == ".angelo"@ || name == ".pytest_cache"@ || name
            == ".venv"@ || name == "venv"@ || name == "__pycache__"@ || name == "node_modules"@
            || name == "target"@ || name == "tests"@,
{
    let all = junk();
    assert(all[0] == ".git"@ && all[1] == ".angelo"@ && all[2] == ".pytest_cache"@ && all[3]
        == ".venv"@ && all[4] == "venv"@ && all[5] == "__pycache__"@ && all[6] == "node_modules"@
        && all[7] == "target"@);
    assert(all.len() == 8);
}

/// A path is refused exactly when some pattern matches it, counts once however
/// many do, and every pattern that matches it has fired once more.
pub proof fn law_every_matching_pattern_fires(refusals: Refusals, path: Seq<Seq<char>>, k: int)
    requires
        0 <= k < refusals.patterns.len(),
        refusals.patterns[k].hits < usize::MAX,
        refusals.excluded < usize::MAX,
    ensures
        ({
            let now = refusals.asked(path);
            let pattern = refusals.patterns[k];
            &&& now.patterns.len() == refusals.patterns.len()
            &&& now.patterns[k].source == pattern.source
            &&& now.patterns[k].segments == pattern.segments
            &&& now.patterns[k].hits == pattern.hits + (if glob(pattern.segments, path) {
                1int
            } else {
                0
            })
            &&& glob(pattern.segments, path) ==> now.excluded == refusals.excluded + 1
            &&& (forall|j: int|
                0 <= j < refusals.patterns.len() ==> !glob(
                    (#[trigger] refusals.patterns[j]).segments,
                    path,
                )) ==> now.excluded == refusals.excluded
        }),
{
    if glob(refusals.patterns[k].segments, path) {
        assert(refused(refusals.patterns, path));
    }
}

/// The patterns that matched nothing are named as they were written, in order.
pub proof fn law_unused_patterns_are_those_that_never_fired(refusals: Refusals)
    ensures
        refusals.unused() == refusals.patterns.filter(|pattern: Glob| pattern.hits == 0).map_values(
            |pattern: Glob| pattern.source,
        ),
{
    lemma_never_hit(refusals.patterns);
}

proof fn lemma_never_hit(patterns: Seq<Glob>)
    ensures
        never_hit(patterns) == patterns.filter(|pattern: Glob| pattern.hits == 0).map_values(
            |pattern: Glob| pattern.source,
        ),
    decreases patterns.len(),
{
    reveal(Seq::filter);
    let idle = |pattern: Glob| pattern.hits == 0;
    let source = |pattern: Glob| pattern.source;
    if patterns.len() > 0 {
        lemma_never_hit(patterns.drop_last());
        let before = patterns.drop_last().filter(idle);
        if idle(patterns.last()) {
            assert(patterns.filter(idle) == before.push(patterns.last()));
            assert(before.push(patterns.last()).map_values(source) =~= before.map_values(
                source,
            ).push(patterns.last().source));
        }
    } else {
        assert(patterns.filter(idle).map_values(source) =~= Seq::<Seq<char>>::empty());
    }
}

/// What is said of the paths that were turned away holds their number, and
/// nothing is said of none.
pub proof fn law_excluded_paths_are_counted_out_loud(excluded: int)
    requires
        excluded >= 0,
    ensures
        excluded == 0 <==> note_on(excluded).len() == 0,
        excluded > 1 ==> note_on(excluded) == " ("@ + text::decimal(excluded as nat)
            + " paths excluded by angelo.conf)"@,
        note_on(1) == " (1 path excluded by angelo.conf)"@,
{
    reveal_strlit(" (1 path excluded by angelo.conf)");
    text::law_decimal_digits(excluded as nat);
}

/// What a project that says nothing gets: pytest through the python on the path,
/// a worker per core, batches of eight, covering tests only, warm workers that
/// live for fifty runs, schemata, the whole pool, and no report files. Its `src`
/// directory is mutated when it has one, and everything otherwise.
pub proof fn law_a_project_that_says_nothing(has_src: bool, config: Config)
    requires
        call_ensures(Config::detect, (has_src,), config),
    ensures
        config.test_command@ == "python -m pytest"@,
        config.workers == 0,
        config.batch_size == 8,
        config.test_selection && config.warm_workers && config.schemata,
        config.warm_recycle_after == 50,
        config.sample == 0,
        config.exclude@.len() == 0,
        config.report@.len() == 0 && config.html_report@.len() == 0 && config.sonar_report@.len()
            == 0,
        text::texts(config.operators@) == mutate::usual_families(),
        text::texts(config.arid@) == mutate::usual_arid(),
        has_src ==> text::texts(config.paths@) == seq!["src"@],
        !has_src ==> text::texts(config.paths@) == seq!["."@],
{
}

/// The number of workers comes from the command line, else from the file, and a
/// zero in either means one per core.
pub proof fn law_the_command_line_decides_the_workers(
    config: Config,
    asked: usize,
    available: usize,
    count: usize,
)
    ensures
        asked > 0 && call_ensures(
            Config::effective_workers,
            (&config, Some(asked), available),
            count,
        ) ==> count == asked,
        call_ensures(Config::effective_workers, (&config, Some(0), available), count) ==> count
            == available,
        config.workers > 0 && call_ensures(
            Config::effective_workers,
            (&config, None, available),
            count,
        ) ==> count == config.workers,
        config.workers == 0 && call_ensures(
            Config::effective_workers,
            (&config, None, available),
            count,
        ) ==> count == available,
{
}

/// A configuration that exists is only overwritten by force.
pub proof fn law_only_force_overwrites(present: bool, force: bool, why: Option<String>)
    requires
        call_ensures(refuses_to_overwrite, (present, force), why),
    ensures
        why.is_none() <==> !present || force,
{
}

} // verus!

//! Paths, read the way the platform reads them: what separates two names on one
//! is part of a name on another.

use std::path::{Component, Path};

use vstd::prelude::*;

use crate::names;
use crate::text;

verus! {

broadcast use vstd::seq_lib::group_seq_properties;

/// One part of a path.
#[derive(Clone, Debug, PartialEq, Eq)]
pub enum Part {
    /// A drive or a share.
    Prefix(String),
    Root,
    Current,
    Parent,
    Named(String),
}

/// A part as a plain value.
#[verifier::ext_equal]
pub enum Step {
    Prefix(Seq<char>),
    Root,
    Current,
    Parent,
    Named(Seq<char>),
}

impl View for Part {
    type V = Step;

    open spec fn view(&self) -> Step {
        match self {
            Part::Prefix(prefix) => Step::Prefix(prefix@),
            Part::Root => Step::Root,
            Part::Current => Step::Current,
            Part::Parent => Step::Parent,
            Part::Named(name) => Step::Named(name@),
        }
    }
}

/// The parts of a list as plain values.
pub open spec fn steps(list: Seq<Part>) -> Seq<Step> {
    list.map_values(|part: Part| part@)
}

/// A path: how it is spelt, and the parts it has.
#[derive(Clone, Debug, PartialEq, Eq)]
pub struct FilePath {
    pub text: String,
    pub parts: Vec<Part>,
}

/// A path as plain values.
#[verifier::ext_equal]
pub struct Trail {
    pub text: Seq<char>,
    pub steps: Seq<Step>,
}

impl View for FilePath {
    type V = Trail;

    open spec fn view(&self) -> Trail {
        Trail { text: self.text@, steps: steps(self.parts@) }
    }
}

/// The paths of a list as plain values.
pub open spec fn trails(list: Seq<FilePath>) -> Seq<Trail> {
    list.map_values(|path: FilePath| path@)
}

/// Whether every platform reads a path the same way: it has no backslash and no
/// drive, and does not begin like the name of a share.
pub open spec fn is_portable(path: Seq<char>) -> bool {
    !path.contains('\\') && !path.contains(':') && !text::begins(path, "//"@)
}

/// What a piece between two slashes adds to a path.
pub open spec fn piece_steps(piece: Seq<char>) -> Seq<Step> {
    if piece.len() == 0 || piece == "."@ {
        Seq::empty()
    } else if piece == ".."@ {
        seq![Step::Parent]
    } else {
        seq![Step::Named(piece)]
    }
}

/// What the pieces between slashes add to a path.
pub open spec fn pieces_steps(pieces: Seq<Seq<char>>) -> Seq<Step>
    decreases pieces.len(),
{
    if pieces.len() == 0 {
        Seq::empty()
    } else {
        pieces_steps(pieces.drop_last()) + piece_steps(pieces.last())
    }
}

/// The parts of a path with forward slashes. Slashes side by side count as one,
/// one at the end counts for nothing, and neither does a `.` behind the start.
pub open spec fn portable_steps(path: Seq<char>) -> Seq<Step> {
    let pieces = text::split_on(path, '/');
    let start = if text::begins(path, "/"@) {
        seq![Step::Root]
    } else if pieces[0] == "."@ {
        seq![Step::Current]
    } else {
        Seq::empty()
    };
    start + pieces_steps(pieces)
}

/// `std::path::Path::components`: the parts of a path on this platform. A path
/// that every platform reads the same way has the parts between its slashes,
/// with the root or a `.` in front where it starts with one. What parts another
/// path has is left to the platform.
#[verifier::external_body]
fn components(path: &str) -> (parts: Vec<Part>)
    ensures
        is_portable(path@) ==> steps(parts@) == portable_steps(path@),
{
    let part = |part: Component| match part {
        Component::Prefix(prefix) => Part::Prefix(prefix.as_os_str().to_string_lossy().into_owned()),
        Component::RootDir => Part::Root,
        Component::CurDir => Part::Current,
        Component::ParentDir => Part::Parent,
        Component::Normal(name) => Part::Named(name.to_string_lossy().into_owned()),
    };
    Path::new(path).components().map(part).collect()
}

/// The name at the end of a path, if it ends in one.
pub open spec fn file_name(path: Seq<Step>) -> Option<Seq<char>> {
    if path.len() > 0 {
        match path.last() {
            Step::Named(name) => Some(name),
            _ => None,
        }
    } else {
        None
    }
}

/// Where a part stands among parts of other kinds.
pub open spec fn rank(step: Step) -> int {
    match step {
        Step::Prefix(_) => 0,
        Step::Root => 1,
        Step::Current => 2,
        Step::Parent => 3,
        Step::Named(_) => 4,
    }
}

/// What a part is told from others of its kind by.
pub open spec fn label(step: Step) -> Seq<char> {
    match step {
        Step::Prefix(prefix) => prefix,
        Step::Named(name) => name,
        _ => Seq::empty(),
    }
}

pub open spec fn step_before(a: Step, b: Step) -> bool {
    rank(a) < rank(b) || (rank(a) == rank(b) && text::before(label(a), label(b)))
}

/// Whether a path comes before another: at the first part where they differ, or
/// because it ends first. So the files of a directory stay together.
pub open spec fn path_before(a: Seq<Step>, b: Seq<Step>) -> bool
    decreases a.len(),
{
    if b.len() == 0 {
        false
    } else if a.len() == 0 {
        true
    } else if a[0] != b[0] {
        step_before(a[0], b[0])
    } else {
        path_before(a.drop_first(), b.drop_first())
    }
}

fn rank_of(part: &Part) -> (rank: u8)
    ensures
        rank as int == self::rank(part@),
{
    match part {
        Part::Prefix(_) => 0,
        Part::Root => 1,
        Part::Current => 2,
        Part::Parent => 3,
        Part::Named(_) => 4,
    }
}

fn label_of(part: &Part) -> (label: &str)
    ensures
        label@ == self::label(part@),
{
    match part {
        Part::Prefix(prefix) => prefix.as_str(),
        Part::Named(name) => name.as_str(),
        _ => {
            proof {
                reveal_strlit("");
            }
            assert(""@ =~= Seq::<char>::empty());
            ""
        },
    }
}

impl FilePath {
    /// A path by its spelling.
    pub fn new(text: &str) -> (path: FilePath)
        ensures
            path@.text == text@,
            is_portable(text@) ==> path@.steps == portable_steps(text@),
    {
        FilePath { text: text::owned(text), parts: components(text) }
    }

    /// The name at the end of the path, if it ends in one.
    pub fn name(&self) -> (name: Option<&str>)
        ensures
            name.is_some() == file_name(self@.steps).is_some(),
            name matches Some(name) ==> Some(name@) == file_name(self@.steps),
    {
        if self.parts.len() == 0 {
            return None;
        }
        assert(self@.steps.last() == self.parts@[self.parts@.len() - 1]@);
        match &self.parts[self.parts.len() - 1] {
            Part::Named(name) => Some(name.as_str()),
            _ => None,
        }
    }

    pub fn comes_before(&self, other: &FilePath) -> (yes: bool)
        ensures
            yes == path_before(self@.steps, other@.steps),
    {
        let ghost a = self@.steps;
        let ghost b = other@.steps;
        let mut at: usize = 0;
        assert(a.subrange(0, a.len() as int) =~= a);
        assert(b.subrange(0, b.len() as int) =~= b);
        while at < self.parts.len() && at < other.parts.len()
            invariant
                at <= self.parts@.len(),
                at <= other.parts@.len(),
                a == steps(self.parts@),
                b == steps(other.parts@),
                path_before(a, b) == path_before(
                    a.subrange(at as int, a.len() as int),
                    b.subrange(at as int, b.len() as int),
                ),
            decreases self.parts@.len() - at,
        {
            let left: &Part = &self.parts[at];
            let right: &Part = &other.parts[at];
            let ghost here = a.subrange(at as int, a.len() as int);
            let ghost there = b.subrange(at as int, b.len() as int);
            assert(here[0] == left@ && there[0] == right@);
            assert(here.drop_first() =~= a.subrange(at + 1, a.len() as int));
            assert(there.drop_first() =~= b.subrange(at + 1, b.len() as int));
            let mine: u8 = rank_of(left);
            let its: u8 = rank_of(right);
            if mine != its {
                return mine < its;
            }
            if !text::same(label_of(left), label_of(right)) {
                return text::comes_before(label_of(left), label_of(right));
            }
            at += 1;
        }
        at < other.parts.len()
    }

    pub(crate) fn copied(&self) -> (path: FilePath)
        ensures
            path@ == self@,
    {
        let mut parts: Vec<Part> = Vec::new();
        while parts.len() < self.parts.len()
            invariant
                parts@.len() <= self.parts@.len(),
                forall|k: int| 0 <= k < parts@.len() ==> #[trigger] parts@[k]@ == self.parts@[k]@,
            decreases self.parts@.len() - parts@.len(),
        {
            let part: Part = match &self.parts[parts.len()] {
                Part::Prefix(prefix) => Part::Prefix(prefix.clone()),
                Part::Root => Part::Root,
                Part::Current => Part::Current,
                Part::Parent => Part::Parent,
                Part::Named(name) => Part::Named(name.clone()),
            };
            parts.push(part);
        }
        assert(steps(parts@) =~= steps(self.parts@));
        FilePath { text: self.text.clone(), parts }
    }
}

proof fn lemma_step_order(a: Step, b: Step)
    ensures
        a == b ==> !step_before(a, b),
        a != b ==> step_before(a, b) != step_before(b, a),
{
    text::lemma_before_is_an_order(label(a), label(b));
}

proof fn lemma_step_transitive(a: Step, b: Step, c: Step)
    requires
        step_before(a, b),
        step_before(b, c),
    ensures
        step_before(a, c),
{
    if rank(a) == rank(b) && rank(b) == rank(c) {
        names::lemma_before_is_transitive(label(a), label(b), label(c));
    }
}

/// No path comes before itself, and of two different paths exactly one comes
/// before the other.
pub proof fn lemma_path_order(a: Seq<Step>, b: Seq<Step>)
    ensures
        a == b ==> !path_before(a, b),
        a != b ==> path_before(a, b) != path_before(b, a),
    decreases a.len(),
{
    if a.len() > 0 && b.len() > 0 {
        lemma_step_order(a[0], b[0]);
        lemma_path_order(a.drop_first(), b.drop_first());
        if a[0] == b[0] && a.drop_first() == b.drop_first() {
            assert(a =~= seq![a[0]] + a.drop_first());
            assert(b =~= seq![b[0]] + b.drop_first());
        }
    } else if a.len() == 0 && b.len() == 0 {
        assert(a =~= b);
    }
}

proof fn lemma_path_transitive(a: Seq<Step>, b: Seq<Step>, c: Seq<Step>)
    requires
        path_before(a, b),
        path_before(b, c),
    ensures
        path_before(a, c),
    decreases a.len(),
{
    if a.len() > 0 {
        if a[0] == b[0] && b[0] == c[0] {
            lemma_path_transitive(a.drop_first(), b.drop_first(), c.drop_first());
        } else if a[0] != b[0] && b[0] != c[0] {
            lemma_step_transitive(a[0], b[0], c[0]);
            lemma_step_order(a[0], c[0]);
        }
    }
}

/// Of three paths, when the second does not come before the first, nor the third
/// before the second, the third does not come before the first.
pub proof fn lemma_path_not_before(a: Seq<Step>, b: Seq<Step>, c: Seq<Step>)
    requires
        !path_before(b, a),
        !path_before(c, b),
    ensures
        !path_before(c, a),
{
    if path_before(c, a) {
        lemma_path_order(a, b);
        if a != b {
            lemma_path_transitive(c, a, b);
        }
    }
}

/// The order of paths: the first part that differs decides, and a path comes
/// before everything under it.
pub proof fn law_the_first_difference_orders_paths(
    shared: Seq<Step>,
    a: Step,
    b: Step,
    behind: Seq<Step>,
    after: Seq<Step>,
)
    ensures
        a != b ==> (path_before(shared + seq![a] + behind, shared + seq![b] + after)
            <==> step_before(a, b)),
        path_before(shared, shared + seq![a] + behind),
        !path_before(shared + seq![a] + behind, shared),
        !path_before(shared, shared),
    decreases shared.len(),
{
    let one = shared + seq![a] + behind;
    let other = shared + seq![b] + after;
    if shared.len() == 0 {
        assert(one[0] == a && other[0] == b);
    } else {
        let rest = shared.drop_first();
        law_the_first_difference_orders_paths(rest, a, b, behind, after);
        assert(one.drop_first() =~= rest + seq![a] + behind);
        assert(other.drop_first() =~= rest + seq![b] + after);
        assert(one[0] == shared[0] && other[0] == shared[0]);
    }
}

/// Names are ordered by their characters, and stand behind every other kind of
/// part: a drive, the root, the directory itself and the one above it.
pub proof fn law_names_come_behind_the_other_parts(
    prefix: Seq<char>,
    name: Seq<char>,
    other: Seq<char>,
)
    ensures
        step_before(Step::Named(name), Step::Named(other)) <==> text::before(name, other),
        step_before(Step::Prefix(prefix), Step::Root),
        step_before(Step::Root, Step::Current),
        step_before(Step::Current, Step::Parent),
        step_before(Step::Parent, Step::Named(name)),
        !step_before(Step::Named(name), Step::Parent),
        !step_before(Step::Parent, Step::Current),
        !step_before(Step::Current, Step::Root),
        !step_before(Step::Root, Step::Prefix(prefix)),
{
}

proof fn lemma_named_pieces(names: Seq<Seq<char>>)
    requires
        forall|k: int|
            0 <= k < names.len() ==> (#[trigger] names[k]).len() > 0 && names[k] != "."@ && names[k]
                != ".."@,
    ensures
        pieces_steps(names) == names.map_values(|name: Seq<char>| Step::Named(name)),
    decreases names.len(),
{
    let named = |name: Seq<char>| Step::Named(name);
    if names.len() > 0 {
        let fewer = names.drop_last();
        assert forall|k: int| 0 <= k < fewer.len() implies (#[trigger] fewer[k]).len() > 0
            && fewer[k] != "."@ && fewer[k] != ".."@ by {
            assert(fewer[k] == names[k]);
        }
        lemma_named_pieces(fewer);
        assert(names[names.len() - 1] == names.last());
        assert(pieces_steps(names) =~= names.map_values(named));
    } else {
        assert(pieces_steps(names) =~= names.map_values(named));
    }
}

/// The names between the slashes of a path are its parts, in order, and the last
/// of them is its file name.
pub proof fn law_the_names_between_slashes_are_the_parts(names: Seq<Seq<char>>)
    requires
        names.len() > 0,
        forall|k: int|
            0 <= k < names.len() ==> (#[trigger] names[k]).len() > 0 && names[k] != "."@ && names[k]
                != ".."@ && !names[k].contains('/'),
    ensures
        portable_steps(text::joined(names, seq!['/'])) == names.map_values(
            |name: Seq<char>| Step::Named(name),
        ),
        file_name(portable_steps(text::joined(names, seq!['/']))) == Some(names.last()),
{
    let path = text::joined(names, seq!['/']);
    text::law_splitting_undoes_joining(names, '/');
    lemma_named_pieces(names);
    reveal_strlit("/");
    assert(!text::begins(path, "/"@)) by {
        if text::begins(path, "/"@) {
            assert(path.subrange(0, 1)[0] == '/');
            assert(path[0] == '/');
            if names.len() > 1 {
                text::lemma_joined_from_front(names, seq!['/']);
            }
            assert(path[0] == names[0][0]);
            assert(names[0].contains('/'));
        }
    }
    assert(names[0] != "."@);
    let named = names.map_values(|name: Seq<char>| Step::Named(name));
    assert(Seq::<Step>::empty() + named =~= named);
    assert(named.last() == Step::Named(names.last()));
}

/// A piece that is empty or a dot adds nothing to a path, and two dots lead up.
pub proof fn law_dots_and_doubled_slashes_name_nothing(pieces: Seq<Seq<char>>)
    ensures
        pieces_steps(pieces.push(Seq::empty())) == pieces_steps(pieces),
        pieces_steps(pieces.push("."@)) == pieces_steps(pieces),
        pieces_steps(pieces.push(".."@)) == pieces_steps(pieces).push(Step::Parent),
{
    reveal_strlit(".");
    reveal_strlit("..");
    assert(pieces.push(Seq::empty()).drop_last() =~= pieces);
    assert(pieces.push("."@).drop_last() =~= pieces);
    assert(pieces.push(".."@).drop_last() =~= pieces);
    assert(".."@ != "."@) by {
        assert(".."@.len() != "."@.len());
    }
    assert(pieces_steps(pieces) + Seq::<Step>::empty() =~= pieces_steps(pieces));
    assert(pieces_steps(pieces) + seq![Step::Parent] =~= pieces_steps(pieces).push(Step::Parent));
}

} // verus!

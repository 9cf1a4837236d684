//! Every mutant of a file compiled into that file at once.
//!
//! Splicing writes one mutant into the source, so the process has to re-import
//! the project to see it. Schemata write them all in at once, each in its own
//! copy of the function it belongs to, and pick one at run time from an
//! environment variable. Nothing is re-imported between mutants, which is the
//! whole saving; on a project with a large import graph it is most of the run.
//!
//! ```python
//! def add__angelo_orig(a, b):
//!     return a + b
//!
//! def add__angelo_7(a, b):
//!     return a - b
//!
//! add__angelo_mutants = {7: add__angelo_7}
//!
//! def add(*a, _angelo_orig=add__angelo_orig, _angelo_mutants=add__angelo_mutants, **kw):
//!     return _angelo_pick(_angelo_orig, _angelo_mutants)(*a, **kw)
//! ```
//!
//! The original and the mutants are copied whole, so a mutant anywhere inside a
//! function works without understanding what it changed: defaults, nested
//! functions and comprehensions all come along as text.
//!
//! Not every mutant fits. Module-level code, class attributes and decorators
//! have no function to copy, and those keep using the splice path, which is
//! always correct and merely slower.

use vstd::prelude::*;
use vstd::utf8::*;

use crate::edits::{self, Change, Edit};
use crate::mutate::{Mutant, Planted};
use crate::sorting;
use crate::syntax::{self, Mark, Place, Token};
use crate::text;

use std::collections::HashMap;

verus! {

broadcast use {
    vstd::seq_lib::group_seq_properties,
    vstd::std_specs::hash::group_hash_axioms,
    vstd::utf8::group_utf8_lib,
};

/// Where the runtime the generated code calls is written, beside it in the
/// worker copy.
pub const RUNTIME_FILE: &'static str = "_angelo_rt.py";

/// Read by the runtime; holds the ids of the mutants that should be live.
pub const ACTIVE_VAR: &'static str = "ANGELO_MUTANTS";

/// The runtime the generated code calls: it picks the copy of a function that
/// the active mutants ask for, and remembers the answer until they change.
pub const RUNTIME: &'static str = r###"import os

_seen = None
_turn = 0
_active = frozenset()


def _angelo_turn():
    global _seen, _turn, _active
    value = os.environ.get("ANGELO_MUTANTS", "")
    if value != _seen:
        _seen = value
        _active = frozenset(int(name) for name in value.split(",") if name)
        _turn += 1
    return _turn


def _angelo_pick(original, mutants, cache):
    turn = _angelo_turn()
    if cache[0] != turn:
        chosen = original
        for name, mutant in mutants.items():
            if name in _active:
                chosen = mutant
        cache[1] = chosen
        cache[0] = turn
    return cache[1]
"###;

/// Which wrapper a function needs. A plain wrapper returns whatever the call
/// returns, which is already right for a coroutine, but then
/// `inspect.iscoroutinefunction` says no and frameworks that branch on it take
/// the wrong path, so async and generator functions get their own shape.
#[derive(Clone, Copy, Debug, PartialEq, Eq, Structural)]
pub enum Shape {
    Plain,
    Async,
    Generator,
}

/// A function that can be copied: defined at module level or straight inside a
/// class, so its copies can sit beside it in the same namespace.
pub struct Function {
    pub name: String,
    pub name_start: usize,
    pub name_end: usize,
    /// Where the replacement starts: the first decorator, or the `def`.
    pub replace_from: usize,
    pub def_start: usize,
    /// The first statement, so the signature is not treated as hostable.
    pub body_start: usize,
    pub end: usize,
    pub indent: String,
    pub shape: Shape,
}

/// A function as plain values.
#[verifier::ext_equal]
pub struct Def {
    pub name: Seq<char>,
    pub name_start: int,
    pub name_end: int,
    pub replace_from: int,
    pub def_start: int,
    pub body_start: int,
    pub end: int,
    pub indent: Seq<char>,
    pub shape: Shape,
}

impl View for Function {
    type V = Def;

    open spec fn view(&self) -> Def {
        Def {
            name: self.name@,
            name_start: self.name_start as int,
            name_end: self.name_end as int,
            replace_from: self.replace_from as int,
            def_start: self.def_start as int,
            body_start: self.body_start as int,
            end: self.end as int,
            indent: self.indent@,
            shape: self.shape,
        }
    }
}

/// The functions of a list as plain values.
pub open spec fn defs(list: Seq<Function>) -> Seq<Def> {
    list.map_values(|function: Function| function@)
}

/// Where the line of an offset starts.
pub open spec fn line_start_of(source: Seq<char>, offset: int) -> Option<int> {
    match text::sliced(source, 0, offset) {
        Some(head) => match text::last_of(head, "\n"@) {
            Some(at) => Some(text::width(head.subrange(0, at + "\n"@.len())) as int),
            None => Some(0),
        },
        None => None,
    }
}

fn line_start(source: &str, offset: usize) -> (start: Option<usize>)
    ensures
        start.is_some() == line_start_of(source@, offset as int).is_some(),
        start.is_some() ==> start.unwrap() as int == line_start_of(
            source@,
            offset as int,
        ).unwrap(),
{
    let head: &str = match text::slice(source, 0, offset) {
        Some(head) => head,
        None => return None,
    };
    let chars: Vec<char> = text::chars_of(head);
    let newline: Vec<char> = text::chars_of("\n");
    let total: usize = chars.len();
    match text::find_last(&chars, &newline) {
        Some(at) => {
            assert(at + newline@.len() <= total);
            let upto: String = text::part_of(&chars, 0, at + newline.len());
            Some(text::byte_len(upto.as_str()))
        },
        None => Some(0),
    }
}

/// Just past the newline that ends the line of an offset.
pub open spec fn line_after_of(source: Seq<char>, offset: int) -> Option<int> {
    match text::sliced(source, offset, text::width(source) as int) {
        Some(tail) => match text::found(tail, "\n"@, 0) {
            Some(at) => Some(offset + text::width(tail.subrange(0, at + "\n"@.len()))),
            None => Some(text::width(source) as int),
        },
        None => None,
    }
}

fn line_after(source: &str, offset: usize) -> (past: Option<usize>)
    ensures
        past.is_some() == line_after_of(source@, offset as int).is_some(),
        past.is_some() ==> past.unwrap() as int == line_after_of(source@, offset as int).unwrap(),
{
    let total: usize = text::byte_len(source);
    let tail: &str = match text::slice(source, offset, total) {
        Some(tail) => tail,
        None => return None,
    };
    let chars: Vec<char> = text::chars_of(tail);
    let newline: Vec<char> = text::chars_of("\n");
    proof {
        text::lemma_found(tail@, "\n"@, 0);
    }
    let length: usize = chars.len();
    match text::find(&chars, &newline, 0) {
        Some(at) => {
            assert(at + newline@.len() <= length);
            let upto: String = text::part_of(&chars, 0, at + newline.len());
            let ghost line = tail@.subrange(0, at + "\n"@.len());
            proof {
                let rest = tail@.subrange(line.len() as int, tail@.len() as int);
                assert(tail@ =~= line + rest);
                text::lemma_encode_concat(line, rest);
                text::lemma_cut(source@, offset as int);
            }
            Some(offset + text::byte_len(upto.as_str()))
        },
        None => Some(total),
    }
}

/// The whitespace in front of a definition. None when something other than
/// whitespace shares the line, which a one-line compound statement can do and
/// which the generated block could not reproduce.
pub open spec fn indent_at(source: Seq<char>, offset: int) -> Option<Seq<char>> {
    match line_start_of(source, offset) {
        Some(start) => match text::sliced(source, start, offset) {
            Some(indent) => if text::is_blank(indent) {
                Some(indent)
            } else {
                None
            },
            None => None,
        },
        None => None,
    }
}

fn indent_of(source: &str, offset: usize) -> (indent: Option<String>)
    ensures
        indent.is_some() == indent_at(source@, offset as int).is_some(),
        indent.is_some() ==> indent.unwrap()@ == indent_at(source@, offset as int).unwrap(),
{
    let start: usize = match line_start(source, offset) {
        Some(start) => start,
        None => return None,
    };
    match text::slice(source, start, offset) {
        Some(indent) => if text::blank(indent) {
            Some(text::owned(indent))
        } else {
            None
        },
        None => None,
    }
}

/// Where the keyword of a definition starts. The name always follows the `def`
/// keyword, so searching back from it finds the keyword whether or not the
/// node's range covers the decorators; an `async` in front of it belongs to the
/// definition too.
pub open spec fn def_offset(source: Seq<char>, name_start: int, is_async: bool) -> Option<int> {
    match text::sliced(source, 0, name_start) {
        Some(head) => match text::last_of(head, "def "@) {
            Some(at) => {
                let before = head.subrange(0, at);
                if !is_async {
                    Some(text::width(before) as int)
                } else if text::ends(text::trimmed_end(before), "async"@) {
                    Some(
                        text::width(
                            text::without_suffix(text::trimmed_end(before), "async"@),
                        ) as int,
                    )
                } else {
                    None
                }
            },
            None => None,
        },
        None => None,
    }
}

fn find_def(source: &str, name_start: usize, is_async: bool) -> (start: Option<usize>)
    ensures
        start.is_some() == def_offset(source@, name_start as int, is_async).is_some(),
        start.is_some() ==> start.unwrap() as int == def_offset(
            source@,
            name_start as int,
            is_async,
        ).unwrap(),
{
    let head: &str = match text::slice(source, 0, name_start) {
        Some(head) => head,
        None => return None,
    };
    let chars: Vec<char> = text::chars_of(head);
    let keyword: Vec<char> = text::chars_of("def ");
    match text::find_last(&chars, &keyword) {
        Some(at) => {
            let before: String = text::part_of(&chars, 0, at);
            if !is_async {
                return Some(text::byte_len(before.as_str()));
            }
            let trimmed: String = text::trim_end(before.as_str());
            match text::strip_suffix(trimmed.as_str(), "async") {
                Some(rest) => Some(text::byte_len(rest.as_str())),
                None => None,
            }
        },
        None => None,
    }
}

/// Whether a path meets a `yield` before it leaves the function. A nested
/// function's `yield` belongs to that function, so the search stops at every
/// definition it meets.
pub open spec fn path_yields(path: Seq<Place>, from: int) -> bool
    decreases path.len() - from,
{
    if from < 0 || from >= path.len() {
        false
    } else if path[from].kind == "StmtFunctionDef"@ || path[from].kind == "StmtClassDef"@
        || path[from].kind == "ExprLambda"@ {
        false
    } else if path[from].kind == "ExprYield"@ || path[from].kind == "ExprYieldFrom"@ {
        true
    } else {
        path_yields(path, from + 1)
    }
}

/// Whether the function that a token opens at this depth is a generator: a
/// `yield` stands in its body.
pub open spec fn is_generator(outline: Seq<Mark>, at: int, depth: int) -> bool
    decreases outline.len() - at,
{
    if at >= outline.len() {
        false
    } else if outline[at].path.len() > depth + 1 && text::begins(
        outline[at].path[depth + 1].kind,
        "Stmt"@,
    ) && path_yields(outline[at].path, depth + 1) {
        true
    } else if syntax::goes_on(outline, at, depth) {
        is_generator(outline, at + 1, depth)
    } else {
        false
    }
}

fn finds_yield(token: &Token, from: usize) -> (yes: bool)
    requires
        from <= token.path@.len(),
    ensures
        yes == path_yields(token@.path, from as int),
{
    let mut at: usize = from;
    while at < token.path.len()
        invariant
            from <= at <= token.path@.len(),
            path_yields(token@.path, from as int) == path_yields(token@.path, at as int),
        decreases token.path@.len() - at,
    {
        let kind: &str = token.path[at].kind.as_str();
        assert(token@.path[at as int].kind == kind@);
        if text::same(kind, "StmtFunctionDef") || text::same(kind, "StmtClassDef") || text::same(
            kind,
            "ExprLambda",
        ) {
            return false;
        }
        if text::same(kind, "ExprYield") || text::same(kind, "ExprYieldFrom") {
            return true;
        }
        at += 1;
    }
    false
}

fn generates(tokens: &[Token], at: usize, depth: usize) -> (yes: bool)
    requires
        at < tokens@.len(),
        depth < usize::MAX,
    ensures
        yes == is_generator(syntax::marks(tokens@), at as int, depth as int),
{
    let ghost outline = syntax::marks(tokens@);
    let mut here: usize = at;
    loop
        invariant
            at <= here < tokens@.len(),
            depth < usize::MAX,
            outline == syntax::marks(tokens@),
            is_generator(outline, at as int, depth as int) == is_generator(
                outline,
                here as int,
                depth as int,
            ),
        decreases tokens@.len() - here,
    {
        let token: &Token = &tokens[here];
        assert(outline[here as int] == token@);
        if token.path.len() > depth + 1 {
            assert(token@.path[depth + 1] == token.path@[depth + 1]@);
            if text::starts_with(token.path[depth + 1].kind.as_str(), "Stmt") && finds_yield(
                token,
                depth + 1,
            ) {
                return true;
            }
        }
        if !syntax::carries_on(tokens, here, depth) {
            return false;
        }
        here += 1;
    }
}

/// A node inside the node that a token opens at this depth.
pub open spec fn inner(outline: Seq<Mark>, child: Option<int>, depth: int) -> Option<Place> {
    match child {
        Some(at) => Some(outline[at].path[depth + 1]),
        None => None,
    }
}

/// What wrapper a definition needs. An async generator needs both `async def`
/// and `yield from`, which do not combine. Rare enough to leave on the splice
/// path.
pub open spec fn shape_of(is_async: bool, generates: bool) -> Option<Shape> {
    if is_async && generates {
        None
    } else if is_async {
        Some(Shape::Async)
    } else if generates {
        Some(Shape::Generator)
    } else {
        Some(Shape::Plain)
    }
}

/// The first decorator that stands in front of a definition.
pub open spec fn decorator_before(decorator: Option<Place>, def_start: int) -> Option<int> {
    match decorator {
        Some(node) => if node.start < def_start {
            Some(node.start)
        } else {
            None
        },
        None => None,
    }
}

/// The function that a token opens at this depth, if it can be copied.
///
/// A decorator naming the function it decorates is rebuilding it, the
/// `@x.setter` pattern. The wrapper would be assigned before the name it
/// extends exists, so the whole family is left alone. The replacement starts at
/// the start of a line, so the indentation already in the file is consumed
/// rather than added to the indentation the family emits.
pub open spec fn described(outline: Seq<Mark>, at: int, depth: int, source: Seq<char>) -> Option<
    Def,
> {
    let is_async = syntax::holds_token(outline, at, depth, "Async"@);
    match inner(outline, syntax::child_like(outline, at, depth, "Identifier"@), depth) {
        None => None,
        Some(name) => match def_offset(source, name.start, is_async) {
            None => None,
            Some(def_start) => match indent_at(source, def_start) {
                None => None,
                Some(indent) => described_from(
                    outline,
                    at,
                    depth,
                    source,
                    name,
                    def_start,
                    indent,
                    shape_of(is_async, is_generator(outline, at, depth)),
                ),
            },
        },
    }
}

pub open spec fn described_from(
    outline: Seq<Mark>,
    at: int,
    depth: int,
    source: Seq<char>,
    name: Place,
    def_start: int,
    indent: Seq<char>,
    shape: Option<Shape>,
) -> Option<Def> {
    let node = outline[at].path[depth];
    let decorator = decorator_before(
        inner(outline, syntax::child_like(outline, at, depth, "Decorator"@), depth),
        def_start,
    );
    let from = match decorator {
        Some(first) => first,
        None => def_start,
    };
    let body = inner(outline, syntax::child_like(outline, at, depth, "Stmt"@), depth);
    match (text::sliced(source, from, def_start), line_start_of(source, from), shape, body) {
        (Some(decorators), Some(replace_from), Some(shape), Some(first)) => if decorator.is_some()
            && text::occurs(decorators, node.name) {
            None
        } else if name.end < name.start || first.start < def_start || name.start < def_start {
            None
        } else {
            Some(
                Def {
                    name: node.name,
                    name_start: name.start,
                    name_end: name.end,
                    replace_from,
                    def_start,
                    body_start: first.start,
                    end: node.end,
                    indent,
                    shape,
                },
            )
        },
        _ => None,
    }
}

fn describe(tokens: &[Token], at: usize, depth: usize, source: &str) -> (function: Option<Function>)
    requires
        at < tokens@.len(),
        depth < tokens@[at as int].path@.len(),
    ensures
        function.is_some() == described(
            syntax::marks(tokens@),
            at as int,
            depth as int,
            source@,
        ).is_some(),
        function.is_some() ==> function.unwrap()@ == described(
            syntax::marks(tokens@),
            at as int,
            depth as int,
            source@,
        ).unwrap() && function.unwrap()@.is_sound(),
{
    let ghost outline = syntax::marks(tokens@);
    assert(depth < tokens@[at as int].path.len());
    let is_async: bool = syntax::has_token(tokens, at, depth, "Async");
    let (name_start, name_end): (usize, usize) = match syntax::find_child(
        tokens,
        at,
        depth,
        "Identifier",
    ) {
        Some(child) => {
            assert(outline[child as int].path[depth + 1]
                == tokens@[child as int].path@[depth + 1]@);
            (tokens[child].path[depth + 1].start, tokens[child].path[depth + 1].end)
        },
        None => return None,
    };
    let def_start: usize = match find_def(source, name_start, is_async) {
        Some(start) => start,
        None => return None,
    };
    let indent: String = match indent_of(source, def_start) {
        Some(indent) => indent,
        None => return None,
    };
    let decorator: Option<usize> = match syntax::find_child(tokens, at, depth, "Decorator") {
        Some(child) => {
            assert(outline[child as int].path[depth + 1]
                == tokens@[child as int].path@[depth + 1]@);
            let start: usize = tokens[child].path[depth + 1].start;
            if start < def_start {
                Some(start)
            } else {
                None
            }
        },
        None => None,
    };
    let from: usize = match decorator {
        Some(first) => first,
        None => def_start,
    };
    let decorators: &str = match text::slice(source, from, def_start) {
        Some(decorators) => decorators,
        None => return None,
    };
    let replace_from: usize = match line_start(source, from) {
        Some(start) => start,
        None => return None,
    };
    let generator: bool = generates(tokens, at, depth);
    if is_async && generator {
        return None;
    }
    let shape: Shape = if is_async {
        Shape::Async
    } else if generator {
        Shape::Generator
    } else {
        Shape::Plain
    };
    let body_start: usize = match syntax::find_child(tokens, at, depth, "Stmt") {
        Some(child) => {
            assert(outline[child as int].path[depth + 1]
                == tokens@[child as int].path@[depth + 1]@);
            tokens[child].path[depth + 1].start
        },
        None => return None,
    };
    let node: &syntax::Node = &tokens[at].path[depth];
    assert(outline[at as int].path[depth as int] == node@);
    if decorator.is_some() && text::contains(decorators, node.name.as_str()) {
        return None;
    }
    if name_end < name_start || body_start < def_start || name_start < def_start {
        return None;
    }
    Some(
        Function {
            name: node.name.clone(),
            name_start,
            name_end,
            replace_from,
            def_start,
            body_start,
            end: node.end,
            indent,
            shape,
        },
    )
}

/// Module level and class bodies only. A nested function is never collected,
/// but it still travels inside whichever outer function contains it, so its
/// mutants are hosted all the same.
pub open spec fn is_collected(path: Seq<Place>, depth: int) -> bool {
    &&& depth > 0
    &&& path[depth].kind == "StmtFunctionDef"@
    &&& forall|k: int| 1 <= k < depth ==> (#[trigger] path[k]).kind == "StmtClassDef"@
}

/// The functions a token opens above this depth.
pub open spec fn opened_functions(
    outline: Seq<Mark>,
    at: int,
    depth: int,
    source: Seq<char>,
) -> Seq<Def>
    decreases depth,
{
    if depth <= syntax::shared(outline, at) || depth <= 0 {
        Seq::empty()
    } else {
        let above = opened_functions(outline, at, depth - 1, source);
        if is_collected(outline[at].path, depth - 1) {
            match described(outline, at, depth - 1, source) {
                Some(function) => above.push(function),
                None => above,
            }
        } else {
            above
        }
    }
}

/// Whether a function lies wholly behind those of a list: its line starts where
/// the last of them has ended, and its body behind that.
pub open spec fn follows(list: Seq<Def>, function: Def) -> bool {
    &&& 0 <= function.replace_from < function.body_start <= function.end
    &&& list.len() > 0 ==> list.last().end <= function.replace_from
}

/// A list with those of some more functions that lie behind it. Functions of a
/// module and of its classes always do: a `def` starts a line of its own.
pub open spec fn with_functions(list: Seq<Def>, more: Seq<Def>) -> Seq<Def>
    decreases more.len(),
{
    if more.len() == 0 {
        list
    } else {
        let before = with_functions(list, more.drop_last());
        if follows(before, more.last()) {
            before.push(more.last())
        } else {
            before
        }
    }
}

/// The functions that the first tokens open, in the order of the file.
pub open spec fn functions_in(outline: Seq<Mark>, upto: int, source: Seq<char>) -> Seq<Def>
    decreases upto,
{
    if upto <= 0 {
        Seq::empty()
    } else {
        with_functions(
            functions_in(outline, upto - 1, source),
            opened_functions(outline, upto - 1, outline[upto - 1].path.len() as int, source),
        )
    }
}

fn lies_behind(list: &[Function], function: &Function) -> (yes: bool)
    ensures
        yes == follows(defs(list@), function@),
{
    assert(defs(list@).len() == list@.len());
    if !(function.replace_from < function.body_start && function.body_start <= function.end) {
        return false;
    }
    if list.len() == 0 {
        return true;
    }
    assert(defs(list@).last() == list@[list@.len() - 1]@);
    list[list.len() - 1].end <= function.replace_from
}

fn collected(token: &Token, depth: usize) -> (yes: bool)
    requires
        depth < token.path@.len(),
    ensures
        yes == is_collected(token@.path, depth as int),
{
    assert(token@.path[depth as int] == token.path@[depth as int]@);
    if depth == 0 || !text::same(token.path[depth].kind.as_str(), "StmtFunctionDef") {
        return false;
    }
    let mut at: usize = 1;
    while at < depth
        invariant
            1 <= at <= depth < token.path@.len(),
            forall|k: int| 1 <= k < at ==> (#[trigger] token@.path[k]).kind == "StmtClassDef"@,
        decreases depth - at,
    {
        assert(token@.path[at as int] == token.path@[at as int]@);
        if !text::same(token.path[at].kind.as_str(), "StmtClassDef") {
            return false;
        }
        at += 1;
    }
    true
}

fn collect_functions(tokens: &[Token], source: &str) -> (found: Vec<Function>)
    ensures
        defs(found@) == functions_in(syntax::marks(tokens@), tokens@.len() as int, source@),
        forall|k: int| 0 <= k < found@.len() ==> (#[trigger] found@[k])@.is_sound(),
{
    let ghost outline = syntax::marks(tokens@);
    let mut found: Vec<Function> = Vec::new();
    assert(defs(found@) =~= Seq::<Def>::empty());
    let mut at: usize = 0;
    while at < tokens.len()
        invariant
            at <= tokens@.len(),
            outline == syntax::marks(tokens@),
            defs(found@) == functions_in(outline, at as int, source@),
            forall|k: int| 0 <= k < found@.len() ==> (#[trigger] found@[k])@.is_sound(),
        decreases tokens@.len() - at,
    {
        let from: usize = syntax::shared_nodes(tokens, at);
        let mut depth: usize = from;
        let ghost before = defs(found@);
        assert(with_functions(before, opened_functions(outline, at as int, from as int, source@))
            == before);
        while depth < tokens[at].path.len()
            invariant
                at < tokens@.len(),
                from <= depth <= tokens@[at as int].path@.len(),
                from as int == syntax::shared(outline, at as int),
                outline == syntax::marks(tokens@),
                defs(found@) == with_functions(
                    before,
                    opened_functions(outline, at as int, depth as int, source@),
                ),
                forall|k: int| 0 <= k < found@.len() ==> (#[trigger] found@[k])@.is_sound(),
            decreases tokens@[at as int].path@.len() - depth,
        {
            let ghost listed = defs(found@);
            assert(outline[at as int] == tokens@[at as int]@);
            if collected(&tokens[at], depth) {
                match describe(tokens, at, depth, source) {
                    Some(function) => {
                        let ghost above = opened_functions(
                            outline,
                            at as int,
                            depth as int,
                            source@,
                        );
                        assert(above.push(function@).drop_last() =~= above);
                        assert(above.push(function@).last() == function@);
                        if lies_behind(&found, &function) {
                            found.push(function);
                            assert(defs(found@) =~= listed.push(function@));
                        }
                    },
                    None => {},
                }
            }
            depth += 1;
        }
        at += 1;
    }
    found
}

impl Def {
    /// Whether the name follows the keyword.
    pub open spec fn is_sound(self) -> bool {
        self.def_start <= self.name_start <= self.name_end
    }

    /// From the first statement, not from the `def`. A mutant in a default
    /// argument runs when the copy is defined rather than when it is called, so
    /// one that raises would take the whole module down with it and every other
    /// mutant in the file. Those stay spliced.
    pub open spec fn holds(self, mutant: Planted) -> bool {
        mutant.byte_start >= self.body_start && mutant.byte_end <= self.end
    }

    pub open spec fn orig_name(self) -> Seq<char> {
        self.name + "__angelo_orig"@
    }

    pub open spec fn mutant_name(self, id: int) -> Seq<char> {
        self.name + "__angelo_"@ + text::signed(id)
    }

    pub open spec fn mutants_name(self) -> Seq<char> {
        self.name + "__angelo_mutants"@
    }

    /// One member of the family: the function's own text, renamed, with at most
    /// one mutant spliced into it, or nothing when the mutant no longer fits.
    pub open spec fn renamed(self, source: Seq<char>, name: Seq<char>, mutant: Option<Planted>)
        -> Option<Seq<char>> {
        let rename = Change {
            start: self.name_start - self.def_start,
            end: self.name_end - self.def_start,
            text: name,
        };
        match text::sliced(source, self.def_start, self.end) {
            None => None,
            Some(own) => match mutant {
                None => edits::applied_back_to_front(own, seq![rename]),
                Some(planted) => {
                    let start = planted.byte_start - self.def_start;
                    let end = planted.byte_end - self.def_start;
                    if text::sliced(own, start, end) == Some(planted.original) {
                        edits::applied_back_to_front(
                            own,
                            seq![rename, Change { start, end, text: planted.replacement }],
                        )
                    } else {
                        None
                    }
                },
            },
        }
    }

    /// A member of the family as it is written out.
    ///
    /// A mutant that breaks the syntax is harmless when it is spliced: it
    /// errors on its own run and sits outside the score. Compiled into the file
    /// it would break every other mutant there too, so a copy that will not
    /// parse is left out. `*args` mutated to `/args` is the one that found this.
    pub open spec fn copied(self, source: Seq<char>, name: Seq<char>, mutant: Option<Planted>)
        -> Option<Seq<char>> {
        match self.renamed(source, name, mutant) {
            None => None,
            Some(text) => {
                let text = text::without_blank_end(text);
                if mutant.is_some() && !compiles(dedented_of(text, self.indent)) {
                    None
                } else {
                    Some(self.indent + text + "\n\n"@)
                }
            },
        }
    }

    /// The ids of the mutants that get a copy.
    pub open spec fn taken(self, source: Seq<char>, mutants: Seq<Planted>) -> Seq<int>
        decreases mutants.len(),
    {
        if mutants.len() == 0 {
            Seq::empty()
        } else {
            let before = self.taken(source, mutants.drop_last());
            let mutant = mutants.last();
            if self.copied(source, self.mutant_name(mutant.id), Some(mutant)).is_some() {
                before.push(mutant.id)
            } else {
                before
            }
        }
    }

    /// The copies of the mutants, one after the other.
    pub open spec fn copies(self, source: Seq<char>, mutants: Seq<Planted>) -> Seq<char>
        decreases mutants.len(),
    {
        if mutants.len() == 0 {
            Seq::empty()
        } else {
            let before = self.copies(source, mutants.drop_last());
            let mutant = mutants.last();
            match self.copied(source, self.mutant_name(mutant.id), Some(mutant)) {
                Some(copy) => before + copy,
                None => before,
            }
        }
    }

    /// The entries of the lookup table.
    pub open spec fn entries(self, ids: Seq<int>) -> Seq<Seq<char>> {
        ids.map_values(|id: int| text::signed(id) + ": "@ + self.mutant_name(id))
    }

    /// The call that picks a copy.
    pub open spec fn call() -> Seq<char> {
        "_angelo_pick(_angelo_orig, _angelo_mutants, _angelo_cache)(*_angelo_args, **_angelo_kwargs)"@
    }

    /// The wrapper the outside world calls.
    ///
    /// Both the original and the table are captured as default arguments rather
    /// than looked up by name: a method's body cannot see its own class body,
    /// so a bare name would resolve at call time and fail. The parenthesised
    /// form of `yield from` forwards the generator's return value, which a bare
    /// one would swallow. `_angelo_cache` is a mutable default on purpose: one
    /// list per function, created once, which is the cheapest per-function
    /// storage Python has. The runtime uses it to answer in constant time.
    pub open spec fn wrapper(self) -> Seq<char> {
        let keyword = if self.shape is Async {
            "async def"@
        } else {
            "def"@
        };
        let statement = match self.shape {
            Shape::Plain => "return "@ + Def::call(),
            Shape::Async => "return await "@ + Def::call(),
            Shape::Generator => "return (yield from "@ + Def::call() + ")"@,
        };
        keyword + " "@ + self.name + "(*_angelo_args, _angelo_orig="@ + self.orig_name()
            + ", _angelo_mutants="@ + self.mutants_name()
            + ", _angelo_cache=[-1, None], **_angelo_kwargs):\n"@ + self.indent + "    "@ + statement
            + "\n"@
    }

    /// The original, one copy per mutant it can take, the lookup table and the
    /// wrapper, or nothing when no mutant can be taken.
    ///
    /// Decorators belong on the wrapper: it is the one the outside world calls,
    /// so `@property` and `@classmethod` have to wrap it and not a copy. Their
    /// text starts at the line, so it already carries the indentation the
    /// replaced text had.
    pub open spec fn family(self, source: Seq<char>, mutants: Seq<Planted>) -> Option<Seq<char>> {
        let ids = self.taken(source, mutants);
        match (
            self.copied(source, self.orig_name(), None),
            text::sliced(source, self.replace_from, self.def_start),
        ) {
            (Some(original), Some(decorators)) => if ids.len() == 0 {
                None
            } else {
                Some(
                    original + self.copies(source, mutants) + self.indent + self.mutants_name()
                        + " = {"@ + text::joined(self.entries(ids), ", "@) + "}\n\n"@ + decorators
                        + self.wrapper(),
                )
            },
            _ => None,
        }
    }
}

/// Whether a text is a Python module.
pub open spec fn compiles(s: Seq<char>) -> bool {
    text::width(s) <= u32::MAX && syntax::parsed(s).is_ok()
}

fn parses(s: &str) -> (yes: bool)
    ensures
        yes == compiles(s@),
{
    text::byte_len(s) as u64 <= 0xffff_ffff && syntax::read_python(s).is_ok()
}

/// A method's text is not a module until its indentation comes off. The first
/// line already starts at the `def`, so only the rest has a prefix to lose.
pub open spec fn dedented_of(s: Seq<char>, indent: Seq<char>) -> Seq<char> {
    if indent.len() == 0 {
        s
    } else {
        text::joined(
            text::lines_of(s).map_values(|line: Seq<char>| text::without_prefix(line, indent)),
            "\n"@,
        )
    }
}

fn dedented(s: &str, indent: &str) -> (out: String)
    ensures
        out@ == dedented_of(s@, indent@),
{
    if indent.is_empty() {
        return text::owned(s);
    }
    let list: Vec<String> = text::lines(s);
    let ghost whole = text::lines_of(s@);
    let mut kept: Vec<String> = Vec::new();
    let mut at: usize = 0;
    while at < list.len()
        invariant
            at <= list@.len(),
            whole == text::texts(list@),
            kept@.len() == at,
            forall|k: int|
                0 <= k < at ==> #[trigger] kept@[k]@ == text::without_prefix(whole[k], indent@),
        decreases list@.len() - at,
    {
        assert(whole[at as int] == list@[at as int]@);
        let line: String = match text::strip_prefix(list[at].as_str(), indent) {
            Some(rest) => rest,
            None => list[at].clone(),
        };
        kept.push(line);
        at += 1;
    }
    assert(text::texts(kept@) =~= whole.map_values(
        |line: Seq<char>| text::without_prefix(line, indent@),
    ));
    text::join(&kept, "\n")
}

/// The mutants of a list of references as plain values.
pub open spec fn planted_refs(list: Seq<&Mutant>) -> Seq<Planted> {
    list.map_values(|mutant: &Mutant| mutant@)
}

/// Ids as plain values.
pub open spec fn ids(list: Seq<i64>) -> Seq<int> {
    list.map_values(|id: i64| id as int)
}

impl Function {
    pub fn holds(&self, mutant: &Mutant) -> (yes: bool)
        ensures
            yes == self@.holds(mutant@),
    {
        mutant.byte_start >= self.body_start && mutant.byte_end <= self.end
    }

    fn orig_name(&self) -> (name: String)
        ensures
            name@ == self@.orig_name(),
    {
        self.name.clone().concat("__angelo_orig")
    }

    fn mutant_name(&self, id: i64) -> (name: String)
        ensures
            name@ == self@.mutant_name(id as int),
    {
        self.name.clone().concat("__angelo_").concat(&text::show_i64(id))
    }

    fn mutants_name(&self) -> (name: String)
        ensures
            name@ == self@.mutants_name(),
    {
        self.name.clone().concat("__angelo_mutants")
    }

    /// One member of the family: the function's own text, renamed, with at most
    /// one mutant spliced into it.
    fn copy(&self, source: &str, name: &str, mutant: Option<&Mutant>) -> (copy: Option<String>)
        requires
            self@.is_sound(),
        ensures
            ({
                let planted = match mutant {
                    Some(mutant) => Some(mutant@),
                    None => None,
                };
                &&& copy.is_some() == self@.copied(source@, name@, planted).is_some()
                &&& copy.is_some() ==> copy.unwrap()@ == self@.copied(
                    source@,
                    name@,
                    planted,
                ).unwrap()
            }),
    {
        let own: &str = match text::slice(source, self.def_start, self.end) {
            Some(own) => own,
            None => return None,
        };
        let mut list: Vec<Edit> = Vec::new();
        list.push(
            Edit {
                start: self.name_start - self.def_start,
                end: self.name_end - self.def_start,
                text: text::owned(name),
            },
        );
        let ghost rename = list@[0]@;
        let mut mutated: bool = false;
        match mutant {
            Some(planted) => {
                mutated = true;
                if planted.byte_start < self.def_start || planted.byte_end < self.def_start {
                    return None;
                }
                let start: usize = planted.byte_start - self.def_start;
                let end: usize = planted.byte_end - self.def_start;
                match text::slice(own, start, end) {
                    Some(found) => if !text::same(found, planted.original.as_str()) {
                        return None;
                    },
                    None => return None,
                }
                list.push(Edit { start, end, text: planted.replacement.clone() });
                assert(edits::changes(list@) =~= seq![
                    rename,
                    Change { start: start as int, end: end as int, text: planted.replacement@ },
                ]);
            },
            None => {
                assert(edits::changes(list@) =~= seq![rename]);
            },
        }
        let edited: String = match edits::apply(own, list) {
            Some(edited) => edited,
            None => return None,
        };
        let member: String = text::trim_blank_end(edited.as_str());
        if mutated && !parses(dedented(member.as_str(), self.indent.as_str()).as_str()) {
            return None;
        }
        let mut out: String = self.indent.clone();
        out.append(&member);
        out.append("\n\n");
        Some(out)
    }

    /// The wrapper the outside world calls.
    fn wrapper(&self) -> (out: String)
        ensures
            out@ == self@.wrapper(),
    {
        let call: &'static str =
            "_angelo_pick(_angelo_orig, _angelo_mutants, _angelo_cache)(*_angelo_args, **_angelo_kwargs)";
        let mut out: String = match self.shape {
            Shape::Async => text::owned("async def"),
            _ => text::owned("def"),
        };
        out.append(" ");
        out.append(&self.name);
        out.append("(*_angelo_args, _angelo_orig=");
        out.append(&self.orig_name());
        out.append(", _angelo_mutants=");
        out.append(&self.mutants_name());
        out.append(", _angelo_cache=[-1, None], **_angelo_kwargs):\n");
        out.append(&self.indent);
        out.append("    ");
        let statement: String = match self.shape {
            Shape::Plain => text::owned("return ").concat(call),
            Shape::Async => text::owned("return await ").concat(call),
            Shape::Generator => text::owned("return (yield from ").concat(call).concat(")"),
        };
        out.append(&statement);
        out.append("\n");
        out
    }

    /// The original, one copy per mutant it can take, the lookup table and the
    /// wrapper. Also the ids it took: a mutant whose copy will not compile is
    /// left behind for the splice path rather than dropped.
    fn family(&self, source: &str, mutants: &[&Mutant]) -> (family: Option<(String, Vec<i64>)>)
        requires
            self@.is_sound(),
        ensures
            family.is_some() == self@.family(source@, planted_refs(mutants@)).is_some(),
            family.is_some() ==> family.unwrap().0@ == self@.family(
                source@,
                planted_refs(mutants@),
            ).unwrap() && ids(family.unwrap().1@) == self@.taken(
                source@,
                planted_refs(mutants@),
            ),
    {
        let ghost all = planted_refs(mutants@);
        let mut out: String = match self.copy(source, self.orig_name().as_str(), None) {
            Some(original) => original,
            None => return None,
        };
        let ghost original = out@;
        let mut hosted: Vec<i64> = Vec::new();
        let mut at: usize = 0;
        assert(ids(hosted@) =~= Seq::<int>::empty());
        assert(original + self@.copies(source@, all.subrange(0, 0)) =~= original);
        while at < mutants.len()
            invariant
                at <= mutants@.len(),
                all == planted_refs(mutants@),
                self@.is_sound(),
                out@ == original + self@.copies(source@, all.subrange(0, at as int)),
                ids(hosted@) == self@.taken(source@, all.subrange(0, at as int)),
            decreases mutants@.len() - at,
        {
            let mutant: &Mutant = mutants[at];
            let ghost listed = ids(hosted@);
            assert(all.subrange(0, at + 1).drop_last() =~= all.subrange(0, at as int));
            assert(all.subrange(0, at + 1).last() == mutant@);
            match self.copy(source, self.mutant_name(mutant.id).as_str(), Some(mutant)) {
                Some(copy) => {
                    out.append(&copy);
                    hosted.push(mutant.id);
                    assert(ids(hosted@) =~= listed.push(mutant.id as int));
                    assert(out@ =~= original + self@.copies(source@, all.subrange(0, at + 1)));
                },
                None => {},
            }
            at += 1;
        }
        assert(all.subrange(0, at as int) =~= all);
        if hosted.len() == 0 {
            return None;
        }
        let mut entries: Vec<String> = Vec::new();
        let mut next: usize = 0;
        while next < hosted.len()
            invariant
                next <= hosted@.len(),
                entries@.len() == next,
                forall|k: int|
                    0 <= k < next ==> #[trigger] entries@[k]@ == self@.entries(ids(hosted@))[k],
            decreases hosted@.len() - next,
        {
            let id: i64 = hosted[next];
            entries.push(text::show_i64(id).concat(": ").concat(&self.mutant_name(id)));
            next += 1;
        }
        assert(text::texts(entries@) =~= self@.entries(ids(hosted@)));
        out.append(&self.indent);
        out.append(&self.mutants_name());
        out.append(" = {");
        out.append(&text::join(&entries, ", "));
        out.append("}\n\n");
        let decorators: &str = match text::slice(source, self.replace_from, self.def_start) {
            Some(decorators) => decorators,
            None => return None,
        };
        out.append(decorators);
        out.append(&self.wrapper());
        Some((out, hosted))
    }
}

/// The mutants a function holds.
pub open spec fn held(function: Def, mutants: Seq<Planted>) -> Seq<Planted>
    decreases mutants.len(),
{
    if mutants.len() == 0 {
        Seq::empty()
    } else {
        let before = held(function, mutants.drop_last());
        if function.holds(mutants.last()) {
            before.push(mutants.last())
        } else {
            before
        }
    }
}

/// The edits that put the families of these functions into a file.
pub open spec fn family_edits(
    functions: Seq<Def>,
    source: Seq<char>,
    mutants: Seq<Planted>,
) -> Seq<Change>
    decreases functions.len(),
{
    if functions.len() == 0 {
        Seq::empty()
    } else {
        let before = family_edits(functions.drop_last(), source, mutants);
        let function = functions.last();
        match function.family(source, held(function, mutants)) {
            Some(family) => before.push(
                Change { start: function.replace_from, end: function.end, text: family },
            ),
            None => before,
        }
    }
}

/// The mutants these functions took, one group per function that took any. The
/// grouping is the point: it is what stops two of them sharing a run.
pub open spec fn family_groups(
    functions: Seq<Def>,
    source: Seq<char>,
    mutants: Seq<Planted>,
) -> Seq<Seq<int>>
    decreases functions.len(),
{
    if functions.len() == 0 {
        Seq::empty()
    } else {
        let before = family_groups(functions.drop_last(), source, mutants);
        let function = functions.last();
        let mine = held(function, mutants);
        if function.family(source, mine).is_some() {
            before.push(function.taken(source, mine))
        } else {
            before
        }
    }
}

/// Whether a statement of the module has to stay in front of the runtime
/// import: `from __future__ import ...` has to stay the first statement, and a
/// module docstring has to stay a docstring.
pub open spec fn keeps_its_place(outline: Seq<Mark>, at: int) -> bool {
    let statement = outline[at].path[1];
    if statement.kind == "StmtExpr"@ {
        match syntax::first_child(outline, at, 1) {
            Some(value) => outline[value].path[2].kind == "ExprStringLiteral"@,
            None => false,
        }
    } else if statement.kind == "StmtImportFrom"@ {
        match syntax::child_like(outline, at, 1, "Identifier"@) {
            Some(module) => outline[module].path[2].name == "__future__"@,
            None => false,
        }
    } else {
        false
    }
}

/// Where the runtime import goes, looking from a token on.
pub open spec fn import_offset(
    outline: Seq<Mark>,
    source: Seq<char>,
    at: int,
    offset: int,
) -> Option<int>
    decreases outline.len() - at,
{
    if at < 0 || at >= outline.len() {
        Some(offset)
    } else if syntax::shared(outline, at) > 1 || outline[at].path.len() <= 1 {
        import_offset(outline, source, at + 1, offset)
    } else if !keeps_its_place(outline, at) {
        Some(offset)
    } else {
        match line_after_of(source, outline[at].path[1].end) {
            Some(past) => import_offset(outline, source, at + 1, past),
            None => None,
        }
    }
}

/// The line that brings the runtime in.
pub open spec fn import_line() -> Seq<char> {
    "from _angelo_rt import _angelo_pick\n"@
}

/// A file with every mutant it can host compiled in, and which function took
/// which, or nothing when no function took any.
pub open spec fn rewritten(outline: Seq<Mark>, source: Seq<char>, mutants: Seq<Planted>) -> Option<
    (Seq<char>, Seq<Seq<int>>),
> {
    let functions = functions_in(outline, outline.len() as int, source);
    let groups = family_groups(functions, source, mutants);
    if groups.len() == 0 {
        None
    } else {
        match import_offset(outline, source, 0, 0) {
            Some(at) => match edits::applied_back_to_front(
                source,
                family_edits(functions, source, mutants).push(
                    Change { start: at, end: at, text: import_line() },
                ),
            ) {
                Some(out) => Some((out, groups)),
                None => None,
            },
            None => None,
        }
    }
}

fn stays_in_place(tokens: &[Token], at: usize) -> (yes: bool)
    requires
        at < tokens@.len(),
        tokens@[at as int].path@.len() > 1,
    ensures
        yes == keeps_its_place(syntax::marks(tokens@), at as int),
{
    let ghost outline = syntax::marks(tokens@);
    assert(outline[at as int].path[1] == tokens@[at as int].path@[1]@);
    let kind: &str = tokens[at].path[1].kind.as_str();
    if text::same(kind, "StmtExpr") {
        match syntax::child_of(tokens, at, 1) {
            Some(value) => {
                assert(outline[value as int].path[2] == tokens@[value as int].path@[2]@);
                text::same(tokens[value].path[2].kind.as_str(), "ExprStringLiteral")
            },
            None => false,
        }
    } else if text::same(kind, "StmtImportFrom") {
        match syntax::find_child(tokens, at, 1, "Identifier") {
            Some(module) => {
                assert(outline[module as int].path[2] == tokens@[module as int].path@[2]@);
                text::same(tokens[module].path[2].name.as_str(), "__future__")
            },
            None => false,
        }
    } else {
        false
    }
}

/// Where the runtime import goes: after the docstring and the future imports.
fn runtime_import(tokens: &[Token], source: &str) -> (offset: Option<usize>)
    ensures
        offset.is_some() == import_offset(syntax::marks(tokens@), source@, 0, 0).is_some(),
        offset.is_some() ==> offset.unwrap() as int == import_offset(
            syntax::marks(tokens@),
            source@,
            0,
            0,
        ).unwrap(),
{
    let ghost outline = syntax::marks(tokens@);
    let mut offset: usize = 0;
    let mut at: usize = 0;
    while at < tokens.len()
        invariant
            at <= tokens@.len(),
            outline == syntax::marks(tokens@),
            import_offset(outline, source@, 0, 0) == import_offset(
                outline,
                source@,
                at as int,
                offset as int,
            ),
        decreases tokens@.len() - at,
    {
        assert(outline[at as int] == tokens@[at as int]@);
        if tokens[at].path.len() > 1 && syntax::shared_nodes(tokens, at) <= 1 {
            if !stays_in_place(tokens, at) {
                return Some(offset);
            }
            assert(outline[at as int].path[1] == tokens@[at as int].path@[1]@);
            match line_after(source, tokens[at].path[1].end) {
                Some(past) => {
                    offset = past;
                },
                None => return None,
            }
        }
        at += 1;
    }
    Some(offset)
}

/// A file with every mutant it can host compiled in.
pub struct Rewritten {
    pub source: String,
    /// One entry per function, holding the mutants that function took.
    pub hosted: Vec<Vec<i64>>,
}

/// The groups of a list as plain values.
pub open spec fn groups(list: Seq<Vec<i64>>) -> Seq<Seq<int>> {
    list.map_values(|group: Vec<i64>| ids(group@))
}

/// What a rewrite came to, as plain values.
pub open spec fn outcome(rewrite: Option<Rewritten>) -> Option<(Seq<char>, Seq<Seq<int>>)> {
    match rewrite {
        Some(file) => Some((file.source@, groups(file.hosted@))),
        None => None,
    }
}

fn held_by<'a>(function: &Function, mutants: &[&'a Mutant]) -> (mine: Vec<&'a Mutant>)
    ensures
        planted_refs(mine@) == held(function@, planted_refs(mutants@)),
{
    let ghost all = planted_refs(mutants@);
    let mut mine: Vec<&'a Mutant> = Vec::new();
    assert(planted_refs(mine@) =~= Seq::<Planted>::empty());
    let mut at: usize = 0;
    while at < mutants.len()
        invariant
            at <= mutants@.len(),
            all == planted_refs(mutants@),
            planted_refs(mine@) == held(function@, all.subrange(0, at as int)),
        decreases mutants@.len() - at,
    {
        let mutant: &'a Mutant = mutants[at];
        assert(all.subrange(0, at + 1).drop_last() =~= all.subrange(0, at as int));
        assert(all.subrange(0, at + 1).last() == mutant@);
        let ghost before = planted_refs(mine@);
        if function.holds(mutant) {
            mine.push(mutant);
            assert(planted_refs(mine@) =~= before.push(mutant@));
        }
        at += 1;
    }
    assert(all.subrange(0, at as int) =~= all);
    mine
}

/// Compiles every mutant a parsed file can host into it.
pub fn rewrite_outline(tokens: &[Token], source: &str, mutants: &[&Mutant]) -> (file: Option<
    Rewritten,
>)
    ensures
        outcome(file) == rewritten(syntax::marks(tokens@), source@, planted_refs(mutants@)),
{
    let ghost all = planted_refs(mutants@);
    let functions: Vec<Function> = collect_functions(tokens, source);
    let ghost found = defs(functions@);
    let mut list: Vec<Edit> = Vec::new();
    let mut hosted: Vec<Vec<i64>> = Vec::new();
    assert(edits::changes(list@) =~= Seq::<Change>::empty());
    assert(groups(hosted@) =~= Seq::<Seq<int>>::empty());
    let mut at: usize = 0;
    while at < functions.len()
        invariant
            at <= functions@.len(),
            found == defs(functions@),
            all == planted_refs(mutants@),
            forall|k: int| 0 <= k < functions@.len() ==> (#[trigger] functions@[k])@.is_sound(),
            edits::changes(list@) == family_edits(found.subrange(0, at as int), source@, all),
            groups(hosted@) == family_groups(found.subrange(0, at as int), source@, all),
        decreases functions@.len() - at,
    {
        let function: &Function = &functions[at];
        assert(found.subrange(0, at + 1).drop_last() =~= found.subrange(0, at as int));
        assert(found.subrange(0, at + 1).last() == function@);
        let ghost before = edits::changes(list@);
        let ghost earlier = groups(hosted@);
        let mine: Vec<&Mutant> = held_by(function, mutants);
        match function.family(source, &mine) {
            Some((family, taken)) => {
                let ghost group = ids(taken@);
                list.push(Edit { start: function.replace_from, end: function.end, text: family });
                hosted.push(taken);
                assert(edits::changes(list@) =~= before.push(
                    Change {
                        start: function.replace_from as int,
                        end: function.end as int,
                        text: family@,
                    },
                ));
                assert(groups(hosted@) =~= earlier.push(group));
            },
            None => {},
        }
        at += 1;
    }
    assert(found.subrange(0, at as int) =~= found);
    if hosted.len() == 0 {
        return None;
    }
    assert(groups(hosted@).len() > 0);
    let import: usize = match runtime_import(tokens, source) {
        Some(offset) => offset,
        None => return None,
    };
    let ghost before = edits::changes(list@);
    list.push(
        Edit {
            start: import,
            end: import,
            text: text::owned("from _angelo_rt import _angelo_pick\n"),
        },
    );
    assert(edits::changes(list@) =~= before.push(
        Change { start: import as int, end: import as int, text: import_line() },
    ));
    match edits::apply(source, list) {
        Some(out) => Some(Rewritten { source: out, hosted }),
        None => None,
    }
}

/// Compiles every mutant a file can host into it, or gives the parser's message
/// about a file that does not parse.
pub fn rewrite(source: &str, mutants: &[&Mutant]) -> (file: Result<Option<Rewritten>, String>)
    requires
        text::width(source@) <= u32::MAX,
    ensures
        match syntax::parsed(source@) {
            Ok(outline) => file matches Ok(found) && outcome(found) == rewritten(
                outline,
                source@,
                planted_refs(mutants@),
            ),
            Err(message) => file matches Err(said) && said@ == message,
        },
{
    match syntax::read_python(source) {
        Ok(tokens) => Ok(rewrite_outline(&tokens, source, mutants)),
        Err(message) => Err(message),
    }
}

/// The function one hosted mutant lives in: the how-manieth file, and the
/// how-manieth function of it. Only one member of a family can be live at a
/// time — the wrapper calls one copy — so two mutants sharing a host cannot be
/// judged by the same run.
#[derive(Clone, Copy, Debug, PartialEq, Eq, Hash, Structural)]
pub struct Host {
    pub file: usize,
    pub function: usize,
}

/// A file and its text.
pub struct SourceFile {
    pub file: String,
    pub source: String,
}

/// The rewritten source of every file that could host at least one mutant.
pub struct Schemata {
    generated: Vec<SourceFile>,
    hosted: HashMap<i64, Host>,
}

/// Schemata as plain values.
#[verifier::ext_equal]
pub struct Board {
    pub generated: Seq<(Seq<char>, Seq<char>)>,
    pub hosted: Map<i64, Host>,
}

/// The files of a list as plain values.
pub open spec fn files(list: Seq<SourceFile>) -> Seq<(Seq<char>, Seq<char>)> {
    list.map_values(|file: SourceFile| (file.file@, file.source@))
}

impl View for Schemata {
    type V = Board;

    closed spec fn view(&self) -> Board {
        Board { generated: files(self.generated@), hosted: self.hosted@ }
    }
}

/// The mutants of one file.
pub open spec fn of_file(mutants: Seq<Planted>, file: Seq<char>) -> Seq<Planted>
    decreases mutants.len(),
{
    if mutants.len() == 0 {
        Seq::empty()
    } else {
        let before = of_file(mutants.drop_last(), file);
        if mutants.last().file == file {
            before.push(mutants.last())
        } else {
            before
        }
    }
}

/// What one file becomes. A file that does not parse has no functions to copy;
/// the splice path will report it the same way it always has.
pub open spec fn file_outcome(source: Seq<char>, mutants: Seq<Planted>) -> Option<
    (Seq<char>, Seq<Seq<int>>),
> {
    if text::width(source) > u32::MAX {
        None
    } else {
        match syntax::parsed(source) {
            Ok(outline) => rewritten(outline, source, mutants),
            Err(_) => None,
        }
    }
}

/// The hosts after one more function took these mutants.
pub open spec fn with_group(hosted: Map<i64, Host>, group: Seq<int>, host: Host) -> Map<i64, Host>
    decreases group.len(),
{
    if group.len() == 0 {
        hosted
    } else {
        with_group(hosted, group.drop_last(), host).insert(group.last() as i64, host)
    }
}

/// The hosts after the functions of one more file took these mutants.
pub open spec fn with_groups(
    hosted: Map<i64, Host>,
    groups: Seq<Seq<int>>,
    file: usize,
) -> Map<i64, Host>
    decreases groups.len(),
{
    if groups.len() == 0 {
        hosted
    } else {
        with_group(
            with_groups(hosted, groups.drop_last(), file),
            groups.last(),
            Host { file, function: (groups.len() - 1) as usize },
        )
    }
}

/// The schemata of these files.
pub open spec fn board(sources: Seq<(Seq<char>, Seq<char>)>, mutants: Seq<Planted>) -> Board
    decreases sources.len(),
{
    if sources.len() == 0 {
        Board { generated: Seq::empty(), hosted: Map::empty() }
    } else {
        let before = board(sources.drop_last(), mutants);
        let (file, source) = sources.last();
        match file_outcome(source, of_file(mutants, file)) {
            Some((out, groups)) => Board {
                generated: before.generated.push((file, out)),
                hosted: with_groups(before.hosted, groups, (sources.len() - 1) as usize),
            },
            None => before,
        }
    }
}

/// What was generated for a file, the last word counting.
pub open spec fn generated_of(
    generated: Seq<(Seq<char>, Seq<char>)>,
    file: Seq<char>,
) -> Option<Seq<char>>
    decreases generated.len(),
{
    if generated.len() == 0 {
        None
    } else if generated.last().0 == file {
        Some(generated.last().1)
    } else {
        generated_of(generated.drop_last(), file)
    }
}

fn mutants_of<'a>(mutants: &'a [Mutant], file: &str) -> (mine: Vec<&'a Mutant>)
    ensures
        planted_refs(mine@) == of_file(crate::mutate::planted(mutants@), file@),
{
    let ghost all = crate::mutate::planted(mutants@);
    let mut mine: Vec<&'a Mutant> = Vec::new();
    assert(planted_refs(mine@) =~= Seq::<Planted>::empty());
    let mut at: usize = 0;
    while at < mutants.len()
        invariant
            at <= mutants@.len(),
            all == crate::mutate::planted(mutants@),
            planted_refs(mine@) == of_file(all.subrange(0, at as int), file@),
        decreases mutants@.len() - at,
    {
        let mutant: &'a Mutant = &mutants[at];
        assert(all.subrange(0, at + 1).drop_last() =~= all.subrange(0, at as int));
        assert(all.subrange(0, at + 1).last() == mutant@);
        let ghost before = planted_refs(mine@);
        if text::same(mutant.file.as_str(), file) {
            mine.push(mutant);
            assert(planted_refs(mine@) =~= before.push(mutant@));
        }
        at += 1;
    }
    assert(all.subrange(0, at as int) =~= all);
    mine
}

fn host_group(hosted: &mut HashMap<i64, Host>, group: &Vec<i64>, host: Host)
    ensures
        final(hosted)@ == with_group(old(hosted)@, ids(group@), host),
{
    let ghost all = ids(group@);
    let mut at: usize = 0;
    while at < group.len()
        invariant
            at <= group@.len(),
            all == ids(group@),
            hosted@ == with_group(old(hosted)@, all.subrange(0, at as int), host),
        decreases group@.len() - at,
    {
        assert(all.subrange(0, at + 1).drop_last() =~= all.subrange(0, at as int));
        assert(all.subrange(0, at + 1).last() == group@[at as int] as int);
        hosted.insert(group[at], host);
        at += 1;
    }
    assert(all.subrange(0, at as int) =~= all);
}

fn host_groups(hosted: &mut HashMap<i64, Host>, list: &Vec<Vec<i64>>, file: usize)
    ensures
        final(hosted)@ == with_groups(old(hosted)@, groups(list@), file),
{
    let ghost all = groups(list@);
    let mut at: usize = 0;
    while at < list.len()
        invariant
            at <= list@.len(),
            all == groups(list@),
            hosted@ == with_groups(old(hosted)@, all.subrange(0, at as int), file),
        decreases list@.len() - at,
    {
        assert(all.subrange(0, at + 1).drop_last() =~= all.subrange(0, at as int));
        assert(all.subrange(0, at + 1).last() == ids(list@[at as int]@));
        host_group(hosted, &list[at], Host { file, function: at });
        at += 1;
    }
    assert(all.subrange(0, at as int) =~= all);
}

impl Schemata {
    /// Rewrite every file that holds a mutant. A file that cannot host any is
    /// left out entirely, so the copy keeps the original and the splice path
    /// handles it.
    pub fn build(sources: &[SourceFile], mutants: &[Mutant]) -> (schemata: Schemata)
        ensures
            schemata@ == board(files(sources@), crate::mutate::planted(mutants@)),
    {
        let ghost all = files(sources@);
        let ghost pool = crate::mutate::planted(mutants@);
        let mut schemata: Schemata = Schemata { generated: Vec::new(), hosted: HashMap::new() };
        assert(schemata@ =~= board(all.subrange(0, 0), pool));
        let mut at: usize = 0;
        while at < sources.len()
            invariant
                at <= sources@.len(),
                all == files(sources@),
                pool == crate::mutate::planted(mutants@),
                schemata@ == board(all.subrange(0, at as int), pool),
            decreases sources@.len() - at,
        {
            assert(all.subrange(0, at + 1).drop_last() =~= all.subrange(0, at as int));
            let file: &SourceFile = &sources[at];
            assert(all.subrange(0, at + 1).last() == (file.file@, file.source@));
            let ghost before = files(schemata.generated@);
            let mine: Vec<&Mutant> = mutants_of(mutants, file.file.as_str());
            if text::byte_len(file.source.as_str()) as u64 <= 0xffff_ffff {
                match rewrite(file.source.as_str(), &mine) {
                    Ok(Some(rewritten)) => {
                        host_groups(&mut schemata.hosted, &rewritten.hosted, at);
                        schemata.generated.push(
                            SourceFile { file: file.file.clone(), source: rewritten.source },
                        );
                        assert(files(schemata.generated@) =~= before.push(
                            (file.file@, rewritten.source@),
                        ));
                    },
                    _ => {},
                }
            }
            at += 1;
        }
        assert(all.subrange(0, at as int) =~= all);
        schemata
    }

    pub fn hosts(&self, mutant: &Mutant) -> (yes: bool)
        ensures
            yes == self@.hosted.contains_key(mutant.id),
    {
        self.hosted.contains_key(&mutant.id)
    }

    /// Which function would have to switch to judge this mutant. Two mutants
    /// that answer the same thing need two runs.
    pub fn host(&self, mutant: &Mutant) -> (host: Option<Host>)
        ensures
            host.is_some() == self@.hosted.contains_key(mutant.id),
            host.is_some() ==> host.unwrap() == self@.hosted[mutant.id],
    {
        match self.hosted.get(&mutant.id) {
            Some(host) => Some(*host),
            None => None,
        }
    }

    pub fn hosted_count(&self) -> (count: usize)
        ensures
            count as nat == self@.hosted.len(),
    {
        self.hosted.len()
    }

    pub fn is_empty(&self) -> (yes: bool)
        ensures
            yes == (self@.hosted.len() == 0),
    {
        self.hosted.len() == 0
    }

    /// The rewritten source for a file, for whoever has to put it back after
    /// borrowing the copy for a splice.
    pub fn generated_for(&self, file: &str) -> (source: Option<&String>)
        ensures
            source.is_some() == generated_of(self@.generated, file@).is_some(),
            source.is_some() ==> source.unwrap()@ == generated_of(
                self@.generated,
                file@,
            ).unwrap(),
    {
        let ghost all = self@.generated;
        let mut upto: usize = self.generated.len();
        assert(all.subrange(0, upto as int) =~= all);
        while upto > 0
            invariant
                upto <= self.generated@.len(),
                all == files(self.generated@),
                generated_of(all, file@) == generated_of(all.subrange(0, upto as int), file@),
            decreases upto,
        {
            assert(all.subrange(0, upto as int).drop_last() =~= all.subrange(0, upto - 1));
            assert(all.subrange(0, upto as int).last() == all[upto - 1]);
            if text::same(self.generated[upto - 1].file.as_str(), file) {
                return Some(&self.generated[upto - 1].source);
            }
            upto -= 1;
        }
        None
    }

    /// How many files were rewritten.
    pub fn generated_count(&self) -> (count: usize)
        ensures
            count as nat == self@.generated.len(),
    {
        self.generated.len()
    }

    /// The file and the text of one rewritten file.
    pub fn generated_at(&self, at: usize) -> (file: (&String, &String))
        requires
            at < self@.generated.len(),
        ensures
            file.0@ == self@.generated[at as int].0,
            file.1@ == self@.generated[at as int].1,
    {
        (&self.generated[at].file, &self.generated[at].source)
    }

    /// The value of the environment variable that makes exactly these mutants
    /// live. An empty set runs the original code, which is how the generated
    /// file behaves for any test that is not judging a mutant.
    pub fn active_value(mutants: &[&Mutant]) -> (value: String)
        ensures
            value@ == active_of(planted_refs(mutants@)),
    {
        let ghost all = planted_refs(mutants@);
        let mut list: Vec<String> = Vec::new();
        let mut at: usize = 0;
        while at < mutants.len()
            invariant
                at <= mutants@.len(),
                all == planted_refs(mutants@),
                list@.len() == at,
                forall|k: int| 0 <= k < at ==> #[trigger] list@[k]@ == text::signed(all[k].id),
            decreases mutants@.len() - at,
        {
            list.push(text::show_i64(mutants[at].id));
            at += 1;
        }
        assert(text::texts(list@) =~= all.map_values(
            |mutant: Planted| text::signed(mutant.id),
        ));
        text::join(&list, ",")
    }
}

/// The ids of mutants, with a comma between two of them.
pub open spec fn active_of(mutants: Seq<Planted>) -> Seq<char> {
    text::joined(mutants.map_values(|mutant: Planted| text::signed(mutant.id)), ","@)
}

/// Whether a function of a file took a mutant: the how-manieth file, and the
/// how-manieth function of it that took any.
pub open spec fn took(
    sources: Seq<(Seq<char>, Seq<char>)>,
    mutants: Seq<Planted>,
    file: int,
    function: int,
    id: int,
) -> bool {
    &&& 0 <= file < sources.len()
    &&& file_outcome(sources[file].1, of_file(mutants, sources[file].0)) matches Some((_, groups))
    &&& 0 <= function < groups.len() && groups[function].contains(id)
}

/// Whether every id of these mutants is one the database can assign.
pub open spec fn have_ids(mutants: Seq<Planted>) -> bool {
    forall|k: int| 0 <= k < mutants.len() ==> i64::MIN <= (#[trigger] mutants[k]).id <= i64::MAX
}

/// Whether a mutant lives in the body of a function of this list, and its copy
/// of that function is a module that parses.
pub open spec fn is_at_home(
    functions: Seq<Def>,
    source: Seq<char>,
    mutant: Planted,
) -> bool {
    exists|k: int|
        0 <= k < functions.len() && (#[trigger] functions[k]).holds(mutant) && functions[k].copied(
            source,
            functions[k].mutant_name(mutant.id),
            Some(mutant),
        ).is_some()
}

proof fn lemma_taken_were_given(function: Def, source: Seq<char>, mutants: Seq<Planted>, id: int)
    requires
        function.taken(source, mutants).contains(id),
    ensures
        exists|k: int|
            0 <= k < mutants.len() && (#[trigger] mutants[k]).id == id && function.copied(
                source,
                function.mutant_name(id),
                Some(mutants[k]),
            ).is_some(),
    decreases mutants.len(),
{
    let last = mutants.last();
    let before = function.taken(source, mutants.drop_last());
    if function.copied(source, function.mutant_name(last.id), Some(last)).is_some() && last.id == id {
        assert(mutants[mutants.len() - 1] == last);
    } else {
        let at = choose|at: int|
            0 <= at < function.taken(source, mutants).len() && function.taken(source, mutants)[at]
                == id;
        assert(before[at] == id);
        assert(before.contains(id));
        lemma_taken_were_given(function, source, mutants.drop_last(), id);
        let k = choose|k: int|
            0 <= k < mutants.len() - 1 && (#[trigger] mutants.drop_last()[k]).id == id
                && function.copied(
                source,
                function.mutant_name(id),
                Some(mutants.drop_last()[k]),
            ).is_some();
        assert(mutants[k] == mutants.drop_last()[k]);
    }
}

proof fn lemma_held_were_given(function: Def, mutants: Seq<Planted>, at: int)
    requires
        0 <= at < held(function, mutants).len(),
    ensures
        mutants.contains(held(function, mutants)[at]),
        function.holds(held(function, mutants)[at]),
    decreases mutants.len(),
{
    let before = held(function, mutants.drop_last());
    if at < before.len() {
        lemma_held_were_given(function, mutants.drop_last(), at);
        assert(held(function, mutants)[at] == before[at]);
        let k = choose|k: int| 0 <= k < mutants.len() - 1 && mutants.drop_last()[k] == before[at];
        assert(mutants[k] == before[at]);
    } else {
        assert(mutants[mutants.len() - 1] == mutants.last());
    }
}

proof fn lemma_groups_are_at_home(
    functions: Seq<Def>,
    source: Seq<char>,
    mutants: Seq<Planted>,
    group: int,
    id: int,
)
    requires
        0 <= group < family_groups(functions, source, mutants).len(),
        family_groups(functions, source, mutants)[group].contains(id),
    ensures
        exists|k: int|
            0 <= k < mutants.len() && (#[trigger] mutants[k]).id == id && is_at_home(
                functions,
                source,
                mutants[k],
            ),
    decreases functions.len(),
{
    let fewer = functions.drop_last();
    let before = family_groups(fewer, source, mutants);
    let function = functions.last();
    let mine = held(function, mutants);
    if group < before.len() {
        assert(family_groups(functions, source, mutants)[group] == before[group]);
        lemma_groups_are_at_home(fewer, source, mutants, group, id);
        let k = choose|k: int|
            0 <= k < mutants.len() && (#[trigger] mutants[k]).id == id && is_at_home(
                fewer,
                source,
                mutants[k],
            );
        let home = choose|home: int|
            0 <= home < fewer.len() && (#[trigger] fewer[home]).holds(mutants[k])
                && fewer[home].copied(
                source,
                fewer[home].mutant_name(mutants[k].id),
                Some(mutants[k]),
            ).is_some();
        assert(functions[home] == fewer[home]);
        assert(is_at_home(functions, source, mutants[k]));
    } else {
        lemma_taken_were_given(function, source, mine, id);
        let at = choose|at: int|
            0 <= at < mine.len() && (#[trigger] mine[at]).id == id && function.copied(
                source,
                function.mutant_name(id),
                Some(mine[at]),
            ).is_some();
        lemma_held_were_given(function, mutants, at);
        let k = choose|k: int| 0 <= k < mutants.len() && mutants[k] == mine[at];
        assert(functions[functions.len() - 1] == function);
        assert(is_at_home(functions, source, mutants[k]));
    }
}

proof fn lemma_of_file_were_given(mutants: Seq<Planted>, file: Seq<char>, at: int)
    requires
        0 <= at < of_file(mutants, file).len(),
    ensures
        mutants.contains(of_file(mutants, file)[at]),
        of_file(mutants, file)[at].file == file,
    decreases mutants.len(),
{
    let before = of_file(mutants.drop_last(), file);
    if at < before.len() {
        lemma_of_file_were_given(mutants.drop_last(), file, at);
        assert(of_file(mutants, file)[at] == before[at]);
        let k = choose|k: int| 0 <= k < mutants.len() - 1 && mutants.drop_last()[k] == before[at];
        assert(mutants[k] == before[at]);
    } else {
        assert(mutants[mutants.len() - 1] == mutants.last());
    }
}

/// What a function took is one of the mutants of its file, it lives in the body
/// of a function that can be copied, and its copy parses. So module-level code,
/// class attributes and signatures stay with the splice path, and a mutant that
/// breaks the syntax cannot take the others of its file down with it.
pub proof fn law_what_is_taken_is_at_home(
    sources: Seq<(Seq<char>, Seq<char>)>,
    mutants: Seq<Planted>,
    file: int,
    function: int,
    id: int,
)
    requires
        took(sources, mutants, file, function, id),
    ensures
        syntax::parsed(sources[file].1) matches Ok(outline) && exists|k: int|
            0 <= k < mutants.len() && (#[trigger] mutants[k]).id == id && mutants[k].file
                == sources[file].0 && is_at_home(
                functions_in(outline, outline.len() as int, sources[file].1),
                sources[file].1,
                mutants[k],
            ),
{
    let source = sources[file].1;
    let outline = syntax::parsed(source)->Ok_0;
    let functions = functions_in(outline, outline.len() as int, source);
    let mine = of_file(mutants, sources[file].0);
    lemma_groups_are_at_home(functions, source, mine, function, id);
    let at = choose|at: int|
        0 <= at < mine.len() && (#[trigger] mine[at]).id == id && is_at_home(
            functions,
            source,
            mine[at],
        );
    lemma_of_file_were_given(mutants, sources[file].0, at);
    let k = choose|k: int| 0 <= k < mutants.len() && mutants[k] == mine[at];
    assert(mutants[k].id == id);
}

proof fn lemma_with_group(hosted: Map<i64, Host>, group: Seq<int>, host: Host, id: i64)
    requires
        forall|k: int| 0 <= k < group.len() ==> i64::MIN <= #[trigger] group[k] <= i64::MAX,
    ensures
        group.contains(id as int) ==> with_group(hosted, group, host).contains_key(id)
            && with_group(hosted, group, host)[id] == host,
        !group.contains(id as int) ==> with_group(hosted, group, host).contains_key(id)
            == hosted.contains_key(id) && with_group(hosted, group, host)[id] == hosted[id],
    decreases group.len(),
{
    if group.len() > 0 {
        let fewer = group.drop_last();
        assert forall|k: int| 0 <= k < fewer.len() implies i64::MIN <= #[trigger] fewer[k]
            <= i64::MAX by {
            assert(fewer[k] == group[k]);
        }
        lemma_with_group(hosted, fewer, host, id);
        assert(group[group.len() - 1] == group.last());
        if group.contains(id as int) && group.last() != id as int {
            let at = choose|at: int| 0 <= at < group.len() && group[at] == id as int;
            assert(fewer[at] == id as int);
        }
        if fewer.contains(id as int) {
            let at = choose|at: int| 0 <= at < fewer.len() && fewer[at] == id as int;
            assert(group[at] == id as int);
        }
    }
}

/// Whether every id in these groups is one the database can assign.
spec fn groups_have_ids(groups: Seq<Seq<int>>) -> bool {
    forall|g: int, k: int|
        0 <= g < groups.len() && 0 <= k < groups[g].len() ==> i64::MIN <= #[trigger] groups[g][k]
            <= i64::MAX
}

proof fn lemma_with_groups(
    hosted: Map<i64, Host>,
    groups: Seq<Seq<int>>,
    file: usize,
    id: i64,
)
    requires
        groups_have_ids(groups),
    ensures
        ({
            let after = with_groups(hosted, groups, file);
            &&& hosted.contains_key(id) ==> after.contains_key(id)
            &&& forall|g: int|
                0 <= g < groups.len() && (#[trigger] groups[g]).contains(id as int)
                    ==> after.contains_key(id)
            &&& after.contains_key(id) ==> (hosted.contains_key(id) && after[id] == hosted[id]) || (
            exists|g: int|
                0 <= g < groups.len() && (#[trigger] groups[g]).contains(id as int) && after[id]
                    == (Host { file, function: g as usize }))
        }),
    decreases groups.len(),
{
    if groups.len() > 0 {
        let fewer = groups.drop_last();
        assert forall|g: int, k: int|
            0 <= g < fewer.len() && 0 <= k < fewer[g].len() implies i64::MIN
            <= #[trigger] fewer[g][k] <= i64::MAX by {
            assert(groups[g][k] == fewer[g][k]);
        }
        lemma_with_groups(hosted, fewer, file, id);
        let last = groups.last();
        let at = groups.len() - 1;
        assert(groups[at] == last);
        assert forall|k: int| 0 <= k < last.len() implies i64::MIN <= #[trigger] last[k]
            <= i64::MAX by {
            assert(groups[at][k] == last[k]);
        }
        let before = with_groups(hosted, fewer, file);
        let host = Host { file, function: at as usize };
        lemma_with_group(before, last, host, id);
        assert forall|g: int|
            0 <= g < groups.len() && (#[trigger] groups[g]).contains(
                id as int,
            ) implies with_groups(hosted, groups, file).contains_key(id) by {
            if g < at {
                assert(fewer[g] == groups[g]);
            }
        }
        if before.contains_key(id) && !last.contains(id as int) && !(hosted.contains_key(id)
            && before[id] == hosted[id]) {
            let g = choose|g: int|
                0 <= g < fewer.len() && (#[trigger] fewer[g]).contains(id as int) && before[id]
                    == (Host { file, function: g as usize });
            assert(groups[g] == fewer[g]);
        }
    }
}

proof fn lemma_outcome_has_ids(sources: Seq<(Seq<char>, Seq<char>)>, mutants: Seq<Planted>, file: int)
    requires
        have_ids(mutants),
        0 <= file < sources.len(),
    ensures
        file_outcome(sources[file].1, of_file(mutants, sources[file].0)) matches Some((_, groups))
            ==> groups_have_ids(groups),
{
    match file_outcome(sources[file].1, of_file(mutants, sources[file].0)) {
        Some((_, groups)) => {
            assert forall|g: int, k: int|
                0 <= g < groups.len() && 0 <= k < groups[g].len() implies i64::MIN
                <= #[trigger] groups[g][k] <= i64::MAX by {
                let id = groups[g][k];
                assert(groups[g].contains(id));
                assert(took(sources, mutants, file, g, id));
                law_what_is_taken_is_at_home(sources, mutants, file, g, id);
                let at = choose|at: int|
                    0 <= at < mutants.len() && (#[trigger] mutants[at]).id == id;
                assert(i64::MIN <= mutants[at].id <= i64::MAX);
            }
        },
        None => {},
    }
}

proof fn lemma_took_among_fewer(
    sources: Seq<(Seq<char>, Seq<char>)>,
    mutants: Seq<Planted>,
    file: int,
    function: int,
    id: int,
)
    requires
        sources.len() > 0,
    ensures
        file < sources.len() - 1 ==> took(sources.drop_last(), mutants, file, function, id) == took(
            sources,
            mutants,
            file,
            function,
            id,
        ),
        took(sources.drop_last(), mutants, file, function, id) ==> took(
            sources,
            mutants,
            file,
            function,
            id,
        ),
{
    if 0 <= file < sources.len() - 1 {
        assert(sources.drop_last()[file] == sources[file]);
    }
}

proof fn lemma_one_more_file(sources: Seq<(Seq<char>, Seq<char>)>, mutants: Seq<Planted>, id: i64)
    requires
        have_ids(mutants),
        sources.len() > 0,
    ensures
        ({
            let before = board(sources.drop_last(), mutants).hosted;
            let after = board(sources, mutants).hosted;
            let at = sources.len() - 1;
            &&& before.contains_key(id) ==> after.contains_key(id)
            &&& forall|g: int| #[trigger]
                took(sources, mutants, at, g, id as int) ==> after.contains_key(id)
            &&& after.contains_key(id) ==> (before.contains_key(id) && after[id] == before[id]) || (
            exists|g: int| #[trigger]
                took(sources, mutants, at, g, id as int) && after[id] == (Host {
                    file: at as usize,
                    function: g as usize,
                }))
        }),
{
    let before = board(sources.drop_last(), mutants).hosted;
    let after = board(sources, mutants).hosted;
    let at = sources.len() - 1;
    assert(sources[at] == sources.last());
    lemma_outcome_has_ids(sources, mutants, at);
    match file_outcome(sources[at].1, of_file(mutants, sources[at].0)) {
        Some((_, groups)) => {
            assert(after == with_groups(before, groups, at as usize));
            lemma_with_groups(before, groups, at as usize, id);
            assert forall|g: int| #[trigger]
                took(sources, mutants, at, g, id as int) implies after.contains_key(id) by {
                assert(groups[g].contains(id as int));
            }
            if after.contains_key(id) && !(before.contains_key(id) && after[id] == before[id]) {
                let g = choose|g: int|
                    0 <= g < groups.len() && (#[trigger] groups[g]).contains(id as int)
                        && after[id] == (Host { file: at as usize, function: g as usize });
                assert(took(sources, mutants, at, g, id as int));
            }
        },
        None => {
            assert(after == before);
        },
    }
}

proof fn lemma_took_is_hosted(
    sources: Seq<(Seq<char>, Seq<char>)>,
    mutants: Seq<Planted>,
    file: int,
    function: int,
    id: i64,
)
    requires
        have_ids(mutants),
        took(sources, mutants, file, function, id as int),
    ensures
        board(sources, mutants).hosted.contains_key(id),
    decreases sources.len(),
{
    lemma_one_more_file(sources, mutants, id);
    if file < sources.len() - 1 {
        lemma_took_among_fewer(sources, mutants, file, function, id as int);
        lemma_took_is_hosted(sources.drop_last(), mutants, file, function, id);
    }
}

proof fn lemma_host_took(
    sources: Seq<(Seq<char>, Seq<char>)>,
    mutants: Seq<Planted>,
    id: i64,
) -> (home: (int, int))
    requires
        have_ids(mutants),
        board(sources, mutants).hosted.contains_key(id),
    ensures
        took(sources, mutants, home.0, home.1, id as int),
        board(sources, mutants).hosted[id] == (Host {
            file: home.0 as usize,
            function: home.1 as usize,
        }),
    decreases sources.len(),
{
    if sources.len() == 0 {
        assert(false);
        (0, 0)
    } else {
        let before = board(sources.drop_last(), mutants).hosted;
        let after = board(sources, mutants).hosted;
        let at = sources.len() - 1;
        lemma_one_more_file(sources, mutants, id);
        if before.contains_key(id) && after[id] == before[id] {
            let home = lemma_host_took(sources.drop_last(), mutants, id);
            lemma_took_among_fewer(sources, mutants, home.0, home.1, id as int);
            home
        } else {
            let g = choose|g: int| #[trigger]
                took(sources, mutants, at, g, id as int) && after[id] == (Host {
                    file: at as usize,
                    function: g as usize,
                });
            (at, g)
        }
    }
}

/// A mutant has a host exactly when a function took it, and the host is one
/// that did.
pub proof fn law_a_host_took_its_mutant(
    sources: Seq<(Seq<char>, Seq<char>)>,
    mutants: Seq<Planted>,
    id: i64,
)
    requires
        have_ids(mutants),
    ensures
        ({
            let hosted = board(sources, mutants).hosted;
            &&& forall|file: int, function: int|
                #[trigger] took(sources, mutants, file, function, id as int) ==> hosted.contains_key(
                    id,
                )
            &&& hosted.contains_key(id) ==> exists|file: int, function: int| #[trigger]
                took(sources, mutants, file, function, id as int) && hosted[id] == (Host {
                    file: file as usize,
                    function: function as usize,
                })
        }),
{
    let hosted = board(sources, mutants).hosted;
    assert forall|file: int, function: int| #[trigger]
        took(sources, mutants, file, function, id as int) implies hosted.contains_key(id) by {
        lemma_took_is_hosted(sources, mutants, file, function, id);
    }
    if hosted.contains_key(id) {
        let home = lemma_host_took(sources, mutants, id);
        assert(took(sources, mutants, home.0, home.1, id as int));
    }
}

/// Whether functions come one behind the other, each with its body.
pub open spec fn are_in_turn(functions: Seq<Def>) -> bool {
    &&& forall|k: int|
        0 <= k < functions.len() ==> 0 <= (#[trigger] functions[k]).replace_from
            < functions[k].body_start <= functions[k].end
    &&& forall|k: int, l: int|
        0 <= k < l < functions.len() ==> (#[trigger] functions[k]).end <= (
        #[trigger] functions[l]).replace_from
}

proof fn lemma_with_functions_in_turn(list: Seq<Def>, more: Seq<Def>)
    requires
        are_in_turn(list),
    ensures
        are_in_turn(with_functions(list, more)),
    decreases more.len(),
{
    if more.len() > 0 {
        lemma_with_functions_in_turn(list, more.drop_last());
        let before = with_functions(list, more.drop_last());
        if follows(before, more.last()) {
            let after = before.push(more.last());
            assert forall|k: int, l: int| 0 <= k < l < after.len() implies (#[trigger] after[k]).end
                <= (#[trigger] after[l]).replace_from by {
                if l == before.len() && k < before.len() - 1 {
                    let last = before[before.len() - 1];
                    assert(before[k].end <= last.replace_from);
                }
            }
        }
    }
}

/// The functions that a file's mutants are compiled into do not overlap.
pub proof fn law_the_functions_of_a_file_are_apart(
    outline: Seq<Mark>,
    upto: int,
    source: Seq<char>,
)
    ensures
        are_in_turn(functions_in(outline, upto, source)),
    decreases upto,
{
    if upto > 0 {
        law_the_functions_of_a_file_are_apart(outline, upto - 1, source);
        lemma_with_functions_in_turn(
            functions_in(outline, upto - 1, source),
            opened_functions(outline, upto - 1, outline[upto - 1].path.len() as int, source),
        );
    }
}

/// The how-manieth function a group of mutants belongs to.
spec fn owner(functions: Seq<Def>, source: Seq<char>, mutants: Seq<Planted>, group: int) -> int
    decreases functions.len(),
{
    if functions.len() == 0 {
        0
    } else {
        let fewer = functions.drop_last();
        if group < family_groups(fewer, source, mutants).len() {
            owner(fewer, source, mutants, group)
        } else {
            functions.len() - 1
        }
    }
}

proof fn lemma_owner(functions: Seq<Def>, source: Seq<char>, mutants: Seq<Planted>, group: int)
    requires
        0 <= group < family_groups(functions, source, mutants).len(),
    ensures
        0 <= owner(functions, source, mutants, group) < functions.len(),
        ({
            let function = functions[owner(functions, source, mutants, group)];
            family_groups(functions, source, mutants)[group] == function.taken(
                source,
                held(function, mutants),
            )
        }),
    decreases functions.len(),
{
    let fewer = functions.drop_last();
    let before = family_groups(fewer, source, mutants);
    if group < before.len() {
        lemma_owner(fewer, source, mutants, group);
        assert(functions[owner(fewer, source, mutants, group)] == fewer[owner(
            fewer,
            source,
            mutants,
            group,
        )]);
    }
}

proof fn lemma_owners_differ(
    functions: Seq<Def>,
    source: Seq<char>,
    mutants: Seq<Planted>,
    one: int,
    other: int,
)
    requires
        0 <= one < other < family_groups(functions, source, mutants).len(),
    ensures
        owner(functions, source, mutants, one) < owner(functions, source, mutants, other),
    decreases functions.len(),
{
    let fewer = functions.drop_last();
    let before = family_groups(fewer, source, mutants);
    if other < before.len() {
        lemma_owners_differ(fewer, source, mutants, one, other);
    } else {
        lemma_owner(fewer, source, mutants, one);
    }
}

/// There are no more groups than bytes.
proof fn lemma_groups_are_few(functions: Seq<Def>, source: Seq<char>, mutants: Seq<Planted>)
    requires
        are_in_turn(functions),
    ensures
        functions.len() > 0 ==> family_groups(functions, source, mutants).len()
            <= functions.last().end,
        functions.len() == 0 ==> family_groups(functions, source, mutants).len() == 0,
        family_groups(functions, source, mutants).len() <= text::width(source),
    decreases functions.len(),
{
    if functions.len() > 0 {
        let fewer = functions.drop_last();
        let function = functions.last();
        assert(functions[functions.len() - 1] == function);
        lemma_groups_are_few(fewer, source, mutants);
        if fewer.len() > 0 {
            assert(functions[functions.len() - 2] == fewer.last());
        }
        if function.family(source, held(function, mutants)).is_some() {
            assert(function.copied(source, function.orig_name(), None).is_some());
            assert(text::sliced(source, function.def_start, function.end).is_some());
        }
    }
}

/// Whether every id and every file name is used once.
pub open spec fn are_distinct(
    sources: Seq<(Seq<char>, Seq<char>)>,
    mutants: Seq<Planted>,
) -> bool {
    &&& forall|i: int, j: int|
        0 <= i < j < mutants.len() ==> (#[trigger] mutants[i]).id != (#[trigger] mutants[j]).id
    &&& forall|i: int, j: int|
        0 <= i < j < sources.len() ==> (#[trigger] sources[i]).0 != (#[trigger] sources[j]).0
}

/// Whether a mutant lies in the body of this function: the how-manieth file, and
/// the how-manieth function of its module and its classes.
pub open spec fn lies_in(
    sources: Seq<(Seq<char>, Seq<char>)>,
    mutant: Planted,
    file: int,
    function: int,
) -> bool {
    &&& 0 <= file < sources.len()
    &&& sources[file].0 == mutant.file
    &&& syntax::parsed(sources[file].1) matches Ok(outline) && ({
        let functions = functions_in(outline, outline.len() as int, sources[file].1);
        0 <= function < functions.len() && functions[function].holds(mutant)
    })
}

/// Whether one function of one file holds two mutants in its body.
pub open spec fn share_a_function(
    sources: Seq<(Seq<char>, Seq<char>)>,
    a: Planted,
    b: Planted,
) -> bool {
    exists|file: int, function: int| #[trigger]
        lies_in(sources, a, file, function) && lies_in(sources, b, file, function)
}

/// A mutant lies in at most one function of its file.
proof fn lemma_one_home(
    sources: Seq<(Seq<char>, Seq<char>)>,
    mutants: Seq<Planted>,
    mutant: Planted,
    one: (int, int),
    other: (int, int),
)
    requires
        are_distinct(sources, mutants),
        mutant.byte_start <= mutant.byte_end,
        lies_in(sources, mutant, one.0, one.1),
        lies_in(sources, mutant, other.0, other.1),
    ensures
        one == other,
{
    if one.0 < other.0 {
        assert(sources[one.0].0 != sources[other.0].0);
    }
    if other.0 < one.0 {
        assert(sources[other.0].0 != sources[one.0].0);
    }
    let source = sources[one.0].1;
    let outline = syntax::parsed(source)->Ok_0;
    let functions = functions_in(outline, outline.len() as int, source);
    law_the_functions_of_a_file_are_apart(outline, outline.len() as int, source);
    assert(functions[one.1].replace_from < functions[one.1].body_start);
    assert(functions[other.1].replace_from < functions[other.1].body_start);
    if one.1 < other.1 {
        assert(functions[one.1].end <= functions[other.1].replace_from);
    }
    if other.1 < one.1 {
        assert(functions[other.1].end <= functions[one.1].replace_from);
    }
}

/// The how-manieth function of a file a group of its mutants belongs to.
spec fn home_of(
    sources: Seq<(Seq<char>, Seq<char>)>,
    mutants: Seq<Planted>,
    file: int,
    group: int,
) -> int {
    let (name, source) = sources[file];
    let outline = syntax::parsed(source)->Ok_0;
    owner(
        functions_in(outline, outline.len() as int, source),
        source,
        of_file(mutants, name),
        group,
    )
}

/// A hosted mutant lies in the function that its host stands for.
#[verifier::spinoff_prover]
#[verifier::rlimit(60)]
proof fn lemma_home(
    sources: Seq<(Seq<char>, Seq<char>)>,
    mutants: Seq<Planted>,
    at: int,
) -> (home: (int, int))
    requires
        have_ids(mutants),
        are_distinct(sources, mutants),
        0 <= at < mutants.len(),
        board(sources, mutants).hosted.contains_key(mutants[at].id as i64),
    ensures
        took(sources, mutants, home.0, home.1, mutants[at].id),
        board(sources, mutants).hosted[mutants[at].id as i64] == (Host {
            file: home.0 as usize,
            function: home.1 as usize,
        }),
        lies_in(sources, mutants[at], home.0, home_of(sources, mutants, home.0, home.1)),
        mutants[at].byte_start <= mutants[at].byte_end,
        home.1 <= usize::MAX,
{
    let mutant = mutants[at];
    let home = lemma_host_took(sources, mutants, mutant.id as i64);
    let source = sources[home.0].1;
    let outline = syntax::parsed(source)->Ok_0;
    let functions = functions_in(outline, outline.len() as int, source);
    let mine = of_file(mutants, sources[home.0].0);
    let k = owner(functions, source, mine, home.1);
    lemma_owner(functions, source, mine, home.1);
    let given = held(functions[k], mine);
    lemma_taken_were_given(functions[k], source, given, mutant.id);
    let g = choose|g: int|
        0 <= g < given.len() && (#[trigger] given[g]).id == mutant.id && functions[k].copied(
            source,
            functions[k].mutant_name(mutant.id),
            Some(given[g]),
        ).is_some();
    lemma_held_were_given(functions[k], mine, g);
    let m = choose|m: int| 0 <= m < mine.len() && mine[m] == given[g];
    lemma_of_file_were_given(mutants, sources[home.0].0, m);
    let n = choose|n: int| 0 <= n < mutants.len() && mutants[n] == given[g];
    if n < at {
        assert(mutants[n].id != mutants[at].id);
    }
    if at < n {
        assert(mutants[at].id != mutants[n].id);
    }
    assert(given[g] == mutant);
    law_the_functions_of_a_file_are_apart(outline, outline.len() as int, source);
    lemma_groups_are_few(functions, source, mine);
    home
}

/// Two hosted mutants share a host exactly when one function of one file, of its
/// module or of a class in it, holds both in its body. That is what keeps them
/// out of one another's runs, and lets the mutants of two functions share one.
pub proof fn law_a_host_is_shared_within_one_function(
    sources: Seq<(Seq<char>, Seq<char>)>,
    mutants: Seq<Planted>,
    a: int,
    b: int,
)
    requires
        have_ids(mutants),
        are_distinct(sources, mutants),
        sources.len() <= usize::MAX,
        0 <= a < mutants.len(),
        0 <= b < mutants.len(),
    ensures
        ({
            let hosted = board(sources, mutants).hosted;
            let one = mutants[a].id as i64;
            let other = mutants[b].id as i64;
            hosted.contains_key(one) && hosted.contains_key(other) ==> (hosted[one] == hosted[other]
                <==> share_a_function(sources, mutants[a], mutants[b]))
        }),
{
    let hosted = board(sources, mutants).hosted;
    let one = mutants[a].id as i64;
    let other = mutants[b].id as i64;
    if hosted.contains_key(one) && hosted.contains_key(other) {
        let home = lemma_home(sources, mutants, a);
        let away = lemma_home(sources, mutants, b);
        let house = home_of(sources, mutants, home.0, home.1);
        let shed = home_of(sources, mutants, away.0, away.1);
        if hosted[one] == hosted[other] {
            assert(home == away);
            assert(lies_in(sources, mutants[a], home.0, house));
            assert(lies_in(sources, mutants[b], home.0, house));
        }
        if share_a_function(sources, mutants[a], mutants[b]) {
            let (file, function) = choose|file: int, function: int| #[trigger]
                lies_in(sources, mutants[a], file, function) && lies_in(
                    sources,
                    mutants[b],
                    file,
                    function,
                );
            lemma_one_home(sources, mutants, mutants[a], (file, function), (home.0, house));
            lemma_one_home(sources, mutants, mutants[b], (file, function), (away.0, shed));
            let source = sources[file].1;
            let outline = syntax::parsed(source)->Ok_0;
            let functions = functions_in(outline, outline.len() as int, source);
            let mine = of_file(mutants, sources[file].0);
            if home.1 < away.1 {
                lemma_owners_differ(functions, source, mine, home.1, away.1);
            }
            if away.1 < home.1 {
                lemma_owners_differ(functions, source, mine, away.1, home.1);
            }
            assert(home == away);
        }
    }
}

/// A mutant that no function's body holds has no host: module-level code, class
/// attributes, decorators and signatures stay with the splice path.
pub proof fn law_what_no_body_holds_has_no_host(
    sources: Seq<(Seq<char>, Seq<char>)>,
    mutants: Seq<Planted>,
    at: int,
)
    requires
        have_ids(mutants),
        are_distinct(sources, mutants),
        0 <= at < mutants.len(),
        forall|file: int, function: int| !#[trigger] lies_in(sources, mutants[at], file, function),
    ensures
        !board(sources, mutants).hosted.contains_key(mutants[at].id as i64),
{
    if board(sources, mutants).hosted.contains_key(mutants[at].id as i64) {
        let home = lemma_home(sources, mutants, at);
        assert(lies_in(sources, mutants[at], home.0, home_of(sources, mutants, home.0, home.1)));
    }
}

/// Whether a text can be the name of a parameter of a wrapper.
pub open spec fn is_parameter(s: Seq<char>) -> bool {
    s.len() > 0 && forall|i: int|
        0 <= i < s.len() ==> ('a' <= #[trigger] s[i] && s[i] <= 'z') || s[i] == '_'
}

/// Whether a wrapper with these five parameters passes on what it is given: it
/// collects the positional arguments under the first name and the keyword
/// arguments under the second, hands both on the same way to what the pick gives,
/// and takes the original, the table and the cache as defaults.
pub open spec fn forwards(
    function: Def,
    args: Seq<char>,
    kwargs: Seq<char>,
    original: Seq<char>,
    table: Seq<char>,
    cache: Seq<char>,
) -> bool {
    let head = if function.shape is Async {
        "async def "@
    } else {
        "def "@
    };
    let before = match function.shape {
        Shape::Plain => "return "@,
        Shape::Async => "return await "@,
        Shape::Generator => "return (yield from "@,
    };
    let after = if function.shape is Generator {
        ")"@
    } else {
        ""@
    };
    function.wrapper() == head + function.name + "(*"@ + args + ", "@ + original + "="@
        + function.name + "__angelo_orig"@ + ", "@ + table + "="@ + function.name
        + "__angelo_mutants"@ + ", "@ + cache + "=[-1, None], **"@ + kwargs + "):\n"@
        + function.indent + "    "@ + before + "_angelo_pick("@ + original + ", "@ + table + ", "@
        + cache + ")(*"@ + args + ", **"@ + kwargs + ")"@ + after + "\n"@
}

/// The wrapper is transparent: whatever name its signature binds with `*` is
/// passed on with `*`, and whatever name it binds with `**` is passed on with
/// `**`, for every shape. So calling it is calling the picked copy with the same
/// arguments.
pub proof fn law_the_wrapper_forwards_every_argument(function: Def)
    ensures
        exists|
            args: Seq<char>,
            kwargs: Seq<char>,
            original: Seq<char>,
            table: Seq<char>,
            cache: Seq<char>,
        | #[trigger]
            forwards(function, args, kwargs, original, table, cache) && is_parameter(args)
                && is_parameter(kwargs) && is_parameter(original) && is_parameter(table)
                && is_parameter(cache) && args != kwargs && args != original && args != table && args
                != cache && kwargs != original && kwargs != table && kwargs != cache && original
                != table && original != cache && table != cache,
{
    let args = "_angelo_args"@;
    let kwargs = "_angelo_kwargs"@;
    let original = "_angelo_orig"@;
    let table = "_angelo_mutants"@;
    let cache = "_angelo_cache"@;
    reveal_strlit("_angelo_args");
    reveal_strlit("_angelo_kwargs");
    reveal_strlit("_angelo_orig");
    reveal_strlit("_angelo_mutants");
    reveal_strlit("_angelo_cache");
    assert(is_parameter(args) && is_parameter(kwargs) && is_parameter(original) && is_parameter(
        table,
    ) && is_parameter(cache));
    assert(args[8] == 'a' && kwargs[8] == 'k' && original[8] == 'o' && table[8] == 'm' && cache[8]
        == 'c');
    assert(""@ =~= Seq::<char>::empty()) by {
        reveal_strlit("");
    }
    reveal_strlit("_angelo_pick(_angelo_orig, _angelo_mutants, _angelo_cache)(*_angelo_args, **_angelo_kwargs)");
    reveal_strlit("_angelo_pick(");
    reveal_strlit("(*_angelo_args, _angelo_orig=");
    reveal_strlit(", _angelo_mutants=");
    reveal_strlit(", _angelo_cache=[-1, None], **_angelo_kwargs):\n");
    reveal_strlit("async def");
    reveal_strlit("async def ");
    reveal_strlit("def");
    reveal_strlit("def ");
    reveal_strlit(" ");
    reveal_strlit("(*");
    reveal_strlit(", ");
    reveal_strlit("=");
    reveal_strlit("=[-1, None], **");
    reveal_strlit("):\n");
    reveal_strlit(")(*");
    reveal_strlit(", **");
    reveal_strlit(")");
    reveal_strlit("");
    let call = "_angelo_pick("@ + original + ", "@ + table + ", "@ + cache + ")(*"@ + args
        + ", **"@ + kwargs + ")"@;
    assert(Def::call() =~= call);
    assert("async def"@ + " "@ =~= "async def "@);
    assert("def"@ + " "@ =~= "def "@);
    assert("(*_angelo_args, _angelo_orig="@ =~= "(*"@ + args + ", "@ + original + "="@);
    assert(", _angelo_mutants="@ =~= ", "@ + table + "="@);
    assert(", _angelo_cache=[-1, None], **_angelo_kwargs):\n"@ =~= ", "@ + cache
        + "=[-1, None], **"@ + kwargs + "):\n"@);
    lemma_forwards(function, args, kwargs, original, table, cache);
}

proof fn lemma_regroup(a: Seq<char>, b: Seq<char>, c: Seq<char>)
    ensures
        a + (b + c) == (a + b) + c,
{
    assert(a + (b + c) =~= (a + b) + c);
}

proof fn lemma_forwards(
    function: Def,
    args: Seq<char>,
    kwargs: Seq<char>,
    original: Seq<char>,
    table: Seq<char>,
    cache: Seq<char>,
)
    requires
        Def::call() == "_angelo_pick("@ + original + ", "@ + table + ", "@ + cache + ")(*"@ + args
            + ", **"@ + kwargs + ")"@,
        "async def"@ + " "@ == "async def "@,
        "def"@ + " "@ == "def "@,
        "(*_angelo_args, _angelo_orig="@ == "(*"@ + args + ", "@ + original + "="@,
        ", _angelo_mutants="@ == ", "@ + table + "="@,
        ", _angelo_cache=[-1, None], **_angelo_kwargs):\n"@ == ", "@ + cache + "=[-1, None], **"@
            + kwargs + "):\n"@,
        ""@ == Seq::<char>::empty(),
    ensures
        forwards(function, args, kwargs, original, table, cache),
{
    let head = if function.shape is Async {
        "async def "@
    } else {
        "def "@
    };
    let before = match function.shape {
        Shape::Plain => "return "@,
        Shape::Async => "return await "@,
        Shape::Generator => "return (yield from "@,
    };
    let after = if function.shape is Generator {
        ")"@
    } else {
        ""@
    };
    let name = function.name;
    let start = head + name;
    lemma_regroup(start, "(*"@ + args + ", "@ + original, "="@);
    lemma_regroup(start, "(*"@ + args + ", "@, original);
    lemma_regroup(start, "(*"@ + args, ", "@);
    lemma_regroup(start, "(*"@, args);
    let bound = start + "(*"@ + args + ", "@ + original + "="@;
    lemma_regroup(bound, name, "__angelo_orig"@);
    let first = bound + name + "__angelo_orig"@;
    lemma_regroup(first, ", "@ + table, "="@);
    lemma_regroup(first, ", "@, table);
    let second = first + ", "@ + table + "="@;
    lemma_regroup(second, name, "__angelo_mutants"@);
    let third = second + name + "__angelo_mutants"@;
    lemma_regroup(third, ", "@ + cache + "=[-1, None], **"@ + kwargs, "):\n"@);
    lemma_regroup(third, ", "@ + cache + "=[-1, None], **"@, kwargs);
    lemma_regroup(third, ", "@ + cache, "=[-1, None], **"@);
    lemma_regroup(third, ", "@, cache);
    let signature = third + ", "@ + cache + "=[-1, None], **"@ + kwargs + "):\n"@;
    let opened = signature + function.indent + "    "@;
    let call = Def::call();
    let statement = match function.shape {
        Shape::Plain => "return "@ + call,
        Shape::Async => "return await "@ + call,
        Shape::Generator => "return (yield from "@ + call + ")"@,
    };
    assert(function.wrapper() == opened + statement + "\n"@);
    assert(before + call + after =~= statement);
    lemma_regroup(opened, before + call, after);
    lemma_regroup(opened, before, call);
    let said = opened + before;
    lemma_regroup(said, "_angelo_pick("@ + original + ", "@ + table + ", "@ + cache + ")(*"@ + args + ", **"@ + kwargs, ")"@);
    lemma_regroup(said, "_angelo_pick("@ + original + ", "@ + table + ", "@ + cache + ")(*"@ + args + ", **"@, kwargs);
    lemma_regroup(said, "_angelo_pick("@ + original + ", "@ + table + ", "@ + cache + ")(*"@ + args, ", **"@);
    lemma_regroup(said, "_angelo_pick("@ + original + ", "@ + table + ", "@ + cache + ")(*"@, args);
    lemma_regroup(said, "_angelo_pick("@ + original + ", "@ + table + ", "@ + cache, ")(*"@);
    lemma_regroup(said, "_angelo_pick("@ + original + ", "@ + table + ", "@, cache);
    lemma_regroup(said, "_angelo_pick("@ + original + ", "@ + table, ", "@);
    lemma_regroup(said, "_angelo_pick("@ + original + ", "@, table);
    lemma_regroup(said, "_angelo_pick("@ + original, ", "@);
    lemma_regroup(said, "_angelo_pick("@, original);
}

/// The list of live mutants names each of them: split at its commas, it is their
/// ids in decimal, in order.
pub proof fn law_the_active_list_names_every_mutant(mutants: Seq<Planted>)
    requires
        mutants.len() > 0,
    ensures
        text::split_on(active_of(mutants), ',') == mutants.map_values(
            |mutant: Planted| text::signed(mutant.id),
        ),
{
    let pieces = mutants.map_values(|mutant: Planted| text::signed(mutant.id));
    assert forall|k: int| 0 <= k < pieces.len() implies !(#[trigger] pieces[k]).contains(',') by {
        lemma_signed_holds_no_comma(mutants[k].id);
    }
    reveal_strlit(",");
    assert(","@ =~= seq![',']);
    text::law_splitting_undoes_joining(pieces, ',');
}

proof fn lemma_signed_holds_no_comma(n: int)
    ensures
        !text::signed(n).contains(','),
{
    let s = text::signed(n);
    if n < 0 {
        text::law_decimal_digits((-n) as nat);
    } else {
        text::law_decimal_digits(n as nat);
    }
    if s.contains(',') {
        let k = choose|k: int| 0 <= k < s.len() && s[k] == ',';
        if n < 0 {
            assert(k > 0 ==> text::decimal((-n) as nat)[k - 1] == ',');
        }
    }
}

proof fn lemma_sorted_pair(first: Change, second: Change)
    requires
        first.start < second.start,
    ensures
        sorting::in_order(seq![first, second], edits::back_to_front()) == seq![second, first],
{
    let rank = edits::back_to_front();
    let list = seq![first, second];
    assert(list.drop_last() =~= seq![first]);
    assert(seq![first].drop_last() =~= Seq::<Change>::empty());
    assert(sorting::in_order(Seq::<Change>::empty(), rank) == Seq::<Change>::empty());
    assert(sorting::in_order(seq![first], rank) =~= seq![first]);
    assert(rank(first) > rank(second));
    assert(sorting::placed(Seq::<Change>::empty(), second, rank) =~= seq![second]);
    assert(sorting::placed(seq![first], second, rank) =~= seq![second, first]);
}

/// A copy of a function is the function's own text, byte for byte, with another
/// name and with at most one mutant in it: nothing else about it changes.
pub proof fn law_a_copy_changes_the_name_and_the_mutant(
    function: Def,
    source: Seq<char>,
    name: Seq<char>,
    planted: Planted,
)
    requires
        0 <= function.def_start <= function.name_start < function.name_end <= planted.byte_start
            <= planted.byte_end <= function.end,
    ensures
        ({
            let bytes = encode_utf8(source);
            let renamed = bytes.subrange(function.def_start, function.name_start) + encode_utf8(
                name,
            );
            &&& function.renamed(source, name, None) matches Some(out) ==> encode_utf8(out)
                == renamed + bytes.subrange(function.name_end, function.end)
            &&& function.renamed(source, name, Some(planted)) matches Some(out) ==> encode_utf8(out)
                == renamed + bytes.subrange(function.name_end, planted.byte_start) + encode_utf8(
                planted.replacement,
            ) + bytes.subrange(planted.byte_end, function.end) && text::sliced(
                source,
                planted.byte_start,
                planted.byte_end,
            ).is_some()
        }),
{
    lemma_renamed(function, source, name);
    lemma_mutated(function, source, name, planted);
}

proof fn lemma_renamed(function: Def, source: Seq<char>, name: Seq<char>)
    requires
        0 <= function.def_start <= function.name_start < function.name_end <= function.end,
    ensures
        function.renamed(source, name, None) matches Some(out) ==> encode_utf8(out) == encode_utf8(
            source,
        ).subrange(function.def_start, function.name_start) + encode_utf8(name) + encode_utf8(
            source,
        ).subrange(function.name_end, function.end),
{
    let bytes = encode_utf8(source);
    let from = function.def_start;
    let rename = Change {
        start: function.name_start - from,
        end: function.name_end - from,
        text: name,
    };
    match (text::sliced(source, from, function.end), function.renamed(source, name, None)) {
        (Some(own), Some(out)) => {
            text::law_a_slice_holds_its_bytes(source, from, function.end);
            let mine = encode_utf8(own);
            assert(seq![rename].drop_last() =~= Seq::<Change>::empty());
            assert(sorting::in_order(Seq::<Change>::empty(), edits::back_to_front())
                == Seq::<Change>::empty());
            assert(sorting::in_order(seq![rename], edits::back_to_front()) =~= seq![rename]);
            assert(edits::applied(own, Seq::<Change>::empty()) == Some(own));
            assert(edits::edited(own, rename) == Some(out));
            text::lemma_spliced_bytes(own, rename.start, rename.end, name);
            assert(mine.subrange(0, rename.start) =~= bytes.subrange(from, function.name_start));
            assert(mine.subrange(rename.end, mine.len() as int) =~= bytes.subrange(
                function.name_end,
                function.end,
            ));
        },
        _ => {},
    }
}

#[verifier::spinoff_prover]
#[verifier::rlimit(50)]
proof fn lemma_mutated(function: Def, source: Seq<char>, name: Seq<char>, planted: Planted)
    requires
        0 <= function.def_start <= function.name_start < function.name_end <= planted.byte_start
            <= planted.byte_end <= function.end,
    ensures
        function.renamed(source, name, Some(planted)) matches Some(out) ==> encode_utf8(out)
            == encode_utf8(source).subrange(function.def_start, function.name_start) + encode_utf8(
            name,
        ) + encode_utf8(source).subrange(function.name_end, planted.byte_start) + encode_utf8(
            planted.replacement,
        ) + encode_utf8(source).subrange(planted.byte_end, function.end) && text::sliced(
            source,
            planted.byte_start,
            planted.byte_end,
        ).is_some(),
{
    let bytes = encode_utf8(source);
    let from = function.def_start;
    let rename = Change {
        start: function.name_start - from,
        end: function.name_end - from,
        text: name,
    };
    match (
        text::sliced(source, from, function.end),
        function.renamed(source, name, Some(planted)),
    ) {
        (Some(own), Some(out)) => {
            text::law_a_slice_holds_its_bytes(source, from, function.end);
            let mine = encode_utf8(own);
            let change = Change {
                start: planted.byte_start - from,
                end: planted.byte_end - from,
                text: planted.replacement,
            };
            lemma_sorted_pair(rename, change);
            assert(seq![change, rename].drop_last() =~= seq![change]);
            assert(seq![change].drop_last() =~= Seq::<Change>::empty());
            assert(edits::applied(own, Seq::<Change>::empty()) == Some(own));
            assert(edits::applied(own, seq![change]) == edits::edited(own, change));
            let after = edits::applied(own, seq![change]).unwrap();
            assert(edits::edited(after, rename) == Some(out));
            text::lemma_spliced_bytes(own, change.start, change.end, change.text);
            text::lemma_spliced_bytes(after, rename.start, rename.end, name);
            lemma_two_splices(
                bytes,
                from,
                function.name_start,
                function.name_end,
                planted.byte_start,
                planted.byte_end,
                function.end,
                encode_utf8(name),
                encode_utf8(planted.replacement),
            );
            lemma_slice_of_a_slice(source, from, function.end, change.start, change.end);
        },
        _ => {},
    }
}

proof fn lemma_two_splices(
    bytes: Seq<u8>,
    from: int,
    a: int,
    b: int,
    c: int,
    d: int,
    to: int,
    first: Seq<u8>,
    second: Seq<u8>,
)
    requires
        0 <= from <= a <= b <= c <= d <= to <= bytes.len(),
    ensures
        ({
            let mine = bytes.subrange(from, to);
            let now = mine.subrange(0, c - from) + second + mine.subrange(
                d - from,
                mine.len() as int,
            );
            now.subrange(0, a - from) + first + now.subrange(b - from, now.len() as int)
                == bytes.subrange(from, a) + first + bytes.subrange(b, c) + second
                + bytes.subrange(d, to)
        }),
{
    let mine = bytes.subrange(from, to);
    let head = mine.subrange(0, c - from);
    let tail = mine.subrange(d - from, mine.len() as int);
    let now = head + second + tail;
    assert(head =~= bytes.subrange(from, c));
    assert(tail =~= bytes.subrange(d, to));
    assert(now.subrange(0, a - from) =~= bytes.subrange(from, a));
    let rest = bytes.subrange(b, c) + second + tail;
    assert(now.subrange(b - from, now.len() as int) =~= rest);
    let start = bytes.subrange(from, a) + first;
    assert(start + rest =~= start + bytes.subrange(b, c) + second + tail);
}

proof fn lemma_slice_of_a_slice(source: Seq<char>, from: int, to: int, start: int, end: int)
    requires
        text::sliced(source, from, to).is_some(),
        text::sliced(text::sliced(source, from, to).unwrap(), start, end).is_some(),
    ensures
        text::sliced(source, from + start, from + end).is_some(),
{
    let bytes = encode_utf8(source);
    let own = text::sliced(source, from, to).unwrap();
    text::law_a_slice_holds_its_bytes(source, from, to);
    text::lemma_cut(source, from);
    let tail = text::sliced(source, from, text::width(source) as int).unwrap();
    let after = encode_utf8(tail);
    assert(after == bytes.subrange(from, bytes.len() as int));
    text::lemma_boundary_in_suffix(bytes, from, to);
    text::lemma_cut(tail, to - from);
    let mine = encode_utf8(own);
    assert(mine =~= after.subrange(0, to - from));
    assert(mine.subrange(0, to - from) =~= after.subrange(0, to - from));
    edits::lemma_boundary_in_shared_prefix(mine, after, to - from, start);
    edits::lemma_boundary_in_shared_prefix(mine, after, to - from, end);
    text::lemma_boundary_in_suffix(bytes, from, from + start);
    text::lemma_boundary_in_suffix(bytes, from, from + end);
}

proof fn lemma_copies_hold_each(
    function: Def,
    source: Seq<char>,
    mutants: Seq<Planted>,
    k: int,
    copy: Seq<char>,
)
    requires
        0 <= k < mutants.len(),
        function.copied(source, function.mutant_name(mutants[k].id), Some(mutants[k])) == Some(copy),
    ensures
        text::occurs(function.copies(source, mutants), copy),
        function.taken(source, mutants).contains(mutants[k].id),
    decreases mutants.len(),
{
    let shorter = mutants.drop_last();
    let before = function.copies(source, shorter);
    let ids = function.taken(source, shorter);
    let all = function.copies(source, mutants);
    let now = function.taken(source, mutants);
    if k == mutants.len() - 1 {
        assert(before + copy + Seq::<char>::empty() =~= all);
        text::lemma_occurs_between(before, copy, Seq::empty());
        assert(now[ids.len() as int] == mutants[k].id);
    } else {
        lemma_copies_hold_each(function, source, shorter, k, copy);
        let last = mutants.last();
        match function.copied(source, function.mutant_name(last.id), Some(last)) {
            Some(more) => {
                assert(Seq::<char>::empty() + before + more =~= all);
                text::lemma_occurs_within(Seq::empty(), before, more, copy);
            },
            None => {},
        }
        let at = choose|at: int| 0 <= at < ids.len() && ids[at] == mutants[k].id;
        assert(now[at] == mutants[k].id);
    }
}

/// A family holds what the pick needs: the original under its own name, a copy for
/// every mutant it took, and in the table, under each of their ids, the name of
/// that mutant's copy. The wrapper, with the decorators in front of it, comes
/// last, so that it is what the name stands for.
pub proof fn law_a_family_holds_every_copy(
    function: Def,
    source: Seq<char>,
    mutants: Seq<Planted>,
    family: Seq<char>,
    k: int,
    copy: Seq<char>,
)
    requires
        function.family(source, mutants) == Some(family),
        0 <= k < mutants.len(),
        function.copied(
            source,
            function.name + "__angelo_"@ + text::signed(mutants[k].id),
            Some(mutants[k]),
        ) == Some(copy),
    ensures
        text::occurs(family, copy),
        function.copied(source, function.name + "__angelo_orig"@, None) matches Some(original)
            && text::begins(family, original),
        text::occurs(
            family,
            text::signed(mutants[k].id) + ": "@ + (function.name + "__angelo_"@ + text::signed(
                mutants[k].id,
            )),
        ),
        text::occurs(family, function.indent + function.name + "__angelo_mutants"@ + " = {"@),
        text::ends(
            family,
            text::sliced(source, function.replace_from, function.def_start).unwrap()
                + function.wrapper(),
        ),
{
    let ids = function.taken(source, mutants);
    let original = function.copied(source, function.orig_name(), None).unwrap();
    let decorators = text::sliced(source, function.replace_from, function.def_start).unwrap();
    let copies = function.copies(source, mutants);
    let table = text::joined(function.entries(ids), ", "@);
    lemma_copies_hold_each(function, source, mutants, k, copy);
    let m = choose|m: int| 0 <= m < ids.len() && ids[m] == mutants[k].id;
    let entry = function.entries(ids)[m];
    assert(entry == text::signed(mutants[k].id) + ": "@ + (function.name + "__angelo_"@
        + text::signed(mutants[k].id)));
    text::law_every_piece_is_joined(function.entries(ids), ", "@, m);
    let opening = function.indent + function.mutants_name() + " = {"@;
    let closing = "}\n\n"@ + decorators + function.wrapper();
    lemma_family_parts(
        original,
        copies,
        function.indent,
        function.mutants_name(),
        table,
        decorators,
        function.wrapper(),
    );
    assert(family == original + copies + opening + table + closing);
    lemma_regroup("}\n\n"@, decorators, function.wrapper());
    lemma_regroup(function.indent, function.name, "__angelo_mutants"@);
    lemma_parts_stand_in_the_whole(
        original,
        copies,
        opening,
        table,
        "}\n\n"@,
        decorators + function.wrapper(),
        copy,
        entry,
    );
}

proof fn lemma_parts_stand_in_the_whole(
    original: Seq<char>,
    copies: Seq<char>,
    opening: Seq<char>,
    table: Seq<char>,
    brace: Seq<char>,
    end: Seq<char>,
    copy: Seq<char>,
    entry: Seq<char>,
)
    requires
        text::occurs(copies, copy),
        text::occurs(table, entry),
    ensures
        ({
            let whole = original + copies + opening + table + (brace + end);
            &&& text::occurs(whole, copy)
            &&& text::occurs(whole, entry)
            &&& text::occurs(whole, opening)
            &&& text::begins(whole, original)
            &&& text::ends(whole, end)
        }),
{
    let closing = brace + end;
    let whole = original + copies + opening + table + closing;
    let after = opening + table + closing;
    assert(original + copies + after =~= whole);
    text::lemma_occurs_within(original, copies, after, copy);
    text::lemma_occurs_within(original + copies + opening, table, closing, entry);
    assert((original + copies) + opening + (table + closing) =~= whole);
    text::lemma_occurs_between(original + copies, opening, table + closing);
    assert(whole.subrange(0, original.len() as int) =~= original);
    assert(whole.subrange(whole.len() - end.len(), whole.len() as int) =~= end);
}

proof fn lemma_family_parts(
    original: Seq<char>,
    copies: Seq<char>,
    indent: Seq<char>,
    name: Seq<char>,
    table: Seq<char>,
    decorators: Seq<char>,
    wrapper: Seq<char>,
)
    ensures
        original + copies + indent + name + " = {"@ + table + "}\n\n"@ + decorators + wrapper
            == original + copies + (indent + name + " = {"@) + table + ("}\n\n"@ + decorators
            + wrapper),
{
    let start = original + copies;
    lemma_regroup(start, indent + name, " = {"@);
    lemma_regroup(start, indent, name);
    let middle = start + indent + name + " = {"@ + table;
    lemma_regroup(middle, "}\n\n"@ + decorators, wrapper);
    lemma_regroup(middle, "}\n\n"@, decorators);
}

/// A function is given the mutants between the first statement of its body and its
/// end, and all of them, in order; a file is given the mutants that name it.
pub proof fn law_a_function_is_given_the_mutants_of_its_body(
    function: Def,
    mutants: Seq<Planted>,
    file: Seq<char>,
)
    ensures
        held(function, mutants) == mutants.filter(
            |mutant: Planted|
                function.body_start <= mutant.byte_start && mutant.byte_end <= function.end,
        ),
        of_file(mutants, file) == mutants.filter(|mutant: Planted| mutant.file == file),
    decreases mutants.len(),
{
    reveal(Seq::filter);
    if mutants.len() > 0 {
        law_a_function_is_given_the_mutants_of_its_body(function, mutants.drop_last(), file);
    }
}

/// A copy with a mutant in it is there only when it parses by itself, and is
/// written at the function's own indentation; the original is there in any case.
pub proof fn law_a_copy_parses(
    function: Def,
    source: Seq<char>,
    name: Seq<char>,
    planted: Planted,
    renamed: Seq<char>,
)
    requires
        text::width(dedented_of(text::without_blank_end(renamed), function.indent)) <= u32::MAX,
    ensures
        function.renamed(source, name, Some(planted)) == Some(renamed) ==> function.copied(
            source,
            name,
            Some(planted),
        ) == (if syntax::parsed(
            dedented_of(text::without_blank_end(renamed), function.indent),
        ) is Ok {
            Some(function.indent + text::without_blank_end(renamed) + "\n\n"@)
        } else {
            None
        }),
        function.renamed(source, name, None) == Some(renamed) ==> function.copied(
            source,
            name,
            None,
        ) == Some(function.indent + text::without_blank_end(renamed) + "\n\n"@),
        function.renamed(source, name, Some(planted)).is_none() ==> function.copied(
            source,
            name,
            Some(planted),
        ).is_none(),
{
}

/// A mutant that no longer finds the bytes it replaces gets no copy.
pub proof fn law_a_stale_mutant_gets_no_copy(
    function: Def,
    source: Seq<char>,
    name: Seq<char>,
    planted: Planted,
    own: Seq<char>,
)
    requires
        text::sliced(source, function.def_start, function.end) == Some(own),
        text::sliced(
            own,
            planted.byte_start - function.def_start,
            planted.byte_end - function.def_start,
        ) != Some(planted.original),
    ensures
        function.copied(source, name, Some(planted)).is_none(),
{
}

/// A function is a generator when a `yield` stands in its body and in nothing
/// defined there: no definition, class or lambda comes between the two.
pub proof fn law_a_yield_belongs_to_its_own_function(path: Seq<Place>, from: int)
    requires
        0 <= from <= path.len(),
    ensures
        path_yields(path, from) <==> exists|k: int|
            from <= k < path.len() && ((#[trigger] path[k]).kind == "ExprYield"@ || path[k].kind
                == "ExprYieldFrom"@) && forall|j: int|
                from <= j < k ==> (#[trigger] path[j]).kind != "StmtFunctionDef"@ && path[j].kind
                    != "StmtClassDef"@ && path[j].kind != "ExprLambda"@,
    decreases path.len() - from,
{
    reveal_strlit("ExprYield");
    reveal_strlit("ExprYieldFrom");
    reveal_strlit("StmtFunctionDef");
    reveal_strlit("StmtClassDef");
    reveal_strlit("ExprLambda");
    assert("ExprYield"@[4] == 'Y' && "ExprYieldFrom"@[4] == 'Y' && "ExprLambda"@[4] == 'L');
    assert("ExprYield"@[0] == 'E' && "ExprYieldFrom"@[0] == 'E' && "StmtFunctionDef"@[0] == 'S'
        && "StmtClassDef"@[0] == 'S');
    if from < path.len() {
        law_a_yield_belongs_to_its_own_function(path, from + 1);
        let kind = path[from].kind;
        if kind == "ExprYield"@ || kind == "ExprYieldFrom"@ {
            assert(path_yields(path, from));
        } else if kind == "StmtFunctionDef"@ || kind == "StmtClassDef"@ || kind == "ExprLambda"@ {
            assert(!path_yields(path, from));
        } else {
            if path_yields(path, from + 1) {
                let k = choose|k: int|
                    from + 1 <= k < path.len() && ((#[trigger] path[k]).kind == "ExprYield"@
                        || path[k].kind == "ExprYieldFrom"@) && forall|j: int|
                        from + 1 <= j < k ==> (#[trigger] path[j]).kind != "StmtFunctionDef"@
                            && path[j].kind != "StmtClassDef"@ && path[j].kind != "ExprLambda"@;
                assert(path[k].kind == "ExprYield"@ || path[k].kind == "ExprYieldFrom"@);
            }
        }
    }
}

/// An `async def` stays one, a generator stays one, and a function that is both
/// has no wrapper.
pub proof fn law_the_wrapper_keeps_the_shape()
    ensures
        shape_of(false, false) == Some(Shape::Plain),
        shape_of(true, false) == Some(Shape::Async),
        shape_of(false, true) == Some(Shape::Generator),
        shape_of(true, true).is_none(),
{
}

/// Only functions of a module and of its classes are copied: what stands between
/// the module and the function are classes alone.
pub proof fn law_a_nested_function_is_not_copied(path: Seq<Place>, depth: int, k: int)
    requires
        0 <= depth < path.len(),
        1 <= k < depth,
        is_collected(path, depth),
    ensures
        path[depth].kind == "StmtFunctionDef"@,
        path[k].kind == "StmtClassDef"@,
{
}

/// And every one of them is.
pub proof fn law_a_function_of_a_class_is_copied(path: Seq<Place>, depth: int)
    requires
        1 <= depth < path.len(),
        path[depth].kind == "StmtFunctionDef"@,
        forall|k: int| 1 <= k < depth ==> (#[trigger] path[k]).kind == "StmtClassDef"@,
    ensures
        is_collected(path, depth),
{
}

/// Where a definition is said to start, its keyword stands.
pub proof fn law_a_definition_starts_at_its_keyword(source: Seq<char>, name_start: int, start: int)
    requires
        def_offset(source, name_start, false) == Some(start),
    ensures
        text::sliced(source, 0, name_start) matches Some(head) && exists|at: int| #[trigger]
            text::occurs_at(head, "def "@, at) && start == text::width(head.subrange(0, at)) && (
            forall|j: int| at < j ==> !text::occurs_at(head, "def "@, j)),
{
    let head = text::sliced(source, 0, name_start).unwrap();
    reveal_strlit("def ");
    text::lemma_found_last(head, "def "@, head.len() - 4);
}

/// A file that hosts a mutant brings the runtime in, once for all its functions.
pub proof fn law_a_rewritten_file_imports_the_pick(
    outline: Seq<Mark>,
    source: Seq<char>,
    mutants: Seq<Planted>,
)
    requires
        rewritten(outline, source, mutants).is_some(),
    ensures
        import_offset(outline, source, 0, 0) matches Some(at) && edits::applied_back_to_front(
            source,
            family_edits(
                functions_in(outline, outline.len() as int, source),
                source,
                mutants,
            ).push(
                Change {
                    start: at,
                    end: at,
                    text: "from _angelo_rt import _angelo_pick\n"@,
                },
            ),
        ) == Some(rewritten(outline, source, mutants).unwrap().0),
{
}

/// The import goes to the top of a file that starts with anything but a docstring
/// or a `from __future__` import.
pub proof fn law_the_import_goes_to_the_top(outline: Seq<Mark>, source: Seq<char>)
    requires
        outline.len() > 0,
        outline[0].path.len() > 1,
        outline[0].path[1].kind != "StmtExpr"@,
        outline[0].path[1].kind != "StmtImportFrom"@,
    ensures
        import_offset(outline, source, 0, 0) == Some(0int),
{
}

/// Each function that took mutants replaces its own bytes, from the line of its
/// first decorator to its end, and has one group of mutants.
pub proof fn law_a_function_replaces_its_own_bytes(
    functions: Seq<Def>,
    source: Seq<char>,
    mutants: Seq<Planted>,
    k: int,
)
    requires
        0 <= k < family_edits(functions, source, mutants).len(),
    ensures
        family_edits(functions, source, mutants).len() == family_groups(
            functions,
            source,
            mutants,
        ).len(),
        exists|m: int|
            0 <= m < functions.len() && ({
                let function = #[trigger] functions[m];
                let edit = family_edits(functions, source, mutants)[k];
                edit.start == function.replace_from && edit.end == function.end
                    && function.family(source, held(function, mutants)) == Some(edit.text)
            }),
    decreases functions.len(),
{
    let fewer = functions.drop_last();
    let before = family_edits(fewer, source, mutants);
    let now = family_edits(functions, source, mutants);
    lemma_edits_match_groups(functions, source, mutants);
    if k < before.len() {
        law_a_function_replaces_its_own_bytes(fewer, source, mutants, k);
        let m = choose|m: int|
            0 <= m < fewer.len() && ({
                let function = #[trigger] fewer[m];
                let edit = before[k];
                edit.start == function.replace_from && edit.end == function.end
                    && function.family(source, held(function, mutants)) == Some(edit.text)
            });
        assert(functions[m] == fewer[m]);
        assert(now[k] == before[k]);
    } else {
        assert(functions[functions.len() - 1] == functions.last());
    }
}

proof fn lemma_edits_match_groups(functions: Seq<Def>, source: Seq<char>, mutants: Seq<Planted>)
    ensures
        family_edits(functions, source, mutants).len() == family_groups(
            functions,
            source,
            mutants,
        ).len(),
    decreases functions.len(),
{
    if functions.len() > 0 {
        lemma_edits_match_groups(functions.drop_last(), source, mutants);
    }
}

/// The line of an offset starts behind the last newline in front of it, or at the
/// start of the file.
pub proof fn law_a_line_of_source_starts_behind_a_newline(
    source: Seq<char>,
    offset: int,
    above: Seq<char>,
    front: Seq<char>,
)
    requires
        !front.contains('\n'),
    ensures
        text::sliced(source, 0, offset) == Some(above + seq!['\n'] + front) ==> line_start_of(
            source,
            offset,
        ) == Some(text::width(above + seq!['\n']) as int),
        text::sliced(source, 0, offset) == Some(front) ==> line_start_of(source, offset) == Some(
            0int,
        ),
{
    reveal_strlit("\n");
    text::law_the_last_newline_is_found(above, front);
    let head = above + seq!['\n'] + front;
    assert(head.subrange(0, above.len() as int + 1) =~= above + seq!['\n']);
}

/// What follows a line starts behind the next newline, or at the end of the
/// file.
pub proof fn law_the_next_line_starts_behind_the_newline(
    source: Seq<char>,
    offset: int,
    rest: Seq<char>,
    below: Seq<char>,
)
    requires
        !rest.contains('\n'),
    ensures
        text::sliced(source, offset, text::width(source) as int) == Some(
            rest + seq!['\n'] + below,
        ) ==> line_after_of(source, offset) == Some(
            offset + text::width(rest + seq!['\n']),
        ),
        text::sliced(source, offset, text::width(source) as int) == Some(rest) ==> line_after_of(
            source,
            offset,
        ) == Some(text::width(source) as int),
{
    reveal_strlit("\n");
    text::law_the_first_newline_is_found(rest, below);
    let tail = rest + seq!['\n'] + below;
    assert(tail.subrange(0, rest.len() as int + 1) =~= rest + seq!['\n']);
}

/// The indentation of a definition is what stands between the start of its line
/// and the definition, and there is none when that is not all white space.
pub proof fn law_an_indentation_is_white_space(source: Seq<char>, offset: int)
    ensures
        indent_at(source, offset) matches Some(indent) ==> {
            &&& line_start_of(source, offset) matches Some(start) && text::sliced(
                source,
                start,
                offset,
            ) == Some(indent)
            &&& forall|i: int| 0 <= i < indent.len() ==> text::is_space_spec(#[trigger] indent[i])
        },
        (line_start_of(source, offset) matches Some(start) && (text::sliced(source, start, offset)
            matches Some(front) && !text::is_blank(front))) ==> indent_at(source, offset).is_none(),
{
}

/// What is known of a function is read off its own node: its name and end are the
/// node's, its body starts at its first statement, and what gets replaced starts
/// at the line of its first decorator, or of its own keyword without one.
pub proof fn law_a_function_is_read_off_its_node(
    outline: Seq<Mark>,
    at: int,
    depth: int,
    source: Seq<char>,
)
    ensures
        described(outline, at, depth, source) matches Some(function) ==> {
            let node = outline[at].path[depth];
            &&& function.name == node.name
            &&& function.end == node.end
            &&& syntax::child_like(outline, at, depth, "Identifier"@) matches Some(name)
                && function.name_start == outline[name].path[depth + 1].start && function.name_end
                == outline[name].path[depth + 1].end
            &&& syntax::child_like(outline, at, depth, "Stmt"@) matches Some(body)
                && function.body_start == outline[body].path[depth + 1].start
            &&& def_offset(
                source,
                function.name_start,
                syntax::holds_token(outline, at, depth, "Async"@),
            ) == Some(function.def_start)
            &&& indent_at(source, function.def_start) == Some(function.indent)
            &&& syntax::child_like(outline, at, depth, "Decorator"@).is_none() ==> line_start_of(
                source,
                function.def_start,
            ) == Some(function.replace_from)
            &&& syntax::child_like(outline, at, depth, "Decorator"@) matches Some(first)
                ==> outline[first].path[depth + 1].start < function.def_start ==> line_start_of(
                source,
                outline[first].path[depth + 1].start,
            ) == Some(function.replace_from)
            &&& function.shape is Async <==> syntax::holds_token(outline, at, depth, "Async"@)
            &&& function.shape is Generator <==> is_generator(outline, at, depth)
        },
{
}

/// A decorator that names the function it decorates leaves the function alone.
pub proof fn law_a_rebuilt_function_is_left_alone(
    outline: Seq<Mark>,
    at: int,
    depth: int,
    source: Seq<char>,
    name: int,
    first: int,
    def_start: int,
    decorators: Seq<char>,
)
    requires
        syntax::child_like(outline, at, depth, "Identifier"@) == Some(name),
        syntax::child_like(outline, at, depth, "Decorator"@) == Some(first),
        def_offset(
            source,
            outline[name].path[depth + 1].start,
            syntax::holds_token(outline, at, depth, "Async"@),
        ) == Some(def_start),
        outline[first].path[depth + 1].start < def_start,
        text::sliced(source, outline[first].path[depth + 1].start, def_start) == Some(decorators),
        text::occurs(decorators, outline[at].path[depth].name),
    ensures
        described(outline, at, depth, source).is_none(),
{
}

/// Taking the indentation off gives back the lines that it was put in front of.
pub proof fn law_dedenting_undoes_indenting(lines: Seq<Seq<char>>, indent: Seq<char>)
    requires
        lines.len() > 0,
        lines.last().len() > 0,
        indent.len() > 0,
        !indent.contains('\n'),
        forall|k: int| 0 <= k < lines.len() ==> !(#[trigger] lines[k]).contains('\n'),
        forall|k: int|
            0 <= k < lines.len() ==> (#[trigger] lines[k]).len() > 0 && lines[k].last() != '\r',
    ensures
        dedented_of(
            text::joined(lines.map_values(|line: Seq<char>| indent + line), seq!['\n']),
            indent,
        ) == text::joined(lines, seq!['\n']),
{
    reveal_strlit("\n");
    assert("\n"@ =~= seq!['\n']);
    let given = lines.map_values(|line: Seq<char>| indent + line);
    assert forall|k: int| 0 <= k < given.len() implies !(#[trigger] given[k]).contains('\n') by {
        if given[k].contains('\n') {
            let i = choose|i: int| 0 <= i < given[k].len() && given[k][i] == '\n';
            if i < indent.len() {
                assert(indent[i] == '\n');
            } else {
                assert(lines[k][i - indent.len()] == '\n');
                assert(lines[k].contains('\n'));
            }
        }
    }
    assert forall|k: int| 0 <= k < given.len() implies (#[trigger] given[k]).len() == 0
        || given[k].last() != '\r' by {
        assert(given[k].last() == lines[k].last());
    }
    assert(given.last() == indent + lines.last());
    text::law_joined_lines_read_back(given);
    let bare = given.map_values(|line: Seq<char>| text::without_prefix(line, indent));
    assert forall|k: int| 0 <= k < lines.len() implies #[trigger] bare[k] == lines[k] by {
        let line = indent + lines[k];
        assert(line.subrange(0, indent.len() as int) =~= indent);
        assert(line.subrange(indent.len() as int, line.len() as int) =~= lines[k]);
    }
    assert(bare =~= lines);
}

/// Only a string on its own and an import from the future keep their place in
/// front of the import of the runtime.
pub proof fn law_a_docstring_and_a_future_import_stay_in_front(outline: Seq<Mark>, at: int)
    ensures
        keeps_its_place(outline, at) <==> {
            ||| outline[at].path[1].kind == "StmtExpr"@ && (syntax::first_child(
                outline,
                at,
                1,
            ) matches Some(value) && outline[value].path[2].kind == "ExprStringLiteral"@)
            ||| outline[at].path[1].kind == "StmtImportFrom"@ && (syntax::child_like(
                outline,
                at,
                1,
                "Identifier"@,
            ) matches Some(module) && outline[module].path[2].name == "__future__"@)
        },
{
    reveal_strlit("StmtExpr");
    reveal_strlit("StmtImportFrom");
    assert("StmtExpr"@.len() != "StmtImportFrom"@.len());
}

/// Behind a statement that stays in front, the import goes to the next line.
pub proof fn law_the_import_goes_behind_what_stays_in_front(
    outline: Seq<Mark>,
    source: Seq<char>,
    at: int,
    offset: int,
    past: int,
)
    requires
        0 <= at < outline.len(),
        syntax::shared(outline, at) <= 1,
        outline[at].path.len() > 1,
        keeps_its_place(outline, at),
        line_after_of(source, outline[at].path[1].end) == Some(past),
        at + 1 == outline.len() || (syntax::shared(outline, at + 1) <= 1 && outline[at
            + 1].path.len() > 1 && !keeps_its_place(outline, at + 1)),
    ensures
        import_offset(outline, source, at, offset) == Some(past),
{
    reveal_with_fuel(import_offset, 3);
}

/// A function that took mutants is the host of each of them, and of no other.
pub proof fn law_a_group_is_hosted_by_its_function(
    hosted: Map<i64, Host>,
    group: Seq<int>,
    host: Host,
    id: i64,
)
    ensures
        (exists|k: int| 0 <= k < group.len() && #[trigger] group[k] as i64 == id) ==> with_group(
            hosted,
            group,
            host,
        ).contains_key(id) && with_group(hosted, group, host)[id] == host,
        (forall|k: int| 0 <= k < group.len() ==> #[trigger] group[k] as i64 != id) ==> (with_group(
            hosted,
            group,
            host,
        ).contains_key(id) <==> hosted.contains_key(id)) && (hosted.contains_key(id) ==> with_group(
            hosted,
            group,
            host,
        )[id] == hosted[id]),
    decreases group.len(),
{
    if group.len() > 0 {
        let fewer = group.drop_last();
        law_a_group_is_hosted_by_its_function(hosted, fewer, host, id);
        assert(group[group.len() - 1] == group.last());
        assert forall|k: int| 0 <= k < fewer.len() implies #[trigger] fewer[k] == group[k] by {}
        if exists|k: int| 0 <= k < group.len() && #[trigger] group[k] as i64 == id {
            let k = choose|k: int| 0 <= k < group.len() && #[trigger] group[k] as i64 == id;
            if k < fewer.len() {
                assert(fewer[k] as i64 == id);
            }
        }
    }
}

/// A function is a generator exactly when a `yield` of its own stands in one of
/// its statements.
pub proof fn law_a_generator_yields_in_its_body(outline: Seq<Mark>, at: int, depth: int)
    requires
        0 <= at < outline.len(),
    ensures
        is_generator(outline, at, depth) <==> exists|k: int|
            at <= k < outline.len() && (#[trigger] outline[k]).path.len() > depth + 1
                && text::begins(outline[k].path[depth + 1].kind, "Stmt"@) && path_yields(
                outline[k].path,
                depth + 1,
            ) && forall|j: int| at <= j < k ==> #[trigger] syntax::goes_on(outline, j, depth),
    decreases outline.len() - at,
{
    let here = outline[at].path.len() > depth + 1 && text::begins(
        outline[at].path[depth + 1].kind,
        "Stmt"@,
    ) && path_yields(outline[at].path, depth + 1);
    if !here && syntax::goes_on(outline, at, depth) {
        law_a_generator_yields_in_its_body(outline, at + 1, depth);
        if is_generator(outline, at + 1, depth) {
            let k = choose|k: int|
                at + 1 <= k < outline.len() && (#[trigger] outline[k]).path.len() > depth + 1
                    && text::begins(outline[k].path[depth + 1].kind, "Stmt"@) && path_yields(
                    outline[k].path,
                    depth + 1,
                ) && forall|j: int| at + 1 <= j < k ==> #[trigger] syntax::goes_on(outline, j, depth);
            assert(outline[k].path.len() > depth + 1);
        }
        if exists|k: int|
            at <= k < outline.len() && (#[trigger] outline[k]).path.len() > depth + 1
                && text::begins(outline[k].path[depth + 1].kind, "Stmt"@) && path_yields(
                outline[k].path,
                depth + 1,
            ) && forall|j: int| at <= j < k ==> #[trigger] syntax::goes_on(outline, j, depth) {
            let k = choose|k: int|
                at <= k < outline.len() && (#[trigger] outline[k]).path.len() > depth + 1
                    && text::begins(outline[k].path[depth + 1].kind, "Stmt"@) && path_yields(
                    outline[k].path,
                    depth + 1,
                ) && forall|j: int| at <= j < k ==> #[trigger] syntax::goes_on(outline, j, depth);
            assert(at + 1 <= k);
        }
    } else if !here {
        if exists|k: int|
            at <= k < outline.len() && (#[trigger] outline[k]).path.len() > depth + 1
                && text::begins(outline[k].path[depth + 1].kind, "Stmt"@) && path_yields(
                outline[k].path,
                depth + 1,
            ) && forall|j: int| at <= j < k ==> #[trigger] syntax::goes_on(outline, j, depth) {
            let k = choose|k: int|
                at <= k < outline.len() && (#[trigger] outline[k]).path.len() > depth + 1
                    && text::begins(outline[k].path[depth + 1].kind, "Stmt"@) && path_yields(
                    outline[k].path,
                    depth + 1,
                ) && forall|j: int| at <= j < k ==> #[trigger] syntax::goes_on(outline, j, depth);
            assert(syntax::goes_on(outline, at, depth) || k == at);
        }
    }
}

} // verus!

//! Which mutants a run is willing to plant, and where.

use vstd::prelude::*;
use vstd::utf8::*;

use crate::edits::Change;
use crate::lines::{self, Lines};
use crate::literals::{self, Sums};
use crate::mutate::{self, Mutant, Planted};
use crate::sorting::{self, Keyed};
use crate::syntax::{self, Mark, Node, Place, Token};
use crate::text;

verus! {

broadcast use vstd::seq_lib::group_seq_properties;

/// Bytes of a file to replace, and with what.
pub struct Rewrite {
    pub start: usize,
    pub end: usize,
    pub text: String,
}

impl View for Rewrite {
    type V = Change;

    open spec fn view(&self) -> Change {
        Change { start: self.start as int, end: self.end as int, text: self.text@ }
    }
}

/// The rewrites of a list as plain values.
pub open spec fn changes(list: Seq<Rewrite>) -> Seq<Change> {
    list.map_values(|rewrite: Rewrite| rewrite@)
}

/// Rewrites are ordered by where they start, then by where they end.
pub open spec fn byte_order() -> spec_fn(Change) -> int {
    |change: Change| change.start * 0x1_0000_0000_0000_0000 + change.end
}

impl Keyed for Rewrite {
    open spec fn rank(&self) -> int {
        self.start * 0x1_0000_0000_0000_0000 + self.end
    }

    fn key(&self) -> (key: u128) {
        self.start as u128 * 0x1_0000_0000_0000_0000u128 + self.end as u128
    }
}

/// A definition that exists to be read by a person. Mutating one changes a
/// debugging string and nothing a caller depends on, which is what arid means.
pub open spec fn is_hidden(node: Place) -> bool {
    node.kind == "StmtFunctionDef"@ && (node.name == "__repr__"@ || node.name == "__str__"@)
}

/// Whether nothing around a node hides it.
pub open spec fn is_visible(path: Seq<Place>, depth: int) -> bool {
    forall|k: int| 0 <= k < depth ==> !is_hidden(#[trigger] path[k])
}

/// The kinds of expression that are a constant already.
pub open spec fn is_literal(kind: Seq<char>) -> bool {
    kind == "ExprStringLiteral"@ || kind == "ExprBytesLiteral"@ || kind == "ExprNumberLiteral"@
        || kind == "ExprBooleanLiteral"@ || kind == "ExprNoneLiteral"@ || kind
        == "ExprEllipsisLiteral"@
}

/// Every segment of a dotted callee, so `self.logger.info(...)` answers for
/// `logger` as readily as `log.info(...)` answers for `log`.
pub open spec fn callee(outline: Seq<Mark>, at: int, depth: int) -> Seq<Seq<char>>
    decreases outline.len() - at, outline[at].path.len() - depth,
{
    if !(0 <= at < outline.len() && 0 <= depth < outline[at].path.len()) {
        Seq::empty()
    } else if outline[at].path[depth].kind == "ExprName"@ {
        seq![outline[at].path[depth].name]
    } else if outline[at].path[depth].kind == "ExprAttribute"@ {
        proof {
            syntax::lemma_first_child(outline, at, depth);
        }
        seq![outline[at].path[depth].name] + match syntax::first_child(outline, at, depth) {
            Some(value) => callee(outline, value, depth + 1),
            None => Seq::empty(),
        }
    } else {
        Seq::empty()
    }
}

/// Whether two lists have a text in common.
pub open spec fn meet(a: Seq<Seq<char>>, b: Seq<Seq<char>>) -> bool {
    exists|i: int| 0 <= i < a.len() && b.contains(#[trigger] a[i])
}

/// A statement that is nothing but a call of one of these names.
pub open spec fn is_arid(
    outline: Seq<Mark>,
    at: int,
    depth: int,
    names: Seq<Seq<char>>,
) -> bool {
    outline[at].path[depth].kind == "StmtExpr"@ && match syntax::first_child(outline, at, depth) {
        Some(call) => outline[call].path[depth + 1].kind == "ExprCall"@
            && match syntax::first_child(outline, call, depth + 1) {
            Some(function) => meet(callee(outline, function, depth + 2), names),
            None => false,
        },
        None => false,
    }
}

/// The statements that can always be removed.
pub open spec fn is_removable(kind: Seq<char>) -> bool {
    kind == "StmtAssign"@ || kind == "StmtAugAssign"@ || kind == "StmtRaise"@ || kind
        == "StmtAssert"@ || kind == "StmtDelete"@ || kind == "StmtIf"@ || kind == "StmtFor"@ || kind
        == "StmtWhile"@ || kind == "StmtWith"@ || kind == "StmtTry"@ || kind == "StmtMatch"@ || kind
        == "StmtBreak"@ || kind == "StmtContinue"@
}

/// A statement worth removing, replaced by `pass` so a block that loses its
/// only statement is still a block.
///
/// Deletion has the best cost-effectiveness evidence in the literature and is
/// the one family the canonical operator sets leave out. What it must not touch
/// is anything whose removal is either free to detect or impossible to detect.
/// An import or a definition takes every use of the name with it, so any test
/// that touches the module kills the mutant on sight and learns nothing. A bare
/// `return` is the mirror image: the function already returns `None` without
/// it, so removing it is an equivalent mutant by construction. A docstring, an
/// `...` stub body and a bare literal are that same case, and so is an
/// annotation without a value.
pub open spec fn is_deletable(outline: Seq<Mark>, at: int, depth: int) -> bool {
    let kind = outline[at].path[depth].kind;
    if kind == "StmtReturn"@ {
        syntax::first_child(outline, at, depth).is_some()
    } else if kind == "StmtAnnAssign"@ {
        syntax::holds_token(outline, at, depth, "Equal"@)
    } else if kind == "StmtExpr"@ {
        match syntax::first_child(outline, at, depth) {
            Some(value) => !is_literal(outline[value].path[depth + 1].kind),
            None => true,
        }
    } else {
        is_removable(kind)
    }
}

/// Whether a node is the condition its parent decides on. A condition that is
/// already a constant learns nothing from becoming one, and a deliberate
/// `while True:` is not a fault waiting to be found.
pub open spec fn is_condition(path: Seq<Place>, depth: int) -> bool {
    &&& depth > 0
    &&& text::begins(path[depth].kind, "Expr"@)
    &&& !is_literal(path[depth].kind)
    &&& (path[depth - 1].kind == "StmtIf"@ || path[depth - 1].kind == "ElifElseClause"@
        || path[depth - 1].kind == "StmtWhile"@)
}

/// The whole-node rewrites of the node a token opens at this depth.
///
/// A statement may go, and a condition may become a constant. That is the
/// operator family every yardstick in the literature supports and no token swap
/// can express: the token stream can turn `and` into `or`, but only the tree
/// knows where a condition starts and stops. A `while` gets only `False`:
/// `while True` on a loop that used to end never ends, and a hang costs the
/// whole timeout budget to teach what `False` teaches in milliseconds.
pub open spec fn node_changes(
    outline: Seq<Mark>,
    at: int,
    depth: int,
    names: Seq<Seq<char>>,
) -> Seq<Change> {
    let path = outline[at].path;
    let node = path[depth];
    if !is_visible(path, depth) {
        Seq::empty()
    } else if is_condition(path, depth) {
        let never = Change { start: node.start, end: node.end, text: "False"@ };
        let always = Change { start: node.start, end: node.end, text: "True"@ };
        if path[depth - 1].kind == "StmtWhile"@ {
            seq![never]
        } else {
            seq![never, always]
        }
    } else if !is_arid(outline, at, depth, names) && is_deletable(outline, at, depth) {
        seq![Change { start: node.start, end: node.end, text: "pass"@ }]
    } else {
        Seq::empty()
    }
}

/// The bytes of a node that holds nothing worth a mutant.
pub open spec fn node_span(
    outline: Seq<Mark>,
    at: int,
    depth: int,
    names: Seq<Seq<char>>,
) -> Seq<(int, int)> {
    let path = outline[at].path;
    let node = path[depth];
    if is_visible(path, depth) && (is_hidden(node) || is_arid(outline, at, depth, names)) {
        seq![(node.start, node.end)]
    } else {
        Seq::empty()
    }
}

/// The rewrites of the nodes a token opens above this depth.
pub open spec fn opened_changes(
    outline: Seq<Mark>,
    at: int,
    depth: int,
    names: Seq<Seq<char>>,
) -> Seq<Change>
    decreases depth,
{
    if depth <= syntax::shared(outline, at) || depth <= 0 {
        Seq::empty()
    } else {
        opened_changes(outline, at, depth - 1, names) + node_changes(outline, at, depth - 1, names)
    }
}

/// The arid bytes of the nodes a token opens above this depth.
pub open spec fn opened_spans(
    outline: Seq<Mark>,
    at: int,
    depth: int,
    names: Seq<Seq<char>>,
) -> Seq<(int, int)>
    decreases depth,
{
    if depth <= syntax::shared(outline, at) || depth <= 0 {
        Seq::empty()
    } else {
        opened_spans(outline, at, depth - 1, names) + node_span(outline, at, depth - 1, names)
    }
}

/// The rewrites of every node the first tokens open, in the order of the file.
pub open spec fn tree_changes(outline: Seq<Mark>, upto: int, names: Seq<Seq<char>>) -> Seq<Change>
    decreases upto,
{
    if upto <= 0 {
        Seq::empty()
    } else {
        tree_changes(outline, upto - 1, names) + opened_changes(
            outline,
            upto - 1,
            outline[upto - 1].path.len() as int,
            names,
        )
    }
}

/// The arid bytes of every node the first tokens open.
pub open spec fn arid_spans(
    outline: Seq<Mark>,
    upto: int,
    names: Seq<Seq<char>>,
) -> Seq<(int, int)>
    decreases upto,
{
    if upto <= 0 {
        Seq::empty()
    } else {
        arid_spans(outline, upto - 1, names) + opened_spans(
            outline,
            upto - 1,
            outline[upto - 1].path.len() as int,
            names,
        )
    }
}

/// How many `for` headers are still waiting for their `in` before a token.
pub open spec fn open_loops(outline: Seq<Mark>, at: int) -> nat
    decreases at,
{
    if at <= 0 {
        0
    } else {
        let before = open_loops(outline, at - 1);
        let kind = outline[at - 1].kind;
        if kind == "For"@ {
            before + 1
        } else if kind == "In"@ && before > 0 {
            (before - 1) as nat
        } else {
            before
        }
    }
}

/// The swaps a token admits. `for x in y` is not a membership test: swapping
/// that `in` produces a syntax error every time, so the loop's own `in` is left
/// alone.
pub open spec fn token_changes(
    outline: Seq<Mark>,
    at: int,
    source: Seq<char>,
    sums: Seq<(Seq<char>, Seq<char>)>,
) -> Seq<Change> {
    let token = outline[at];
    if token.kind == "In"@ && open_loops(outline, at) > 0 {
        Seq::empty()
    } else {
        match text::sliced(source, token.start, token.end) {
            Some(spelled) => literals::replacements_of(
                token.kind,
                spelled,
                at > 0 && outline[at - 1].kind == "Dot"@,
                sums,
            ).map_values(
                |replacement: Seq<char>| Change {
                    start: token.start,
                    end: token.end,
                    text: replacement,
                },
            ),
            None => Seq::empty(),
        }
    }
}

/// The swaps of the first tokens.
pub open spec fn stream_changes(
    outline: Seq<Mark>,
    upto: int,
    source: Seq<char>,
    sums: Seq<(Seq<char>, Seq<char>)>,
) -> Seq<Change>
    decreases upto,
{
    if upto <= 0 {
        Seq::empty()
    } else {
        stream_changes(outline, upto - 1, source, sums) + token_changes(
            outline,
            upto - 1,
            source,
            sums,
        )
    }
}

/// Everything that could be planted in a file, in byte order.
pub open spec fn candidates(
    outline: Seq<Mark>,
    source: Seq<char>,
    names: Seq<Seq<char>>,
    sums: Seq<(Seq<char>, Seq<char>)>,
) -> Seq<Change> {
    let total = outline.len() as int;
    sorting::in_order(
        tree_changes(outline, total, names) + stream_changes(outline, total, source, sums),
        byte_order(),
    )
}

/// What a run keeps of the candidates, and how many it turned away.
#[verifier::ext_equal]
pub struct Crop {
    pub mutants: Seq<Planted>,
    /// Turned away because they sit inside something arid.
    pub suppressed: nat,
    /// Turned away because their family is not enabled.
    pub filtered: nat,
}

/// Whether a range of bytes lies inside something arid.
pub open spec fn is_suppressed(spans: Seq<(int, int)>, start: int, end: int) -> bool {
    exists|k: int|
        0 <= k < spans.len() && start >= (#[trigger] spans[k]).0 && end <= spans[k].1
}

/// What the candidates come to. One that no longer cuts the source at
/// characters, or that would change nothing, is not a mutant at all.
pub open spec fn harvest(
    found: Seq<Change>,
    source: Seq<char>,
    file: Seq<char>,
    spans: Seq<(int, int)>,
    families: Seq<Seq<char>>,
) -> Crop
    decreases found.len(),
{
    if found.len() == 0 {
        Crop { mutants: Seq::empty(), suppressed: 0, filtered: 0 }
    } else {
        let before = harvest(found.drop_last(), source, file, spans, families);
        let change = found.last();
        match text::sliced(source, change.start, change.end) {
            None => before,
            Some(original) => if change.text == original {
                before
            } else if is_suppressed(spans, change.start, change.end) {
                Crop { suppressed: before.suppressed + 1, ..before }
            } else if !families.contains(mutate::family_of(original, change.text)) {
                Crop { filtered: before.filtered + 1, ..before }
            } else {
                Crop {
                    mutants: before.mutants.push(
                        Planted {
                            id: 0,
                            file,
                            line: lines::capped(
                                lines::line_of(encode_utf8(source), change.start as nat),
                            ) as int,
                            byte_start: change.start,
                            byte_end: change.end,
                            original,
                            replacement: change.text,
                        },
                    ),
                    ..before
                }
            },
        }
    }
}

/// The mutants of a parsed file.
pub open spec fn enumerated(
    outline: Seq<Mark>,
    source: Seq<char>,
    file: Seq<char>,
    families: Seq<Seq<char>>,
    names: Seq<Seq<char>>,
    sums: Seq<(Seq<char>, Seq<char>)>,
) -> Crop {
    harvest(
        candidates(outline, source, names, sums),
        source,
        file,
        arid_spans(outline, outline.len() as int, names),
        families,
    )
}

fn hidden(node: &Node) -> (yes: bool)
    ensures
        yes == is_hidden(node@),
{
    text::same(node.kind.as_str(), "StmtFunctionDef") && (text::same(
        node.name.as_str(),
        "__repr__",
    ) || text::same(node.name.as_str(), "__str__"))
}

fn visible(token: &Token, depth: usize) -> (yes: bool)
    requires
        depth <= token.path@.len(),
    ensures
        yes == is_visible(token@.path, depth as int),
{
    let mut at: usize = 0;
    while at < depth
        invariant
            at <= depth <= token.path@.len(),
            forall|k: int| 0 <= k < at ==> !is_hidden(#[trigger] token@.path[k]),
        decreases depth - at,
    {
        if hidden(&token.path[at]) {
            assert(is_hidden(token@.path[at as int]));
            return false;
        }
        assert(token@.path[at as int] == token.path@[at as int]@);
        at += 1;
    }
    true
}

fn literal(kind: &str) -> (yes: bool)
    ensures
        yes == is_literal(kind@),
{
    text::same(kind, "ExprStringLiteral") || text::same(kind, "ExprBytesLiteral") || text::same(
        kind,
        "ExprNumberLiteral",
    ) || text::same(kind, "ExprBooleanLiteral") || text::same(kind, "ExprNoneLiteral")
        || text::same(kind, "ExprEllipsisLiteral")
}

/// Every segment of a dotted callee.
fn callee_names(tokens: &[Token], at: usize, depth: usize) -> (names: Vec<String>)
    requires
        at < tokens@.len(),
        depth < tokens@[at as int].path@.len(),
    ensures
        text::texts(names@) == callee(syntax::marks(tokens@), at as int, depth as int),
{
    let ghost outline = syntax::marks(tokens@);
    let ghost all = callee(outline, at as int, depth as int);
    let mut names: Vec<String> = Vec::new();
    let mut here: usize = at;
    let mut level: usize = depth;
    loop
        invariant
            here < tokens@.len(),
            level < tokens@[here as int].path@.len(),
            outline == syntax::marks(tokens@),
            all == callee(outline, at as int, depth as int),
            all == text::texts(names@) + callee(outline, here as int, level as int),
        decreases tokens@.len() - here, tokens@[here as int].path@.len() - level,
    {
        assert(level < tokens@[here as int].path.len());
        let node: &Node = &tokens[here].path[level];
        let ghost said = text::texts(names@);
        assert(outline[here as int].path[level as int] == node@);
        if text::same(node.kind.as_str(), "ExprName") {
            names.push(node.name.clone());
            assert(text::texts(names@) =~= said + seq![node.name@]);
            return names;
        }
        if !text::same(node.kind.as_str(), "ExprAttribute") {
            assert(text::texts(names@) =~= said + Seq::<Seq<char>>::empty());
            return names;
        }
        names.push(node.name.clone());
        assert(text::texts(names@) =~= said + seq![node.name@]);
        match syntax::child_of(tokens, here, level) {
            Some(value) => {
                assert(all =~= text::texts(names@) + callee(outline, value as int, level + 1));
                here = value;
                level = level + 1;
            },
            None => {
                assert(all =~= text::texts(names@));
                return names;
            },
        }
    }
}

fn any_listed(list: &[String], names: &[String]) -> (yes: bool)
    ensures
        yes == meet(text::texts(list@), text::texts(names@)),
{
    let mut at: usize = 0;
    while at < list.len()
        invariant
            at <= list@.len(),
            forall|k: int|
                0 <= k < at ==> !text::texts(names@).contains(#[trigger] text::texts(list@)[k]),
        decreases list@.len() - at,
    {
        assert(text::texts(list@)[at as int] == list@[at as int]@);
        if text::listed(names, list[at].as_str()) {
            return true;
        }
        at += 1;
    }
    false
}

/// Whether a statement is nothing but a call of one of these names.
fn arid(tokens: &[Token], at: usize, depth: usize, names: &[String]) -> (yes: bool)
    requires
        at < tokens@.len(),
        depth < tokens@[at as int].path@.len(),
    ensures
        yes == is_arid(syntax::marks(tokens@), at as int, depth as int, text::texts(names@)),
{
    let ghost outline = syntax::marks(tokens@);
    assert(depth < tokens@[at as int].path.len());
    let node: &Node = &tokens[at].path[depth];
    assert(outline[at as int].path[depth as int] == node@);
    if !text::same(node.kind.as_str(), "StmtExpr") {
        return false;
    }
    let call: usize = match syntax::child_of(tokens, at, depth) {
        Some(call) => call,
        None => return false,
    };
    assert(depth + 1 < tokens@[call as int].path.len());
    assert(outline[call as int].path[depth + 1] == tokens@[call as int].path@[depth + 1]@);
    if !text::same(tokens[call].path[depth + 1].kind.as_str(), "ExprCall") {
        return false;
    }
    match syntax::child_of(tokens, call, depth + 1) {
        Some(function) => {
            assert(depth + 2 < tokens@[function as int].path.len());
            any_listed(&callee_names(tokens, function, depth + 2), names)
        },
        None => false,
    }
}

fn removable(kind: &str) -> (yes: bool)
    ensures
        yes == is_removable(kind@),
{
    text::same(kind, "StmtAssign") || text::same(kind, "StmtAugAssign") || text::same(
        kind,
        "StmtRaise",
    ) || text::same(kind, "StmtAssert") || text::same(kind, "StmtDelete") || text::same(
        kind,
        "StmtIf",
    ) || text::same(kind, "StmtFor") || text::same(kind, "StmtWhile") || text::same(
        kind,
        "StmtWith",
    ) || text::same(kind, "StmtTry") || text::same(kind, "StmtMatch") || text::same(
        kind,
        "StmtBreak",
    ) || text::same(kind, "StmtContinue")
}

/// Whether a statement is worth removing.
fn deletable(tokens: &[Token], at: usize, depth: usize) -> (yes: bool)
    requires
        at < tokens@.len(),
        depth < tokens@[at as int].path@.len(),
    ensures
        yes == is_deletable(syntax::marks(tokens@), at as int, depth as int),
{
    let ghost outline = syntax::marks(tokens@);
    assert(depth < tokens@[at as int].path.len());
    let node: &Node = &tokens[at].path[depth];
    assert(outline[at as int].path[depth as int] == node@);
    let kind: &str = node.kind.as_str();
    if text::same(kind, "StmtReturn") {
        syntax::child_of(tokens, at, depth).is_some()
    } else if text::same(kind, "StmtAnnAssign") {
        syntax::has_token(tokens, at, depth, "Equal")
    } else if text::same(kind, "StmtExpr") {
        match syntax::child_of(tokens, at, depth) {
            Some(value) => {
                assert(depth + 1 < tokens@[value as int].path.len());
                assert(outline[value as int].path[depth + 1]
                    == tokens@[value as int].path@[depth + 1]@);
                !literal(tokens[value].path[depth + 1].kind.as_str())
            },
            None => true,
        }
    } else {
        removable(kind)
    }
}

/// Whether a node is the condition its parent decides on.
fn condition(token: &Token, depth: usize) -> (yes: bool)
    requires
        depth < token.path@.len(),
    ensures
        yes == is_condition(token@.path, depth as int),
{
    if depth == 0 {
        return false;
    }
    let kind: &str = token.path[depth].kind.as_str();
    let parent: &str = token.path[depth - 1].kind.as_str();
    assert(token@.path[depth as int].kind == kind@);
    assert(token@.path[depth - 1].kind == parent@);
    (text::same(parent, "StmtIf") || text::same(parent, "ElifElseClause") || text::same(
        parent,
        "StmtWhile",
    )) && text::starts_with(kind, "Expr") && !literal(kind)
}

/// The half of enumeration a token stream cannot see: whole statements, whole
/// conditions, and the call sites not worth mutating at all.
struct Nodes {
    /// Byte ranges holding nothing worth a mutant.
    arid: Vec<(usize, usize)>,
    /// Whole-node rewrites.
    found: Vec<Rewrite>,
}

/// Byte ranges as plain values.
pub open spec fn spans(list: Seq<(usize, usize)>) -> Seq<(int, int)> {
    list.map_values(|span: (usize, usize)| (span.0 as int, span.1 as int))
}

impl Nodes {
    /// Takes in the node that a token opens at this depth.
    fn statement(&mut self, tokens: &[Token], at: usize, depth: usize, names: &[String])
        requires
            at < tokens@.len(),
            depth < tokens@[at as int].path@.len(),
        ensures
            changes(final(self).found@) == changes(old(self).found@) + node_changes(
                syntax::marks(tokens@),
                at as int,
                depth as int,
                text::texts(names@),
            ),
            spans(final(self).arid@) == spans(old(self).arid@) + node_span(
                syntax::marks(tokens@),
                at as int,
                depth as int,
                text::texts(names@),
            ),
    {
        let ghost outline = syntax::marks(tokens@);
        let ghost path = outline[at as int].path;
        let token: &Token = &tokens[at];
        let node: &Node = &token.path[depth];
        assert(path[depth as int] == node@);
        assert(token@.path == path);
        let ghost found = changes(self.found@);
        let ghost skipped = spans(self.arid@);
        if visible(token, depth) {
            let turned_away: bool = arid(tokens, at, depth, names);
            if turned_away || hidden(node) {
                self.arid.push((node.start, node.end));
                assert(spans(self.arid@) =~= skipped.push((node.start as int, node.end as int)));
            }
            if condition(token, depth) {
                let always: bool = !text::same(token.path[depth - 1].kind.as_str(), "StmtWhile");
                assert(path[depth - 1] == token.path@[depth - 1]@);
                self.found.push(
                    Rewrite { start: node.start, end: node.end, text: text::owned("False") },
                );
                if always {
                    self.found.push(
                        Rewrite { start: node.start, end: node.end, text: text::owned("True") },
                    );
                }
            } else if !turned_away && deletable(tokens, at, depth) {
                self.found.push(
                    Rewrite { start: node.start, end: node.end, text: text::owned("pass") },
                );
            }
        }
        assert(changes(self.found@) =~= found + node_changes(
            outline,
            at as int,
            depth as int,
            text::texts(names@),
        ));
        assert(spans(self.arid@) =~= skipped + node_span(
            outline,
            at as int,
            depth as int,
            text::texts(names@),
        ));
    }

    /// Takes in every node of the file.
    fn walk(tokens: &[Token], names: &[String]) -> (nodes: Nodes)
        ensures
            changes(nodes.found@) == tree_changes(
                syntax::marks(tokens@),
                tokens@.len() as int,
                text::texts(names@),
            ),
            spans(nodes.arid@) == arid_spans(
                syntax::marks(tokens@),
                tokens@.len() as int,
                text::texts(names@),
            ),
    {
        let ghost outline = syntax::marks(tokens@);
        let ghost listed = text::texts(names@);
        let mut nodes: Nodes = Nodes { arid: Vec::new(), found: Vec::new() };
        assert(changes(nodes.found@) =~= Seq::<Change>::empty());
        assert(spans(nodes.arid@) =~= Seq::<(int, int)>::empty());
        let mut at: usize = 0;
        while at < tokens.len()
            invariant
                at <= tokens@.len(),
                outline == syntax::marks(tokens@),
                listed == text::texts(names@),
                changes(nodes.found@) == tree_changes(outline, at as int, listed),
                spans(nodes.arid@) == arid_spans(outline, at as int, listed),
            decreases tokens@.len() - at,
        {
            let from: usize = syntax::shared_nodes(tokens, at);
            let mut depth: usize = from;
            let ghost found = changes(nodes.found@);
            let ghost skipped = spans(nodes.arid@);
            assert(found + opened_changes(outline, at as int, from as int, listed) =~= found);
            assert(skipped + opened_spans(outline, at as int, from as int, listed) =~= skipped);
            while depth < tokens[at].path.len()
                invariant
                    at < tokens@.len(),
                    from <= depth <= tokens@[at as int].path@.len(),
                    from as int == syntax::shared(outline, at as int),
                    outline == syntax::marks(tokens@),
                    listed == text::texts(names@),
                    changes(nodes.found@) == found + opened_changes(
                        outline,
                        at as int,
                        depth as int,
                        listed,
                    ),
                    spans(nodes.arid@) == skipped + opened_spans(
                        outline,
                        at as int,
                        depth as int,
                        listed,
                    ),
                decreases tokens@[at as int].path@.len() - depth,
            {
                nodes.statement(tokens, at, depth, names);
                assert(changes(nodes.found@) =~= found + opened_changes(
                    outline,
                    at as int,
                    depth + 1,
                    listed,
                ));
                assert(spans(nodes.arid@) =~= skipped + opened_spans(
                    outline,
                    at as int,
                    depth + 1,
                    listed,
                ));
                depth += 1;
            }
            at += 1;
        }
        nodes
    }

    /// Whether a mutant of this range sits inside something arid.
    fn suppresses(&self, start: usize, end: usize) -> (yes: bool)
        ensures
            yes == is_suppressed(spans(self.arid@), start as int, end as int),
    {
        let mut at: usize = 0;
        while at < self.arid.len()
            invariant
                at <= self.arid@.len(),
                forall|k: int|
                    0 <= k < at ==> !(start >= (#[trigger] spans(self.arid@)[k]).0 && end
                        <= spans(self.arid@)[k].1),
            decreases self.arid@.len() - at,
        {
            assert(spans(self.arid@)[at as int] == (
                self.arid@[at as int].0 as int,
                self.arid@[at as int].1 as int,
            ));
            if start >= self.arid[at].0 && end <= self.arid[at].1 {
                return true;
            }
            at += 1;
        }
        false
    }
}

/// `for x in y` is not a membership test, so the loop's own `in` is left alone.
struct ForHeaders {
    open_loops: usize,
}

impl ForHeaders {
    fn skips(&mut self, kind: &str) -> (yes: bool)
        requires
            old(self).open_loops < usize::MAX,
        ensures
            yes == (kind@ == "In"@ && kind@ != "For"@ && old(self).open_loops > 0),
            final(self).open_loops == if kind@ == "For"@ {
                old(self).open_loops + 1
            } else if kind@ == "In"@ && old(self).open_loops > 0 {
                old(self).open_loops - 1
            } else {
                old(self).open_loops as int
            },
    {
        if text::same(kind, "For") {
            self.open_loops = self.open_loops + 1;
            false
        } else if self.open_loops > 0 && text::same(kind, "In") {
            self.open_loops = self.open_loops - 1;
            true
        } else {
            false
        }
    }
}

/// Adds the swaps of every token to the rewrites found so far.
fn swap_tokens(tokens: &[Token], source: &str, sums: &Sums, found: &mut Vec<Rewrite>)
    ensures
        changes(final(found)@) == changes(old(found)@) + stream_changes(
            syntax::marks(tokens@),
            tokens@.len() as int,
            source@,
            sums.entries(),
        ),
{
    let ghost outline = syntax::marks(tokens@);
    let ghost before = changes(found@);
    let total: usize = tokens.len();
    let mut headers: ForHeaders = ForHeaders { open_loops: 0 };
    let mut after_dot: bool = false;
    let mut at: usize = 0;
    assert(changes(found@) =~= before + stream_changes(outline, 0, source@, sums.entries()));
    while at < total
        invariant
            at <= total == tokens@.len(),
            outline == syntax::marks(tokens@),
            headers.open_loops as nat == open_loops(outline, at as int),
            headers.open_loops <= at,
            after_dot == (at > 0 && outline[at - 1].kind == "Dot"@),
            changes(found@) == before + stream_changes(
                outline,
                at as int,
                source@,
                sums.entries(),
            ),
        decreases total - at,
    {
        proof {
            reveal_strlit("For");
            reveal_strlit("In");
            assert("For"@.len() != "In"@.len());
        }
        let token: &Token = &tokens[at];
        assert(outline[at as int] == token@);
        let ghost so_far = changes(found@);
        let ghost added = token_changes(outline, at as int, source@, sums.entries());
        if headers.skips(token.kind.as_str()) {
            assert(added =~= Seq::<Change>::empty());
        } else {
            match text::slice(source, token.start, token.end) {
                Some(spelled) => {
                    let mut list: Vec<String> = literals::replacements(
                        token.kind.as_str(),
                        spelled,
                        after_dot,
                        sums,
                    );
                    let ghost listed = text::texts(list@);
                    assert(added.len() == listed.len());
                    let mut next: usize = 0;
                    while next < list.len()
                        invariant
                            next <= list@.len(),
                            listed == text::texts(list@),
                            added.len() == listed.len(),
                            forall|k: int|
                                0 <= k < added.len() ==> #[trigger] added[k] == (Change {
                                    start: token.start as int,
                                    end: token.end as int,
                                    text: listed[k],
                                }),
                            changes(found@) =~= so_far + added.subrange(0, next as int),
                        decreases list@.len() - next,
                    {
                        let ghost earlier = changes(found@);
                        let replacement: String = list[next].clone();
                        found.push(
                            Rewrite { start: token.start, end: token.end, text: replacement },
                        );
                        assert(changes(found@) =~= earlier.push(added[next as int]));
                        next += 1;
                    }
                    assert(added.subrange(0, next as int) =~= added);
                },
                None => {
                    assert(added =~= Seq::<Change>::empty());
                },
            }
        }
        after_dot = text::same(token.kind.as_str(), "Dot");
        at += 1;
        assert(changes(found@) =~= before + stream_changes(
            outline,
            at as int,
            source@,
            sums.entries(),
        ));
    }
}

/// Every rewrite a file admits, in byte order.
fn candidate_rewrites(
    tokens: &[Token],
    source: &str,
    sums: &Sums,
    found: Vec<Rewrite>,
) -> (list: Vec<Rewrite>)
    ensures
        changes(list@) == sorting::in_order(
            changes(found@) + stream_changes(
                syntax::marks(tokens@),
                tokens@.len() as int,
                source@,
                sums.entries(),
            ),
            byte_order(),
        ),
{
    let mut found: Vec<Rewrite> = found;
    swap_tokens(tokens, source, sums, &mut found);
    let ghost all = found@;
    let list: Vec<Rewrite> = sorting::sort(found);
    proof {
        let picture = |rewrite: Rewrite| rewrite@;
        sorting::lemma_sorting_pictures(
            all,
            sorting::ranks::<Rewrite>(),
            picture,
            byte_order(),
        );
    }
    list
}

proof fn lemma_starts_ascend(found: Seq<Change>, i: int, j: int)
    requires
        sorting::is_ordered(found, byte_order()),
        0 <= i <= j < found.len(),
        0 <= found[i].end < 0x1_0000_0000_0000_0000,
        0 <= found[j].end < 0x1_0000_0000_0000_0000,
    ensures
        found[i].start <= found[j].start,
{
    assert(byte_order()(found[i]) <= byte_order()(found[j]));
}

/// What a config asked of the operators that cannot be had.
#[derive(Debug)]
pub enum OperatorError {
    /// No family at all.
    Empty,
    /// A family that does not exist.
    Unknown(String),
}

impl OperatorError {
    pub open spec fn message(self) -> Seq<char> {
        match self {
            OperatorError::Empty => "operators is empty, so there is nothing to mutate"@,
            OperatorError::Unknown(family) => "unknown operator family "@ + text::debug_form(
                family@,
            ) + ", pick from "@ + text::joined(mutate::all_families(), ", "@),
        }
    }

    pub fn to_text(&self) -> (message: String)
        ensures
            message@ == self.message(),
    {
        match self {
            OperatorError::Empty => text::owned(
                "operators is empty, so there is nothing to mutate",
            ),
            OperatorError::Unknown(family) => {
                let mut message: String = text::owned("unknown operator family ");
                message.append(&text::debug(family.as_str()));
                message.append(", pick from ");
                let known: Vec<&'static str> = mutate::families();
                let mut names: Vec<String> = Vec::new();
                let mut at: usize = 0;
                while at < known.len()
                    invariant
                        at <= known@.len(),
                        names@.len() == at,
                        forall|k: int| 0 <= k < at ==> #[trigger] names@[k]@ == known@[k]@,
                    decreases known@.len() - at,
                {
                    names.push(text::owned(known[at]));
                    at += 1;
                }
                assert(text::texts(names@) =~= mutate::names(known@));
                message.append(&text::join(&names, ", "));
                message
            },
        }
    }
}

/// Which mutants a run is willing to plant, and where.
///
/// Two levers, and the measured one is the second. Choosing operators well has
/// a ceiling of about 13% over sampling mutants at random; choosing where not
/// to apply them took Google's median from 820 mutants per change to 7, and
/// raised the share developers judged worth acting on from 15% to 89%.
pub struct Operators {
    families: Vec<String>,
    arid_names: Vec<String>,
    /// How many mutants the arid names turned away. A silent suppression raises
    /// the score exactly the way a silent exclusion does, so a run has to be
    /// able to say what it decided not to look at.
    suppressed: usize,
    /// How many a disabled family turned away.
    filtered: usize,
}

/// Operators as plain values.
#[verifier::ext_equal]
pub struct Choice {
    pub families: Seq<Seq<char>>,
    pub arid_names: Seq<Seq<char>>,
    pub suppressed: nat,
    pub filtered: nat,
}

impl View for Operators {
    type V = Choice;

    closed spec fn view(&self) -> Choice {
        Choice {
            families: text::texts(self.families@),
            arid_names: text::texts(self.arid_names@),
            suppressed: self.suppressed as nat,
            filtered: self.filtered as nat,
        }
    }
}

/// A tally that stops at the largest number it can hold.
pub open spec fn tallied(count: nat, more: nat) -> nat {
    if count + more > usize::MAX {
        usize::MAX as nat
    } else {
        count + more
    }
}

impl Choice {
    /// The choice after a file was enumerated.
    pub open spec fn after(self, crop: Crop) -> Choice {
        Choice {
            suppressed: tallied(self.suppressed, crop.suppressed),
            filtered: tallied(self.filtered, crop.filtered),
            ..self
        }
    }

    /// What was turned away, as a trailing clause.
    pub open spec fn note(self) -> Seq<char> {
        if self.filtered == 0 && self.suppressed == 0 {
            Seq::empty()
        } else if self.suppressed == 0 {
            ", "@ + text::decimal(self.filtered) + " skipped by operators"@
        } else if self.filtered == 0 {
            ", "@ + text::decimal(self.suppressed) + " skipped as arid"@
        } else {
            ", "@ + text::decimal(self.filtered) + " skipped by operators and "@ + text::decimal(
                self.suppressed,
            ) + " as arid"@
        }
    }
}

/// The first of these families that does not exist.
pub open spec fn first_unknown(families: Seq<Seq<char>>) -> Option<Seq<char>>
    decreases families.len(),
{
    if families.len() == 0 {
        None
    } else if !mutate::all_families().contains(families[0]) {
        Some(families[0])
    } else {
        first_unknown(families.drop_first())
    }
}

fn is_family(name: &str) -> (yes: bool)
    ensures
        yes == mutate::all_families().contains(name@),
{
    let known: Vec<&'static str> = mutate::families();
    let mut at: usize = 0;
    while at < known.len()
        invariant
            at <= known@.len(),
            mutate::names(known@) == mutate::all_families(),
            forall|k: int| 0 <= k < at ==> mutate::all_families()[k] != name@,
        decreases known@.len() - at,
    {
        assert(mutate::names(known@)[at as int] == known@[at as int]@);
        if text::same(known[at], name) {
            return true;
        }
        at += 1;
    }
    assert(mutate::all_families().len() == known@.len());
    false
}

impl Operators {
    /// Refuses a family name it does not know. A typo would otherwise disable a
    /// whole family, drop its mutants from the pool, and report a higher score
    /// for the loss.
    pub fn new(families: &[String], arid: &[String]) -> (operators: Result<
        Operators,
        OperatorError,
    >)
        ensures
            operators matches Ok(chosen) ==> families@.len() > 0 && first_unknown(
                text::texts(families@),
            ).is_none() && chosen@ == (Choice {
                families: text::texts(families@),
                arid_names: text::texts(arid@),
                suppressed: 0,
                filtered: 0,
            }),
            operators matches Err(error) ==> (error is Empty <==> families@.len() == 0),
            operators matches Err(OperatorError::Unknown(family)) ==> first_unknown(
                text::texts(families@),
            ) == Some(family@),
    {
        if families.len() == 0 {
            return Err(OperatorError::Empty);
        }
        let ghost asked = text::texts(families@);
        assert(asked.subrange(0, asked.len() as int) =~= asked);
        let mut at: usize = 0;
        while at < families.len()
            invariant
                at <= families@.len(),
                families@.len() > 0,
                asked == text::texts(families@),
                first_unknown(asked) == first_unknown(
                    asked.subrange(at as int, asked.len() as int),
                ),
            decreases families@.len() - at,
        {
            assert(asked.subrange(at as int, asked.len() as int).drop_first() =~= asked.subrange(
                at + 1,
                asked.len() as int,
            ));
            assert(asked[at as int] == families@[at as int]@);
            if !is_family(families[at].as_str()) {
                return Err(OperatorError::Unknown(families[at].clone()));
            }
            at += 1;
        }
        Ok(
            Operators {
                families: text::copy_list(families),
                arid_names: text::copy_list(arid),
                suppressed: 0,
                filtered: 0,
            },
        )
    }

    fn enabled(&self, family: &str) -> (yes: bool)
        ensures
            yes == self@.families.contains(family@),
    {
        text::listed(&self.families, family)
    }

    /// Rendered as a trailing clause, empty when nothing was turned away, so a
    /// run of the whole set says what it has always said.
    pub fn note(&self) -> (clause: String)
        ensures
            clause@ == self@.note(),
    {
        if self.filtered == 0 && self.suppressed == 0 {
            return String::new();
        }
        let mut clause: String = text::owned(", ");
        if self.suppressed == 0 {
            clause.append(&text::show_size(self.filtered));
            clause.append(" skipped by operators");
        } else if self.filtered == 0 {
            clause.append(&text::show_size(self.suppressed));
            clause.append(" skipped as arid");
        } else {
            clause.append(&text::show_size(self.filtered));
            clause.append(" skipped by operators and ");
            clause.append(&text::show_size(self.suppressed));
            clause.append(" as arid");
        }
        clause
    }

    /// The mutants of a file, from its text alone. `sums` holds the numbers
    /// that only floating point can make one bigger; `float_literals` names
    /// them. A file that does not parse gives the parser's message.
    pub fn enumerate_source(&mut self, source: &str, file: &str, sums: &Sums) -> (mutants: Result<
        Vec<Mutant>,
        String,
    >)
        requires
            text::width(source@) <= u32::MAX,
        ensures
            match syntax::parsed(source@) {
                Ok(outline) => {
                    let crop = enumerated(
                        outline,
                        source@,
                        file@,
                        old(self)@.families,
                        old(self)@.arid_names,
                        sums.entries(),
                    );
                    &&& mutants matches Ok(list) && mutate::planted(list@) == crop.mutants
                    &&& final(self)@ == old(self)@.after(crop)
                },
                Err(message) => {
                    &&& mutants matches Err(said) && said@ == message
                    &&& final(self)@ == old(self)@
                },
            },
    {
        match syntax::read_python(source) {
            Ok(tokens) => Ok(self.enumerate_outline(&tokens, source, file, sums)),
            Err(message) => Err(message),
        }
    }

    /// The mutants of a parsed file.
    pub fn enumerate_outline(
        &mut self,
        tokens: &[Token],
        source: &str,
        file: &str,
        sums: &Sums,
    ) -> (mutants: Vec<Mutant>)
        requires
            text::width(source@) <= u32::MAX,
        ensures
            ({
                let crop = enumerated(
                    syntax::marks(tokens@),
                    source@,
                    file@,
                    old(self)@.families,
                    old(self)@.arid_names,
                    sums.entries(),
                );
                &&& mutate::planted(mutants@) == crop.mutants
                &&& final(self)@ == old(self)@.after(crop)
            }),
    {
        let ghost outline = syntax::marks(tokens@);
        let ghost bytes = encode_utf8(source@);
        let mut nodes: Nodes = Nodes::walk(tokens, &self.arid_names);
        let ghost tree = changes(nodes.found@);
        let ghost skipped = spans(nodes.arid@);
        let mut taken: Vec<Rewrite> = Vec::new();
        std::mem::swap(&mut taken, &mut nodes.found);
        let list: Vec<Rewrite> = candidate_rewrites(tokens, source, sums, taken);
        let ghost found = changes(list@);
        proof {
            sorting::law_sorting_orders_and_keeps_everything(
                tree + stream_changes(outline, tokens@.len() as int, source@, sums.entries()),
                byte_order(),
            );
        }
        let mut cursor: Lines = Lines::default();
        let mut suppressed: usize = 0;
        let mut filtered: usize = 0;
        let mut mutants: Vec<Mutant> = Vec::new();
        let mut at: usize = 0;
        let ghost families = self@.families;
        assert(bytes.subrange(0, 0) =~= Seq::<u8>::empty());
        assert(mutate::planted(mutants@) =~= Seq::<Planted>::empty());
        while at < list.len()
            invariant
                at <= list@.len(),
                found == changes(list@),
                sorting::is_ordered(found, byte_order()),
                spans(nodes.arid@) == skipped,
                *self == *old(self),
                families == self@.families,
                bytes == encode_utf8(source@),
                cursor@.is_exact(bytes),
                forall|k: int| at <= k < found.len() ==> cursor@.scanned <= #[trigger] found[k].start,
                suppressed <= at,
                filtered <= at,
                ({
                    let crop = harvest(
                        found.subrange(0, at as int),
                        source@,
                        file@,
                        skipped,
                        families,
                    );
                    &&& mutate::planted(mutants@) == crop.mutants
                    &&& suppressed as nat == crop.suppressed
                    &&& filtered as nat == crop.filtered
                }),
            decreases list@.len() - at,
        {
            let ghost wider = found.subrange(0, at + 1);
            assert(wider.drop_last() =~= found.subrange(0, at as int));
            assert(wider.last() == found[at as int]);
            let rewrite: &Rewrite = &list[at];
            assert(found[at as int] == rewrite@);
            let ghost kept = mutate::planted(mutants@);
            match text::slice(source, rewrite.start, rewrite.end) {
                None => {},
                Some(original) => {
                    if text::same(rewrite.text.as_str(), original) {
                    } else if nodes.suppresses(rewrite.start, rewrite.end) {
                        suppressed = suppressed + 1;
                    } else {
                        proof {
                            lines::lemma_forward_stays_exact(cursor@, bytes, rewrite.start as nat);
                        }
                        let mutant: Mutant = Mutant {
                            id: 0,
                            file: text::owned(file),
                            line: cursor.at(source, rewrite.start),
                            byte_start: rewrite.start,
                            byte_end: rewrite.end,
                            original: text::owned(original),
                            replacement: rewrite.text.clone(),
                        };
                        proof {
                            assert forall|k: int| at + 1 <= k < found.len() implies cursor@.scanned
                                <= #[trigger] found[k].start by {
                                assert(found[k] == list@[k]@);
                                lemma_starts_ascend(found, at as int, k);
                            }
                        }
                        if !self.enabled(mutant.mutator()) {
                            filtered = filtered + 1;
                        } else {
                            mutants.push(mutant);
                            assert(mutate::planted(mutants@) =~= kept.push(mutant@));
                        }
                    }
                },
            }
            at += 1;
        }
        assert(found.subrange(0, at as int) =~= found);
        self.suppressed = self.suppressed.saturating_add(suppressed);
        self.filtered = self.filtered.saturating_add(filtered);
        mutants
    }
}

/// The numbers of the first tokens that only floating point can make one
/// bigger, without their underscores.
pub open spec fn floats_in(outline: Seq<Mark>, upto: int, source: Seq<char>) -> Seq<Seq<char>>
    decreases upto,
{
    if upto <= 0 {
        Seq::empty()
    } else {
        let before = floats_in(outline, upto - 1, source);
        let token = outline[upto - 1];
        match text::sliced(source, token.start, token.end) {
            Some(number) => if (token.kind == "Int"@ || token.kind == "Float"@)
                && literals::needs_sum(number) {
                before.push(literals::dropping(number, '_'))
            } else {
                before
            },
            None => before,
        }
    }
}

/// The numbers of a parsed file that only floating point can make one bigger.
pub fn floats_of(tokens: &[Token], source: &str) -> (numbers: Vec<String>)
    ensures
        text::texts(numbers@) == floats_in(
            syntax::marks(tokens@),
            tokens@.len() as int,
            source@,
        ),
{
    let ghost outline = syntax::marks(tokens@);
    let mut numbers: Vec<String> = Vec::new();
    assert(text::texts(numbers@) =~= Seq::<Seq<char>>::empty());
    let mut at: usize = 0;
    while at < tokens.len()
        invariant
            at <= tokens@.len(),
            outline == syntax::marks(tokens@),
            text::texts(numbers@) == floats_in(outline, at as int, source@),
        decreases tokens@.len() - at,
    {
        let token: &Token = &tokens[at];
        assert(outline[at as int] == token@);
        let ghost before = text::texts(numbers@);
        if text::same(token.kind.as_str(), "Int") || text::same(token.kind.as_str(), "Float") {
            match text::slice(source, token.start, token.end) {
                Some(number) => match literals::float_text(number) {
                    Some(clean) => {
                        numbers.push(clean);
                        assert(text::texts(numbers@) =~= before.push(clean@));
                    },
                    None => {},
                },
                None => {},
            }
        }
        at += 1;
    }
    numbers
}

/// The numbers of a file that only floating point can make one bigger, or the
/// parser's message about a file that does not parse.
pub fn float_literals(source: &str) -> (numbers: Result<Vec<String>, String>)
    requires
        text::width(source@) <= u32::MAX,
    ensures
        match syntax::parsed(source@) {
            Ok(outline) => numbers matches Ok(list) && text::texts(list@) == floats_in(
                outline,
                outline.len() as int,
                source@,
            ),
            Err(message) => numbers matches Err(said) && said@ == message,
        },
{
    match syntax::read_python(source) {
        Ok(tokens) => Ok(floats_of(&tokens, source)),
        Err(message) => Err(message),
    }
}

/// Every mutant a run plants still fits the source it came from, changes it,
/// belongs to a family the run enables, lies in nothing arid, and knows its own
/// line.
pub proof fn law_every_mutant_is_one_the_run_asked_for(
    found: Seq<Change>,
    source: Seq<char>,
    file: Seq<char>,
    spans: Seq<(int, int)>,
    families: Seq<Seq<char>>,
    i: int,
)
    requires
        0 <= i < harvest(found, source, file, spans, families).mutants.len(),
    ensures
        ({
            let mutant = harvest(found, source, file, spans, families).mutants[i];
            &&& mutant.fits(source)
            &&& mutant.replacement != mutant.original
            &&& mutant.file == file
            &&& families.contains(mutate::family_of(mutant.original, mutant.replacement))
            &&& !is_suppressed(spans, mutant.byte_start, mutant.byte_end)
            &&& lines::line_of(encode_utf8(source), mutant.byte_start as nat) <= u32::MAX
                ==> mutant.line == lines::line_of(encode_utf8(source), mutant.byte_start as nat)
        }),
    decreases found.len(),
{
    let before = harvest(found.drop_last(), source, file, spans, families);
    if i < before.mutants.len() {
        law_every_mutant_is_one_the_run_asked_for(
            found.drop_last(),
            source,
            file,
            spans,
            families,
            i,
        );
    }
}

/// How many of the candidates would change the source.
pub open spec fn real_candidates(found: Seq<Change>, source: Seq<char>) -> nat
    decreases found.len(),
{
    if found.len() == 0 {
        0
    } else {
        let change = found.last();
        let original = text::sliced(source, change.start, change.end);
        real_candidates(found.drop_last(), source) + if original.is_some() && original
            != Some(change.text) {
            1nat
        } else {
            0
        }
    }
}

/// Nothing is turned away in silence: what is planted, what is called arid and
/// what a disabled family cost add up to everything there was.
pub proof fn law_every_candidate_is_accounted_for(
    found: Seq<Change>,
    source: Seq<char>,
    file: Seq<char>,
    spans: Seq<(int, int)>,
    families: Seq<Seq<char>>,
)
    ensures
        ({
            let crop = harvest(found, source, file, spans, families);
            crop.mutants.len() + crop.suppressed + crop.filtered == real_candidates(found, source)
        }),
    decreases found.len(),
{
    if found.len() > 0 {
        law_every_candidate_is_accounted_for(
            found.drop_last(),
            source,
            file,
            spans,
            families,
        );
    }
}

/// A run that enables every family filters nothing.
pub proof fn law_every_family_enabled_filters_nothing(
    found: Seq<Change>,
    source: Seq<char>,
    file: Seq<char>,
    spans: Seq<(int, int)>,
)
    ensures
        harvest(found, source, file, spans, mutate::all_families()).filtered == 0,
    decreases found.len(),
{
    if found.len() > 0 {
        law_every_family_enabled_filters_nothing(found.drop_last(), source, file, spans);
        let change = found.last();
        match text::sliced(source, change.start, change.end) {
            Some(original) => {
                mutate::law_every_family_is_listed(original, change.text);
            },
            None => {},
        }
    }
}

/// The mutants of a file come in the order of its bytes.
pub proof fn law_mutants_come_in_byte_order(
    outline: Seq<Mark>,
    source: Seq<char>,
    file: Seq<char>,
    families: Seq<Seq<char>>,
    names: Seq<Seq<char>>,
    sums: Seq<(Seq<char>, Seq<char>)>,
    i: int,
    j: int,
)
    requires
        text::width(source) <= u32::MAX,
        0 <= i <= j < enumerated(outline, source, file, families, names, sums).mutants.len(),
    ensures
        ({
            let mutants = enumerated(outline, source, file, families, names, sums).mutants;
            &&& mutants[i].byte_start <= mutants[j].byte_start
            &&& mutants[i].byte_start == mutants[j].byte_start ==> mutants[i].byte_end
                <= mutants[j].byte_end
        }),
{
    let total = outline.len() as int;
    sorting::law_sorting_orders_and_keeps_everything(
        tree_changes(outline, total, names) + stream_changes(outline, total, source, sums),
        byte_order(),
    );
    lemma_harvest_keeps_the_order(
        candidates(outline, source, names, sums),
        source,
        file,
        arid_spans(outline, total, names),
        families,
        i,
        j,
    );
}

proof fn lemma_harvest_keeps_the_order(
    found: Seq<Change>,
    source: Seq<char>,
    file: Seq<char>,
    spans: Seq<(int, int)>,
    families: Seq<Seq<char>>,
    i: int,
    j: int,
)
    requires
        text::width(source) <= u32::MAX,
        sorting::is_ordered(found, byte_order()),
        0 <= i <= j < harvest(found, source, file, spans, families).mutants.len(),
    ensures
        ({
            let mutants = harvest(found, source, file, spans, families).mutants;
            &&& mutants[i].byte_start <= mutants[j].byte_start
            &&& mutants[i].byte_start == mutants[j].byte_start ==> mutants[i].byte_end
                <= mutants[j].byte_end
        }),
    decreases found.len(),
{
    let before = harvest(found.drop_last(), source, file, spans, families);
    assert(sorting::is_ordered(found.drop_last(), byte_order())) by {
        assert forall|a: int, b: int| 0 <= a <= b < found.drop_last().len() implies byte_order()(
            #[trigger] found.drop_last()[a],
        ) <= byte_order()(#[trigger] found.drop_last()[b]) by {
            assert(found.drop_last()[a] == found[a] && found.drop_last()[b] == found[b]);
        }
    }
    if j < before.mutants.len() {
        lemma_harvest_keeps_the_order(
            found.drop_last(),
            source,
            file,
            spans,
            families,
            i,
            j,
        );
    } else if i < before.mutants.len() {
        let k = lemma_mutant_has_a_candidate(
            found.drop_last(),
            source,
            file,
            spans,
            families,
            i,
        );
        assert(found.drop_last()[k] == found[k]);
        assert(byte_order()(found[k]) <= byte_order()(found[found.len() - 1]));
    }
}

proof fn lemma_mutant_has_a_candidate(
    found: Seq<Change>,
    source: Seq<char>,
    file: Seq<char>,
    spans: Seq<(int, int)>,
    families: Seq<Seq<char>>,
    i: int,
) -> (k: int)
    requires
        0 <= i < harvest(found, source, file, spans, families).mutants.len(),
    ensures
        0 <= k < found.len(),
        ({
            let mutant = harvest(found, source, file, spans, families).mutants[i];
            &&& mutant.byte_start == found[k].start
            &&& mutant.byte_end == found[k].end
            &&& mutant.replacement == found[k].text
            &&& text::sliced(source, found[k].start, found[k].end).is_some()
        }),
    decreases found.len(),
{
    let before = harvest(found.drop_last(), source, file, spans, families);
    if i < before.mutants.len() {
        let k = lemma_mutant_has_a_candidate(
            found.drop_last(),
            source,
            file,
            spans,
            families,
            i,
        );
        assert(found.drop_last()[k] == found[k]);
        k
    } else {
        found.len() - 1
    }
}

proof fn lemma_opened_changes(
    outline: Seq<Mark>,
    at: int,
    upto: int,
    names: Seq<Seq<char>>,
    depth: int,
    change: Change,
)
    requires
        syntax::shared(outline, at) <= depth < upto,
        0 <= depth,
        node_changes(outline, at, depth, names).contains(change),
    ensures
        opened_changes(outline, at, upto, names).contains(change),
    decreases upto,
{
    let before = opened_changes(outline, at, upto - 1, names);
    let last = node_changes(outline, at, upto - 1, names);
    let all = opened_changes(outline, at, upto, names);
    assert(all == before + last);
    if depth == upto - 1 {
        let k = choose|k: int| 0 <= k < last.len() && last[k] == change;
        assert(all[before.len() + k] == change);
    } else {
        lemma_opened_changes(outline, at, upto - 1, names, depth, change);
        let k = choose|k: int| 0 <= k < before.len() && before[k] == change;
        assert(all[k] == change);
    }
}

proof fn lemma_tree_changes(
    outline: Seq<Mark>,
    upto: int,
    names: Seq<Seq<char>>,
    at: int,
    depth: int,
    change: Change,
)
    requires
        0 <= at < upto <= outline.len(),
        syntax::shared(outline, at) <= depth < outline[at].path.len(),
        0 <= depth,
        node_changes(outline, at, depth, names).contains(change),
    ensures
        tree_changes(outline, upto, names).contains(change),
    decreases upto,
{
    let before = tree_changes(outline, upto - 1, names);
    let last = opened_changes(outline, upto - 1, outline[upto - 1].path.len() as int, names);
    let all = tree_changes(outline, upto, names);
    assert(all == before + last);
    if at == upto - 1 {
        lemma_opened_changes(
            outline,
            at,
            outline[at].path.len() as int,
            names,
            depth,
            change,
        );
        let k = choose|k: int| 0 <= k < last.len() && last[k] == change;
        assert(all[before.len() + k] == change);
    } else {
        lemma_tree_changes(outline, upto - 1, names, at, depth, change);
        let k = choose|k: int| 0 <= k < before.len() && before[k] == change;
        assert(all[k] == change);
    }
}

proof fn lemma_stream_changes(
    outline: Seq<Mark>,
    upto: int,
    source: Seq<char>,
    sums: Seq<(Seq<char>, Seq<char>)>,
    at: int,
    change: Change,
)
    requires
        0 <= at < upto <= outline.len(),
        token_changes(outline, at, source, sums).contains(change),
    ensures
        stream_changes(outline, upto, source, sums).contains(change),
    decreases upto,
{
    let before = stream_changes(outline, upto - 1, source, sums);
    let last = token_changes(outline, upto - 1, source, sums);
    let all = stream_changes(outline, upto, source, sums);
    assert(all == before + last);
    if at == upto - 1 {
        let k = choose|k: int| 0 <= k < last.len() && last[k] == change;
        assert(all[before.len() + k] == change);
    } else {
        lemma_stream_changes(outline, upto - 1, source, sums, at, change);
        let k = choose|k: int| 0 <= k < before.len() && before[k] == change;
        assert(all[k] == change);
    }
}

proof fn lemma_candidates(
    outline: Seq<Mark>,
    source: Seq<char>,
    names: Seq<Seq<char>>,
    sums: Seq<(Seq<char>, Seq<char>)>,
    change: Change,
)
    ensures
        candidates(outline, source, names, sums).contains(change) <==> tree_changes(
            outline,
            outline.len() as int,
            names,
        ).contains(change) || stream_changes(
            outline,
            outline.len() as int,
            source,
            sums,
        ).contains(change),
{
    broadcast use vstd::seq_lib::group_to_multiset_ensures;

    let total = outline.len() as int;
    let tree = tree_changes(outline, total, names);
    let stream = stream_changes(outline, total, source, sums);
    let all = tree + stream;
    let sorted = candidates(outline, source, names, sums);
    sorting::law_sorting_orders_and_keeps_everything(all, byte_order());
    assert(sorted.contains(change) <==> sorted.to_multiset().count(change) > 0);
    assert(all.contains(change) <==> all.to_multiset().count(change) > 0);
    if tree.contains(change) {
        let k = choose|k: int| 0 <= k < tree.len() && tree[k] == change;
        assert(all[k] == change);
    }
    if stream.contains(change) {
        let k = choose|k: int| 0 <= k < stream.len() && stream[k] == change;
        assert(all[tree.len() + k] == change);
    }
    if all.contains(change) {
        let k = choose|k: int| 0 <= k < all.len() && all[k] == change;
        if k < tree.len() {
            assert(tree[k] == change);
        } else {
            assert(stream[k - tree.len()] == change);
        }
    }
}

/// Whether a node stands inside a definition that only a person reads.
pub open spec fn stands_in_a_repr(path: Seq<Place>, depth: int) -> bool {
    exists|k: int|
        0 <= k < depth && (#[trigger] path[k]).kind == "StmtFunctionDef"@ && (path[k].name
            == "__repr__"@ || path[k].name == "__str__"@)
}

proof fn lemma_visible(path: Seq<Place>, depth: int)
    ensures
        is_visible(path, depth) <==> !stands_in_a_repr(path, depth),
{
    if !is_visible(path, depth) {
        let k = choose|k: int| 0 <= k < depth && is_hidden(#[trigger] path[k]);
        assert(path[k].kind == "StmtFunctionDef"@);
    }
    if stands_in_a_repr(path, depth) {
        let k = choose|k: int|
            0 <= k < depth && (#[trigger] path[k]).kind == "StmtFunctionDef"@ && (path[k].name
                == "__repr__"@ || path[k].name == "__str__"@);
        assert(is_hidden(path[k]));
    }
}

proof fn lemma_statement_is_no_expression(kind: Seq<char>)
    requires
        text::begins(kind, "Stmt"@),
    ensures
        !text::begins(kind, "Expr"@),
        !is_literal(kind),
{
    reveal_strlit("Stmt");
    reveal_strlit("Expr");
    reveal_strlit("ExprStringLiteral");
    reveal_strlit("ExprBytesLiteral");
    reveal_strlit("ExprNumberLiteral");
    reveal_strlit("ExprBooleanLiteral");
    reveal_strlit("ExprNoneLiteral");
    reveal_strlit("ExprEllipsisLiteral");
    assert(kind.subrange(0, 4)[0] == 'S');
    assert(kind[0] == 'S');
    if text::begins(kind, "Expr"@) {
        assert(kind.subrange(0, 4)[0] == 'E');
    }
}

/// Whether a statement of this kind can always go.
pub open spec fn may_always_go(kind: Seq<char>) -> bool {
    seq![
        "StmtAssign"@,
        "StmtAugAssign"@,
        "StmtRaise"@,
        "StmtAssert"@,
        "StmtDelete"@,
        "StmtIf"@,
        "StmtFor"@,
        "StmtWhile"@,
        "StmtWith"@,
        "StmtTry"@,
        "StmtMatch"@,
        "StmtBreak"@,
        "StmtContinue"@,
    ].contains(kind)
}

proof fn lemma_may_always_go(kind: Seq<char>)
    ensures
        may_always_go(kind) <==> is_removable(kind),
        may_always_go(kind) ==> text::begins(kind, "Stmt"@) && kind != "StmtReturn"@ && kind
            != "StmtAnnAssign"@ && kind != "StmtExpr"@,
{
    reveal_strlit("Stmt");
    reveal_strlit("StmtReturn");
    reveal_strlit("StmtAnnAssign");
    reveal_strlit("StmtExpr");
    reveal_strlit("StmtAssign");
    reveal_strlit("StmtAugAssign");
    reveal_strlit("StmtRaise");
    reveal_strlit("StmtAssert");
    reveal_strlit("StmtDelete");
    reveal_strlit("StmtIf");
    reveal_strlit("StmtFor");
    reveal_strlit("StmtWhile");
    reveal_strlit("StmtWith");
    reveal_strlit("StmtTry");
    reveal_strlit("StmtMatch");
    reveal_strlit("StmtBreak");
    reveal_strlit("StmtContinue");
    let all = seq![
        "StmtAssign"@,
        "StmtAugAssign"@,
        "StmtRaise"@,
        "StmtAssert"@,
        "StmtDelete"@,
        "StmtIf"@,
        "StmtFor"@,
        "StmtWhile"@,
        "StmtWith"@,
        "StmtTry"@,
        "StmtMatch"@,
        "StmtBreak"@,
        "StmtContinue"@,
    ];
    assert(all[0] == "StmtAssign"@ && all[1] == "StmtAugAssign"@ && all[2] == "StmtRaise"@ && all[3]
        == "StmtAssert"@ && all[4] == "StmtDelete"@ && all[5] == "StmtIf"@ && all[6] == "StmtFor"@
        && all[7] == "StmtWhile"@ && all[8] == "StmtWith"@ && all[9] == "StmtTry"@ && all[10]
        == "StmtMatch"@ && all[11] == "StmtBreak"@ && all[12] == "StmtContinue"@);
    if is_removable(kind) {
        assert(kind.subrange(0, 4) =~= "Stmt"@);
        assert("StmtReturn"@[4] == 'R' && "StmtReturn"@[5] == 'e');
        assert("StmtAnnAssign"@[4] == 'A' && "StmtAnnAssign"@[5] == 'n');
        assert("StmtExpr"@[4] == 'E');
        assert(kind[4] != 'E');
        assert(kind[4] == 'A' ==> kind[5] == 's' || kind[5] == 'u');
        assert(kind[4] == 'R' ==> kind[5] == 'a');
    }
}

/// Every candidate that changes the source, that lies in nothing arid and whose
/// family is enabled becomes a mutant, with the bytes and the text it had.
pub proof fn law_every_wanted_candidate_is_planted(
    found: Seq<Change>,
    source: Seq<char>,
    file: Seq<char>,
    spans: Seq<(int, int)>,
    families: Seq<Seq<char>>,
    change: Change,
    original: Seq<char>,
)
    requires
        found.contains(change),
        text::sliced(source, change.start, change.end) == Some(original),
        original != change.text,
        forall|k: int|
            0 <= k < spans.len() ==> change.start < (#[trigger] spans[k]).0 || change.end
                > spans[k].1,
        families.contains(mutate::family_of(original, change.text)),
    ensures
        exists|k: int|
            0 <= k < harvest(found, source, file, spans, families).mutants.len() && ({
                let mutant = #[trigger] harvest(found, source, file, spans, families).mutants[k];
                mutant.file == file && mutant.byte_start == change.start && mutant.byte_end
                    == change.end && mutant.original == original && mutant.replacement
                    == change.text
            }),
    decreases found.len(),
{
    let shorter = found.drop_last();
    let before = harvest(shorter, source, file, spans, families).mutants;
    let now = harvest(found, source, file, spans, families).mutants;
    assert(!is_suppressed(spans, change.start, change.end));
    if found.last() == change {
        let mutant = now[before.len() as int];
        assert(mutant.byte_start == change.start);
    } else {
        let k = choose|k: int| 0 <= k < found.len() && found[k] == change;
        assert(shorter[k] == change);
        law_every_wanted_candidate_is_planted(
            shorter,
            source,
            file,
            spans,
            families,
            change,
            original,
        );
        let m = choose|m: int|
            0 <= m < before.len() && ({
                let mutant = #[trigger] before[m];
                mutant.file == file && mutant.byte_start == change.start && mutant.byte_end
                    == change.end && mutant.original == original && mutant.replacement
                    == change.text
            });
        assert(now[m] == before[m]);
    }
}

/// Every statement of a kind that can always go is put forward for deletion, with
/// exactly its bytes, unless only a person reads the definition around it.
pub proof fn law_every_removable_statement_is_a_candidate(
    outline: Seq<Mark>,
    source: Seq<char>,
    names: Seq<Seq<char>>,
    sums: Seq<(Seq<char>, Seq<char>)>,
    at: int,
    depth: int,
)
    requires
        syntax::is_first_of(outline, at, depth),
        may_always_go(outline[at].path[depth].kind),
        !stands_in_a_repr(outline[at].path, depth),
    ensures
        candidates(outline, source, names, sums).contains(
            Change {
                start: outline[at].path[depth].start,
                end: outline[at].path[depth].end,
                text: "pass"@,
            },
        ),
{
    let node = outline[at].path[depth];
    let change = Change { start: node.start, end: node.end, text: "pass"@ };
    syntax::law_a_node_is_opened_by_its_first_token(outline, at, depth);
    lemma_visible(outline[at].path, depth);
    lemma_may_always_go(node.kind);
    lemma_statement_is_no_expression(node.kind);
    assert(node_changes(outline, at, depth, names)[0] == change);
    lemma_tree_changes(outline, outline.len() as int, names, at, depth, change);
    lemma_candidates(outline, source, names, sums, change);
}

/// With deletions enabled, every such statement that lies in nothing arid and is
/// no `pass` already becomes a mutant that puts `pass` in its place.
pub proof fn law_every_removable_statement_is_deleted(
    outline: Seq<Mark>,
    source: Seq<char>,
    file: Seq<char>,
    families: Seq<Seq<char>>,
    names: Seq<Seq<char>>,
    sums: Seq<(Seq<char>, Seq<char>)>,
    at: int,
    depth: int,
    original: Seq<char>,
)
    requires
        syntax::is_first_of(outline, at, depth),
        may_always_go(outline[at].path[depth].kind),
        !stands_in_a_repr(outline[at].path, depth),
        text::sliced(source, outline[at].path[depth].start, outline[at].path[depth].end) == Some(
            original,
        ),
        original != "pass"@,
        families.contains("BlockStatement"@),
        forall|k: int|
            0 <= k < arid_spans(outline, outline.len() as int, names).len()
                ==> outline[at].path[depth].start < (#[trigger] arid_spans(
                outline,
                outline.len() as int,
                names,
            )[k]).0 || outline[at].path[depth].end > arid_spans(
                outline,
                outline.len() as int,
                names,
            )[k].1,
    ensures
        exists|k: int|
            0 <= k < enumerated(outline, source, file, families, names, sums).mutants.len() && ({
                let mutant = #[trigger] enumerated(
                    outline,
                    source,
                    file,
                    families,
                    names,
                    sums,
                ).mutants[k];
                mutant.byte_start == outline[at].path[depth].start && mutant.byte_end
                    == outline[at].path[depth].end && mutant.original == original
                    && mutant.replacement == "pass"@
            }),
{
    let node = outline[at].path[depth];
    law_every_removable_statement_is_a_candidate(outline, source, names, sums, at, depth);
    mutate::law_a_deletion_is_named_for_the_deletion(original);
    let found = candidates(outline, source, names, sums);
    let spans = arid_spans(outline, outline.len() as int, names);
    law_every_wanted_candidate_is_planted(
        found,
        source,
        file,
        spans,
        families,
        Change { start: node.start, end: node.end, text: "pass"@ },
        original,
    );
    let k = choose|k: int|
        0 <= k < harvest(found, source, file, spans, families).mutants.len() && ({
            let mutant = #[trigger] harvest(found, source, file, spans, families).mutants[k];
            mutant.file == file && mutant.byte_start == node.start && mutant.byte_end == node.end
                && mutant.original == original && mutant.replacement == "pass"@
        });
    assert(enumerated(outline, source, file, families, names, sums).mutants[k]
        == harvest(found, source, file, spans, families).mutants[k]);
}

/// A `return` goes when it returns something, an annotated assignment when it
/// assigns, and an expression when it is no literal and no arid call: those, and
/// only those, of the three kinds are put forward.
pub proof fn law_the_other_statements_go_when_something_is_lost(
    outline: Seq<Mark>,
    at: int,
    depth: int,
    names: Seq<Seq<char>>,
)
    requires
        0 <= at < outline.len(),
        0 <= depth < outline[at].path.len(),
        !stands_in_a_repr(outline[at].path, depth),
    ensures
        ({
            let node = outline[at].path[depth];
            let gone = seq![Change { start: node.start, end: node.end, text: "pass"@ }];
            let first = syntax::first_child(outline, at, depth);
            &&& node.kind == "StmtReturn"@ ==> node_changes(outline, at, depth, names)
                == if first.is_some() {
                gone
            } else {
                Seq::empty()
            }
            &&& node.kind == "StmtAnnAssign"@ ==> node_changes(outline, at, depth, names)
                == if syntax::holds_token(outline, at, depth, "Equal"@) {
                gone
            } else {
                Seq::empty()
            }
            &&& node.kind == "StmtExpr"@ && first.is_some() && [
                "ExprStringLiteral"@,
                "ExprBytesLiteral"@,
                "ExprNumberLiteral"@,
                "ExprBooleanLiteral"@,
                "ExprNoneLiteral"@,
                "ExprEllipsisLiteral"@,
            ]@.contains(outline[first.unwrap()].path[depth + 1].kind) ==> node_changes(
                outline,
                at,
                depth,
                names,
            ) == Seq::<Change>::empty()
            &&& node.kind == "StmtExpr"@ && first.is_some() && text::begins(
                outline[first.unwrap()].path[depth + 1].kind,
                "Expr"@,
            ) && !text::ends(outline[first.unwrap()].path[depth + 1].kind, "Literal"@) && (
            outline[first.unwrap()].path[depth + 1].kind != "ExprCall"@ || names.len() == 0)
                ==> node_changes(outline, at, depth, names) == gone
        }),
{
    reveal_strlit("Stmt");
    reveal_strlit("StmtReturn");
    reveal_strlit("StmtAnnAssign");
    reveal_strlit("StmtExpr");
    reveal_strlit("Literal");
    reveal_strlit("ExprStringLiteral");
    reveal_strlit("ExprBytesLiteral");
    reveal_strlit("ExprNumberLiteral");
    reveal_strlit("ExprBooleanLiteral");
    reveal_strlit("ExprNoneLiteral");
    reveal_strlit("ExprEllipsisLiteral");
    let path = outline[at].path;
    let node = path[depth];
    lemma_visible(path, depth);
    assert("StmtReturn"@.subrange(0, 4) =~= "Stmt"@);
    assert("StmtAnnAssign"@.subrange(0, 4) =~= "Stmt"@);
    assert("StmtExpr"@.subrange(0, 4) =~= "Stmt"@);
    assert("StmtReturn"@[4] == 'R' && "StmtAnnAssign"@[4] == 'A' && "StmtExpr"@[4] == 'E');
    if node.kind == "StmtReturn"@ || node.kind == "StmtAnnAssign"@ || node.kind == "StmtExpr"@ {
        lemma_statement_is_no_expression(node.kind);
    }
    let list = [
        "ExprStringLiteral"@,
        "ExprBytesLiteral"@,
        "ExprNumberLiteral"@,
        "ExprBooleanLiteral"@,
        "ExprNoneLiteral"@,
        "ExprEllipsisLiteral"@,
    ]@;
    match syntax::first_child(outline, at, depth) {
        Some(first) => {
            let kind = outline[first].path[depth + 1].kind;
            if list.contains(kind) {
                let k = choose|k: int| 0 <= k < list.len() && list[k] == kind;
                assert(is_literal(kind));
                reveal_strlit("ExprCall");
                assert("ExprCall"@.len() == 8);
            }
            if is_literal(kind) {
                assert(kind.subrange(kind.len() - 7, kind.len() as int) =~= "Literal"@);
            }
        },
        None => {},
    }
}

/// The condition of an `if`, an `elif` or a `while` that is no constant already
/// is put forward as `False`, and as `True` unless it decides a loop, which might
/// then never end.
pub proof fn law_every_condition_becomes_a_constant(
    outline: Seq<Mark>,
    source: Seq<char>,
    names: Seq<Seq<char>>,
    sums: Seq<(Seq<char>, Seq<char>)>,
    at: int,
    depth: int,
)
    requires
        syntax::is_first_of(outline, at, depth),
        depth > 0,
        !stands_in_a_repr(outline[at].path, depth),
        text::begins(outline[at].path[depth].kind, "Expr"@),
        !text::ends(outline[at].path[depth].kind, "Literal"@),
        outline[at].path[depth - 1].kind == "StmtIf"@ || outline[at].path[depth - 1].kind
            == "ElifElseClause"@ || outline[at].path[depth - 1].kind == "StmtWhile"@,
    ensures
        ({
            let node = outline[at].path[depth];
            let never = Change { start: node.start, end: node.end, text: "False"@ };
            let always = Change { start: node.start, end: node.end, text: "True"@ };
            &&& candidates(outline, source, names, sums).contains(never)
            &&& outline[at].path[depth - 1].kind != "StmtWhile"@ ==> candidates(
                outline,
                source,
                names,
                sums,
            ).contains(always)
            &&& outline[at].path[depth - 1].kind == "StmtWhile"@ ==> node_changes(
                outline,
                at,
                depth,
                names,
            ) == seq![never]
        }),
{
    reveal_strlit("Literal");
    reveal_strlit("ExprStringLiteral");
    reveal_strlit("ExprBytesLiteral");
    reveal_strlit("ExprNumberLiteral");
    reveal_strlit("ExprBooleanLiteral");
    reveal_strlit("ExprNoneLiteral");
    reveal_strlit("ExprEllipsisLiteral");
    let node = outline[at].path[depth];
    let kind = node.kind;
    if is_literal(kind) {
        assert(kind.subrange(kind.len() - 7, kind.len() as int) =~= "Literal"@);
    }
    let never = Change { start: node.start, end: node.end, text: "False"@ };
    let always = Change { start: node.start, end: node.end, text: "True"@ };
    syntax::law_a_node_is_opened_by_its_first_token(outline, at, depth);
    lemma_visible(outline[at].path, depth);
    let list = node_changes(outline, at, depth, names);
    assert(list[0] == never);
    lemma_tree_changes(outline, outline.len() as int, names, at, depth, never);
    lemma_candidates(outline, source, names, sums, never);
    if outline[at].path[depth - 1].kind != "StmtWhile"@ {
        assert(list[1] == always);
        lemma_tree_changes(outline, outline.len() as int, names, at, depth, always);
        lemma_candidates(outline, source, names, sums, always);
    }
}

/// Every replacement that a token admits is put forward for exactly the token's
/// bytes. The one token left alone is the `in` of a `for` that is still open.
pub proof fn law_every_swap_is_a_candidate(
    outline: Seq<Mark>,
    source: Seq<char>,
    names: Seq<Seq<char>>,
    sums: Seq<(Seq<char>, Seq<char>)>,
    at: int,
    spelled: Seq<char>,
    replacement: Seq<char>,
)
    requires
        0 <= at < outline.len(),
        outline[at].kind != "In"@,
        text::sliced(source, outline[at].start, outline[at].end) == Some(spelled),
        literals::replacements_of(
            outline[at].kind,
            spelled,
            at > 0 && outline[at - 1].kind == "Dot"@,
            sums,
        ).contains(replacement),
    ensures
        candidates(outline, source, names, sums).contains(
            Change { start: outline[at].start, end: outline[at].end, text: replacement },
        ),
{
    let change = Change { start: outline[at].start, end: outline[at].end, text: replacement };
    let list = literals::replacements_of(
        outline[at].kind,
        spelled,
        at > 0 && outline[at - 1].kind == "Dot"@,
        sums,
    );
    let k = choose|k: int| 0 <= k < list.len() && list[k] == replacement;
    assert(token_changes(outline, at, source, sums)[k] == change);
    lemma_stream_changes(outline, outline.len() as int, source, sums, at, change);
    lemma_candidates(outline, source, names, sums, change);
}

proof fn lemma_opened_change_has_a_node(
    outline: Seq<Mark>,
    at: int,
    upto: int,
    names: Seq<Seq<char>>,
    change: Change,
) -> (depth: int)
    requires
        opened_changes(outline, at, upto, names).contains(change),
    ensures
        syntax::shared(outline, at) <= depth < upto,
        0 <= depth,
        node_changes(outline, at, depth, names).contains(change),
    decreases upto,
{
    let before = opened_changes(outline, at, upto - 1, names);
    let last = node_changes(outline, at, upto - 1, names);
    let all = opened_changes(outline, at, upto, names);
    let k = choose|k: int| 0 <= k < all.len() && all[k] == change;
    if k < before.len() {
        assert(before[k] == change);
        lemma_opened_change_has_a_node(outline, at, upto - 1, names, change)
    } else {
        assert(last[k - before.len()] == change);
        upto - 1
    }
}

proof fn lemma_tree_change_has_a_node(
    outline: Seq<Mark>,
    upto: int,
    names: Seq<Seq<char>>,
    change: Change,
) -> (home: (int, int))
    requires
        0 <= upto <= outline.len(),
        tree_changes(outline, upto, names).contains(change),
    ensures
        0 <= home.0 < upto,
        syntax::shared(outline, home.0) <= home.1 < outline[home.0].path.len(),
        0 <= home.1,
        node_changes(outline, home.0, home.1, names).contains(change),
    decreases upto,
{
    let before = tree_changes(outline, upto - 1, names);
    let last = opened_changes(outline, upto - 1, outline[upto - 1].path.len() as int, names);
    let all = tree_changes(outline, upto, names);
    let k = choose|k: int| 0 <= k < all.len() && all[k] == change;
    if k < before.len() {
        assert(before[k] == change);
        lemma_tree_change_has_a_node(outline, upto - 1, names, change)
    } else {
        assert(last[k - before.len()] == change);
        let depth = lemma_opened_change_has_a_node(
            outline,
            upto - 1,
            outline[upto - 1].path.len() as int,
            names,
            change,
        );
        (upto - 1, depth)
    }
}

proof fn lemma_stream_change_has_a_token(
    outline: Seq<Mark>,
    upto: int,
    source: Seq<char>,
    sums: Seq<(Seq<char>, Seq<char>)>,
    change: Change,
) -> (at: int)
    requires
        0 <= upto <= outline.len(),
        stream_changes(outline, upto, source, sums).contains(change),
    ensures
        0 <= at < upto,
        token_changes(outline, at, source, sums).contains(change),
    decreases upto,
{
    let before = stream_changes(outline, upto - 1, source, sums);
    let last = token_changes(outline, upto - 1, source, sums);
    let all = stream_changes(outline, upto, source, sums);
    let k = choose|k: int| 0 <= k < all.len() && all[k] == change;
    if k < before.len() {
        assert(before[k] == change);
        lemma_stream_change_has_a_token(outline, upto - 1, source, sums, change)
    } else {
        assert(last[k - before.len()] == change);
        upto - 1
    }
}

/// Whether a change takes a whole node away, or decides a condition for good.
pub open spec fn rewrites_a_node(outline: Seq<Mark>, at: int, depth: int, change: Change) -> bool {
    &&& syntax::is_first_of(outline, at, depth)
    &&& !stands_in_a_repr(outline[at].path, depth)
    &&& change.start == outline[at].path[depth].start
    &&& change.end == outline[at].path[depth].end
    &&& {
        ||| change.text == "pass"@ && (may_always_go(outline[at].path[depth].kind) || [
            "StmtReturn"@,
            "StmtAnnAssign"@,
            "StmtExpr"@,
        ]@.contains(outline[at].path[depth].kind))
        ||| depth > 0 && change.text == "False"@ && ["StmtIf"@, "ElifElseClause"@, "StmtWhile"@]@.contains(
            outline[at].path[depth - 1].kind,
        )
        ||| depth > 0 && change.text == "True"@ && ["StmtIf"@, "ElifElseClause"@]@.contains(
            outline[at].path[depth - 1].kind,
        )
    }
}

/// Whether a change swaps a token for one of its replacements.
pub open spec fn swaps_a_token(
    outline: Seq<Mark>,
    source: Seq<char>,
    sums: Seq<(Seq<char>, Seq<char>)>,
    at: int,
    change: Change,
) -> bool {
    &&& 0 <= at < outline.len()
    &&& change.start == outline[at].start
    &&& change.end == outline[at].end
    &&& text::sliced(source, change.start, change.end) matches Some(spelled)
        && literals::replacements_of(
        outline[at].kind,
        spelled,
        at > 0 && outline[at - 1].kind == "Dot"@,
        sums,
    ).contains(change.text)
}

/// Nothing else is put forward: a candidate deletes a statement of a kind that
/// may go, turns a condition into a constant, or swaps a token for one of its
/// replacements, and its bytes are exactly those of the node or the token.
pub proof fn law_every_candidate_rewrites_a_node_or_a_token(
    outline: Seq<Mark>,
    source: Seq<char>,
    names: Seq<Seq<char>>,
    sums: Seq<(Seq<char>, Seq<char>)>,
    change: Change,
)
    requires
        candidates(outline, source, names, sums).contains(change),
    ensures
        (exists|at: int, depth: int| rewrites_a_node(outline, at, depth, change)) || (exists|at: int|
            swaps_a_token(outline, source, sums, at, change)),
{
    let total = outline.len() as int;
    lemma_candidates(outline, source, names, sums, change);
    if tree_changes(outline, total, names).contains(change) {
        let home = lemma_tree_change_has_a_node(outline, total, names, change);
        let at = home.0;
        let depth = home.1;
        let kind = outline[at].path[depth].kind;
        syntax::law_a_node_is_opened_by_its_first_token(outline, at, depth);
        lemma_visible(outline[at].path, depth);
        lemma_may_always_go(kind);
        let list = node_changes(outline, at, depth, names);
        let k = choose|k: int| 0 <= k < list.len() && list[k] == change;
        let others = ["StmtReturn"@, "StmtAnnAssign"@, "StmtExpr"@]@;
        assert(others[0] == "StmtReturn"@ && others[1] == "StmtAnnAssign"@ && others[2]
            == "StmtExpr"@);
        if is_condition(outline[at].path, depth) {
            let parents = ["StmtIf"@, "ElifElseClause"@, "StmtWhile"@]@;
            let deciding = ["StmtIf"@, "ElifElseClause"@]@;
            assert(parents[0] == "StmtIf"@ && parents[1] == "ElifElseClause"@ && parents[2]
                == "StmtWhile"@);
            assert(deciding[0] == "StmtIf"@ && deciding[1] == "ElifElseClause"@);
        }
        assert(rewrites_a_node(outline, at, depth, change));
    } else {
        let at = lemma_stream_change_has_a_token(outline, total, source, sums, change);
        let list = token_changes(outline, at, source, sums);
        let k = choose|k: int| 0 <= k < list.len() && list[k] == change;
        let spelled = text::sliced(source, outline[at].start, outline[at].end)->Some_0;
        let texts = literals::replacements_of(
            outline[at].kind,
            spelled,
            at > 0 && outline[at - 1].kind == "Dot"@,
            sums,
        );
        assert(texts[k] == change.text);
        assert(swaps_a_token(outline, source, sums, at, change));
    }
}

/// A statement that only calls a name is arid exactly when the name is listed;
/// one that calls a method is arid exactly when the method or what it is called
/// on is; and nothing but such a statement is.
pub proof fn law_an_arid_statement_calls_a_listed_name(
    outline: Seq<Mark>,
    at: int,
    depth: int,
    names: Seq<Seq<char>>,
    call: int,
    function: int,
    value: int,
)
    requires
        0 <= at < outline.len(),
        0 <= depth < outline[at].path.len(),
        syntax::first_child(outline, at, depth) == Some(call),
        syntax::first_child(outline, call, depth + 1) == Some(function),
    ensures
        outline[at].path[depth].kind != "StmtExpr"@ ==> !is_arid(outline, at, depth, names),
        outline[call].path[depth + 1].kind != "ExprCall"@ ==> !is_arid(outline, at, depth, names),
        outline[at].path[depth].kind == "StmtExpr"@ && outline[call].path[depth + 1].kind
            == "ExprCall"@ && outline[function].path[depth + 2].kind == "ExprName"@ ==> (is_arid(
            outline,
            at,
            depth,
            names,
        ) <==> names.contains(outline[function].path[depth + 2].name)),
        outline[at].path[depth].kind == "StmtExpr"@ && outline[call].path[depth + 1].kind
            == "ExprCall"@ && outline[function].path[depth + 2].kind == "ExprAttribute"@
            && syntax::first_child(outline, function, depth + 2) == Some(value)
            && outline[value].path[depth + 3].kind == "ExprName"@ ==> (is_arid(
            outline,
            at,
            depth,
            names,
        ) <==> names.contains(outline[function].path[depth + 2].name) || names.contains(
            outline[value].path[depth + 3].name,
        )),
{
    syntax::lemma_first_child(outline, at, depth);
    syntax::lemma_first_child(outline, call, depth + 1);
    syntax::lemma_first_child(outline, function, depth + 2);
    reveal_strlit("ExprName");
    reveal_strlit("ExprAttribute");
    assert("ExprName"@.len() == 8 && "ExprAttribute"@.len() == 13);
    let node = outline[function].path[depth + 2];
    let segments = callee(outline, function, depth + 2);
    if node.kind == "ExprName"@ {
        assert(segments =~= seq![node.name]);
        assert(segments[0] == node.name);
    } else if node.kind == "ExprAttribute"@ && syntax::first_child(outline, function, depth + 2)
        == Some(value) && outline[value].path[depth + 3].kind == "ExprName"@ {
        let other = outline[value].path[depth + 3].name;
        assert(callee(outline, value, depth + 3) =~= seq![other]);
        assert(segments =~= seq![node.name, other]);
        assert(segments[0] == node.name && segments[1] == other);
    }
}

proof fn lemma_opened_span_has_a_node(
    outline: Seq<Mark>,
    at: int,
    upto: int,
    names: Seq<Seq<char>>,
    span: (int, int),
) -> (depth: int)
    requires
        opened_spans(outline, at, upto, names).contains(span),
    ensures
        syntax::shared(outline, at) <= depth < upto,
        0 <= depth,
        node_span(outline, at, depth, names).contains(span),
    decreases upto,
{
    let before = opened_spans(outline, at, upto - 1, names);
    let last = node_span(outline, at, upto - 1, names);
    let all = opened_spans(outline, at, upto, names);
    let k = choose|k: int| 0 <= k < all.len() && all[k] == span;
    if k < before.len() {
        assert(before[k] == span);
        lemma_opened_span_has_a_node(outline, at, upto - 1, names, span)
    } else {
        assert(last[k - before.len()] == span);
        upto - 1
    }
}

/// Whether a node is left out whole: it is a definition that only a person reads,
/// or an arid call.
pub open spec fn is_left_out(
    outline: Seq<Mark>,
    at: int,
    depth: int,
    names: Seq<Seq<char>>,
) -> bool {
    &&& syntax::is_first_of(outline, at, depth)
    &&& !stands_in_a_repr(outline[at].path, depth)
    &&& (outline[at].path[depth].kind == "StmtFunctionDef"@ && (outline[at].path[depth].name
        == "__repr__"@ || outline[at].path[depth].name == "__str__"@)) || is_arid(
        outline,
        at,
        depth,
        names,
    )
}

/// The bytes that no mutant is planted in are those of a definition that only a
/// person reads, or of an arid call: never any others.
pub proof fn law_only_arid_bytes_are_left_out(
    outline: Seq<Mark>,
    upto: int,
    names: Seq<Seq<char>>,
    span: (int, int),
)
    requires
        0 <= upto <= outline.len(),
        arid_spans(outline, upto, names).contains(span),
    ensures
        exists|at: int, depth: int| #[trigger]
            is_left_out(outline, at, depth, names) && span == (
                outline[at].path[depth].start,
                outline[at].path[depth].end,
            ),
    decreases upto,
{
    let before = arid_spans(outline, upto - 1, names);
    let last = opened_spans(outline, upto - 1, outline[upto - 1].path.len() as int, names);
    let all = arid_spans(outline, upto, names);
    let k = choose|k: int| 0 <= k < all.len() && all[k] == span;
    if k < before.len() {
        assert(before[k] == span);
        law_only_arid_bytes_are_left_out(outline, upto - 1, names, span);
    } else {
        assert(last[k - before.len()] == span);
        let at = upto - 1;
        let depth = lemma_opened_span_has_a_node(
            outline,
            at,
            outline[at].path.len() as int,
            names,
            span,
        );
        syntax::law_a_node_is_opened_by_its_first_token(outline, at, depth);
        lemma_visible(outline[at].path, depth);
        let list = node_span(outline, at, depth, names);
        let m = choose|m: int| 0 <= m < list.len() && list[m] == span;
        assert(is_left_out(outline, at, depth, names));
    }
}

proof fn lemma_opened_spans(
    outline: Seq<Mark>,
    at: int,
    upto: int,
    names: Seq<Seq<char>>,
    depth: int,
    span: (int, int),
)
    requires
        syntax::shared(outline, at) <= depth < upto,
        0 <= depth,
        node_span(outline, at, depth, names).contains(span),
    ensures
        opened_spans(outline, at, upto, names).contains(span),
    decreases upto,
{
    let before = opened_spans(outline, at, upto - 1, names);
    let last = node_span(outline, at, upto - 1, names);
    let all = opened_spans(outline, at, upto, names);
    assert(all == before + last);
    if depth == upto - 1 {
        let k = choose|k: int| 0 <= k < last.len() && last[k] == span;
        assert(all[before.len() + k] == span);
    } else {
        lemma_opened_spans(outline, at, upto - 1, names, depth, span);
        let k = choose|k: int| 0 <= k < before.len() && before[k] == span;
        assert(all[k] == span);
    }
}

proof fn lemma_arid_spans(
    outline: Seq<Mark>,
    upto: int,
    names: Seq<Seq<char>>,
    at: int,
    depth: int,
    span: (int, int),
)
    requires
        0 <= at < upto <= outline.len(),
        syntax::shared(outline, at) <= depth < outline[at].path.len(),
        0 <= depth,
        node_span(outline, at, depth, names).contains(span),
    ensures
        arid_spans(outline, upto, names).contains(span),
    decreases upto,
{
    let before = arid_spans(outline, upto - 1, names);
    let last = opened_spans(outline, upto - 1, outline[upto - 1].path.len() as int, names);
    let all = arid_spans(outline, upto, names);
    assert(all == before + last);
    if at == upto - 1 {
        lemma_opened_spans(outline, at, outline[at].path.len() as int, names, depth, span);
        let k = choose|k: int| 0 <= k < last.len() && last[k] == span;
        assert(all[before.len() + k] == span);
    } else {
        lemma_arid_spans(outline, upto - 1, names, at, depth, span);
        let k = choose|k: int| 0 <= k < before.len() && before[k] == span;
        assert(all[k] == span);
    }
}

/// No mutant lies inside a definition that only a person reads, or inside an arid
/// call, whatever the operator that made it.
pub proof fn law_no_mutant_lies_in_what_is_left_out(
    outline: Seq<Mark>,
    source: Seq<char>,
    file: Seq<char>,
    families: Seq<Seq<char>>,
    names: Seq<Seq<char>>,
    sums: Seq<(Seq<char>, Seq<char>)>,
    at: int,
    depth: int,
    i: int,
)
    requires
        is_left_out(outline, at, depth, names),
        0 <= i < enumerated(outline, source, file, families, names, sums).mutants.len(),
    ensures
        ({
            let mutant = enumerated(outline, source, file, families, names, sums).mutants[i];
            mutant.byte_start < outline[at].path[depth].start || mutant.byte_end
                > outline[at].path[depth].end
        }),
{
    let node = outline[at].path[depth];
    let total = outline.len() as int;
    let spans = arid_spans(outline, total, names);
    syntax::law_a_node_is_opened_by_its_first_token(outline, at, depth);
    lemma_visible(outline[at].path, depth);
    assert(node_span(outline, at, depth, names)[0] == (node.start, node.end));
    lemma_arid_spans(outline, total, names, at, depth, (node.start, node.end));
    let k = choose|k: int| 0 <= k < spans.len() && spans[k] == (node.start, node.end);
    law_every_mutant_is_one_the_run_asked_for(
        candidates(outline, source, names, sums),
        source,
        file,
        spans,
        families,
        i,
    );
    assert(spans[k].0 == node.start);
}

/// What a file turned away is counted on top of what the files before it did,
/// each kind by itself, and what is wanted stays what it was.
pub proof fn law_what_is_turned_away_adds_up(choice: Choice, crop: Crop)
    requires
        choice.suppressed + crop.suppressed <= usize::MAX,
        choice.filtered + crop.filtered <= usize::MAX,
    ensures
        choice.after(crop).suppressed == choice.suppressed + crop.suppressed,
        choice.after(crop).filtered == choice.filtered + crop.filtered,
        choice.after(crop).families == choice.families,
        choice.after(crop).arid_names == choice.arid_names,
{
}

/// What was turned away is said with its numbers, and nothing is said of none.
pub proof fn law_what_is_turned_away_is_said(choice: Choice)
    ensures
        choice.note().len() == 0 <==> choice.filtered == 0 && choice.suppressed == 0,
        choice.filtered > 0 ==> text::occurs(
            choice.note(),
            ", "@ + text::decimal(choice.filtered) + " skipped by operators"@,
        ),
        choice.filtered == 0 && choice.suppressed > 0 ==> choice.note() == ", "@ + text::decimal(
            choice.suppressed,
        ) + " skipped as arid"@,
        choice.filtered > 0 && choice.suppressed > 0 ==> text::occurs(
            choice.note(),
            " and "@ + text::decimal(choice.suppressed) + " as arid"@,
        ),
{
    reveal_strlit(", ");
    reveal_strlit(" skipped by operators");
    reveal_strlit(" skipped by operators and ");
    reveal_strlit(" and ");
    let many = text::decimal(choice.filtered);
    let few = text::decimal(choice.suppressed);
    assert(" skipped by operators and "@ =~= " skipped by operators"@ + " and "@);
    if choice.filtered > 0 && choice.suppressed == 0 {
        let whole = ", "@ + many + " skipped by operators"@;
        text::lemma_occurs_between(Seq::empty(), whole, Seq::empty());
        assert(Seq::<char>::empty() + whole + Seq::<char>::empty() =~= whole);
    }
    if choice.filtered > 0 && choice.suppressed > 0 {
        let first = ", "@ + many + " skipped by operators"@;
        let second = " and "@ + few + " as arid"@;
        assert(first + second =~= choice.note());
        text::lemma_occurs_between(Seq::empty(), first, second);
        assert(Seq::<char>::empty() + first + second =~= first + second);
        text::lemma_occurs_between(first, second, Seq::empty());
        assert(first + second + Seq::<char>::empty() =~= first + second);
    }
}

/// The family that is refused is the first one that does not exist.
pub proof fn law_the_first_unknown_family_is_refused(families: Seq<Seq<char>>)
    ensures
        first_unknown(families) matches Some(family) ==> exists|k: int|
            0 <= k < families.len() && #[trigger] families[k] == family
                && !mutate::all_families().contains(family) && forall|j: int|
                0 <= j < k ==> mutate::all_families().contains(#[trigger] families[j]),
        first_unknown(families).is_none() ==> forall|k: int|
            0 <= k < families.len() ==> mutate::all_families().contains(#[trigger] families[k]),
    decreases families.len(),
{
    if families.len() > 0 {
        let rest = families.drop_first();
        law_the_first_unknown_family_is_refused(rest);
        assert forall|j: int| 0 <= j < rest.len() implies #[trigger] rest[j] == families[j + 1] by {}
        if !mutate::all_families().contains(families[0]) {
            assert(families[0] == first_unknown(families).unwrap());
        } else {
            if let Some(family) = first_unknown(rest) {
                let k = choose|k: int|
                    0 <= k < rest.len() && #[trigger] rest[k] == family
                        && !mutate::all_families().contains(family) && forall|j: int|
                        0 <= j < k ==> mutate::all_families().contains(#[trigger] rest[j]);
                assert(families[k + 1] == family);
                assert forall|j: int| 0 <= j < k + 1 implies mutate::all_families().contains(
                    #[trigger] families[j],
                ) by {
                    if j > 0 {
                        assert(rest[j - 1] == families[j]);
                    }
                }
            } else {
                assert forall|k: int|
                    0 <= k < families.len() implies mutate::all_families().contains(
                    #[trigger] families[k],
                ) by {
                    if k > 0 {
                        assert(rest[k - 1] == families[k]);
                    }
                }
            }
        }
    }
}

/// Every number token that only floating point can add to is handed to it,
/// without its underscores, and no other token is.
pub proof fn law_every_float_is_handed_over(
    outline: Seq<Mark>,
    upto: int,
    source: Seq<char>,
    number: Seq<char>,
)
    requires
        0 <= upto <= outline.len(),
    ensures
        floats_in(outline, upto, source).contains(number) <==> exists|k: int|
            0 <= k < upto && ((#[trigger] outline[k]).kind == "Int"@ || outline[k].kind == "Float"@)
                && (text::sliced(source, outline[k].start, outline[k].end) matches Some(written)
                && literals::needs_sum(written) && number == literals::dropping(written, '_')),
    decreases upto,
{
    if upto > 0 {
        law_every_float_is_handed_over(outline, upto - 1, source, number);
        let before = floats_in(outline, upto - 1, source);
        let now = floats_in(outline, upto, source);
        let token = outline[upto - 1];
        if before.contains(number) {
            let k = choose|k: int| 0 <= k < before.len() && before[k] == number;
            assert(now[k] == number);
        }
        if now.contains(number) && !before.contains(number) {
            let k = choose|k: int| 0 <= k < now.len() && now[k] == number;
            if k < before.len() {
                assert(before[k] == number);
            }
            assert(outline[upto - 1] == token);
        }
        if now.len() > before.len() {
            assert(now.last() == now[before.len() as int]);
        }
    }
}

/// How many tokens of a kind stand in front of a token.
pub open spec fn kind_count(outline: Seq<Mark>, at: int, kind: Seq<char>) -> nat {
    outline.take(at).filter(|token: Mark| token.kind == kind).len()
}

proof fn lemma_kind_count(outline: Seq<Mark>, at: int, kind: Seq<char>)
    requires
        0 < at <= outline.len(),
    ensures
        kind_count(outline, at, kind) == kind_count(outline, at - 1, kind) + (if outline[at
            - 1].kind == kind {
            1nat
        } else {
            0
        }),
        kind_count(outline, 0, kind) == 0,
{
    reveal(Seq::filter);
    assert(outline.take(at).drop_last() =~= outline.take(at - 1));
    assert(outline.take(at).last() == outline[at - 1]);
    assert(outline.take(0) =~= Seq::<Mark>::empty());
}

/// Each `for` waits for one `in`: where no `in` comes before its `for`, as many
/// loops are open as there are more `for`s than `in`s so far.
pub proof fn law_each_for_waits_for_one_in(outline: Seq<Mark>, at: int)
    requires
        0 <= at <= outline.len(),
        forall|k: int|
            0 <= k <= at ==> #[trigger] kind_count(outline, k, "In"@) <= kind_count(
                outline,
                k,
                "For"@,
            ),
    ensures
        open_loops(outline, at) == kind_count(outline, at, "For"@) - kind_count(
            outline,
            at,
            "In"@,
        ),
    decreases at,
{
    reveal_strlit("In");
    reveal_strlit("For");
    assert("In"@.len() != "For"@.len());
    if at > 0 {
        law_each_for_waits_for_one_in(outline, at - 1);
        lemma_kind_count(outline, at, "For"@);
        lemma_kind_count(outline, at, "In"@);
        assert(kind_count(outline, at, "In"@) <= kind_count(outline, at, "For"@));
    } else if outline.len() > 0 {
        lemma_kind_count(outline, 1, "For"@);
        lemma_kind_count(outline, 1, "In"@);
    } else {
        assert(outline.take(0) =~= Seq::<Mark>::empty());
        reveal(Seq::filter);
    }
}

/// An `in` is left alone, in the header of a loop and anywhere else.
pub proof fn law_an_in_is_left_alone(
    outline: Seq<Mark>,
    at: int,
    source: Seq<char>,
    sums: Seq<(Seq<char>, Seq<char>)>,
)
    requires
        0 <= at < outline.len(),
        outline[at].kind == "In"@,
    ensures
        token_changes(outline, at, source, sums).len() == 0,
{
    if let Some(spelled) = text::sliced(source, outline[at].start, outline[at].end) {
        literals::law_a_token_is_replaced_by_its_kind(
            spelled,
            at > 0 && outline[at - 1].kind == "Dot"@,
            sums,
        );
    }
}

/// A name is swapped for the method of the other kind only where it is called on
/// something: directly behind a dot.
pub proof fn law_a_method_is_swapped_behind_a_dot_only(
    outline: Seq<Mark>,
    at: int,
    source: Seq<char>,
    sums: Seq<(Seq<char>, Seq<char>)>,
    name: Seq<char>,
    other: Seq<char>,
)
    requires
        0 <= at < outline.len(),
        outline[at].kind == "Name"@,
        text::sliced(source, outline[at].start, outline[at].end) == Some(name),
        name != "deepcopy"@,
        literals::method_swap(name) == Some(other),
    ensures
        at > 0 && outline[at - 1].kind == "Dot"@ ==> token_changes(outline, at, source, sums)
            == seq![Change { start: outline[at].start, end: outline[at].end, text: other }],
        at == 0 || outline[at - 1].kind != "Dot"@ ==> token_changes(
            outline,
            at,
            source,
            sums,
        ).len() == 0,
{
    literals::law_a_token_is_replaced_by_its_kind(name, true, sums);
    literals::law_a_token_is_replaced_by_its_kind(name, false, sums);
    reveal_strlit("Name");
    reveal_strlit("In");
    assert("Name"@.len() != "In"@.len());
    let change = Change { start: outline[at].start, end: outline[at].end, text: other };
    if at > 0 && outline[at - 1].kind == "Dot"@ {
        assert(token_changes(outline, at, source, sums) =~= seq![change]);
    }
}

/// A callee answers for every segment of its name: the attribute and whatever it
/// is taken from.
pub proof fn law_a_callee_answers_for_every_segment(
    outline: Seq<Mark>,
    at: int,
    depth: int,
    value: int,
    k: int,
)
    requires
        0 <= at < outline.len(),
        0 <= depth < outline[at].path.len(),
    ensures
        outline[at].path[depth].kind == "ExprName"@ ==> callee(outline, at, depth)
            == seq![outline[at].path[depth].name],
        outline[at].path[depth].kind == "ExprAttribute"@ ==> callee(outline, at, depth).contains(
            outline[at].path[depth].name,
        ),
        outline[at].path[depth].kind == "ExprAttribute"@ && syntax::first_child(outline, at, depth)
            == Some(value) && 0 <= k < callee(outline, value, depth + 1).len() ==> callee(
            outline,
            at,
            depth,
        ).contains(callee(outline, value, depth + 1)[k]),
{
    reveal_strlit("ExprName");
    reveal_strlit("ExprAttribute");
    assert("ExprName"@.len() != "ExprAttribute"@.len());
    if outline[at].path[depth].kind == "ExprAttribute"@ {
        let all = callee(outline, at, depth);
        assert(all[0] == outline[at].path[depth].name);
        if syntax::first_child(outline, at, depth) == Some(value) && 0 <= k < callee(
            outline,
            value,
            depth + 1,
        ).len() {
            assert(all[k + 1] == callee(outline, value, depth + 1)[k]);
        }
    }
}

} // verus!

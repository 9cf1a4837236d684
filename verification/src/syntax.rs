//! A parsed Python file as plain values.
//!
//! The parser's own tree stays inside the parser's crate. What the rest of the
//! library reads is an outline: every token of the file in order, and with each
//! token the path of syntax nodes it sits in, from the module down to the
//! smallest node that covers it. Two neighbouring tokens share the part of the
//! path that belongs to nodes holding both, so a node is **opened** by the first
//! token that has it, and stays open for as long as the tokens that follow share
//! that much of the path.

use ruff_python_ast::find_node::covering_node;
use ruff_python_ast::AnyNodeRef;
use ruff_text_size::Ranged;
use vstd::prelude::*;

use crate::text;

verus! {

broadcast use vstd::seq_lib::group_seq_properties;

/// One syntax node.
pub struct Node {
    /// The name of the node's kind: `StmtIf`, `ExprCall`, `ElifElseClause`.
    pub kind: String,
    pub start: usize,
    pub end: usize,
    /// The name that an identifier, a name, an attribute or a function carries,
    /// and nothing for any other node.
    pub name: String,
}

/// One token, and the nodes it sits in.
pub struct Token {
    /// The name of the token's kind: `Plus`, `Name`, `In`.
    pub kind: String,
    pub start: usize,
    pub end: usize,
    /// From the module down to the smallest node that covers the token.
    pub path: Vec<Node>,
}

/// A node as plain values.
#[verifier::ext_equal]
pub struct Place {
    pub kind: Seq<char>,
    pub start: int,
    pub end: int,
    pub name: Seq<char>,
}

/// A token as plain values.
#[verifier::ext_equal]
pub struct Mark {
    pub kind: Seq<char>,
    pub start: int,
    pub end: int,
    pub path: Seq<Place>,
}

impl View for Node {
    type V = Place;

    open spec fn view(&self) -> Place {
        Place {
            kind: self.kind@,
            start: self.start as int,
            end: self.end as int,
            name: self.name@,
        }
    }
}

impl View for Token {
    type V = Mark;

    open spec fn view(&self) -> Mark {
        Mark {
            kind: self.kind@,
            start: self.start as int,
            end: self.end as int,
            path: self.path@.map_values(|node: Node| node@),
        }
    }
}

/// The tokens of a list as plain values.
pub open spec fn marks(tokens: Seq<Token>) -> Seq<Mark> {
    tokens.map_values(|token: Token| token@)
}

/// The outcome of a parse as plain values.
pub open spec fn outlined(outcome: Result<Vec<Token>, String>) -> Result<Seq<Mark>, Seq<char>> {
    match outcome {
        Ok(tokens) => Ok(marks(tokens@)),
        Err(message) => Err(message@),
    }
}

/// What `ruff_python_parser::parse_module` makes of a source: the tokens of a
/// file it accepts, each with the nodes it sits in, or its message about a file
/// it does not. The nodes carry no names here.
pub uninterp spec fn shaped(source: Seq<char>) -> Result<Seq<Mark>, Seq<char>>;

/// `ruff_python_parser::parse_module`, and for each token of the parsed file
/// the path to `ruff_python_ast::find_node::covering_node`, as a function of
/// the file's text alone. Kinds are the names that `TokenKind` and `NodeKind`
/// print in debug form. The lexer panics on a source of 4 GiB or more. Which
/// tokens and nodes a text has is left to the parser.
#[verifier::external_body]
fn read_shape(source: &str) -> (shape: Result<Vec<Token>, String>)
    requires
        text::width(source@) <= u32::MAX,
    ensures
        outlined(shape) == shaped(source@),
{
    let parsed = ruff_python_parser::parse_module(source).map_err(|error| error.to_string())?;
    let node = |node: AnyNodeRef| Node {
        kind: format!("{:?}", node.kind()),
        start: node.start().to_usize(),
        end: node.end().to_usize(),
        name: String::new(),
    };
    Ok(parsed.tokens().iter().map(|token| Token {
        kind: format!("{:?}", token.kind()),
        start: token.start().to_usize(),
        end: token.end().to_usize(),
        path: covering_node(parsed.syntax().into(), token.range()).ancestors().map(node).rev().collect(),
    }).collect())
}

/// The names of a list of lists as plain values.
pub open spec fn name_lists(names: Seq<Vec<String>>) -> Seq<Seq<Seq<char>>> {
    names.map_values(|list: Vec<String>| text::texts(list@))
}

/// The outcome of reading names as plain values.
pub open spec fn name_outcome(outcome: Result<Vec<Vec<String>>, String>) -> Result<
    Seq<Seq<Seq<char>>>,
    Seq<char>,
> {
    match outcome {
        Ok(names) => Ok(name_lists(names@)),
        Err(message) => Err(message@),
    }
}

/// What the nodes of a source are called, by what
/// `ruff_python_parser::parse_module` makes of it: for each token of the file,
/// the names of the nodes it sits in, from the module down.
pub uninterp spec fn called(source: Seq<char>) -> Result<Seq<Seq<Seq<char>>>, Seq<char>>;

/// `ruff_python_parser::parse_module`, and for each token of the parsed file
/// the names along the path to `ruff_python_ast::find_node::covering_node`, as
/// a function of the file's text alone: an identifier, a name, an attribute and
/// a function have one, and any other node has none. The lexer panics on a
/// source of 4 GiB or more. Which names a text has is left to the parser.
#[verifier::external_body]
fn read_names(source: &str) -> (names: Result<Vec<Vec<String>>, String>)
    requires
        text::width(source@) <= u32::MAX,
    ensures
        name_outcome(names) == called(source@),
{
    let parsed = ruff_python_parser::parse_module(source).map_err(|error| error.to_string())?;
    let name = |node: AnyNodeRef| match node {
        AnyNodeRef::Identifier(named) => named.id.to_string(),
        AnyNodeRef::ExprName(named) => named.id.to_string(),
        AnyNodeRef::ExprAttribute(named) => named.attr.id.to_string(),
        AnyNodeRef::StmtFunctionDef(named) => named.name.id.to_string(),
        _ => String::new(),
    };
    let root = AnyNodeRef::from(parsed.syntax());
    let path = |at| covering_node(root, at).ancestors().map(name).rev().collect();
    Ok(parsed.tokens().iter().map(|token| path(token.range())).collect())
}

/// A path with its names.
pub open spec fn named_path(path: Seq<Place>, names: Seq<Seq<char>>) -> Seq<Place> {
    Seq::new(
        path.len(),
        |k: int|
            Place {
                name: if k < names.len() {
                    names[k]
                } else {
                    Seq::empty()
                },
                ..path[k]
            },
    )
}

/// Tokens with the names of the nodes they sit in.
pub open spec fn named_marks(tokens: Seq<Mark>, names: Seq<Seq<Seq<char>>>) -> Seq<Mark> {
    Seq::new(
        tokens.len(),
        |k: int|
            Mark {
                path: named_path(
                    tokens[k].path,
                    if k < names.len() {
                        names[k]
                    } else {
                        Seq::empty()
                    },
                ),
                ..tokens[k]
            },
    )
}

/// The outline of a file that the parser accepts, or its message about a file
/// that it does not.
pub open spec fn parsed(source: Seq<char>) -> Result<Seq<Mark>, Seq<char>> {
    match shaped(source) {
        Err(message) => Err(message),
        Ok(tokens) => match called(source) {
            Err(message) => Err(message),
            Ok(names) => Ok(named_marks(tokens, names)),
        },
    }
}

fn name_path(path: &Vec<Node>, names: &[String]) -> (out: Vec<Node>)
    ensures
        out@.map_values(|node: Node| node@) == named_path(
            path@.map_values(|node: Node| node@),
            text::texts(names@),
        ),
{
    let ghost bare = path@.map_values(|node: Node| node@);
    let ghost said = text::texts(names@);
    let mut out: Vec<Node> = Vec::new();
    while out.len() < path.len()
        invariant
            out@.len() <= path@.len(),
            bare == path@.map_values(|node: Node| node@),
            said == text::texts(names@),
            forall|k: int|
                0 <= k < out@.len() ==> #[trigger] out@[k]@ == named_path(bare, said)[k],
        decreases path@.len() - out@.len(),
    {
        let at: usize = out.len();
        assert(bare[at as int] == path@[at as int]@);
        out.push(
            Node {
                kind: path[at].kind.clone(),
                start: path[at].start,
                end: path[at].end,
                name: if at < names.len() {
                    names[at].clone()
                } else {
                    String::new()
                },
            },
        );
        assert(out@[at as int]@ =~= named_path(bare, said)[at as int]);
    }
    assert(out@.map_values(|node: Node| node@) =~= named_path(bare, said));
    out
}

/// The outline of a Python file, or the parser's message about a file that does
/// not parse.
pub fn read_python(source: &str) -> (outline: Result<Vec<Token>, String>)
    requires
        text::width(source@) <= u32::MAX,
    ensures
        outlined(outline) == parsed(source@),
{
    let shape: Vec<Token> = match read_shape(source) {
        Ok(shape) => shape,
        Err(message) => return Err(message),
    };
    let names: Vec<Vec<String>> = match read_names(source) {
        Ok(names) => names,
        Err(message) => return Err(message),
    };
    let ghost bare = marks(shape@);
    let ghost said = name_lists(names@);
    let nobody: Vec<String> = Vec::new();
    assert(text::texts(nobody@) =~= Seq::<Seq<char>>::empty());
    let mut tokens: Vec<Token> = Vec::new();
    while tokens.len() < shape.len()
        invariant
            tokens@.len() <= shape@.len(),
            bare == marks(shape@),
            said == name_lists(names@),
            text::texts(nobody@) == Seq::<Seq<char>>::empty(),
            forall|k: int|
                0 <= k < tokens@.len() ==> #[trigger] tokens@[k]@ == named_marks(bare, said)[k],
        decreases shape@.len() - tokens@.len(),
    {
        let at: usize = tokens.len();
        assert(bare[at as int] == shape@[at as int]@);
        let mine: &[String] = if at < names.len() {
            names[at].as_slice()
        } else {
            nobody.as_slice()
        };
        assert(text::texts(mine@) == if at < said.len() {
            said[at as int]
        } else {
            Seq::empty()
        });
        tokens.push(
            Token {
                kind: shape[at].kind.clone(),
                start: shape[at].start,
                end: shape[at].end,
                path: name_path(&shape[at].path, mine),
            },
        );
        assert(tokens@[at as int]@ =~= named_marks(bare, said)[at as int]);
    }
    assert(marks(tokens@) =~= named_marks(bare, said));
    Ok(tokens)
}

/// How much of two paths, from the module down, is the same.
pub open spec fn common(a: Seq<Place>, b: Seq<Place>, from: int) -> int
    decreases a.len() - from,
{
    if 0 <= from < a.len() && from < b.len() && a[from] == b[from] {
        common(a, b, from + 1)
    } else {
        from
    }
}

/// How many of a token's nodes were opened by an earlier token.
pub open spec fn shared(outline: Seq<Mark>, at: int) -> int {
    if at <= 0 {
        0
    } else {
        common(outline[at - 1].path, outline[at].path, 0)
    }
}

/// Whether the token after this one is still inside the node at this depth.
pub open spec fn goes_on(outline: Seq<Mark>, at: int, depth: int) -> bool {
    at + 1 < outline.len() && shared(outline, at + 1) > depth
}

/// The token, at or after this one and inside the same node, that opens the
/// node's first child.
pub open spec fn first_child(outline: Seq<Mark>, at: int, depth: int) -> Option<int>
    decreases outline.len() - at,
{
    if at >= outline.len() {
        None
    } else if outline[at].path.len() > depth + 1 {
        Some(at)
    } else if goes_on(outline, at, depth) {
        first_child(outline, at + 1, depth)
    } else {
        None
    }
}

/// Whether a token of this kind belongs to the node itself, rather than to
/// anything inside it.
pub open spec fn holds_token(outline: Seq<Mark>, at: int, depth: int, kind: Seq<char>) -> bool
    decreases outline.len() - at,
{
    if at >= outline.len() {
        false
    } else if outline[at].path.len() == depth + 1 && outline[at].kind == kind {
        true
    } else if goes_on(outline, at, depth) {
        holds_token(outline, at + 1, depth, kind)
    } else {
        false
    }
}

pub proof fn lemma_first_child(outline: Seq<Mark>, at: int, depth: int)
    requires
        0 <= at,
    ensures
        first_child(outline, at, depth) matches Some(child) ==> at <= child < outline.len()
            && outline[child].path.len() > depth + 1,
    decreases outline.len() - at,
{
    if at < outline.len() && outline[at].path.len() <= depth + 1 && goes_on(outline, at, depth) {
        lemma_first_child(outline, at + 1, depth);
    }
}

fn same_node(a: &Node, b: &Node) -> (yes: bool)
    ensures
        yes == (a@ == b@),
{
    let yes: bool = a.start == b.start && a.end == b.end && text::same(
        a.kind.as_str(),
        b.kind.as_str(),
    ) && text::same(a.name.as_str(), b.name.as_str());
    assert(yes ==> a@ =~= b@);
    yes
}

/// How many of a token's nodes were opened by an earlier token.
pub fn shared_nodes(tokens: &[Token], at: usize) -> (count: usize)
    requires
        at < tokens@.len(),
    ensures
        count as int == shared(marks(tokens@), at as int),
        count <= tokens@[at as int].path@.len(),
{
    if at == 0 {
        return 0;
    }
    let ghost outline = marks(tokens@);
    let before: &Vec<Node> = &tokens[at - 1].path;
    let here: &Vec<Node> = &tokens[at].path;
    let mut count: usize = 0;
    while count < before.len() && count < here.len() && same_node(&before[count], &here[count])
        invariant
            count <= here@.len(),
            0 < at < tokens@.len(),
            outline == marks(tokens@),
            before == &tokens@[at - 1].path,
            here == &tokens@[at as int].path,
            common(outline[at - 1].path, outline[at as int].path, 0) == common(
                outline[at - 1].path,
                outline[at as int].path,
                count as int,
            ),
        decreases here@.len() - count,
    {
        count += 1;
    }
    count
}

/// Whether the token after this one is still inside the node at this depth.
pub fn carries_on(tokens: &[Token], at: usize, depth: usize) -> (yes: bool)
    requires
        at < tokens@.len(),
    ensures
        yes == goes_on(marks(tokens@), at as int, depth as int),
{
    let total: usize = tokens.len();
    at < total - 1 && shared_nodes(tokens, at + 1) > depth
}

/// The token that opens the first child of the node at this depth.
pub fn child_of(tokens: &[Token], at: usize, depth: usize) -> (child: Option<usize>)
    requires
        at < tokens@.len(),
        depth < usize::MAX,
    ensures
        child.is_some() == first_child(marks(tokens@), at as int, depth as int).is_some(),
        child.is_some() ==> child.unwrap() as int == first_child(
            marks(tokens@),
            at as int,
            depth as int,
        ).unwrap(),
        child.is_some() ==> at <= child.unwrap() < tokens@.len() && tokens@[child.unwrap() as int].path@.len()
            > depth + 1,
{
    let mut here: usize = at;
    loop
        invariant
            at <= here < tokens@.len(),
            depth < usize::MAX,
            first_child(marks(tokens@), at as int, depth as int) == first_child(
                marks(tokens@),
                here as int,
                depth as int,
            ),
        decreases tokens@.len() - here,
    {
        if tokens[here].path.len() > depth + 1 {
            return Some(here);
        }
        if !carries_on(tokens, here, depth) {
            return None;
        }
        here += 1;
    }
}

/// Whether a token of this kind belongs to the node itself.
pub fn has_token(tokens: &[Token], at: usize, depth: usize, kind: &str) -> (yes: bool)
    requires
        at < tokens@.len(),
        depth < usize::MAX,
    ensures
        yes == holds_token(marks(tokens@), at as int, depth as int, kind@),
{
    let mut here: usize = at;
    loop
        invariant
            at <= here < tokens@.len(),
            depth < usize::MAX,
            holds_token(marks(tokens@), at as int, depth as int, kind@) == holds_token(
                marks(tokens@),
                here as int,
                depth as int,
                kind@,
            ),
        decreases tokens@.len() - here,
    {
        if tokens[here].path.len() == depth + 1 && text::same(tokens[here].kind.as_str(), kind) {
            return true;
        }
        if !carries_on(tokens, here, depth) {
            return false;
        }
        here += 1;
    }
}

/// The token that opens the node's first child of a kind beginning like this.
pub open spec fn child_like(
    outline: Seq<Mark>,
    at: int,
    depth: int,
    kind: Seq<char>,
) -> Option<int>
    decreases outline.len() - at,
{
    if at >= outline.len() {
        None
    } else if outline[at].path.len() > depth + 1 && text::begins(
        outline[at].path[depth + 1].kind,
        kind,
    ) {
        Some(at)
    } else if goes_on(outline, at, depth) {
        child_like(outline, at + 1, depth, kind)
    } else {
        None
    }
}

pub fn find_child(tokens: &[Token], at: usize, depth: usize, kind: &str) -> (child: Option<usize>)
    requires
        at < tokens@.len(),
        depth < usize::MAX,
    ensures
        child.is_some() == child_like(
            marks(tokens@),
            at as int,
            depth as int,
            kind@,
        ).is_some(),
        child.is_some() ==> child.unwrap() as int == child_like(
            marks(tokens@),
            at as int,
            depth as int,
            kind@,
        ).unwrap() && child.unwrap() < tokens@.len()
            && tokens@[child.unwrap() as int].path@.len() > depth + 1,
{
    let ghost outline = marks(tokens@);
    let mut here: usize = at;
    loop
        invariant
            at <= here < tokens@.len(),
            depth < usize::MAX,
            outline == marks(tokens@),
            child_like(outline, at as int, depth as int, kind@) == child_like(
                outline,
                here as int,
                depth as int,
                kind@,
            ),
        decreases tokens@.len() - here,
    {
        if tokens[here].path.len() > depth + 1 {
            assert(outline[here as int].path[depth + 1]
                == tokens@[here as int].path@[depth + 1]@);
            if text::starts_with(tokens[here].path[depth + 1].kind.as_str(), kind) {
                return Some(here);
            }
        }
        if !carries_on(tokens, here, depth) {
            return None;
        }
        here += 1;
    }
}

proof fn lemma_common(a: Seq<Place>, b: Seq<Place>, from: int, depth: int)
    requires
        0 <= from <= depth,
        from <= a.len(),
        from <= b.len(),
    ensures
        common(a, b, from) > depth <==> depth < a.len() && depth < b.len() && a.subrange(
            from,
            depth + 1,
        ) == b.subrange(from, depth + 1),
    decreases depth - from,
{
    if depth < a.len() && depth < b.len() {
        let left = a.subrange(from, depth + 1);
        let right = b.subrange(from, depth + 1);
        assert(left[0] == a[from] && right[0] == b[from]);
        if a[from] == b[from] && from < depth {
            lemma_common(a, b, from + 1, depth);
            assert(left =~= seq![a[from]] + a.subrange(from + 1, depth + 1));
            assert(right =~= seq![b[from]] + b.subrange(from + 1, depth + 1));
            assert(left.drop_first() =~= a.subrange(from + 1, depth + 1));
            assert(right.drop_first() =~= b.subrange(from + 1, depth + 1));
        } else if a[from] == b[from] {
            assert(left =~= right);
            lemma_common_grows(a, b, from + 1);
        }
    } else {
        lemma_common_is_bounded(a, b, from);
    }
}

proof fn lemma_common_grows(a: Seq<Place>, b: Seq<Place>, from: int)
    requires
        0 <= from <= a.len(),
        from <= b.len(),
    ensures
        common(a, b, from) >= from,
    decreases a.len() - from,
{
    if from < a.len() && from < b.len() && a[from] == b[from] {
        lemma_common_grows(a, b, from + 1);
    }
}

proof fn lemma_common_is_bounded(a: Seq<Place>, b: Seq<Place>, from: int)
    requires
        0 <= from <= a.len(),
        from <= b.len(),
    ensures
        common(a, b, from) <= a.len(),
        common(a, b, from) <= b.len(),
    decreases a.len() - from,
{
    if from < a.len() && from < b.len() && a[from] == b[from] {
        lemma_common_is_bounded(a, b, from + 1);
    }
}

/// Whether a token is the first one of the node at this depth: the token before
/// it sits in another node there, or in another node above that.
pub open spec fn is_first_of(outline: Seq<Mark>, at: int, depth: int) -> bool {
    &&& 0 <= at < outline.len()
    &&& 0 <= depth < outline[at].path.len()
    &&& at > 0 ==> !(depth < outline[at - 1].path.len() && outline[at - 1].path.subrange(
        0,
        depth + 1,
    ) == outline[at].path.subrange(0, depth + 1))
}

/// The nodes a token does not share with the one before it are the nodes it is
/// the first token of.
pub proof fn law_a_node_is_opened_by_its_first_token(outline: Seq<Mark>, at: int, depth: int)
    requires
        0 <= at < outline.len(),
        0 <= depth < outline[at].path.len(),
    ensures
        shared(outline, at) <= depth <==> is_first_of(outline, at, depth),
{
    if at > 0 {
        lemma_common(outline[at - 1].path, outline[at].path, 0, depth);
    }
}

/// The first child of a kind is found at the first token, within the node, that
/// sits in such a child.
pub proof fn law_the_first_child_of_its_kind_is_found(
    outline: Seq<Mark>,
    at: int,
    depth: int,
    kind: Seq<char>,
)
    requires
        0 <= at < outline.len(),
    ensures
        child_like(outline, at, depth, kind) matches Some(child) ==> {
            &&& at <= child < outline.len()
            &&& outline[child].path.len() > depth + 1
            &&& text::begins(outline[child].path[depth + 1].kind, kind)
            &&& forall|j: int| at <= j < child ==> #[trigger] goes_on(outline, j, depth)
            &&& forall|j: int|
                at <= j < child ==> !((#[trigger] outline[j]).path.len() > depth + 1
                    && text::begins(outline[j].path[depth + 1].kind, kind))
        },
        child_like(outline, at, depth, kind).is_none() ==> exists|end: int|
            at <= end < outline.len() && !#[trigger] goes_on(outline, end, depth) && forall|j: int|
                at <= j <= end ==> !((#[trigger] outline[j]).path.len() > depth + 1
                    && text::begins(outline[j].path[depth + 1].kind, kind)),
    decreases outline.len() - at,
{
    let here = outline[at].path.len() > depth + 1 && text::begins(
        outline[at].path[depth + 1].kind,
        kind,
    );
    if !here {
        if goes_on(outline, at, depth) {
            law_the_first_child_of_its_kind_is_found(outline, at + 1, depth, kind);
            if child_like(outline, at, depth, kind).is_none() {
                let end = choose|end: int|
                    at + 1 <= end < outline.len() && !#[trigger] goes_on(outline, end, depth)
                        && forall|j: int|
                        at + 1 <= j <= end ==> !((#[trigger] outline[j]).path.len() > depth + 1
                            && text::begins(outline[j].path[depth + 1].kind, kind));
                assert(!goes_on(outline, end, depth));
                assert forall|j: int| at <= j <= end implies !((#[trigger] outline[j]).path.len()
                    > depth + 1 && text::begins(outline[j].path[depth + 1].kind, kind)) by {}
            }
        } else {
            assert(!goes_on(outline, at, depth));
        }
    }
}

/// A node holds a token of a kind exactly when one of its tokens sits directly
/// in it and is of that kind.
pub proof fn law_a_token_of_a_node_sits_directly_in_it(
    outline: Seq<Mark>,
    at: int,
    depth: int,
    kind: Seq<char>,
)
    requires
        0 <= at < outline.len(),
    ensures
        holds_token(outline, at, depth, kind) <==> exists|k: int|
            at <= k < outline.len() && (#[trigger] outline[k]).path.len() == depth + 1
                && outline[k].kind == kind && forall|j: int|
                at <= j < k ==> #[trigger] goes_on(outline, j, depth),
    decreases outline.len() - at,
{
    let here = outline[at].path.len() == depth + 1 && outline[at].kind == kind;
    if !here && goes_on(outline, at, depth) {
        law_a_token_of_a_node_sits_directly_in_it(outline, at + 1, depth, kind);
        if holds_token(outline, at + 1, depth, kind) {
            let k = choose|k: int|
                at + 1 <= k < outline.len() && (#[trigger] outline[k]).path.len() == depth + 1
                    && outline[k].kind == kind && forall|j: int|
                    at + 1 <= j < k ==> #[trigger] goes_on(outline, j, depth);
            assert(outline[k].kind == kind);
        }
        if exists|k: int|
            at <= k < outline.len() && (#[trigger] outline[k]).path.len() == depth + 1
                && outline[k].kind == kind && forall|j: int|
                at <= j < k ==> #[trigger] goes_on(outline, j, depth) {
            let k = choose|k: int|
                at <= k < outline.len() && (#[trigger] outline[k]).path.len() == depth + 1
                    && outline[k].kind == kind && forall|j: int|
                    at <= j < k ==> #[trigger] goes_on(outline, j, depth);
            assert(at + 1 <= k);
        }
    } else if !here {
        if exists|k: int|
            at <= k < outline.len() && (#[trigger] outline[k]).path.len() == depth + 1
                && outline[k].kind == kind && forall|j: int|
                at <= j < k ==> #[trigger] goes_on(outline, j, depth) {
            let k = choose|k: int|
                at <= k < outline.len() && (#[trigger] outline[k]).path.len() == depth + 1
                    && outline[k].kind == kind && forall|j: int|
                    at <= j < k ==> #[trigger] goes_on(outline, j, depth);
            assert(goes_on(outline, at, depth) || k == at);
        }
    }
}

/// Naming a path gives each node its own name and changes nothing else of it.
pub proof fn law_naming_changes_names_only(
    tokens: Seq<Mark>,
    names: Seq<Seq<Seq<char>>>,
    at: int,
    k: int,
)
    requires
        0 <= at < tokens.len(),
        0 <= k < tokens[at].path.len(),
    ensures
        ({
            let token = named_marks(tokens, names)[at];
            let before = tokens[at];
            &&& token.kind == before.kind && token.start == before.start && token.end == before.end
            &&& token.path.len() == before.path.len()
            &&& token.path[k].kind == before.path[k].kind
            &&& token.path[k].start == before.path[k].start
            &&& token.path[k].end == before.path[k].end
            &&& at < names.len() && k < names[at].len() ==> token.path[k].name == names[at][k]
        }),
{
}

} // verus!

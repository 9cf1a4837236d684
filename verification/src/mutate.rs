//! A mutant, what became of it, and which family of fault it plants.

use vstd::prelude::*;

use crate::text;

verus! {

broadcast use vstd::seq_lib::group_seq_properties;

/// What became of a mutant.
#[derive(Clone, Copy, PartialEq, Eq, Debug, Structural)]
pub enum Status {
    Killed,
    Survived,
    Timeout,
    Error,
    Untestable,
}

/// A test runs the line and asserts nothing about it.
pub const SURVIVED_RULE: &'static str = "MutantSurvived";

/// No test runs the line at all.
pub const NO_COVERAGE_RULE: &'static str = "MutantNoCoverage";

impl Status {
    /// How the database spells this status.
    pub open spec fn name(self) -> Seq<char> {
        match self {
            Status::Killed => "killed"@,
            Status::Survived => "survived"@,
            Status::Timeout => "timeout"@,
            Status::Error => "error"@,
            Status::Untestable => "untestable"@,
        }
    }

    pub fn as_str(self) -> (name: &'static str)
        ensures
            name@ == self.name(),
    {
        match self {
            Status::Killed => "killed",
            Status::Survived => "survived",
            Status::Timeout => "timeout",
            Status::Error => "error",
            Status::Untestable => "untestable",
        }
    }

    /// The status with this name, if there is one.
    pub open spec fn named(text: Seq<char>) -> Option<Status> {
        if text == "killed"@ {
            Some(Status::Killed)
        } else if text == "survived"@ {
            Some(Status::Survived)
        } else if text == "timeout"@ {
            Some(Status::Timeout)
        } else if text == "error"@ {
            Some(Status::Error)
        } else if text == "untestable"@ {
            Some(Status::Untestable)
        } else {
            None
        }
    }

    /// None for anything else in the database, which means `pending`.
    pub fn parse(text: &str) -> (status: Option<Status>)
        ensures
            status == Status::named(text@),
    {
        if text::same(text, "killed") {
            Some(Status::Killed)
        } else if text::same(text, "survived") {
            Some(Status::Survived)
        } else if text::same(text, "timeout") {
            Some(Status::Timeout)
        } else if text::same(text, "error") {
            Some(Status::Error)
        } else if text::same(text, "untestable") {
            Some(Status::Untestable)
        } else {
            None
        }
    }

    pub open spec fn detected(self) -> bool {
        self is Killed || self is Timeout
    }

    /// A timeout counts as detected: the mutant observably changed behaviour.
    pub fn is_detected(self) -> (yes: bool)
        ensures
            yes == self.detected(),
    {
        matches!(self, Status::Killed | Status::Timeout)
    }

    pub open spec fn schema_name_spec(self, executed: bool) -> Seq<char> {
        match self {
            Status::Killed => "Killed"@,
            Status::Timeout => "Timeout"@,
            Status::Survived => if executed {
                "Survived"@
            } else {
                "NoCoverage"@
            },
            Status::Error => "RuntimeError"@,
            Status::Untestable => "Ignored"@,
        }
    }

    /// This verdict's name in the mutation-testing-report schema.
    ///
    /// `executed` is what splits `survived` in two. A mutant no test ever ran
    /// is `NoCoverage`, and that is a different finding with a different fix
    /// from a mutant a test did run and failed to notice.
    ///
    /// `error` maps to `RuntimeError` rather than `CompileError` on purpose. A
    /// broken test command produces a run of nothing but errors, and it has to
    /// stay visible in the report rather than reading as a clean bill of
    /// health.
    pub fn schema_name(self, executed: bool) -> (name: &'static str)
        ensures
            name@ == self.schema_name_spec(executed),
    {
        match self {
            Status::Killed => "Killed",
            Status::Timeout => "Timeout",
            Status::Survived => if executed {
                "Survived"
            } else {
                "NoCoverage"
            },
            Status::Error => "RuntimeError",
            Status::Untestable => "Ignored",
        }
    }

    pub open spec fn raises(self, executed: bool) -> Option<Seq<char>> {
        if self is Survived {
            Some(
                if executed {
                    SURVIVED_RULE@
                } else {
                    NO_COVERAGE_RULE@
                },
            )
        } else {
            None
        }
    }

    /// The SonarQube rule id this verdict raises, if it raises one.
    ///
    /// Only survivors are findings a developer can act on in their own code. A
    /// `killed` mutant is the suite working; an `error` or `untestable` one is
    /// Angelo reporting on itself, and a broken splice is not a smell in
    /// somebody's file. **That is why a run has to be gated on `--fail-under`
    /// and not on this**: a run where everything errored raises nothing at all,
    /// and an empty issue list reads as a clean bill of health.
    pub fn sonar_rule(self, executed: bool) -> (rule: Option<&'static str>)
        ensures
            rule.is_some() == self.raises(executed).is_some(),
            rule.is_some() ==> rule.unwrap()@ == self.raises(executed).unwrap(),
    {
        match self {
            Status::Survived => if executed {
                Some(SURVIVED_RULE)
            } else {
                Some(NO_COVERAGE_RULE)
            },
            Status::Killed | Status::Timeout | Status::Error | Status::Untestable => None,
        }
    }
}

/// Every status.
pub fn statuses() -> (list: Vec<Status>)
    ensures
        list@ == seq![
            Status::Killed,
            Status::Survived,
            Status::Timeout,
            Status::Error,
            Status::Untestable,
        ],
{
    vec![
        Status::Killed,
        Status::Survived,
        Status::Timeout,
        Status::Error,
        Status::Untestable,
    ]
}

/// A status written to the database is the status read back from it.
pub proof fn law_statuses_survive_a_round_trip(status: Status)
    ensures
        Status::named(status.name()) == Some(status),
{
    reveal_strlit("killed");
    reveal_strlit("survived");
    reveal_strlit("timeout");
    reveal_strlit("error");
    reveal_strlit("untestable");
    assert("killed"@[0] != "survived"@[0]);
    assert("killed"@[0] != "timeout"@[0]);
    assert("killed"@[0] != "error"@[0]);
    assert("killed"@[0] != "untestable"@[0]);
    assert("survived"@[0] != "timeout"@[0]);
    assert("survived"@[0] != "error"@[0]);
    assert("survived"@[0] != "untestable"@[0]);
    assert("timeout"@[0] != "error"@[0]);
    assert("timeout"@[0] != "untestable"@[0]);
    assert("error"@[0] != "untestable"@[0]);
}

/// Only a survivor raises a finding, and a survivor always does.
pub proof fn law_only_survivors_raise_a_finding(status: Status, executed: bool)
    ensures
        status.raises(executed).is_some() <==> status is Survived,
{
}

/// One fault that can be planted: the bytes of a file it replaces, and with
/// what.
pub struct Mutant {
    /// 0 until the database assigns one.
    pub id: i64,
    /// The file, relative to the project root, as the platform spells it.
    pub file: String,
    pub line: u32,
    pub byte_start: usize,
    pub byte_end: usize,
    pub original: String,
    pub replacement: String,
}

/// A mutant as plain values.
#[verifier::ext_equal]
pub struct Planted {
    pub id: int,
    pub file: Seq<char>,
    pub line: int,
    pub byte_start: int,
    pub byte_end: int,
    pub original: Seq<char>,
    pub replacement: Seq<char>,
}

impl View for Mutant {
    type V = Planted;

    open spec fn view(&self) -> Planted {
        Planted {
            id: self.id as int,
            file: self.file@,
            line: self.line as int,
            byte_start: self.byte_start as int,
            byte_end: self.byte_end as int,
            original: self.original@,
            replacement: self.replacement@,
        }
    }
}

/// The mutants of a list as plain values.
pub open spec fn planted(list: Seq<Mutant>) -> Seq<Planted> {
    list.map_values(|mutant: Mutant| mutant@)
}

impl Clone for Mutant {
    fn clone(&self) -> (copy: Mutant)
        ensures
            copy == *self,
    {
        Mutant {
            id: self.id,
            file: self.file.clone(),
            line: self.line,
            byte_start: self.byte_start,
            byte_end: self.byte_end,
            original: self.original.clone(),
            replacement: self.replacement.clone(),
        }
    }
}

/// A path with forward slashes.
pub open spec fn forward_slashed(path: Seq<char>) -> Seq<char> {
    text::with_char(path, '\\', '/')
}

/// What follows every `./` at the front of a path.
pub open spec fn undotted(path: Seq<char>) -> Seq<char>
    decreases path.len(),
{
    proof {
        reveal_strlit("./");
    }
    if text::begins(path, "./"@) {
        undotted(text::without_prefix(path, "./"@))
    } else {
        path
    }
}

pub(crate) fn undot(path: String) -> (out: String)
    ensures
        out@ == undotted(path@),
{
    proof {
        reveal_strlit("./");
    }
    let mut out: String = path;
    loop
        invariant
            undotted(out@) == undotted(path@),
            "./"@.len() == 2,
        ensures
            out@ == undotted(path@),
        decreases out@.len(),
    {
        match text::strip_prefix(out.as_str(), "./") {
            Some(relative) => {
                out = relative;
            },
            None => {
                break;
            },
        }
    }
    out
}

/// How a report names a file: forward slashes, and no `./` in front.
pub open spec fn report_name(path: Seq<char>) -> Seq<char> {
    undotted(forward_slashed(path))
}

/// What a mutant shows of a piece of source: at most 24 characters of it, and
/// a word for nothing at all.
pub open spec fn abridged(source: Seq<char>) -> Seq<char> {
    if source.len() == 0 {
        "<removed>"@
    } else if source.len() > 24 {
        source.subrange(0, 24) + "…"@
    } else {
        source
    }
}

fn abridge(source: &str) -> (shown: String)
    ensures
        shown@ == abridged(source@),
{
    if source.is_empty() {
        return text::owned("<removed>");
    }
    let chars: Vec<char> = text::chars_of(source);
    if chars.len() > 24 {
        let mut shown: String = text::part_of(&chars, 0, 24);
        shown.append("…");
        shown
    } else {
        text::owned(source)
    }
}

impl Planted {
    /// One line naming the mutant.
    pub open spec fn shown(self) -> Seq<char> {
        self.file + ":"@ + text::signed(self.line) + " "@ + abridged(self.original) + " -> "@
            + abridged(self.replacement)
    }

    /// Whether the bytes the mutant was made from are still there.
    pub open spec fn fits(self, source: Seq<char>) -> bool {
        text::sliced(source, self.byte_start, self.byte_end) == Some(self.original)
    }

    /// The source with this mutant in it.
    pub open spec fn spliced_into(self, source: Seq<char>) -> Seq<char> {
        text::spliced(source, self.byte_start, self.byte_end, self.replacement)
    }
}

impl Mutant {
    /// Splice this mutant into the source, in place. A batch is applied back to
    /// front so that earlier byte offsets stay valid, and the caller has already
    /// proved the range still cuts the source at characters.
    pub fn splice_into(&self, source: &mut String)
        requires
            text::sliced(old(source)@, self.byte_start as int, self.byte_end as int).is_some(),
        ensures
            final(source)@ == self@.spliced_into(old(source)@),
    {
        *source = text::splice(
            source.as_str(),
            self.byte_start,
            self.byte_end,
            self.replacement.as_str(),
        );
    }

    /// The file path with forward slashes, as coverage.py records it.
    pub fn coverage_file(&self) -> (path: String)
        ensures
            path@ == forward_slashed(self.file@),
    {
        text::replace_char(self.file.as_str(), '\\', '/')
    }

    /// How this file is named in a report file: relative to the project root,
    /// forward slashes, no `./`.
    ///
    /// A report is read by tools that resolve these back to real files, and a
    /// Windows backslash resolves to nothing on the machine reading it. The
    /// `./` goes for the same reason, since `./src/x.py` and `src/x.py` are one
    /// file to a person and two strings to a consumer.
    pub fn report_path(&self) -> (path: String)
        ensures
            path@ == report_name(self.file@),
            !text::begins(path@, "./"@),
    {
        let path: String = undot(self.coverage_file());
        proof {
            lemma_undotted(forward_slashed(self.file@));
        }
        path
    }

    /// Which family of fault this mutant plants, named in the vocabulary the
    /// mutation-testing-report schema's viewers already speak.
    ///
    /// Read off the text rather than stored, so a database written by an older
    /// build needs no column for it.
    pub fn mutator(&self) -> (family: &'static str)
        ensures
            family@ == family_of(self.original@, self.replacement@),
    {
        family(self.original.as_str(), self.replacement.as_str())
    }

    /// One line naming the mutant, for a survivor list and a progress line.
    pub fn to_text(&self) -> (line: String)
        ensures
            line@ == self@.shown(),
    {
        let mut line: String = self.file.clone();
        line.append(":");
        line.append(&text::show(self.line as u64));
        line.append(" ");
        line.append(&abridge(self.original.as_str()));
        line.append(" -> ");
        line.append(&abridge(self.replacement.as_str()));
        line
    }
}

/// The family of a fault, from the source it replaces and what it puts there.
///
/// A whole statement replaced by `pass` is a deletion, and no token operator
/// produces `pass`, so the replacement settles it alone. It has to be asked
/// first: a deleted `break` is a deletion, not the `break` -> `return` swap its
/// original would otherwise match. A `True` or `False` that no token explains
/// is a whole condition rewritten to a constant; what still ends in `=` is an
/// augmented assignment; the closing quote tells a string, since a prefix may
/// stand before the opening one; and all that is left is a method swap.
pub open spec fn family_of(original: Seq<char>, replacement: Seq<char>) -> Seq<char> {
    if replacement == "pass"@ {
        "BlockStatement"@
    } else if is_arithmetic(original) {
        "ArithmeticOperator"@
    } else if is_bitwise(original) {
        "BitwiseOperator"@
    } else if is_comparison(original) {
        "EqualityOperator"@
    } else if original == "and"@ || original == "or"@ {
        "LogicalOperator"@
    } else if original == "True"@ || original == "False"@ {
        "BooleanLiteral"@
    } else if original == "not"@ || original == "~"@ {
        "UnaryOperator"@
    } else if is_membership(original) {
        "ConditionalExpression"@
    } else if original == "break"@ || original == "continue"@ || original == "return"@ {
        "StatementSwap"@
    } else if replacement == "True"@ || replacement == "False"@ {
        "ConditionalExpression"@
    } else if original.len() > 0 && original.last() == '=' {
        "AssignmentOperator"@
    } else if original.len() > 0 && (original.last() == '"' || original.last() == '\'') {
        "StringLiteral"@
    } else if original.len() > 0 && '0' <= original[0] <= '9' {
        "NumberLiteral"@
    } else {
        "MethodExpression"@
    }
}

pub open spec fn is_arithmetic(s: Seq<char>) -> bool {
    s == "+"@ || s == "-"@ || s == "*"@ || s == "/"@ || s == "//"@ || s == "%"@ || s == "**"@
}

pub open spec fn is_bitwise(s: Seq<char>) -> bool {
    s == "&"@ || s == "|"@ || s == "^"@ || s == "<<"@ || s == ">>"@
}

pub open spec fn is_comparison(s: Seq<char>) -> bool {
    s == "=="@ || s == "!="@ || s == "<"@ || s == "<="@ || s == ">"@ || s == ">="@
}

pub open spec fn is_membership(s: Seq<char>) -> bool {
    s == "is"@ || s == "is not"@ || s == "in"@ || s == "not in"@
}

fn arithmetic(s: &str) -> (yes: bool)
    ensures
        yes == is_arithmetic(s@),
{
    text::same(s, "+") || text::same(s, "-") || text::same(s, "*") || text::same(s, "/")
        || text::same(s, "//") || text::same(s, "%") || text::same(s, "**")
}

fn bitwise(s: &str) -> (yes: bool)
    ensures
        yes == is_bitwise(s@),
{
    text::same(s, "&") || text::same(s, "|") || text::same(s, "^") || text::same(s, "<<")
        || text::same(s, ">>")
}

fn comparison(s: &str) -> (yes: bool)
    ensures
        yes == is_comparison(s@),
{
    text::same(s, "==") || text::same(s, "!=") || text::same(s, "<") || text::same(s, "<=")
        || text::same(s, ">") || text::same(s, ">=")
}

fn membership(s: &str) -> (yes: bool)
    ensures
        yes == is_membership(s@),
{
    text::same(s, "is") || text::same(s, "is not") || text::same(s, "in") || text::same(
        s,
        "not in",
    )
}

fn family(original: &str, replacement: &str) -> (family: &'static str)
    ensures
        family@ == family_of(original@, replacement@),
{
    if text::same(replacement, "pass") {
        return "BlockStatement";
    }
    if arithmetic(original) {
        return "ArithmeticOperator";
    }
    if bitwise(original) {
        return "BitwiseOperator";
    }
    if comparison(original) {
        return "EqualityOperator";
    }
    if text::same(original, "and") || text::same(original, "or") {
        return "LogicalOperator";
    }
    if text::same(original, "True") || text::same(original, "False") {
        return "BooleanLiteral";
    }
    if text::same(original, "not") || text::same(original, "~") {
        return "UnaryOperator";
    }
    if membership(original) {
        return "ConditionalExpression";
    }
    if text::same(original, "break") || text::same(original, "continue") || text::same(
        original,
        "return",
    ) {
        return "StatementSwap";
    }
    if text::same(replacement, "True") || text::same(replacement, "False") {
        return "ConditionalExpression";
    }
    let chars: Vec<char> = text::chars_of(original);
    if chars.len() == 0 {
        return "MethodExpression";
    }
    let last: char = chars[chars.len() - 1];
    if last == '=' {
        return "AssignmentOperator";
    }
    if last == '"' || last == '\'' {
        return "StringLiteral";
    }
    if '0' <= chars[0] && chars[0] <= '9' {
        return "NumberLiteral";
    }
    "MethodExpression"
}

/// Every family a mutant can be named for. This is also the vocabulary the
/// `operators` config key speaks, so a run cannot enable a family that does not
/// exist.
pub open spec fn all_families() -> Seq<Seq<char>> {
    seq![
        "ArithmeticOperator"@,
        "AssignmentOperator"@,
        "BitwiseOperator"@,
        "BlockStatement"@,
        "BooleanLiteral"@,
        "ConditionalExpression"@,
        "EqualityOperator"@,
        "LogicalOperator"@,
        "MethodExpression"@,
        "NumberLiteral"@,
        "StatementSwap"@,
        "StringLiteral"@,
        "UnaryOperator"@,
    ]
}

/// What a list of string slices says.
pub open spec fn names(list: Seq<&'static str>) -> Seq<Seq<char>> {
    list.map_values(|s: &'static str| s@)
}

pub fn families() -> (list: Vec<&'static str>)
    ensures
        names(list@) == all_families(),
{
    let list: Vec<&'static str> = vec![
        "ArithmeticOperator",
        "AssignmentOperator",
        "BitwiseOperator",
        "BlockStatement",
        "BooleanLiteral",
        "ConditionalExpression",
        "EqualityOperator",
        "LogicalOperator",
        "MethodExpression",
        "NumberLiteral",
        "StatementSwap",
        "StringLiteral",
        "UnaryOperator",
    ];
    assert(names(list@) =~= all_families());
    list
}

/// The families a run plants unless the config says otherwise.
///
/// Three are left out, and the evidence for leaving them out is stronger than
/// the evidence that put them in. `UnaryOperator` is unary operator insertion,
/// which of the five operators Google measures across 16.9 million mutants has
/// both the lowest survival rate (9.6% against 12.5% overall) and the lowest
/// developer-judged productivity (74.5%): its mutants are the most likely to be
/// killed by tests that already exist, and the least likely to be worth acting
/// on when they survive. `NumberLiteral` and `StringLiteral` are constant
/// replacement, which a regression search over 108 operators declined to select
/// because it generates large numbers of near-identical mutants, and which
/// cannot reproduce a real literal fault anyway: those need one specific wrong
/// value, and an operator has no way to guess which.
///
/// Turning one back on is a line in angelo.conf, and a project with evidence
/// that its own faults live in its literals should.
pub open spec fn usual_families() -> Seq<Seq<char>> {
    seq![
        "ArithmeticOperator"@,
        "AssignmentOperator"@,
        "BitwiseOperator"@,
        "BlockStatement"@,
        "BooleanLiteral"@,
        "ConditionalExpression"@,
        "EqualityOperator"@,
        "LogicalOperator"@,
        "MethodExpression"@,
        "StatementSwap"@,
    ]
}

pub fn default_families() -> (list: Vec<&'static str>)
    ensures
        names(list@) == usual_families(),
{
    let list: Vec<&'static str> = vec![
        "ArithmeticOperator",
        "AssignmentOperator",
        "BitwiseOperator",
        "BlockStatement",
        "BooleanLiteral",
        "ConditionalExpression",
        "EqualityOperator",
        "LogicalOperator",
        "MethodExpression",
        "StatementSwap",
    ];
    assert(names(list@) =~= usual_families());
    list
}

/// Calls that exist for a person to read rather than for the program to compute
/// with. Nothing inside one is worth mutating, whatever the operator.
///
/// Kept short and kept to names that are almost never anything else. `debug`
/// is absent for that reason: plenty of projects have a `debug` flag, and an
/// arid list that turns away real code raises the score silently, which is the
/// one failure this tool must not have.
pub open spec fn usual_arid() -> Seq<Seq<char>> {
    seq!["log"@, "logger"@, "logging"@, "print"@, "warn"@, "warnings"@]
}

pub fn default_arid() -> (list: Vec<&'static str>)
    ensures
        names(list@) == usual_arid(),
{
    let list: Vec<&'static str> = vec!["log", "logger", "logging", "print", "warn", "warnings"];
    assert(names(list@) =~= usual_arid());
    list
}

/// Every mutant has a family, and the family is one a config can name.
pub proof fn law_every_family_is_listed(original: Seq<char>, replacement: Seq<char>)
    ensures
        all_families().contains(family_of(original, replacement)),
{
    let all = all_families();
    assert(all[0] == "ArithmeticOperator"@);
    assert(all[1] == "AssignmentOperator"@);
    assert(all[2] == "BitwiseOperator"@);
    assert(all[3] == "BlockStatement"@);
    assert(all[4] == "BooleanLiteral"@);
    assert(all[5] == "ConditionalExpression"@);
    assert(all[6] == "EqualityOperator"@);
    assert(all[7] == "LogicalOperator"@);
    assert(all[8] == "MethodExpression"@);
    assert(all[9] == "NumberLiteral"@);
    assert(all[10] == "StatementSwap"@);
    assert(all[11] == "StringLiteral"@);
    assert(all[12] == "UnaryOperator"@);
}

/// What a run plants by default is drawn from the families there are.
pub proof fn law_the_default_families_exist()
    ensures
        forall|i: int|
            0 <= i < usual_families().len() ==> all_families().contains(
                #[trigger] usual_families()[i],
            ),
{
    let all = all_families();
    let usual = usual_families();
    assert(usual[0] == all[0] && usual[1] == all[1] && usual[2] == all[2] && usual[3] == all[3]);
    assert(usual[4] == all[4] && usual[5] == all[5] && usual[6] == all[6] && usual[7] == all[7]);
    assert(usual[8] == all[8] && usual[9] == all[10]);
    assert forall|i: int| 0 <= i < usual.len() implies all.contains(#[trigger] usual[i]) by {
        assert(i < 9 ==> usual[i] == all[i]);
    }
}

/// A whole statement turned into `pass` is named for the deletion, whatever it
/// was.
pub proof fn law_a_deletion_is_named_for_the_deletion(original: Seq<char>)
    ensures
        family_of(original, "pass"@) == "BlockStatement"@,
{
}

proof fn lemma_undotted(path: Seq<char>)
    ensures
        !text::begins(undotted(path), "./"@),
        forall|c: char| #[trigger] undotted(path).contains(c) ==> path.contains(c),
    decreases path.len(),
{
    reveal_strlit("./");
    if text::begins(path, "./"@) {
        let rest = text::without_prefix(path, "./"@);
        lemma_undotted(rest);
        assert forall|c: char| #[trigger] undotted(path).contains(c) implies path.contains(c) by {
            assert(rest.contains(c));
            let k = choose|k: int| 0 <= k < rest.len() && rest[k] == c;
            assert(path[k + 2] == c);
        }
    }
}

/// The name a report gives a file holds no backslash, however the platform
/// spells the path, and begins with no `./`, however often the path does.
pub proof fn law_a_report_path_has_one_form(path: Seq<char>)
    ensures
        !report_name(path).contains('\\'),
        !forward_slashed(path).contains('\\'),
        !text::begins(report_name(path), "./"@),
        report_name("./"@ + path) == report_name(path),
        report_name(".\\"@ + path) == report_name(path),
{
    reveal_strlit("./");
    reveal_strlit(".\\");
    let forward = forward_slashed(path);
    assert forall|i: int| 0 <= i < forward.len() implies #[trigger] forward[i] != '\\' by {}
    lemma_undotted(forward);
    let unix = forward_slashed("./"@ + path);
    let windows = forward_slashed(".\\"@ + path);
    assert(unix =~= "./"@ + forward);
    assert(windows =~= "./"@ + forward);
    assert(unix.subrange(0, 2) =~= "./"@);
    assert(unix.subrange(2, unix.len() as int) =~= forward);
}

/// Each operator has one family, whatever replaces it: the lists below are
/// every token there is, and the token alone decides.
pub proof fn law_an_operator_has_one_family(original: Seq<char>, replacement: Seq<char>)
    requires
        replacement != "pass"@,
    ensures
        seq!["+"@, "-"@, "*"@, "/"@, "//"@, "%"@, "**"@].contains(original) ==> family_of(
            original,
            replacement,
        ) == "ArithmeticOperator"@,
        seq!["&"@, "|"@, "^"@, "<<"@, ">>"@].contains(original) ==> family_of(original, replacement)
            == "BitwiseOperator"@,
        seq!["=="@, "!="@, "<"@, "<="@, ">"@, ">="@].contains(original) ==> family_of(
            original,
            replacement,
        ) == "EqualityOperator"@,
        seq!["and"@, "or"@].contains(original) ==> family_of(original, replacement)
            == "LogicalOperator"@,
        seq!["True"@, "False"@].contains(original) ==> family_of(original, replacement)
            == "BooleanLiteral"@,
        seq!["not"@, "~"@].contains(original) ==> family_of(original, replacement)
            == "UnaryOperator"@,
        seq!["is"@, "is not"@, "in"@, "not in"@].contains(original) ==> family_of(
            original,
            replacement,
        ) == "ConditionalExpression"@,
        seq!["break"@, "continue"@, "return"@].contains(original) ==> family_of(
            original,
            replacement,
        ) == "StatementSwap"@,
{
    assert("+"@.len() == 1 && "+"@[0] == '+') by {
        reveal_strlit("+");
    }
    assert("-"@.len() == 1 && "-"@[0] == '-') by {
        reveal_strlit("-");
    }
    assert("*"@.len() == 1 && "*"@[0] == '*') by {
        reveal_strlit("*");
    }
    assert("/"@.len() == 1 && "/"@[0] == '/') by {
        reveal_strlit("/");
    }
    assert("//"@.len() == 2 && "//"@[0] == '/' && "//"@[1] == '/') by {
        reveal_strlit("//");
    }
    assert("%"@.len() == 1 && "%"@[0] == '%') by {
        reveal_strlit("%");
    }
    assert("**"@.len() == 2 && "**"@[0] == '*' && "**"@[1] == '*') by {
        reveal_strlit("**");
    }
    assert("&"@.len() == 1 && "&"@[0] == '&') by {
        reveal_strlit("&");
    }
    assert("|"@.len() == 1 && "|"@[0] == '|') by {
        reveal_strlit("|");
    }
    assert("^"@.len() == 1 && "^"@[0] == '^') by {
        reveal_strlit("^");
    }
    assert("<<"@.len() == 2 && "<<"@[0] == '<' && "<<"@[1] == '<') by {
        reveal_strlit("<<");
    }
    assert(">>"@.len() == 2 && ">>"@[0] == '>' && ">>"@[1] == '>') by {
        reveal_strlit(">>");
    }
    assert("=="@.len() == 2 && "=="@[0] == '=' && "=="@[1] == '=') by {
        reveal_strlit("==");
    }
    assert("!="@.len() == 2 && "!="@[0] == '!' && "!="@[1] == '=') by {
        reveal_strlit("!=");
    }
    assert("<"@.len() == 1 && "<"@[0] == '<') by {
        reveal_strlit("<");
    }
    assert("<="@.len() == 2 && "<="@[0] == '<' && "<="@[1] == '=') by {
        reveal_strlit("<=");
    }
    assert(">"@.len() == 1 && ">"@[0] == '>') by {
        reveal_strlit(">");
    }
    assert(">="@.len() == 2 && ">="@[0] == '>' && ">="@[1] == '=') by {
        reveal_strlit(">=");
    }
    assert("and"@.len() == 3 && "and"@[0] == 'a' && "and"@[1] == 'n') by {
        reveal_strlit("and");
    }
    assert("or"@.len() == 2 && "or"@[0] == 'o' && "or"@[1] == 'r') by {
        reveal_strlit("or");
    }
    assert("True"@.len() == 4 && "True"@[0] == 'T' && "True"@[1] == 'r') by {
        reveal_strlit("True");
    }
    assert("False"@.len() == 5 && "False"@[0] == 'F' && "False"@[1] == 'a') by {
        reveal_strlit("False");
    }
    assert("not"@.len() == 3 && "not"@[0] == 'n' && "not"@[1] == 'o') by {
        reveal_strlit("not");
    }
    assert("~"@.len() == 1 && "~"@[0] == '~') by {
        reveal_strlit("~");
    }
    assert("is"@.len() == 2 && "is"@[0] == 'i' && "is"@[1] == 's') by {
        reveal_strlit("is");
    }
    assert("is not"@.len() == 6 && "is not"@[0] == 'i' && "is not"@[1] == 's') by {
        reveal_strlit("is not");
    }
    assert("in"@.len() == 2 && "in"@[0] == 'i' && "in"@[1] == 'n') by {
        reveal_strlit("in");
    }
    assert("not in"@.len() == 6 && "not in"@[0] == 'n' && "not in"@[1] == 'o') by {
        reveal_strlit("not in");
    }
    assert("break"@.len() == 5 && "break"@[0] == 'b' && "break"@[1] == 'r') by {
        reveal_strlit("break");
    }
    assert("continue"@.len() == 8 && "continue"@[0] == 'c' && "continue"@[1] == 'o') by {
        reveal_strlit("continue");
    }
    assert("return"@.len() == 6 && "return"@[0] == 'r' && "return"@[1] == 'e') by {
        reveal_strlit("return");
    }
    let arithmetic = seq!["+"@, "-"@, "*"@, "/"@, "//"@, "%"@, "**"@];
    if arithmetic.contains(original) {
        let at = choose|at: int| 0 <= at < arithmetic.len() && arithmetic[at] == original;
        assert(original == "+"@ || original == "-"@ || original == "*"@ || original == "/"@ || original == "//"@ || original == "%"@ || original == "**"@);
    }
    let bitwise = seq!["&"@, "|"@, "^"@, "<<"@, ">>"@];
    if bitwise.contains(original) {
        let at = choose|at: int| 0 <= at < bitwise.len() && bitwise[at] == original;
        assert(original == "&"@ || original == "|"@ || original == "^"@ || original == "<<"@ || original == ">>"@);
    }
    let comparison = seq!["=="@, "!="@, "<"@, "<="@, ">"@, ">="@];
    if comparison.contains(original) {
        let at = choose|at: int| 0 <= at < comparison.len() && comparison[at] == original;
        assert(original == "=="@ || original == "!="@ || original == "<"@ || original == "<="@ || original == ">"@ || original == ">="@);
    }
    let logical = seq!["and"@, "or"@];
    if logical.contains(original) {
        let at = choose|at: int| 0 <= at < logical.len() && logical[at] == original;
        assert(original == "and"@ || original == "or"@);
    }
    let constants = seq!["True"@, "False"@];
    if constants.contains(original) {
        let at = choose|at: int| 0 <= at < constants.len() && constants[at] == original;
        assert(original == "True"@ || original == "False"@);
    }
    let unary = seq!["not"@, "~"@];
    if unary.contains(original) {
        let at = choose|at: int| 0 <= at < unary.len() && unary[at] == original;
        assert(original == "not"@ || original == "~"@);
    }
    let membership = seq!["is"@, "is not"@, "in"@, "not in"@];
    if membership.contains(original) {
        let at = choose|at: int| 0 <= at < membership.len() && membership[at] == original;
        assert(original == "is"@ || original == "is not"@ || original == "in"@ || original == "not in"@);
    }
    let jumps = seq!["break"@, "continue"@, "return"@];
    if jumps.contains(original) {
        let at = choose|at: int| 0 <= at < jumps.len() && jumps[at] == original;
        assert(original == "break"@ || original == "continue"@ || original == "return"@);
    }
}

/// Whether a piece of source is an operator, a keyword or a constant that has a
/// family of its own.
pub open spec fn is_a_token(s: Seq<char>) -> bool {
    seq![
        "+"@, "-"@, "*"@, "/"@, "//"@, "%"@, "**"@, "&"@, "|"@, "^"@, "<<"@, ">>"@, "=="@, "!="@,
        "<"@, "<="@, ">"@, ">="@, "and"@, "or"@, "True"@, "False"@, "not"@, "~"@, "is"@, "is not"@,
        "in"@, "not in"@, "break"@, "continue"@, "return"@,
    ].contains(s)
}

/// What is no token of its own is told by its looks: a condition that became a
/// constant, an augmented assignment by its last character, a string by its
/// closing quote, a number by its first digit. The rest are method calls.
pub proof fn law_the_rest_is_told_by_its_looks(original: Seq<char>, replacement: Seq<char>)
    requires
        replacement != "pass"@,
        !is_a_token(original),
        original.len() > 0,
    ensures
        replacement == "True"@ || replacement == "False"@ ==> family_of(original, replacement)
            == "ConditionalExpression"@,
        replacement != "True"@ && replacement != "False"@ ==> {
            let last = original.last();
            &&& last == '=' ==> family_of(original, replacement) == "AssignmentOperator"@
            &&& last == '"' || last == '\'' ==> family_of(original, replacement)
                == "StringLiteral"@
            &&& last != '=' && last != '"' && last != '\'' ==> family_of(original, replacement)
                == (if '0' <= original[0] <= '9' {
                "NumberLiteral"@
            } else {
                "MethodExpression"@
            })
        },
{
    let all = seq![
        "+"@, "-"@, "*"@, "/"@, "//"@, "%"@, "**"@, "&"@, "|"@, "^"@, "<<"@, ">>"@, "=="@, "!="@,
        "<"@, "<="@, ">"@, ">="@, "and"@, "or"@, "True"@, "False"@, "not"@, "~"@, "is"@, "is not"@,
        "in"@, "not in"@, "break"@, "continue"@, "return"@,
    ];
    assert(forall|k: int| 0 <= k < all.len() ==> #[trigger] all[k] != original);
    assert(all[0] == "+"@);
    assert(all[1] == "-"@);
    assert(all[2] == "*"@);
    assert(all[3] == "/"@);
    assert(all[4] == "//"@);
    assert(all[5] == "%"@);
    assert(all[6] == "**"@);
    assert(all[7] == "&"@);
    assert(all[8] == "|"@);
    assert(all[9] == "^"@);
    assert(all[10] == "<<"@);
    assert(all[11] == ">>"@);
    assert(all[12] == "=="@);
    assert(all[13] == "!="@);
    assert(all[14] == "<"@);
    assert(all[15] == "<="@);
    assert(all[16] == ">"@);
    assert(all[17] == ">="@);
    assert(all[18] == "and"@);
    assert(all[19] == "or"@);
    assert(all[20] == "True"@);
    assert(all[21] == "False"@);
    assert(all[22] == "not"@);
    assert(all[23] == "~"@);
    assert(all[24] == "is"@);
    assert(all[25] == "is not"@);
    assert(all[26] == "in"@);
    assert(all[27] == "not in"@);
    assert(all[28] == "break"@);
    assert(all[29] == "continue"@);
    assert(all[30] == "return"@);
}

/// A detected mutant is one that was killed or that ran out of time.
pub proof fn law_a_timeout_is_a_detection(status: Status)
    ensures
        status.detected() <==> status == Status::Killed || status == Status::Timeout,
        Status::Timeout.name() == "timeout"@,
        Status::Killed.name() == "killed"@,
        Status::Survived.name() == "survived"@,
        Status::Error.name() == "error"@,
        Status::Untestable.name() == "untestable"@,
{
}

/// In a report only a survivor depends on whether a test ran it, and each status
/// has its own name there.
pub proof fn law_only_a_survivor_depends_on_coverage(executed: bool)
    ensures
        Status::Survived.schema_name_spec(true) == "Survived"@,
        Status::Survived.schema_name_spec(false) == "NoCoverage"@,
        Status::Killed.schema_name_spec(executed) == "Killed"@,
        Status::Timeout.schema_name_spec(executed) == "Timeout"@,
        Status::Error.schema_name_spec(executed) == "RuntimeError"@,
        Status::Untestable.schema_name_spec(executed) == "Ignored"@,
{
}

/// A run plants every family by default but those of numbers, strings and unary
/// operators.
pub proof fn law_three_families_are_left_out_by_default()
    ensures
        usual_families() == all_families().filter(
            |family: Seq<char>|
                family != "NumberLiteral"@ && family != "StringLiteral"@ && family
                    != "UnaryOperator"@,
        ),
{
    let all = all_families();
    let kept = |family: Seq<char>|
        family != "NumberLiteral"@ && family != "StringLiteral"@ && family != "UnaryOperator"@;
    reveal_strlit("ArithmeticOperator");
    reveal_strlit("AssignmentOperator");
    reveal_strlit("BitwiseOperator");
    reveal_strlit("BlockStatement");
    reveal_strlit("BooleanLiteral");
    reveal_strlit("ConditionalExpression");
    reveal_strlit("EqualityOperator");
    reveal_strlit("LogicalOperator");
    reveal_strlit("MethodExpression");
    reveal_strlit("NumberLiteral");
    reveal_strlit("StatementSwap");
    reveal_strlit("StringLiteral");
    reveal_strlit("UnaryOperator");
    assert("NumberLiteral"@[0] == 'N' && "StringLiteral"@[0] == 'S' && "StringLiteral"@[3] == 'i'
        && "UnaryOperator"@[0] == 'U');
    assert("StatementSwap"@[3] == 't' && "StatementSwap"@[0] == 'S');
    assert("ArithmeticOperator"@[0] == 'A' && "AssignmentOperator"@[0] == 'A'
        && "BitwiseOperator"@[0] == 'B' && "BlockStatement"@[0] == 'B' && "BooleanLiteral"@[0]
        == 'B' && "ConditionalExpression"@[0] == 'C' && "EqualityOperator"@[0] == 'E'
        && "LogicalOperator"@[0] == 'L' && "MethodExpression"@[0] == 'M');
    let a = all.take(9);
    assert(all =~= a.push("NumberLiteral"@).push("StatementSwap"@).push("StringLiteral"@).push(
        "UnaryOperator"@,
    ));
    lemma_all_kept(a, kept);
    lemma_filter_push(a, "NumberLiteral"@, kept);
    let b = a.push("NumberLiteral"@);
    lemma_filter_push(b, "StatementSwap"@, kept);
    let c = b.push("StatementSwap"@);
    lemma_filter_push(c, "StringLiteral"@, kept);
    let d = c.push("StringLiteral"@);
    lemma_filter_push(d, "UnaryOperator"@, kept);
    assert(usual_families() =~= a.push("StatementSwap"@));
}

proof fn lemma_filter_push(list: Seq<Seq<char>>, more: Seq<char>, kept: spec_fn(Seq<char>) -> bool)
    ensures
        list.push(more).filter(kept) == if kept(more) {
            list.filter(kept).push(more)
        } else {
            list.filter(kept)
        },
{
    reveal(Seq::filter);
    assert(list.push(more).drop_last() =~= list);
}

proof fn lemma_all_kept(list: Seq<Seq<char>>, kept: spec_fn(Seq<char>) -> bool)
    requires
        forall|k: int| 0 <= k < list.len() ==> kept(#[trigger] list[k]),
    ensures
        list.filter(kept) == list,
    decreases list.len(),
{
    reveal(Seq::filter);
    if list.len() > 0 {
        let fewer = list.drop_last();
        assert forall|k: int| 0 <= k < fewer.len() implies kept(#[trigger] fewer[k]) by {
            assert(fewer[k] == list[k]);
        }
        lemma_all_kept(fewer, kept);
        assert(list[list.len() - 1] == list.last());
        assert(fewer.push(list.last()) =~= list);
    } else {
        assert(list.filter(kept) =~= list);
    }
}

/// A mutant is shown as its file, its line and the change it makes, with short
/// pieces in full, long ones cut behind their first characters, and nothing at
/// all as a word.
pub proof fn law_a_mutant_shows_its_change(mutant: Planted)
    requires
        0 < mutant.original.len() <= 24,
        0 <= mutant.line,
    ensures
        0 < mutant.replacement.len() <= 24 ==> mutant.shown() == mutant.file + ":"@ + text::decimal(
            mutant.line as nat,
        ) + " "@ + mutant.original + " -> "@ + mutant.replacement,
        mutant.replacement.len() == 0 ==> mutant.shown() == mutant.file + ":"@ + text::decimal(
            mutant.line as nat,
        ) + " "@ + mutant.original + " -> "@ + "<removed>"@,
        mutant.replacement.len() > 24 ==> mutant.shown() == mutant.file + ":"@ + text::decimal(
            mutant.line as nat,
        ) + " "@ + mutant.original + " -> "@ + (mutant.replacement.take(24) + "…"@),
{
}

/// Planting a mutant changes the bytes of its range and no others.
pub proof fn law_a_mutant_changes_its_own_bytes(mutant: Planted, source: Seq<char>)
    requires
        mutant.fits(source),
    ensures
        ({
            let bytes = vstd::utf8::encode_utf8(source);
            let out = vstd::utf8::encode_utf8(mutant.spliced_into(source));
            let gone = vstd::utf8::encode_utf8(mutant.original);
            let new = vstd::utf8::encode_utf8(mutant.replacement);
            &&& bytes.subrange(mutant.byte_start, mutant.byte_end) == gone
            &&& out == bytes.subrange(0, mutant.byte_start) + new + bytes.subrange(
                mutant.byte_end,
                bytes.len() as int,
            )
        }),
{
    text::law_a_slice_holds_its_bytes(source, mutant.byte_start, mutant.byte_end);
    text::lemma_spliced_bytes(source, mutant.byte_start, mutant.byte_end, mutant.replacement);
}

/// A path is changed only in its backslashes and in the `./` in front of it.
pub proof fn law_a_plain_path_keeps_its_name(path: Seq<char>)
    requires
        !path.contains('\\'),
        !text::begins(path, "./"@),
    ensures
        report_name(path) == path,
{
    assert(forward_slashed(path) =~= path);
}

} // verus!

//! What one token may be replaced with.

use vstd::prelude::*;

use crate::mutate;
use crate::text;

verus! {

broadcast use vstd::seq_lib::group_seq_properties;

/// `str::to_uppercase` of this text.
pub uninterp spec fn uppercase(s: Seq<char>) -> Seq<char>;

/// `str::to_lowercase` of this text.
pub uninterp spec fn lowercase(s: Seq<char>) -> Seq<char>;

/// `str::to_uppercase`: the text in upper case by Unicode's rules. Which letter
/// becomes which is left to the standard library.
#[verifier::external_body]
fn to_uppercase(s: &str) -> (cased: String)
    ensures
        cased@ == uppercase(s@),
{
    s.to_uppercase()
}

/// `str::to_lowercase`: the text in lower case by Unicode's rules. Which letter
/// becomes which is left to the standard library.
#[verifier::external_body]
fn to_lowercase(s: &str) -> (cased: String)
    ensures
        cased@ == lowercase(s@),
{
    s.to_lowercase()
}

/// One token in, its replacements out, by the name of the token's kind.
/// Mirrors mutmut's `_operator_mapping` plus its keyword swaps, so the two
/// tools plant comparable faults.
///
/// An ordering operator takes two: the boundary shift, which only a test
/// sitting exactly on the boundary can kill, and the negation, which any test
/// that observes the predicate kills. One replacement was cheaper and left the
/// boundary case untested, and relational replacement is the operator with the
/// best evidence behind it, so it is the wrong place to economise. Equality has
/// no boundary neighbour, so it keeps one.
pub open spec fn swaps_of(kind: Seq<char>) -> Seq<Seq<char>> {
    if kind == "Plus"@ {
        seq!["-"@]
    } else if kind == "Minus"@ {
        seq!["+"@]
    } else if kind == "Star"@ {
        seq!["/"@]
    } else if kind == "Slash"@ {
        seq!["*"@]
    } else if kind == "DoubleSlash"@ {
        seq!["/"@]
    } else if kind == "Percent"@ {
        seq!["/"@]
    } else if kind == "DoubleStar"@ {
        seq!["*"@]
    } else if kind == "Amper"@ {
        seq!["|"@]
    } else if kind == "Vbar"@ {
        seq!["&"@]
    } else if kind == "CircumFlex"@ {
        seq!["&"@]
    } else if kind == "LeftShift"@ {
        seq![">>"@]
    } else if kind == "RightShift"@ {
        seq!["<<"@]
    } else if kind == "EqEqual"@ {
        seq!["!="@]
    } else if kind == "NotEqual"@ {
        seq!["=="@]
    } else if kind == "Less"@ {
        seq!["<="@, ">="@]
    } else if kind == "LessEqual"@ {
        seq!["<"@, ">"@]
    } else if kind == "Greater"@ {
        seq![">="@, "<="@]
    } else if kind == "GreaterEqual"@ {
        seq![">"@, "<"@]
    } else if kind == "And"@ {
        seq!["or"@]
    } else if kind == "Or"@ {
        seq!["and"@]
    } else if kind == "True"@ {
        seq!["False"@]
    } else if kind == "False"@ {
        seq!["True"@]
    } else if kind == "Break"@ {
        seq!["return"@]
    } else if kind == "Continue"@ {
        seq!["break"@]
    } else if kind == "Is"@ {
        seq!["is not"@]
    } else if kind == "PlusEqual"@ {
        seq!["-="@]
    } else if kind == "MinusEqual"@ {
        seq!["+="@]
    } else if kind == "StarEqual"@ {
        seq!["/="@]
    } else if kind == "SlashEqual"@ {
        seq!["*="@]
    } else if kind == "DoubleSlashEqual"@ {
        seq!["/="@]
    } else if kind == "PercentEqual"@ {
        seq!["/="@]
    } else if kind == "DoubleStarEqual"@ {
        seq!["*="@]
    } else if kind == "AmperEqual"@ {
        seq!["|="@]
    } else if kind == "VbarEqual"@ {
        seq!["&="@]
    } else if kind == "CircumflexEqual"@ {
        seq!["&="@]
    } else if kind == "LeftShiftEqual"@ {
        seq![">>="@]
    } else if kind == "RightShiftEqual"@ {
        seq!["<<="@]
    } else {
        Seq::empty()
    }
}

pub fn swapped(kind: &str) -> (swaps: Vec<&'static str>)
    ensures
        mutate::names(swaps@) == swaps_of(kind@),
{
    let swaps: Vec<&'static str> = if text::same(kind, "Plus") {
        vec!["-"]
    } else if text::same(kind, "Minus") {
        vec!["+"]
    } else if text::same(kind, "Star") {
        vec!["/"]
    } else if text::same(kind, "Slash") {
        vec!["*"]
    } else if text::same(kind, "DoubleSlash") {
        vec!["/"]
    } else if text::same(kind, "Percent") {
        vec!["/"]
    } else if text::same(kind, "DoubleStar") {
        vec!["*"]
    } else if text::same(kind, "Amper") {
        vec!["|"]
    } else if text::same(kind, "Vbar") {
        vec!["&"]
    } else if text::same(kind, "CircumFlex") {
        vec!["&"]
    } else if text::same(kind, "LeftShift") {
        vec![">>"]
    } else if text::same(kind, "RightShift") {
        vec!["<<"]
    } else if text::same(kind, "EqEqual") {
        vec!["!="]
    } else if text::same(kind, "NotEqual") {
        vec!["=="]
    } else if text::same(kind, "Less") {
        vec!["<=", ">="]
    } else if text::same(kind, "LessEqual") {
        vec!["<", ">"]
    } else if text::same(kind, "Greater") {
        vec![">=", "<="]
    } else if text::same(kind, "GreaterEqual") {
        vec![">", "<"]
    } else if text::same(kind, "And") {
        vec!["or"]
    } else if text::same(kind, "Or") {
        vec!["and"]
    } else if text::same(kind, "True") {
        vec!["False"]
    } else if text::same(kind, "False") {
        vec!["True"]
    } else if text::same(kind, "Break") {
        vec!["return"]
    } else if text::same(kind, "Continue") {
        vec!["break"]
    } else if text::same(kind, "Is") {
        vec!["is not"]
    } else if text::same(kind, "PlusEqual") {
        vec!["-="]
    } else if text::same(kind, "MinusEqual") {
        vec!["+="]
    } else if text::same(kind, "StarEqual") {
        vec!["/="]
    } else if text::same(kind, "SlashEqual") {
        vec!["*="]
    } else if text::same(kind, "DoubleSlashEqual") {
        vec!["/="]
    } else if text::same(kind, "PercentEqual") {
        vec!["/="]
    } else if text::same(kind, "DoubleStarEqual") {
        vec!["*="]
    } else if text::same(kind, "AmperEqual") {
        vec!["|="]
    } else if text::same(kind, "VbarEqual") {
        vec!["&="]
    } else if text::same(kind, "CircumflexEqual") {
        vec!["&="]
    } else if text::same(kind, "LeftShiftEqual") {
        vec![">>="]
    } else if text::same(kind, "RightShiftEqual") {
        vec!["<<="]
    } else {
        Vec::new()
    };
    assert(mutate::names(swaps@) =~= swaps_of(kind@));
    swaps
}

/// Symmetric string methods, from mutmut's list. Only swapped when the name is
/// an attribute: `x.lower()` is a method call, a bare `lower` is not.
pub open spec fn method_swap(name: Seq<char>) -> Option<Seq<char>> {
    if name == "lower"@ {
        Some("upper"@)
    } else if name == "upper"@ {
        Some("lower"@)
    } else if name == "lstrip"@ {
        Some("rstrip"@)
    } else if name == "rstrip"@ {
        Some("lstrip"@)
    } else if name == "find"@ {
        Some("rfind"@)
    } else if name == "rfind"@ {
        Some("find"@)
    } else if name == "ljust"@ {
        Some("rjust"@)
    } else if name == "rjust"@ {
        Some("ljust"@)
    } else if name == "index"@ {
        Some("rindex"@)
    } else if name == "rindex"@ {
        Some("index"@)
    } else if name == "removeprefix"@ {
        Some("removesuffix"@)
    } else if name == "removesuffix"@ {
        Some("removeprefix"@)
    } else if name == "partition"@ {
        Some("rpartition"@)
    } else if name == "rpartition"@ {
        Some("partition"@)
    } else if name == "split"@ {
        Some("rsplit"@)
    } else if name == "rsplit"@ {
        Some("split"@)
    } else {
        None
    }
}

fn swapped_method(name: &str) -> (swap: Option<&'static str>)
    ensures
        swap.is_some() == method_swap(name@).is_some(),
        swap.is_some() ==> swap.unwrap()@ == method_swap(name@).unwrap(),
{
    if text::same(name, "lower") {
        Some("upper")
    } else if text::same(name, "upper") {
        Some("lower")
    } else if text::same(name, "lstrip") {
        Some("rstrip")
    } else if text::same(name, "rstrip") {
        Some("lstrip")
    } else if text::same(name, "find") {
        Some("rfind")
    } else if text::same(name, "rfind") {
        Some("find")
    } else if text::same(name, "ljust") {
        Some("rjust")
    } else if text::same(name, "rjust") {
        Some("ljust")
    } else if text::same(name, "index") {
        Some("rindex")
    } else if text::same(name, "rindex") {
        Some("index")
    } else if text::same(name, "removeprefix") {
        Some("removesuffix")
    } else if text::same(name, "removesuffix") {
        Some("removeprefix")
    } else if text::same(name, "partition") {
        Some("rpartition")
    } else if text::same(name, "rpartition") {
        Some("partition")
    } else if text::same(name, "split") {
        Some("rsplit")
    } else if text::same(name, "rsplit") {
        Some("split")
    } else {
        None
    }
}

pub open spec fn name_swaps_of(name: Seq<char>, after_dot: bool) -> Seq<Seq<char>> {
    if name == "deepcopy"@ {
        seq!["copy"@]
    } else if !after_dot {
        Seq::empty()
    } else {
        match method_swap(name) {
            Some(swap) => seq![swap],
            None => Seq::empty(),
        }
    }
}

pub fn name_swaps(name: &str, after_dot: bool) -> (swaps: Vec<String>)
    ensures
        text::texts(swaps@) == name_swaps_of(name@, after_dot),
{
    let mut swaps: Vec<String> = Vec::new();
    if text::same(name, "deepcopy") {
        swaps.push(text::owned("copy"));
    } else if after_dot {
        match swapped_method(name) {
            Some(swap) => swaps.push(text::owned(swap)),
            None => {},
        }
    }
    assert(text::texts(swaps@) =~= name_swaps_of(name@, after_dot));
    swaps
}

/// Where the first quote of a string token stands.
pub open spec fn quote_at(s: Seq<char>, from: int) -> Option<int>
    decreases s.len() - from,
{
    if from < 0 || from >= s.len() {
        None
    } else if s[from] == '"' || s[from] == '\'' {
        Some(from)
    } else {
        quote_at(s, from + 1)
    }
}

/// mutmut wraps string contents in XX markers and flips their case. Triple
/// quoted strings are skipped: they are nearly always docs. A case flip only
/// means something when it changes the string, and escapes must not be touched,
/// a lone backslash would break syntax.
pub open spec fn string_variants_of(s: Seq<char>) -> Seq<Seq<char>> {
    if text::occurs(s, "\"\"\""@) || text::occurs(s, "'''"@) {
        Seq::empty()
    } else {
        match quote_at(s, 0) {
            None => Seq::empty(),
            Some(open) => if s.last() != s[open] || open + 1 > s.len() - 1 {
                Seq::empty()
            } else {
                let prefix = s.subrange(0, open);
                let quote = seq![s[open]];
                let inner = s.subrange(open + 1, s.len() - 1);
                let marked = seq![prefix + quote + "XX"@ + inner + "XX"@ + quote];
                marked + cased_variant(prefix, quote, inner, uppercase(inner)) + cased_variant(
                    prefix,
                    quote,
                    inner,
                    lowercase(inner),
                )
            },
        }
    }
}

/// The string in another case, when that is another string and it holds no
/// escape.
pub open spec fn cased_variant(
    prefix: Seq<char>,
    quote: Seq<char>,
    inner: Seq<char>,
    cased: Seq<char>,
) -> Seq<Seq<char>> {
    if cased != inner && !inner.contains('\\') {
        seq![prefix + quote + cased + quote]
    } else {
        Seq::empty()
    }
}

fn find_quote(s: &[char]) -> (at: Option<usize>)
    ensures
        at.is_some() == quote_at(s@, 0).is_some(),
        at.is_some() ==> at.unwrap() == quote_at(s@, 0).unwrap() && at.unwrap() < s@.len(),
{
    let mut at: usize = 0;
    while at < s.len()
        invariant
            at <= s@.len(),
            quote_at(s@, 0) == quote_at(s@, at as int),
        decreases s@.len() - at,
    {
        if s[at] == '"' || s[at] == '\'' {
            return Some(at);
        }
        at += 1;
    }
    None
}

fn holds_backslash(s: &[char]) -> (yes: bool)
    ensures
        yes == s@.contains('\\'),
{
    let mut at: usize = 0;
    while at < s.len()
        invariant
            at <= s@.len(),
            forall|j: int| 0 <= j < at ==> s@[j] != '\\',
        decreases s@.len() - at,
    {
        if s[at] == '\\' {
            return true;
        }
        at += 1;
    }
    false
}

pub fn string_variants(s: &str) -> (variants: Vec<String>)
    ensures
        text::texts(variants@) == string_variants_of(s@),
{
    let mut variants: Vec<String> = Vec::new();
    if text::contains(s, "\"\"\"") || text::contains(s, "'''") {
        assert(text::texts(variants@) =~= string_variants_of(s@));
        return variants;
    }
    let chars: Vec<char> = text::chars_of(s);
    let open: usize = match find_quote(&chars) {
        Some(at) => at,
        None => {
            assert(text::texts(variants@) =~= string_variants_of(s@));
            return variants;
        },
    };
    let last: usize = chars.len() - 1;
    if chars[last] != chars[open] || open + 1 > last {
        assert(text::texts(variants@) =~= string_variants_of(s@));
        return variants;
    }
    let mut start: String = text::part_of(&chars, 0, open);
    start.push(chars[open]);
    let mut quote: String = String::new();
    quote.push(chars[open]);
    let inner: String = text::part_of(&chars, open + 1, last);

    let ghost prefix = s@.subrange(0, open as int);
    assert(quote@ =~= seq![s@[open as int]]);
    assert(start@ =~= prefix + quote@);

    let mut marked: String = start.clone();
    marked.append("XX");
    marked.append(&inner);
    marked.append("XX");
    marked.append(&quote);
    variants.push(marked);
    let ghost first = text::texts(variants@);
    assert(first =~= seq![prefix + quote@ + "XX"@ + inner@ + "XX"@ + quote@]);

    let plain: bool = !holds_backslash(&text::chars_of(&inner));
    let upper: String = to_uppercase(&inner);
    if plain && !text::same(&upper, &inner) {
        let mut variant: String = start.clone();
        variant.append(&upper);
        variant.append(&quote);
        variants.push(variant);
    }
    let ghost second = text::texts(variants@);
    assert(second =~= first + cased_variant(prefix, quote@, inner@, upper@));
    let lower: String = to_lowercase(&inner);
    if plain && !text::same(&lower, &inner) {
        let mut variant: String = start.clone();
        variant.append(&lower);
        variant.append(&quote);
        variants.push(variant);
    }
    assert(text::texts(variants@) =~= second + cased_variant(prefix, quote@, inner@, lower@));
    variants
}

/// The value of a digit in a base of at most 36.
pub open spec fn digit_value(c: char, radix: nat) -> Option<nat> {
    let code = c as u32;
    let value: nat = if 48 <= code <= 57 {
        (code - 48) as nat
    } else if 97 <= code <= 122 {
        (code - 87) as nat
    } else if 65 <= code <= 90 {
        (code - 55) as nat
    } else {
        radix
    };
    if value < radix {
        Some(value)
    } else {
        None
    }
}

/// The number these digits spell, most significant first.
pub open spec fn digits_value(s: Seq<char>, radix: nat) -> Option<nat>
    decreases s.len(),
{
    if s.len() == 0 {
        Some(0)
    } else {
        match (digits_value(s.drop_last(), radix), digit_value(s.last(), radix)) {
            (Some(high), Some(low)) => Some(high * radix + low),
            _ => None,
        }
    }
}

/// Whether a text carries a sign in front.
pub open spec fn is_signed(s: Seq<char>) -> bool {
    s.len() > 0 && (s[0] == '+' || s[0] == '-')
}

/// The integer a text spells: an optional sign, then at least one digit.
pub open spec fn integer_value(s: Seq<char>, radix: nat) -> Option<int> {
    let body = if is_signed(s) {
        s.drop_first()
    } else {
        s
    };
    if body.len() == 0 {
        None
    } else {
        match digits_value(body, radix) {
            Some(size) => Some(
                if s[0] == '-' {
                    -size
                } else {
                    size as int
                },
            ),
            None => None,
        }
    }
}

/// An integer read from text, as far as 128 bits and a sign can hold it.
pub enum Read {
    /// The text does not spell an integer.
    Malformed,
    /// It does, and the integer lies beyond the range asked for.
    OutOfRange,
    Integer { negative: bool, size: u128 },
}

impl Read {
    pub open spec fn value(self) -> int {
        match self {
            Read::Integer { negative, size } => if negative {
                -(size as int)
            } else {
                size as int
            },
            _ => 0,
        }
    }
}

proof fn lemma_digits_grow(high: nat, radix: nat, low: nat, bound: nat)
    requires
        radix >= 1,
        high > bound,
    ensures
        high * radix + low > bound,
{
    assert(high * radix >= high) by (nonlinear_arith)
        requires
            radix >= 1,
    ;
}

/// Reads an integer between `-limit - 1` and `limit`.
pub fn read_integer(chars: &[char], radix: u32, limit: u128) -> (read: Read)
    requires
        2 <= radix <= 36,
        limit < u128::MAX,
    ensures
        read is Malformed <==> integer_value(chars@, radix as nat).is_none(),
        read is Integer <==> (integer_value(chars@, radix as nat) matches Some(value) && -limit - 1
            <= value <= limit),
        read is Integer ==> integer_value(chars@, radix as nat) == Some(read.value()),
{
    let mut negative: bool = false;
    let mut at: usize = 0;
    let ghost body = if is_signed(chars@) {
        chars@.drop_first()
    } else {
        chars@
    };
    if chars.len() > 0 && (chars[0] == '+' || chars[0] == '-') {
        negative = chars[0] == '-';
        at = 1;
    }
    let from: usize = at;
    if from == chars.len() {
        return Read::Malformed;
    }
    let most: u128 = limit + 1;
    let mut size: u128 = 0;
    let mut over: bool = false;
    while at < chars.len()
        invariant
            from <= at <= chars@.len(),
            body == chars@.subrange(from as int, chars@.len() as int),
            body == if is_signed(chars@) {
                chars@.drop_first()
            } else {
                chars@
            },
            body.len() > 0,
            2 <= radix <= 36,
            digits_value(body.subrange(0, at - from), radix as nat).is_some(),
            !over ==> size as nat == digits_value(body.subrange(0, at - from), radix as nat).unwrap()
                && size <= most,
            over ==> digits_value(body.subrange(0, at - from), radix as nat).unwrap() > most,
        decreases chars@.len() - at,
    {
        let c: char = chars[at];
        let ghost wider = body.subrange(0, at - from + 1);
        assert(wider.drop_last() =~= body.subrange(0, at - from));
        assert(wider.last() == c);
        let code: u32 = c as u32;
        let low: u32 = if 48 <= code && code <= 57 {
            code - 48
        } else if 97 <= code && code <= 122 {
            code - 87
        } else if 65 <= code && code <= 90 {
            code - 55
        } else {
            radix
        };
        assert(digit_value(c, radix as nat) == if low < radix {
            Some(low as nat)
        } else {
            None
        });
        if low >= radix {
            proof {
                assert(digits_value(wider, radix as nat).is_none());
                lemma_malformed_prefix(body, radix as nat, at - from + 1);
            }
            return Read::Malformed;
        }
        if over {
            proof {
                lemma_digits_grow(
                    digits_value(wider.drop_last(), radix as nat).unwrap(),
                    radix as nat,
                    low as nat,
                    most as nat,
                );
            }
        } else {
            match size.checked_mul(radix as u128) {
                Some(shifted) => match shifted.checked_add(low as u128) {
                    Some(sum) => {
                        if sum > most {
                            over = true;
                        } else {
                            size = sum;
                        }
                    },
                    None => {
                        over = true;
                    },
                },
                None => {
                    over = true;
                },
            }
        }
        at += 1;
    }
    assert(body.subrange(0, at - from) =~= body);
    if over || (!negative && size > limit) {
        Read::OutOfRange
    } else {
        Read::Integer { negative, size }
    }
}

proof fn lemma_malformed_prefix(s: Seq<char>, radix: nat, end: int)
    requires
        0 <= end <= s.len(),
        digits_value(s.subrange(0, end), radix).is_none(),
    ensures
        digits_value(s, radix).is_none(),
    decreases s.len() - end,
{
    if end == s.len() {
        assert(s.subrange(0, end) =~= s);
    } else {
        assert(s.subrange(0, end + 1).drop_last() =~= s.subrange(0, end));
        lemma_malformed_prefix(s, radix, end + 1);
    }
}

/// The text without a character.
pub open spec fn dropping(s: Seq<char>, unwanted: char) -> Seq<char>
    decreases s.len(),
{
    if s.len() == 0 {
        s
    } else {
        let kept = dropping(s.drop_last(), unwanted);
        if s.last() == unwanted {
            kept
        } else {
            kept.push(s.last())
        }
    }
}

fn drop_char(s: &str, unwanted: char) -> (kept: Vec<char>)
    ensures
        kept@ == dropping(s@, unwanted),
{
    let chars: Vec<char> = text::chars_of(s);
    let mut kept: Vec<char> = Vec::new();
    let mut at: usize = 0;
    while at < chars.len()
        invariant
            at <= chars@.len(),
            chars@ == s@,
            kept@ =~= dropping(s@.subrange(0, at as int), unwanted),
        decreases chars@.len() - at,
    {
        assert(s@.subrange(0, at + 1).drop_last() =~= s@.subrange(0, at as int));
        if chars[at] != unwanted {
            kept.push(chars[at]);
        }
        at += 1;
    }
    assert(s@.subrange(0, at as int) =~= s@);
    kept
}

/// Sums that only floating point can give: the text of a number without its
/// underscores, and the text of that number plus one.
pub struct Sums {
    pub pairs: Vec<(String, String)>,
}

impl Sums {
    /// The table as plain values.
    pub open spec fn entries(self) -> Seq<(Seq<char>, Seq<char>)> {
        self.pairs@.map_values(|pair: (String, String)| (pair.0@, pair.1@))
    }

    /// The sum for a number, if the table has it.
    pub fn of(&self, number: &str) -> (sum: Option<&String>)
        ensures
            sum.is_some() == looked_up(self.entries(), number@).is_some(),
            sum.is_some() ==> sum.unwrap()@ == looked_up(self.entries(), number@).unwrap(),
    {
        let ghost entries = self.entries();
        let mut at: usize = 0;
        assert(entries.subrange(0, entries.len() as int) =~= entries);
        while at < self.pairs.len()
            invariant
                at <= self.pairs@.len(),
                entries == self.entries(),
                looked_up(entries, number@) == looked_up(
                    entries.subrange(at as int, entries.len() as int),
                    number@,
                ),
            decreases self.pairs@.len() - at,
        {
            assert(entries.subrange(at as int, entries.len() as int).drop_first()
                =~= entries.subrange(at + 1, entries.len() as int));
            assert(entries[at as int].0 == self.pairs@[at as int].0@);
            if text::same(self.pairs[at].0.as_str(), number) {
                return Some(&self.pairs[at].1);
            }
            at += 1;
        }
        None
    }
}

/// What a table says of a key: the first entry wins.
pub open spec fn looked_up(entries: Seq<(Seq<char>, Seq<char>)>, key: Seq<char>) -> Option<
    Seq<char>,
>
    decreases entries.len(),
{
    if entries.len() == 0 {
        None
    } else if entries[0].0 == key {
        Some(entries[0].1)
    } else {
        looked_up(entries.drop_first(), key)
    }
}

/// The base a number's prefix announces.
pub open spec fn radix_of(clean: Seq<char>) -> Option<nat> {
    if clean.len() < 2 || clean[0] != '0' {
        None
    } else if clean[1] == 'x' || clean[1] == 'X' {
        Some(16)
    } else if clean[1] == 'o' || clean[1] == 'O' {
        Some(8)
    } else if clean[1] == 'b' || clean[1] == 'B' {
        Some(2)
    } else {
        None
    }
}

/// Whether an integer fits in 128 bits with a sign.
pub open spec fn is_wide(value: int) -> bool {
    i128::MIN <= value <= i128::MAX
}

/// The number one bigger, whatever it is. An integer of up to 128 bits is added
/// to here; a number written with a prefix and wider than that has none; and
/// every other number is looked up among the sums.
pub open spec fn bumped(number: Seq<char>, sums: Seq<(Seq<char>, Seq<char>)>) -> Option<Seq<char>> {
    let clean = dropping(number, '_');
    match radix_of(clean) {
        Some(radix) => match integer_value(clean.subrange(2, clean.len() as int), radix) {
            Some(value) => if is_wide(value) {
                Some(text::signed(value + 1))
            } else {
                None
            },
            None => None,
        },
        None => match integer_value(clean, 10) {
            Some(value) => if is_wide(value) {
                Some(text::signed(value + 1))
            } else {
                looked_up(sums, clean)
            },
            None => looked_up(sums, clean),
        },
    }
}

/// Whether only floating point can make this number one bigger, and so what to
/// hand to it.
pub open spec fn needs_sum(number: Seq<char>) -> bool {
    let clean = dropping(number, '_');
    radix_of(clean).is_none() && !(integer_value(clean, 10) matches Some(value) && is_wide(value))
}

fn one_more(negative: bool, size: u128) -> (s: String)
    requires
        size < u128::MAX,
    ensures
        s@ == text::signed(
            (if negative {
                -(size as int)
            } else {
                size as int
            }) + 1,
        ),
{
    if negative && size > 0 {
        if size == 1 {
            text::show_u128(0)
        } else {
            let mut s: String = String::new();
            s.push('-');
            s.append(&text::show_u128(size - 1));
            assert(s@ =~= seq!['-'] + text::decimal((size - 1) as nat));
            s
        }
    } else {
        text::show_u128(size + 1)
    }
}

fn prefix_radix(clean: &[char]) -> (radix: Option<u32>)
    ensures
        radix.is_some() == radix_of(clean@).is_some(),
        radix.is_some() ==> radix.unwrap() as nat == radix_of(clean@).unwrap() && 2
            <= radix.unwrap() <= 16,
{
    if clean.len() < 2 || clean[0] != '0' {
        return None;
    }
    let c: char = clean[1];
    if c == 'x' || c == 'X' {
        Some(16)
    } else if c == 'o' || c == 'O' {
        Some(8)
    } else if c == 'b' || c == 'B' {
        Some(2)
    } else {
        None
    }
}

/// The largest integer of 128 bits with a sign.
const WIDEST: u128 = 0x7fff_ffff_ffff_ffff_ffff_ffff_ffff_ffff;

/// mutmut's number mutation: whatever it is, make it one bigger.
pub fn bumped_number(number: &str, sums: &Sums) -> (bump: Option<String>)
    ensures
        bump.is_some() == bumped(number@, sums.entries()).is_some(),
        bump.is_some() ==> bump.unwrap()@ == bumped(number@, sums.entries()).unwrap(),
{
    let clean: Vec<char> = drop_char(number, '_');
    match prefix_radix(&clean) {
        Some(radix) => {
            let digits: &[char] = vstd::slice::slice_subrange(clean.as_slice(), 2, clean.len());
            match read_integer(digits, radix, WIDEST) {
                Read::Integer { negative, size } => Some(one_more(negative, size)),
                _ => None,
            }
        },
        None => match read_integer(&clean, 10, WIDEST) {
            Read::Integer { negative, size } => Some(one_more(negative, size)),
            _ => match sums.of(&text::text_of(&clean)) {
                Some(sum) => Some(sum.clone()),
                None => None,
            },
        },
    }
}

/// The text to hand to floating point, when only that can make the number one
/// bigger.
pub fn float_text(number: &str) -> (clean: Option<String>)
    ensures
        clean.is_some() == needs_sum(number@),
        clean.is_some() ==> clean.unwrap()@ == dropping(number@, '_'),
{
    let clean: Vec<char> = drop_char(number, '_');
    if prefix_radix(&clean).is_some() {
        return None;
    }
    match read_integer(&clean, 10, WIDEST) {
        Read::Integer { .. } => None,
        _ => Some(text::text_of(&clean)),
    }
}

/// Every replacement a token admits. Most give one; an ordering operator and a
/// string give more.
///
/// `not x` -> `x` and `~x` -> `x`. Removing a `not` also turns `is not` into
/// `is` and `not in` into `in`, which is mutmut's IsNot/NotIn swap.
pub open spec fn replacements_of(
    kind: Seq<char>,
    source: Seq<char>,
    after_dot: bool,
    sums: Seq<(Seq<char>, Seq<char>)>,
) -> Seq<Seq<char>> {
    if swaps_of(kind).len() > 0 {
        swaps_of(kind)
    } else if kind == "Not"@ || kind == "Tilde"@ {
        seq![Seq::<char>::empty()]
    } else if kind == "Int"@ || kind == "Float"@ {
        match bumped(source, sums) {
            Some(bump) => seq![bump],
            None => Seq::empty(),
        }
    } else if kind == "String"@ {
        string_variants_of(source)
    } else if kind == "Name"@ {
        name_swaps_of(source, after_dot)
    } else {
        Seq::empty()
    }
}

pub fn replacements(kind: &str, source: &str, after_dot: bool, sums: &Sums) -> (list: Vec<String>)
    ensures
        text::texts(list@) == replacements_of(kind@, source@, after_dot, sums.entries()),
{
    let swaps: Vec<&'static str> = swapped(kind);
    let mut list: Vec<String> = Vec::new();
    if swaps.len() > 0 {
        let mut at: usize = 0;
        while at < swaps.len()
            invariant
                at <= swaps@.len(),
                list@.len() == at,
                forall|k: int| 0 <= k < at ==> #[trigger] list@[k]@ == swaps@[k]@,
            decreases swaps@.len() - at,
        {
            list.push(text::owned(swaps[at]));
            at += 1;
        }
        assert(text::texts(list@) =~= mutate::names(swaps@));
        return list;
    }
    assert(swaps_of(kind@).len() == 0);
    if text::same(kind, "Not") || text::same(kind, "Tilde") {
        list.push(String::new());
        assert(text::texts(list@) =~= seq![Seq::<char>::empty()]);
        list
    } else if text::same(kind, "Int") || text::same(kind, "Float") {
        match bumped_number(source, sums) {
            Some(bump) => list.push(bump),
            None => {},
        }
        assert(text::texts(list@) =~= replacements_of(kind@, source@, after_dot, sums.entries()));
        list
    } else if text::same(kind, "String") {
        string_variants(source)
    } else if text::same(kind, "Name") {
        name_swaps(source, after_dot)
    } else {
        assert(text::texts(list@) =~= Seq::<Seq<char>>::empty());
        list
    }
}

/// A method swap is symmetric: swapping twice gives the method back.
pub proof fn law_a_method_swap_undoes_itself(name: Seq<char>)
    requires
        method_swap(name).is_some(),
    ensures
        method_swap(method_swap(name).unwrap()) == Some(name),
{
    reveal_strlit("find");
    reveal_strlit("index");
    reveal_strlit("ljust");
    reveal_strlit("lower");
    reveal_strlit("lstrip");
    reveal_strlit("partition");
    reveal_strlit("removeprefix");
    reveal_strlit("removesuffix");
    reveal_strlit("rfind");
    reveal_strlit("rindex");
    reveal_strlit("rjust");
    reveal_strlit("rpartition");
    reveal_strlit("rsplit");
    reveal_strlit("rstrip");
    reveal_strlit("split");
    reveal_strlit("upper");
    assert("find"@.len() == 4 && "find"@[0] == 'f' && "find"@[1] == 'i' && "find"@[2] == 'n');
    assert("index"@.len() == 5 && "index"@[0] == 'i' && "index"@[1] == 'n' && "index"@[2] == 'd');
    assert("ljust"@.len() == 5 && "ljust"@[0] == 'l' && "ljust"@[1] == 'j' && "ljust"@[2] == 'u');
    assert("lower"@.len() == 5 && "lower"@[0] == 'l' && "lower"@[1] == 'o' && "lower"@[2] == 'w');
    assert("lstrip"@.len() == 6 && "lstrip"@[0] == 'l' && "lstrip"@[1] == 's' && "lstrip"@[2] == 't');
    assert("partition"@.len() == 9 && "partition"@[0] == 'p' && "partition"@[1] == 'a' && "partition"@[2] == 'r');
    assert("removeprefix"@.len() == 12 && "removeprefix"@[0] == 'r' && "removeprefix"@[1] == 'e' && "removeprefix"@[2] == 'm');
    assert("removesuffix"@.len() == 12 && "removesuffix"@[0] == 'r' && "removesuffix"@[1] == 'e' && "removesuffix"@[2] == 'm');
    assert("rfind"@.len() == 5 && "rfind"@[0] == 'r' && "rfind"@[1] == 'f' && "rfind"@[2] == 'i');
    assert("rindex"@.len() == 6 && "rindex"@[0] == 'r' && "rindex"@[1] == 'i' && "rindex"@[2] == 'n');
    assert("rjust"@.len() == 5 && "rjust"@[0] == 'r' && "rjust"@[1] == 'j' && "rjust"@[2] == 'u');
    assert("rpartition"@.len() == 10 && "rpartition"@[0] == 'r' && "rpartition"@[1] == 'p' && "rpartition"@[2] == 'a');
    assert("rsplit"@.len() == 6 && "rsplit"@[0] == 'r' && "rsplit"@[1] == 's' && "rsplit"@[2] == 'p');
    assert("rstrip"@.len() == 6 && "rstrip"@[0] == 'r' && "rstrip"@[1] == 's' && "rstrip"@[2] == 't');
    assert("split"@.len() == 5 && "split"@[0] == 's' && "split"@[1] == 'p' && "split"@[2] == 'l');
    assert("upper"@.len() == 5 && "upper"@[0] == 'u' && "upper"@[1] == 'p' && "upper"@[2] == 'p');
    assert("removeprefix"@[6] == 'p' && "removesuffix"@[6] == 's');
}

proof fn lemma_decimal_reads_back(n: nat)
    ensures
        digits_value(text::decimal(n), 10) == Some(n),
    decreases n,
{
    text::law_decimal_digits(n);
    let s = text::decimal(n);
    assert(digit_value(s.last(), 10) == Some((n % 10) as nat));
    if n >= 10 {
        lemma_decimal_reads_back(n / 10);
        assert((n / 10) * 10 + n % 10 == n);
    } else {
        assert(s.drop_last() =~= Seq::<char>::empty());
        assert(digits_value(Seq::empty(), 10) == Some(0nat));
    }
}

/// Reading a number gives back the number that was written.
pub proof fn law_a_written_number_reads_back(n: int)
    ensures
        integer_value(text::signed(n), 10) == Some(n),
{
    if n < 0 {
        lemma_decimal_reads_back((-n) as nat);
        text::law_decimal_digits((-n) as nat);
        assert(text::signed(n).drop_first() =~= text::decimal((-n) as nat));
    } else {
        lemma_decimal_reads_back(n as nat);
        text::law_decimal_digits(n as nat);
    }
}

proof fn lemma_dropping(s: Seq<char>, unwanted: char)
    ensures
        dropping(s, unwanted) == s.filter(|c: char| c != unwanted),
        !s.contains(unwanted) ==> dropping(s, unwanted) == s,
        !dropping(s, unwanted).contains(unwanted),
    decreases s.len(),
{
    reveal(Seq::filter);
    if s.len() > 0 {
        let shorter = s.drop_last();
        lemma_dropping(shorter, unwanted);
        if !s.contains(unwanted) {
            if shorter.contains(unwanted) {
                let k = choose|k: int| 0 <= k < shorter.len() && shorter[k] == unwanted;
                assert(s[k] == unwanted);
            }
            assert(s[s.len() - 1] != unwanted);
            assert(dropping(s, unwanted) =~= s);
        }
        let kept = dropping(shorter, unwanted);
        if s.last() != unwanted && kept.push(s.last()).contains(unwanted) {
            let all = kept.push(s.last());
            let k = choose|k: int| 0 <= k < all.len() && all[k] == unwanted;
            assert(kept[k] == unwanted);
        }
    }
}

/// A whole number becomes the next one, and the underscores a number is written
/// with do not count.
pub proof fn law_a_number_becomes_one_bigger(n: nat, sums: Seq<(Seq<char>, Seq<char>)>)
    requires
        n <= i128::MAX,
    ensures
        bumped(text::decimal(n), sums) == Some(text::decimal(n + 1)),
        forall|number: Seq<char>| #[trigger]
            bumped(number, sums) == bumped(number.filter(|c: char| c != '_'), sums),
{
    let s = text::decimal(n);
    text::law_decimal_digits(n);
    law_a_written_number_reads_back(n as int);
    lemma_dropping(s, '_');
    assert(!s.contains('_')) by {
        if s.contains('_') {
            let k = choose|k: int| 0 <= k < s.len() && s[k] == '_';
            assert('0' <= s[k] <= '9');
        }
    }
    assert(radix_of(s).is_none()) by {
        if n == 0 {
            assert(s.len() == 1);
        }
    }
    assert forall|number: Seq<char>| #[trigger]
        bumped(number, sums) == bumped(number.filter(|c: char| c != '_'), sums) by {
        lemma_dropping(number, '_');
        lemma_dropping(dropping(number, '_'), '_');
    }
}

/// A number written with a prefix is read in the base the prefix stands for, and
/// becomes the next number in decimal.
pub proof fn law_a_prefixed_number_becomes_one_bigger(
    prefix: char,
    digits: Seq<char>,
    value: nat,
    sums: Seq<(Seq<char>, Seq<char>)>,
)
    requires
        digits.len() > 0,
        !digits.contains('_'),
        value <= i128::MAX,
        (prefix == 'x' || prefix == 'X') && digits_value(digits, 16) == Some(value) || (prefix == 'o'
            || prefix == 'O') && digits_value(digits, 8) == Some(value) || (prefix == 'b' || prefix
            == 'B') && digits_value(digits, 2) == Some(value),
    ensures
        bumped(seq!['0', prefix] + digits, sums) == Some(text::decimal(value + 1)),
{
    if prefix == 'x' || prefix == 'X' {
        lemma_prefixed(prefix, 16, digits, value, sums);
    } else if prefix == 'o' || prefix == 'O' {
        lemma_prefixed(prefix, 8, digits, value, sums);
    } else {
        lemma_prefixed(prefix, 2, digits, value, sums);
    }
}

proof fn lemma_prefixed(
    prefix: char,
    radix: nat,
    digits: Seq<char>,
    value: nat,
    sums: Seq<(Seq<char>, Seq<char>)>,
)
    requires
        digits.len() > 0,
        !digits.contains('_'),
        value <= i128::MAX,
        radix_of(seq!['0', prefix]) == Some(radix),
        digits_value(digits, radix) == Some(value),
    ensures
        bumped(seq!['0', prefix] + digits, sums) == Some(text::decimal(value + 1)),
{
    let s = seq!['0', prefix] + digits;
    assert(s[0] == '0' && s[1] == prefix);
    assert(seq!['0', prefix][1] == prefix);
    assert(!s.contains('_')) by {
        if s.contains('_') {
            let k = choose|k: int| 0 <= k < s.len() && s[k] == '_';
            assert(seq!['0', prefix][0] == '0');
            assert(k != 0);
            if k == 1 {
                assert(prefix == '_');
            } else {
                assert(digits[k - 2] == '_');
            }
        }
    }
    lemma_dropping(s, '_');
    assert(dropping(s, '_') == s);
    assert(radix_of(s) == Some(radix));
    assert(s.subrange(2, s.len() as int) =~= digits);
    lemma_first_digit(digits, radix);
    assert(digits[0] != '-') by {
        assert(!is_signed(digits));
    }
    assert(integer_value(digits, radix) == Some(value as int));
    assert(text::signed(value as int + 1) == text::decimal(value + 1));
}

proof fn lemma_first_digit(s: Seq<char>, radix: nat)
    requires
        s.len() > 0,
        digits_value(s, radix).is_some(),
    ensures
        digit_value(s[0], radix).is_some(),
        !is_signed(s) || digit_value('+', radix).is_some() || digit_value('-', radix).is_some(),
        !is_signed(s),
    decreases s.len(),
{
    if s.len() > 1 {
        lemma_first_digit(s.drop_last(), radix);
        assert(s.drop_last()[0] == s[0]);
    }
    assert('+' as u32 == 43 && '-' as u32 == 45);
}

/// The digits of a number add up in their base: each place counts the base times
/// the one behind it.
pub proof fn law_digits_add_up(high: Seq<char>, low: char, radix: nat)
    ensures
        '0' <= low <= '9' && low as u32 - 48 < radix ==> digits_value(high.push(low), radix)
            == match digits_value(high, radix) {
            Some(value) => Some((value * radix + (low as u32 - 48)) as nat),
            None => None,
        },
        'a' <= low <= 'f' && radix == 16 ==> digits_value(high.push(low), radix)
            == match digits_value(high, radix) {
            Some(value) => Some((value * 16 + 10 + (low as u32 - 97)) as nat),
            None => None,
        },
        'A' <= low <= 'F' && radix == 16 ==> digits_value(high.push(low), radix)
            == match digits_value(high, radix) {
            Some(value) => Some((value * 16 + 10 + (low as u32 - 65)) as nat),
            None => None,
        },
        digits_value(Seq::empty(), radix) == Some(0nat),
{
    assert(high.push(low).drop_last() =~= high);
}

/// A number with a point in it is looked up, and the first entry for it counts.
pub proof fn law_a_fraction_is_looked_up(
    number: Seq<char>,
    sums: Seq<(Seq<char>, Seq<char>)>,
    k: int,
)
    requires
        number.contains('.'),
        !number.contains('_'),
        '1' <= number[0] <= '9',
        0 <= k < sums.len(),
        sums[k].0 == number,
        forall|j: int| 0 <= j < k ==> (#[trigger] sums[j]).0 != number,
    ensures
        bumped(number, sums) == Some(sums[k].1),
{
    lemma_dropping(number, '_');
    lemma_looked_up(sums, number, k);
    if integer_value(number, 10).is_some() {
        let body = if is_signed(number) {
            number.drop_first()
        } else {
            number
        };
        let at = choose|at: int| 0 <= at < number.len() && number[at] == '.';
        lemma_all_digits(number, 10, at);
        assert(digit_value('.', 10).is_none()) by {
            assert('.' as u32 == 46);
        }
    }
}

proof fn lemma_all_digits(s: Seq<char>, radix: nat, at: int)
    requires
        digits_value(s, radix).is_some(),
        0 <= at < s.len(),
    ensures
        digit_value(s[at], radix).is_some(),
    decreases s.len(),
{
    if at < s.len() - 1 {
        lemma_all_digits(s.drop_last(), radix, at);
    }
}

proof fn lemma_looked_up(entries: Seq<(Seq<char>, Seq<char>)>, key: Seq<char>, k: int)
    requires
        0 <= k < entries.len(),
        entries[k].0 == key,
        forall|j: int| 0 <= j < k ==> (#[trigger] entries[j]).0 != key,
    ensures
        looked_up(entries, key) == Some(entries[k].1),
    decreases entries.len(),
{
    if k > 0 {
        assert(entries[0].0 != key);
        let rest = entries.drop_first();
        assert forall|j: int| 0 <= j < k - 1 implies (#[trigger] rest[j]).0 != key by {
            assert(rest[j] == entries[j + 1]);
        }
        lemma_looked_up(rest, key, k - 1);
    }
}

proof fn lemma_quote_at(s: Seq<char>, from: int, open: int)
    requires
        0 <= from <= open < s.len(),
        s[open] == '"' || s[open] == '\'',
        forall|i: int| from <= i < open ==> s[i] != '"' && s[i] != '\'',
    ensures
        quote_at(s, from) == Some(open),
    decreases open - from,
{
    if from < open {
        lemma_quote_at(s, from + 1, open);
    }
}

/// A string with a prefix, quotes and something in them is marked on both sides
/// inside the quotes; when it holds no backslash it is put into upper case and
/// into lower case too, where that changes it. Prefix and quotes stay, and there
/// are no other variants. A triple quoted string has none.
pub proof fn law_a_string_is_changed_inside_its_quotes(
    prefix: Seq<char>,
    quote: char,
    inner: Seq<char>,
)
    requires
        quote == '"' || quote == '\'',
        !prefix.contains('"') && !prefix.contains('\''),
    ensures
        ({
            let s = prefix + seq![quote] + inner + seq![quote];
            let open = prefix + seq![quote];
            let variants = string_variants_of(s);
            let triple = text::occurs(s, "\"\"\""@) || text::occurs(s, "'''"@);
            &&& triple ==> variants.len() == 0
            &&& !triple ==> variants.contains(open + "XX"@ + inner + "XX"@ + seq![quote])
            &&& !triple && !inner.contains('\\') && uppercase(inner) != inner ==> variants.contains(
                open + uppercase(inner) + seq![quote],
            )
            &&& !triple && !inner.contains('\\') && lowercase(inner) != inner ==> variants.contains(
                open + lowercase(inner) + seq![quote],
            )
            &&& forall|variant: Seq<char>| #[trigger]
                variants.contains(variant) ==> variant == open + "XX"@ + inner + "XX"@ + seq![quote]
                    || (!inner.contains('\\') && (variant == open + uppercase(inner) + seq![quote]
                    || variant == open + lowercase(inner) + seq![quote]))
        }),
{
    let s = prefix + seq![quote] + inner + seq![quote];
    let open = prefix.len() as int;
    let variants = string_variants_of(s);
    let triple = text::occurs(s, "\"\"\""@) || text::occurs(s, "'''"@);
    if !triple {
        assert(s[open] == quote);
        assert forall|i: int| 0 <= i < open implies s[i] != '"' && s[i] != '\'' by {
            assert(s[i] == prefix[i]);
            assert(prefix.contains(prefix[i]));
        }
        lemma_quote_at(s, 0, open);
        assert(s.last() == quote);
        assert(s.subrange(0, open) =~= prefix);
        assert(s.subrange(open + 1, s.len() - 1) =~= inner);
        let head = prefix + seq![quote];
        let marked = head + "XX"@ + inner + "XX"@ + seq![quote];
        let upper = cased_variant(prefix, seq![quote], inner, uppercase(inner));
        let lower = cased_variant(prefix, seq![quote], inner, lowercase(inner));
        assert(variants == seq![marked] + upper + lower);
        assert(variants[0] == marked);
        if upper.len() > 0 {
            assert(variants[1] == upper[0]);
        }
        if lower.len() > 0 {
            assert(variants[1 + upper.len() as int] == lower[0]);
        }
        assert forall|variant: Seq<char>| #[trigger] variants.contains(variant) implies variant
            == marked || (!inner.contains('\\') && (variant == head + uppercase(inner) + seq![quote]
            || variant == head + lowercase(inner) + seq![quote])) by {
            let k = choose|k: int| 0 <= k < variants.len() && variants[k] == variant;
            if k > 0 && k < 1 + upper.len() {
                assert(variant == upper[k - 1]);
            } else if k > 0 {
                assert(variant == lower[k - 1 - upper.len()]);
            }
        }
    }
}

/// The methods that stand for each other.
pub open spec fn method_pairs() -> Seq<(Seq<char>, Seq<char>)> {
    seq![
        ("lower"@, "upper"@),
        ("lstrip"@, "rstrip"@),
        ("find"@, "rfind"@),
        ("ljust"@, "rjust"@),
        ("index"@, "rindex"@),
        ("removeprefix"@, "removesuffix"@),
        ("partition"@, "rpartition"@),
        ("split"@, "rsplit"@),
    ]
}

/// A name is swapped for another exactly when the two stand for each other and
/// the name follows a dot. The one name that needs no dot is `deepcopy`.
pub proof fn law_a_method_is_swapped_for_its_counterpart(name: Seq<char>, k: int)
    requires
        0 <= k < method_pairs().len(),
    ensures
        name_swaps_of(method_pairs()[k].0, true) == seq![method_pairs()[k].1],
        name_swaps_of(method_pairs()[k].1, true) == seq![method_pairs()[k].0],
        name != "deepcopy"@ ==> name_swaps_of(name, false) == Seq::<Seq<char>>::empty(),
        name != "deepcopy"@ && (forall|j: int|
            0 <= j < method_pairs().len() ==> (#[trigger] method_pairs()[j]).0 != name
                && method_pairs()[j].1 != name) ==> name_swaps_of(name, true) == Seq::<
            Seq<char>,
        >::empty(),
        name_swaps_of("deepcopy"@, false) == seq!["copy"@],
        name_swaps_of("deepcopy"@, true) == seq!["copy"@],
{
    reveal_strlit("deepcopy");
    reveal_strlit("lower");
    reveal_strlit("upper");
    reveal_strlit("lstrip");
    reveal_strlit("rstrip");
    reveal_strlit("find");
    reveal_strlit("rfind");
    reveal_strlit("ljust");
    reveal_strlit("rjust");
    reveal_strlit("index");
    reveal_strlit("rindex");
    reveal_strlit("removeprefix");
    reveal_strlit("removesuffix");
    reveal_strlit("partition");
    reveal_strlit("rpartition");
    reveal_strlit("split");
    reveal_strlit("rsplit");
    let all = method_pairs();
    assert(all[0] == ("lower"@, "upper"@));
    assert(all[1] == ("lstrip"@, "rstrip"@));
    assert(all[2] == ("find"@, "rfind"@));
    assert(all[3] == ("ljust"@, "rjust"@));
    assert(all[4] == ("index"@, "rindex"@));
    assert(all[5] == ("removeprefix"@, "removesuffix"@));
    assert(all[6] == ("partition"@, "rpartition"@));
    assert(all[7] == ("split"@, "rsplit"@));
    assert("lower"@.len() == 5 && "lower"@[0] == 'l' && "lower"@[1] == 'o' && "lower"@[2] == 'w');
    assert("upper"@.len() == 5 && "upper"@[0] == 'u' && "upper"@[1] == 'p' && "upper"@[2] == 'p');
    assert("lstrip"@.len() == 6 && "lstrip"@[0] == 'l' && "lstrip"@[1] == 's' && "lstrip"@[2] == 't');
    assert("rstrip"@.len() == 6 && "rstrip"@[0] == 'r' && "rstrip"@[1] == 's' && "rstrip"@[2] == 't');
    assert("find"@.len() == 4 && "find"@[0] == 'f' && "find"@[1] == 'i' && "find"@[2] == 'n');
    assert("rfind"@.len() == 5 && "rfind"@[0] == 'r' && "rfind"@[1] == 'f' && "rfind"@[2] == 'i');
    assert("ljust"@.len() == 5 && "ljust"@[0] == 'l' && "ljust"@[1] == 'j' && "ljust"@[2] == 'u');
    assert("rjust"@.len() == 5 && "rjust"@[0] == 'r' && "rjust"@[1] == 'j' && "rjust"@[2] == 'u');
    assert("index"@.len() == 5 && "index"@[0] == 'i' && "index"@[1] == 'n' && "index"@[2] == 'd');
    assert("rindex"@.len() == 6 && "rindex"@[0] == 'r' && "rindex"@[1] == 'i' && "rindex"@[2] == 'n');
    assert("removeprefix"@.len() == 12 && "removeprefix"@[0] == 'r' && "removeprefix"@[1] == 'e' && "removeprefix"@[2] == 'm');
    assert("removesuffix"@.len() == 12 && "removesuffix"@[0] == 'r' && "removesuffix"@[1] == 'e' && "removesuffix"@[2] == 'm');
    assert("partition"@.len() == 9 && "partition"@[0] == 'p' && "partition"@[1] == 'a' && "partition"@[2] == 'r');
    assert("rpartition"@.len() == 10 && "rpartition"@[0] == 'r' && "rpartition"@[1] == 'p' && "rpartition"@[2] == 'a');
    assert("split"@.len() == 5 && "split"@[0] == 's' && "split"@[1] == 'p' && "split"@[2] == 'l');
    assert("rsplit"@.len() == 6 && "rsplit"@[0] == 'r' && "rsplit"@[1] == 's' && "rsplit"@[2] == 'p');
    assert("removeprefix"@[6] == 'p' && "removesuffix"@[6] == 's');
    assert("deepcopy"@.len() == 8 && "deepcopy"@[0] == 'd');
}

/// A `not` and a `~` go, and a number, a string and a name change as such; a token
/// of any other kind that has no swap is left alone.
pub proof fn law_a_token_is_replaced_by_its_kind(
    source: Seq<char>,
    after_dot: bool,
    sums: Seq<(Seq<char>, Seq<char>)>,
)
    ensures
        replacements_of("Not"@, source, after_dot, sums) == seq![Seq::<char>::empty()],
        replacements_of("Tilde"@, source, after_dot, sums) == seq![Seq::<char>::empty()],
        replacements_of("String"@, source, after_dot, sums) == string_variants_of(source),
        replacements_of("Name"@, source, after_dot, sums) == name_swaps_of(source, after_dot),
        bumped(source, sums) matches Some(bump) ==> replacements_of(
            "Int"@,
            source,
            after_dot,
            sums,
        ) == seq![bump] && replacements_of("Float"@, source, after_dot, sums) == seq![bump],
        replacements_of("In"@, source, after_dot, sums).len() == 0,
        replacements_of("Comma"@, source, after_dot, sums).len() == 0,
{
    lemma_kinds_without_swaps();
    reveal_strlit("Not");
    reveal_strlit("Tilde");
    reveal_strlit("String");
    reveal_strlit("Name");
    reveal_strlit("Int");
    reveal_strlit("Float");
    reveal_strlit("In");
    reveal_strlit("Comma");
    assert("Not"@[0] == 'N' && "Tilde"@[0] == 'T' && "String"@[0] == 'S' && "Name"@[0] == 'N'
        && "Name"@.len() == 4 && "Not"@.len() == 3);
    assert("Int"@[0] == 'I' && "Int"@.len() == 3 && "Float"@[0] == 'F' && "In"@.len() == 2
        && "In"@[0] == 'I' && "Comma"@[0] == 'C');
}

proof fn lemma_kinds_without_swaps()
    ensures
        swaps_of("Not"@).len() == 0,
        swaps_of("Tilde"@).len() == 0,
        swaps_of("String"@).len() == 0,
        swaps_of("Name"@).len() == 0,
        swaps_of("Int"@).len() == 0,
        swaps_of("Float"@).len() == 0,
        swaps_of("In"@).len() == 0,
        swaps_of("Comma"@).len() == 0,
{
    reveal_strlit("Plus");
    reveal_strlit("Minus");
    reveal_strlit("Star");
    reveal_strlit("Slash");
    reveal_strlit("DoubleSlash");
    reveal_strlit("Percent");
    reveal_strlit("DoubleStar");
    reveal_strlit("Amper");
    reveal_strlit("Vbar");
    reveal_strlit("CircumFlex");
    reveal_strlit("LeftShift");
    reveal_strlit("RightShift");
    reveal_strlit("EqEqual");
    reveal_strlit("NotEqual");
    reveal_strlit("Less");
    reveal_strlit("LessEqual");
    reveal_strlit("Greater");
    reveal_strlit("GreaterEqual");
    reveal_strlit("And");
    reveal_strlit("Or");
    reveal_strlit("True");
    reveal_strlit("False");
    reveal_strlit("Break");
    reveal_strlit("Continue");
    reveal_strlit("Is");
    reveal_strlit("PlusEqual");
    reveal_strlit("MinusEqual");
    reveal_strlit("StarEqual");
    reveal_strlit("SlashEqual");
    reveal_strlit("DoubleSlashEqual");
    reveal_strlit("PercentEqual");
    reveal_strlit("DoubleStarEqual");
    reveal_strlit("AmperEqual");
    reveal_strlit("VbarEqual");
    reveal_strlit("CircumflexEqual");
    reveal_strlit("LeftShiftEqual");
    reveal_strlit("RightShiftEqual");
    reveal_strlit("Not");
    reveal_strlit("Tilde");
    reveal_strlit("String");
    reveal_strlit("Name");
    reveal_strlit("Int");
    reveal_strlit("Float");
    reveal_strlit("In");
    reveal_strlit("Comma");
    assert("Plus"@.len() == 4 && "Plus"@[0] == 'P' && "Plus"@[1] == 'l');
    assert("Minus"@.len() == 5 && "Minus"@[0] == 'M' && "Minus"@[1] == 'i');
    assert("Star"@.len() == 4 && "Star"@[0] == 'S' && "Star"@[1] == 't');
    assert("Slash"@.len() == 5 && "Slash"@[0] == 'S' && "Slash"@[1] == 'l');
    assert("DoubleSlash"@.len() == 11 && "DoubleSlash"@[0] == 'D' && "DoubleSlash"@[1] == 'o');
    assert("Percent"@.len() == 7 && "Percent"@[0] == 'P' && "Percent"@[1] == 'e');
    assert("DoubleStar"@.len() == 10 && "DoubleStar"@[0] == 'D' && "DoubleStar"@[1] == 'o');
    assert("Amper"@.len() == 5 && "Amper"@[0] == 'A' && "Amper"@[1] == 'm');
    assert("Vbar"@.len() == 4 && "Vbar"@[0] == 'V' && "Vbar"@[1] == 'b');
    assert("CircumFlex"@.len() == 10 && "CircumFlex"@[0] == 'C' && "CircumFlex"@[1] == 'i');
    assert("LeftShift"@.len() == 9 && "LeftShift"@[0] == 'L' && "LeftShift"@[1] == 'e');
    assert("RightShift"@.len() == 10 && "RightShift"@[0] == 'R' && "RightShift"@[1] == 'i');
    assert("EqEqual"@.len() == 7 && "EqEqual"@[0] == 'E' && "EqEqual"@[1] == 'q');
    assert("NotEqual"@.len() == 8 && "NotEqual"@[0] == 'N' && "NotEqual"@[1] == 'o');
    assert("Less"@.len() == 4 && "Less"@[0] == 'L' && "Less"@[1] == 'e');
    assert("LessEqual"@.len() == 9 && "LessEqual"@[0] == 'L' && "LessEqual"@[1] == 'e');
    assert("Greater"@.len() == 7 && "Greater"@[0] == 'G' && "Greater"@[1] == 'r');
    assert("GreaterEqual"@.len() == 12 && "GreaterEqual"@[0] == 'G' && "GreaterEqual"@[1] == 'r');
    assert("And"@.len() == 3 && "And"@[0] == 'A' && "And"@[1] == 'n');
    assert("Or"@.len() == 2 && "Or"@[0] == 'O' && "Or"@[1] == 'r');
    assert("True"@.len() == 4 && "True"@[0] == 'T' && "True"@[1] == 'r');
    assert("False"@.len() == 5 && "False"@[0] == 'F' && "False"@[1] == 'a');
    assert("Break"@.len() == 5 && "Break"@[0] == 'B' && "Break"@[1] == 'r');
    assert("Continue"@.len() == 8 && "Continue"@[0] == 'C' && "Continue"@[1] == 'o');
    assert("Is"@.len() == 2 && "Is"@[0] == 'I' && "Is"@[1] == 's');
    assert("PlusEqual"@.len() == 9 && "PlusEqual"@[0] == 'P' && "PlusEqual"@[1] == 'l');
    assert("MinusEqual"@.len() == 10 && "MinusEqual"@[0] == 'M' && "MinusEqual"@[1] == 'i');
    assert("StarEqual"@.len() == 9 && "StarEqual"@[0] == 'S' && "StarEqual"@[1] == 't');
    assert("SlashEqual"@.len() == 10 && "SlashEqual"@[0] == 'S' && "SlashEqual"@[1] == 'l');
    assert("DoubleSlashEqual"@.len() == 16 && "DoubleSlashEqual"@[0] == 'D' && "DoubleSlashEqual"@[1] == 'o');
    assert("PercentEqual"@.len() == 12 && "PercentEqual"@[0] == 'P' && "PercentEqual"@[1] == 'e');
    assert("DoubleStarEqual"@.len() == 15 && "DoubleStarEqual"@[0] == 'D' && "DoubleStarEqual"@[1] == 'o');
    assert("AmperEqual"@.len() == 10 && "AmperEqual"@[0] == 'A' && "AmperEqual"@[1] == 'm');
    assert("VbarEqual"@.len() == 9 && "VbarEqual"@[0] == 'V' && "VbarEqual"@[1] == 'b');
    assert("CircumflexEqual"@.len() == 15 && "CircumflexEqual"@[0] == 'C' && "CircumflexEqual"@[1] == 'i');
    assert("LeftShiftEqual"@.len() == 14 && "LeftShiftEqual"@[0] == 'L' && "LeftShiftEqual"@[1] == 'e');
    assert("RightShiftEqual"@.len() == 15 && "RightShiftEqual"@[0] == 'R' && "RightShiftEqual"@[1] == 'i');
    assert("Not"@.len() == 3 && "Not"@[0] == 'N' && "Not"@[1] == 'o');
    assert("Tilde"@.len() == 5 && "Tilde"@[0] == 'T' && "Tilde"@[1] == 'i');
    assert("String"@.len() == 6 && "String"@[0] == 'S' && "String"@[1] == 't');
    assert("Name"@.len() == 4 && "Name"@[0] == 'N' && "Name"@[1] == 'a');
    assert("Int"@.len() == 3 && "Int"@[0] == 'I' && "Int"@[1] == 'n');
    assert("Float"@.len() == 5 && "Float"@[0] == 'F' && "Float"@[1] == 'l');
    assert("In"@.len() == 2 && "In"@[0] == 'I' && "In"@[1] == 'n');
    assert("Comma"@.len() == 5 && "Comma"@[0] == 'C' && "Comma"@[1] == 'o');
}

/// A number depends on the table of sums exactly when it asks for one: it is no
/// integer that can be added to here, and then its sum is what the table says of
/// it without its underscores.
pub proof fn law_only_what_needs_a_sum_is_looked_up(
    number: Seq<char>,
    sums: Seq<(Seq<char>, Seq<char>)>,
    others: Seq<(Seq<char>, Seq<char>)>,
)
    ensures
        !needs_sum(number) ==> bumped(number, sums) == bumped(number, others),
        needs_sum(number) ==> bumped(number, sums) == looked_up(
            sums,
            number.filter(|c: char| c != '_'),
        ),
{
    lemma_dropping(number, '_');
}

/// The table is searched from its front: the first entry with the key decides.
pub proof fn law_the_first_entry_decides(
    entries: Seq<(Seq<char>, Seq<char>)>,
    key: Seq<char>,
    k: int,
)
    ensures
        0 <= k < entries.len() && entries[k].0 == key && (forall|j: int|
            0 <= j < k ==> (#[trigger] entries[j]).0 != key) ==> looked_up(entries, key) == Some(
            entries[k].1,
        ),
        (forall|j: int| 0 <= j < entries.len() ==> (#[trigger] entries[j]).0 != key) ==> looked_up(
            entries,
            key,
        ).is_none(),
    decreases entries.len(),
{
    if entries.len() > 0 {
        let rest = entries.drop_first();
        law_the_first_entry_decides(rest, key, k - 1);
        assert forall|j: int| 0 <= j < rest.len() implies #[trigger] rest[j] == entries[j + 1] by {}
        if (forall|j: int| 0 <= j < k ==> (#[trigger] entries[j]).0 != key) && k > 0 {
            assert forall|j: int| 0 <= j < k - 1 && j < rest.len() implies (#[trigger] rest[j]).0
                != key by {
                assert(rest[j] == entries[j + 1]);
            }
            assert(entries[0].0 != key);
        }
        if forall|j: int| 0 <= j < entries.len() ==> (#[trigger] entries[j]).0 != key {
            assert(entries[0].0 != key);
            assert forall|j: int| 0 <= j < rest.len() implies (#[trigger] rest[j]).0 != key by {
                assert(rest[j] == entries[j + 1]);
            }
        }
    }
}

/// What each operator is swapped for: arithmetic for its opposite, a comparison
/// for its neighbour and its negation, an augmented assignment like the operator
/// in it. What is not listed is not swapped.
pub proof fn law_an_operator_is_swapped_for_its_neighbours(kind: Seq<char>)
    ensures
        swaps_of("Plus"@) == seq!["-"@],
        swaps_of("Minus"@) == seq!["+"@],
        swaps_of("Star"@) == seq!["/"@],
        swaps_of("Slash"@) == seq!["*"@],
        swaps_of("DoubleSlash"@) == seq!["/"@],
        swaps_of("Percent"@) == seq!["/"@],
        swaps_of("DoubleStar"@) == seq!["*"@],
        swaps_of("Amper"@) == seq!["|"@],
        swaps_of("Vbar"@) == seq!["&"@],
        swaps_of("CircumFlex"@) == seq!["&"@],
        swaps_of("LeftShift"@) == seq![">>"@],
        swaps_of("RightShift"@) == seq!["<<"@],
        swaps_of("EqEqual"@) == seq!["!="@],
        swaps_of("NotEqual"@) == seq!["=="@],
        swaps_of("Less"@) == seq!["<="@, ">="@],
        swaps_of("LessEqual"@) == seq!["<"@, ">"@],
        swaps_of("Greater"@) == seq![">="@, "<="@],
        swaps_of("GreaterEqual"@) == seq![">"@, "<"@],
        swaps_of("And"@) == seq!["or"@],
        swaps_of("Or"@) == seq!["and"@],
        swaps_of("True"@) == seq!["False"@],
        swaps_of("False"@) == seq!["True"@],
        swaps_of("Break"@) == seq!["return"@],
        swaps_of("Continue"@) == seq!["break"@],
        swaps_of("Is"@) == seq!["is not"@],
        swaps_of("PlusEqual"@) == seq!["-="@],
        swaps_of("MinusEqual"@) == seq!["+="@],
        swaps_of("StarEqual"@) == seq!["/="@],
        swaps_of("SlashEqual"@) == seq!["*="@],
        swaps_of("DoubleSlashEqual"@) == seq!["/="@],
        swaps_of("PercentEqual"@) == seq!["/="@],
        swaps_of("DoubleStarEqual"@) == seq!["*="@],
        swaps_of("AmperEqual"@) == seq!["|="@],
        swaps_of("VbarEqual"@) == seq!["&="@],
        swaps_of("CircumflexEqual"@) == seq!["&="@],
        swaps_of("LeftShiftEqual"@) == seq![">>="@],
        swaps_of("RightShiftEqual"@) == seq!["<<="@],
        kind != "Plus"@
            && kind != "Minus"@
            && kind != "Star"@
            && kind != "Slash"@
            && kind != "DoubleSlash"@
            && kind != "Percent"@
            && kind != "DoubleStar"@
            && kind != "Amper"@
            && kind != "Vbar"@
            && kind != "CircumFlex"@
            && kind != "LeftShift"@
            && kind != "RightShift"@
            && kind != "EqEqual"@
            && kind != "NotEqual"@
            && kind != "Less"@
            && kind != "LessEqual"@
            && kind != "Greater"@
            && kind != "GreaterEqual"@
            && kind != "And"@
            && kind != "Or"@
            && kind != "True"@
            && kind != "False"@
            && kind != "Break"@
            && kind != "Continue"@
            && kind != "Is"@
            && kind != "PlusEqual"@
            && kind != "MinusEqual"@
            && kind != "StarEqual"@
            && kind != "SlashEqual"@
            && kind != "DoubleSlashEqual"@
            && kind != "PercentEqual"@
            && kind != "DoubleStarEqual"@
            && kind != "AmperEqual"@
            && kind != "VbarEqual"@
            && kind != "CircumflexEqual"@
            && kind != "LeftShiftEqual"@
            && kind != "RightShiftEqual"@ ==> swaps_of(kind).len() == 0,
{
    assert("Plus"@.len() == 4 && "Plus"@[0] == 'P' && "Plus"@[1] == 'l' && "Plus"@[2] == 'u' && "Plus"@[3] == 's') by {
        reveal_strlit("Plus");
    }
    assert("Minus"@.len() == 5 && "Minus"@[0] == 'M' && "Minus"@[1] == 'i' && "Minus"@[2] == 'n' && "Minus"@[4] == 's') by {
        reveal_strlit("Minus");
    }
    assert("Star"@.len() == 4 && "Star"@[0] == 'S' && "Star"@[1] == 't' && "Star"@[2] == 'a' && "Star"@[3] == 'r') by {
        reveal_strlit("Star");
    }
    assert("Slash"@.len() == 5 && "Slash"@[0] == 'S' && "Slash"@[1] == 'l' && "Slash"@[2] == 'a' && "Slash"@[4] == 'h') by {
        reveal_strlit("Slash");
    }
    assert("DoubleSlash"@.len() == 11 && "DoubleSlash"@[0] == 'D' && "DoubleSlash"@[1] == 'o' && "DoubleSlash"@[2] == 'u' && "DoubleSlash"@[5] == 'e' && "DoubleSlash"@[6] == 'S' && "DoubleSlash"@[10] == 'h') by {
        reveal_strlit("DoubleSlash");
    }
    assert("Percent"@.len() == 7 && "Percent"@[0] == 'P' && "Percent"@[1] == 'e' && "Percent"@[2] == 'r' && "Percent"@[5] == 'n' && "Percent"@[6] == 't') by {
        reveal_strlit("Percent");
    }
    assert("DoubleStar"@.len() == 10 && "DoubleStar"@[0] == 'D' && "DoubleStar"@[1] == 'o' && "DoubleStar"@[2] == 'u' && "DoubleStar"@[5] == 'e' && "DoubleStar"@[6] == 'S' && "DoubleStar"@[9] == 'r') by {
        reveal_strlit("DoubleStar");
    }
    assert("Amper"@.len() == 5 && "Amper"@[0] == 'A' && "Amper"@[1] == 'm' && "Amper"@[2] == 'p' && "Amper"@[4] == 'r') by {
        reveal_strlit("Amper");
    }
    assert("Vbar"@.len() == 4 && "Vbar"@[0] == 'V' && "Vbar"@[1] == 'b' && "Vbar"@[2] == 'a' && "Vbar"@[3] == 'r') by {
        reveal_strlit("Vbar");
    }
    assert("CircumFlex"@.len() == 10 && "CircumFlex"@[0] == 'C' && "CircumFlex"@[1] == 'i' && "CircumFlex"@[2] == 'r' && "CircumFlex"@[5] == 'm' && "CircumFlex"@[6] == 'F' && "CircumFlex"@[9] == 'x') by {
        reveal_strlit("CircumFlex");
    }
    assert("LeftShift"@.len() == 9 && "LeftShift"@[0] == 'L' && "LeftShift"@[1] == 'e' && "LeftShift"@[2] == 'f' && "LeftShift"@[5] == 'h' && "LeftShift"@[6] == 'i' && "LeftShift"@[8] == 't') by {
        reveal_strlit("LeftShift");
    }
    assert("RightShift"@.len() == 10 && "RightShift"@[0] == 'R' && "RightShift"@[1] == 'i' && "RightShift"@[2] == 'g' && "RightShift"@[5] == 'S' && "RightShift"@[6] == 'h' && "RightShift"@[9] == 't') by {
        reveal_strlit("RightShift");
    }
    assert("EqEqual"@.len() == 7 && "EqEqual"@[0] == 'E' && "EqEqual"@[1] == 'q' && "EqEqual"@[2] == 'E' && "EqEqual"@[5] == 'a' && "EqEqual"@[6] == 'l') by {
        reveal_strlit("EqEqual");
    }
    assert("NotEqual"@.len() == 8 && "NotEqual"@[0] == 'N' && "NotEqual"@[1] == 'o' && "NotEqual"@[2] == 't' && "NotEqual"@[5] == 'u' && "NotEqual"@[6] == 'a' && "NotEqual"@[7] == 'l') by {
        reveal_strlit("NotEqual");
    }
    assert("Less"@.len() == 4 && "Less"@[0] == 'L' && "Less"@[1] == 'e' && "Less"@[2] == 's' && "Less"@[3] == 's') by {
        reveal_strlit("Less");
    }
    assert("LessEqual"@.len() == 9 && "LessEqual"@[0] == 'L' && "LessEqual"@[1] == 'e' && "LessEqual"@[2] == 's' && "LessEqual"@[5] == 'q' && "LessEqual"@[6] == 'u' && "LessEqual"@[8] == 'l') by {
        reveal_strlit("LessEqual");
    }
    assert("Greater"@.len() == 7 && "Greater"@[0] == 'G' && "Greater"@[1] == 'r' && "Greater"@[2] == 'e' && "Greater"@[5] == 'e' && "Greater"@[6] == 'r') by {
        reveal_strlit("Greater");
    }
    assert("GreaterEqual"@.len() == 12 && "GreaterEqual"@[0] == 'G' && "GreaterEqual"@[1] == 'r' && "GreaterEqual"@[2] == 'e' && "GreaterEqual"@[5] == 'e' && "GreaterEqual"@[6] == 'r' && "GreaterEqual"@[11] == 'l') by {
        reveal_strlit("GreaterEqual");
    }
    assert("And"@.len() == 3 && "And"@[0] == 'A' && "And"@[1] == 'n' && "And"@[2] == 'd') by {
        reveal_strlit("And");
    }
    assert("Or"@.len() == 2 && "Or"@[0] == 'O' && "Or"@[1] == 'r') by {
        reveal_strlit("Or");
    }
    assert("True"@.len() == 4 && "True"@[0] == 'T' && "True"@[1] == 'r' && "True"@[2] == 'u' && "True"@[3] == 'e') by {
        reveal_strlit("True");
    }
    assert("False"@.len() == 5 && "False"@[0] == 'F' && "False"@[1] == 'a' && "False"@[2] == 'l' && "False"@[4] == 'e') by {
        reveal_strlit("False");
    }
    assert("Break"@.len() == 5 && "Break"@[0] == 'B' && "Break"@[1] == 'r' && "Break"@[2] == 'e' && "Break"@[4] == 'k') by {
        reveal_strlit("Break");
    }
    assert("Continue"@.len() == 8 && "Continue"@[0] == 'C' && "Continue"@[1] == 'o' && "Continue"@[2] == 'n' && "Continue"@[5] == 'n' && "Continue"@[6] == 'u' && "Continue"@[7] == 'e') by {
        reveal_strlit("Continue");
    }
    assert("Is"@.len() == 2 && "Is"@[0] == 'I' && "Is"@[1] == 's') by {
        reveal_strlit("Is");
    }
    assert("PlusEqual"@.len() == 9 && "PlusEqual"@[0] == 'P' && "PlusEqual"@[1] == 'l' && "PlusEqual"@[2] == 'u' && "PlusEqual"@[5] == 'q' && "PlusEqual"@[6] == 'u' && "PlusEqual"@[8] == 'l') by {
        reveal_strlit("PlusEqual");
    }
    assert("MinusEqual"@.len() == 10 && "MinusEqual"@[0] == 'M' && "MinusEqual"@[1] == 'i' && "MinusEqual"@[2] == 'n' && "MinusEqual"@[5] == 'E' && "MinusEqual"@[6] == 'q' && "MinusEqual"@[9] == 'l') by {
        reveal_strlit("MinusEqual");
    }
    assert("StarEqual"@.len() == 9 && "StarEqual"@[0] == 'S' && "StarEqual"@[1] == 't' && "StarEqual"@[2] == 'a' && "StarEqual"@[5] == 'q' && "StarEqual"@[6] == 'u' && "StarEqual"@[8] == 'l') by {
        reveal_strlit("StarEqual");
    }
    assert("SlashEqual"@.len() == 10 && "SlashEqual"@[0] == 'S' && "SlashEqual"@[1] == 'l' && "SlashEqual"@[2] == 'a' && "SlashEqual"@[5] == 'E' && "SlashEqual"@[6] == 'q' && "SlashEqual"@[9] == 'l') by {
        reveal_strlit("SlashEqual");
    }
    assert("DoubleSlashEqual"@.len() == 16 && "DoubleSlashEqual"@[0] == 'D' && "DoubleSlashEqual"@[1] == 'o' && "DoubleSlashEqual"@[2] == 'u' && "DoubleSlashEqual"@[5] == 'e' && "DoubleSlashEqual"@[6] == 'S' && "DoubleSlashEqual"@[15] == 'l') by {
        reveal_strlit("DoubleSlashEqual");
    }
    assert("PercentEqual"@.len() == 12 && "PercentEqual"@[0] == 'P' && "PercentEqual"@[1] == 'e' && "PercentEqual"@[2] == 'r' && "PercentEqual"@[5] == 'n' && "PercentEqual"@[6] == 't' && "PercentEqual"@[11] == 'l') by {
        reveal_strlit("PercentEqual");
    }
    assert("DoubleStarEqual"@.len() == 15 && "DoubleStarEqual"@[0] == 'D' && "DoubleStarEqual"@[1] == 'o' && "DoubleStarEqual"@[2] == 'u' && "DoubleStarEqual"@[5] == 'e' && "DoubleStarEqual"@[6] == 'S' && "DoubleStarEqual"@[14] == 'l') by {
        reveal_strlit("DoubleStarEqual");
    }
    assert("AmperEqual"@.len() == 10 && "AmperEqual"@[0] == 'A' && "AmperEqual"@[1] == 'm' && "AmperEqual"@[2] == 'p' && "AmperEqual"@[5] == 'E' && "AmperEqual"@[6] == 'q' && "AmperEqual"@[9] == 'l') by {
        reveal_strlit("AmperEqual");
    }
    assert("VbarEqual"@.len() == 9 && "VbarEqual"@[0] == 'V' && "VbarEqual"@[1] == 'b' && "VbarEqual"@[2] == 'a' && "VbarEqual"@[5] == 'q' && "VbarEqual"@[6] == 'u' && "VbarEqual"@[8] == 'l') by {
        reveal_strlit("VbarEqual");
    }
    assert("CircumflexEqual"@.len() == 15 && "CircumflexEqual"@[0] == 'C' && "CircumflexEqual"@[1] == 'i' && "CircumflexEqual"@[2] == 'r' && "CircumflexEqual"@[5] == 'm' && "CircumflexEqual"@[6] == 'f' && "CircumflexEqual"@[14] == 'l') by {
        reveal_strlit("CircumflexEqual");
    }
    assert("LeftShiftEqual"@.len() == 14 && "LeftShiftEqual"@[0] == 'L' && "LeftShiftEqual"@[1] == 'e' && "LeftShiftEqual"@[2] == 'f' && "LeftShiftEqual"@[5] == 'h' && "LeftShiftEqual"@[6] == 'i' && "LeftShiftEqual"@[13] == 'l') by {
        reveal_strlit("LeftShiftEqual");
    }
    assert("RightShiftEqual"@.len() == 15 && "RightShiftEqual"@[0] == 'R' && "RightShiftEqual"@[1] == 'i' && "RightShiftEqual"@[2] == 'g' && "RightShiftEqual"@[5] == 'S' && "RightShiftEqual"@[6] == 'h' && "RightShiftEqual"@[14] == 'l') by {
        reveal_strlit("RightShiftEqual");
    }
}

} // verus!

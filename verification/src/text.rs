//! Text as a sequence of characters, and the few operations on it that the
//! rest of the library is written with.
//!
//! Offsets into a source file are byte offsets, because that is what the
//! parser and the database speak. `slice` and `splice` are the two places
//! where a byte offset meets a character.

use vstd::prelude::*;
use vstd::utf8::*;

verus! {

broadcast use {vstd::seq_lib::group_seq_properties, vstd::utf8::group_utf8_lib};

/// `String::push`: appends the character to the end of the string.
pub assume_specification[ String::push ](s: &mut String, c: char)
    ensures
        final(s)@ == old(s)@.push(c),
;

/// How many bytes the text takes in UTF-8.
pub open spec fn width(s: Seq<char>) -> nat {
    encode_utf8(s).len()
}

/// Two texts with the same UTF-8 bytes are the same text.
pub proof fn lemma_same_bytes(a: Seq<char>, b: Seq<char>)
    requires
        encode_utf8(a) == encode_utf8(b),
    ensures
        a == b,
{
    encode_utf8_decode_utf8(a);
    encode_utf8_decode_utf8(b);
}

/// Whether two texts are the same.
pub fn same(a: &str, b: &str) -> (equal: bool)
    ensures
        equal == (a@ == b@),
{
    let left: &[u8] = a.as_bytes();
    let right: &[u8] = b.as_bytes();
    if left.len() != right.len() {
        return false;
    }
    let mut at: usize = 0;
    while at < left.len()
        invariant
            at <= left@.len(),
            left@.len() == right@.len(),
            left@ == encode_utf8(a@),
            right@ == encode_utf8(b@),
            left@.subrange(0, at as int) =~= right@.subrange(0, at as int),
        decreases left@.len() - at,
    {
        if left[at] != right[at] {
            return false;
        }
        assert(left@.subrange(0, at + 1) =~= left@.subrange(0, at as int).push(left@[at as int]));
        assert(right@.subrange(0, at + 1) =~= right@.subrange(0, at as int).push(right@[at as int]));
        at += 1;
    }
    proof {
        assert(left@ =~= left@.subrange(0, at as int));
        assert(right@ =~= right@.subrange(0, at as int));
        lemma_same_bytes(a@, b@);
    }
    true
}

/// The characters of a text.
pub fn chars_of(s: &str) -> (chars: Vec<char>)
    ensures
        chars@ == s@,
{
    let mut chars: Vec<char> = Vec::new();
    for c in it: s.chars()
        invariant
            chars@ =~= s@.subrange(0, it.index() as int),
            it.seq() == s@,
    {
        chars.push(c);
    }
    chars
}

/// The text these characters spell.
pub fn text_of(chars: &[char]) -> (s: String)
    ensures
        s@ == chars@,
{
    let mut s: String = String::new();
    let mut at: usize = 0;
    while at < chars.len()
        invariant
            at <= chars@.len(),
            s@ =~= chars@.subrange(0, at as int),
        decreases chars@.len() - at,
    {
        s.push(chars[at]);
        at += 1;
    }
    assert(chars@ =~= chars@.subrange(0, at as int));
    s
}

/// A copy of the text.
pub fn owned(s: &str) -> (copy: String)
    ensures
        copy@ == s@,
{
    s.to_owned()
}

/// The text `s` holds between two byte offsets, when both are character
/// boundaries inside it.
pub open spec fn sliced(s: Seq<char>, start: int, end: int) -> Option<Seq<char>> {
    let bytes = encode_utf8(s);
    if 0 <= start <= end <= bytes.len() && is_char_boundary(bytes, start) && is_char_boundary(
        bytes,
        end,
    ) {
        Some(decode_utf8(bytes.subrange(start, end)))
    } else {
        None
    }
}

pub proof fn lemma_boundary_in_suffix(bytes: Seq<u8>, mid: int, at: int)
    requires
        valid_utf8(bytes),
        0 <= mid <= at <= bytes.len(),
        is_char_boundary(bytes, mid),
    ensures
        is_char_boundary(bytes.subrange(mid, bytes.len() as int), at - mid) == is_char_boundary(
            bytes,
            at,
        ),
    decreases bytes.len(),
{
    let rest = bytes.subrange(mid, bytes.len() as int);
    valid_utf8_split(bytes, mid);
    assert(valid_utf8(rest));
    if at == bytes.len() {
        is_char_boundary_start_end_of_seq(bytes);
        is_char_boundary_start_end_of_seq(rest);
    } else {
        is_char_boundary_iff_not_is_continuation_byte(bytes, at);
        is_char_boundary_iff_not_is_continuation_byte(rest, at - mid);
        assert(rest[at - mid] == bytes[at]);
    }
}

/// The text between two byte offsets, or nothing when they do not cut `s` at
/// character boundaries.
pub fn slice(s: &str, start: usize, end: usize) -> (part: Option<&str>)
    ensures
        part.is_some() == sliced(s@, start as int, end as int).is_some(),
        part.is_some() ==> part.unwrap()@ == sliced(s@, start as int, end as int).unwrap(),
{
    let bytes: &[u8] = s.as_bytes();
    if start > end || end > bytes.len() || !s.is_char_boundary(start) || !s.is_char_boundary(end) {
        return None;
    }
    let (_, tail) = s.split_at(start);
    proof {
        lemma_boundary_in_suffix(encode_utf8(s@), start as int, end as int);
    }
    let (middle, _) = tail.split_at(end - start);
    proof {
        let all = encode_utf8(s@);
        assert(encode_utf8(middle@) =~= all.subrange(start as int, end as int));
        encode_utf8_decode_utf8(middle@);
    }
    Some(middle)
}

/// The text with the bytes between two offsets replaced.
pub open spec fn spliced(s: Seq<char>, start: int, end: int, with: Seq<char>) -> Seq<char> {
    sliced(s, 0, start).unwrap() + with + sliced(s, end, width(s) as int).unwrap()
}

pub proof fn lemma_encode_concat(a: Seq<char>, b: Seq<char>)
    ensures
        encode_utf8(a + b) == encode_utf8(a) + encode_utf8(b),
    decreases a.len(),
{
    if a.len() == 0 {
        assert(a + b =~= b);
        assert(encode_utf8(a) =~= Seq::<u8>::empty());
        assert(encode_utf8(a) + encode_utf8(b) =~= encode_utf8(b));
    } else {
        assert((a + b).drop_first() =~= a.drop_first() + b);
        lemma_encode_concat(a.drop_first(), b);
        assert(encode_utf8(a + b) =~= encode_utf8(a) + encode_utf8(b));
    }
}

/// Cutting a text at a character boundary gives two texts that make it up.
pub proof fn lemma_cut(s: Seq<char>, at: int)
    requires
        0 <= at <= width(s),
        is_char_boundary(encode_utf8(s), at),
    ensures
        sliced(s, 0, at).is_some(),
        sliced(s, at, width(s) as int).is_some(),
        s == sliced(s, 0, at).unwrap() + sliced(s, at, width(s) as int).unwrap(),
        encode_utf8(sliced(s, 0, at).unwrap()) == encode_utf8(s).subrange(0, at),
        encode_utf8(sliced(s, at, width(s) as int).unwrap()) == encode_utf8(s).subrange(
            at,
            width(s) as int,
        ),
{
    let bytes = encode_utf8(s);
    encode_utf8_valid_utf8(s);
    is_char_boundary_start_end_of_seq(bytes);
    valid_utf8_split(bytes, at);
    decode_utf8_split(bytes, at);
    encode_utf8_decode_utf8(s);
    decode_utf8_encode_utf8(bytes.subrange(0, at));
    decode_utf8_encode_utf8(bytes.subrange(at, bytes.len() as int));
}

/// A splice, byte by byte: what stood before the range and what stood after it
/// is there unchanged, and between them is the replacement.
pub proof fn lemma_spliced_bytes(s: Seq<char>, start: int, end: int, with: Seq<char>)
    requires
        sliced(s, start, end).is_some(),
    ensures
        encode_utf8(spliced(s, start, end, with)) == encode_utf8(s).subrange(0, start)
            + encode_utf8(with) + encode_utf8(s).subrange(end, width(s) as int),
{
    lemma_cut(s, start);
    lemma_cut(s, end);
    let before = sliced(s, 0, start).unwrap();
    let after = sliced(s, end, width(s) as int).unwrap();
    lemma_encode_concat(before, with);
    lemma_encode_concat(before + with, after);
}

/// Replaces the bytes between two offsets.
pub fn splice(s: &str, start: usize, end: usize, with: &str) -> (out: String)
    requires
        sliced(s@, start as int, end as int).is_some(),
    ensures
        out@ == spliced(s@, start as int, end as int, with@),
{
    let (before, _) = s.split_at(start);
    let (_, after) = s.split_at(end);
    proof {
        lemma_cut(s@, start as int);
        lemma_cut(s@, end as int);
        lemma_same_bytes(before@, sliced(s@, 0, start as int).unwrap());
        lemma_same_bytes(after@, sliced(s@, end as int, width(s@) as int).unwrap());
    }
    let mut out: String = before.to_owned();
    out.append(with);
    out.append(after);
    out
}

/// The characters Unicode calls white space.
pub open spec fn is_space_spec(c: char) -> bool {
    let code = c as u32;
    ||| 9 <= code <= 13
    ||| code == 32
    ||| code == 0x85
    ||| code == 0xa0
    ||| code == 0x1680
    ||| 0x2000 <= code <= 0x200a
    ||| code == 0x2028
    ||| code == 0x2029
    ||| code == 0x202f
    ||| code == 0x205f
    ||| code == 0x3000
}

pub fn is_space(c: char) -> (yes: bool)
    ensures
        yes == is_space_spec(c),
{
    let code: u32 = c as u32;
    (9 <= code && code <= 13) || code == 32 || code == 0x85 || code == 0xa0 || code == 0x1680 || (
    0x2000 <= code && code <= 0x200a) || code == 0x2028 || code == 0x2029 || code == 0x202f || code
        == 0x205f || code == 0x3000
}

/// Whether `needle` stands in `s` at the given character.
pub open spec fn occurs_at(s: Seq<char>, needle: Seq<char>, at: int) -> bool {
    0 <= at && at + needle.len() <= s.len() && s.subrange(at, at + needle.len()) == needle
}

/// Whether `needle` stands anywhere in `s`.
pub open spec fn occurs(s: Seq<char>, needle: Seq<char>) -> bool {
    exists|at: int| occurs_at(s, needle, at)
}

/// The first character at or after `from` where `needle` stands in `s`.
pub open spec fn found(s: Seq<char>, needle: Seq<char>, from: int) -> Option<int>
    decreases s.len() + 1 - from,
{
    if from + needle.len() > s.len() {
        None
    } else if occurs_at(s, needle, from) {
        Some(from)
    } else {
        found(s, needle, from + 1)
    }
}

pub proof fn lemma_found(s: Seq<char>, needle: Seq<char>, from: int)
    requires
        0 <= from,
    ensures
        found(s, needle, from) matches Some(at) ==> from <= at && occurs_at(s, needle, at)
            && forall|j: int| from <= j < at ==> !occurs_at(s, needle, j),
        found(s, needle, from).is_none() ==> forall|j: int|
            from <= j ==> !occurs_at(s, needle, j),
    decreases s.len() + 1 - from,
{
    if from + needle.len() > s.len() || occurs_at(s, needle, from) {
    } else {
        lemma_found(s, needle, from + 1);
    }
}

pub fn stands_at(s: &[char], needle: &[char], at: usize) -> (yes: bool)
    ensures
        yes == occurs_at(s@, needle@, at as int),
{
    if needle.len() > s.len() || at > s.len() - needle.len() {
        return false;
    }
    let total: usize = s.len();
    let mut k: usize = 0;
    while k < needle.len()
        invariant
            k <= needle@.len(),
            at + needle@.len() <= total == s@.len(),
            forall|j: int| 0 <= j < k ==> s@[at + j] == needle@[j],
        decreases needle@.len() - k,
    {
        if s[at + k] != needle[k] {
            assert(s@.subrange(at as int, at + needle@.len())[k as int] != needle@[k as int]);
            return false;
        }
        k += 1;
    }
    assert(s@.subrange(at as int, at + needle@.len()) =~= needle@);
    true
}

pub fn find(s: &[char], needle: &[char], from: usize) -> (at: Option<usize>)
    requires
        from <= s@.len(),
    ensures
        at.is_some() == found(s@, needle@, from as int).is_some(),
        at.is_some() ==> at.unwrap() == found(s@, needle@, from as int).unwrap(),
{
    if needle.len() > s.len() {
        return None;
    }
    let last: usize = s.len() - needle.len();
    let mut at: usize = from;
    while at <= last
        invariant
            from <= at <= s@.len() + 1,
            last == s@.len() - needle@.len(),
            s@.len() < usize::MAX || at <= s@.len(),
            found(s@, needle@, from as int) == found(s@, needle@, at as int),
        decreases s@.len() + 1 - at,
    {
        if stands_at(s, needle, at) {
            return Some(at);
        }
        if at == last {
            assert(found(s@, needle@, at + 1).is_none());
            return None;
        }
        at += 1;
    }
    None
}

/// Whether one text stands anywhere in another.
pub fn contains(s: &str, needle: &str) -> (yes: bool)
    ensures
        yes == occurs(s@, needle@),
{
    let chars: Vec<char> = chars_of(s);
    let wanted: Vec<char> = chars_of(needle);
    let at: Option<usize> = find(&chars, &wanted, 0);
    proof {
        lemma_found(s@, needle@, 0);
        if at.is_some() {
            assert(occurs_at(s@, needle@, at.unwrap() as int));
        }
    }
    at.is_some()
}

pub open spec fn begins(s: Seq<char>, prefix: Seq<char>) -> bool {
    occurs_at(s, prefix, 0)
}

pub open spec fn ends(s: Seq<char>, suffix: Seq<char>) -> bool {
    occurs_at(s, suffix, s.len() - suffix.len())
}

/// What follows the prefix, or the whole text when it does not begin with it.
pub open spec fn without_prefix(s: Seq<char>, prefix: Seq<char>) -> Seq<char> {
    if begins(s, prefix) {
        s.subrange(prefix.len() as int, s.len() as int)
    } else {
        s
    }
}

/// What comes before the suffix, or the whole text when it does not end with it.
pub open spec fn without_suffix(s: Seq<char>, suffix: Seq<char>) -> Seq<char> {
    if ends(s, suffix) {
        s.subrange(0, s.len() - suffix.len())
    } else {
        s
    }
}

pub fn starts_with(s: &str, prefix: &str) -> (yes: bool)
    ensures
        yes == begins(s@, prefix@),
{
    let chars: Vec<char> = chars_of(s);
    let wanted: Vec<char> = chars_of(prefix);
    stands_at(&chars, &wanted, 0)
}

pub fn ends_with(s: &str, suffix: &str) -> (yes: bool)
    ensures
        yes == ends(s@, suffix@),
{
    let chars: Vec<char> = chars_of(s);
    let wanted: Vec<char> = chars_of(suffix);
    if wanted.len() > chars.len() {
        return false;
    }
    stands_at(&chars, &wanted, chars.len() - wanted.len())
}

/// The characters from one index up to another, as a text.
pub fn part_of(chars: &[char], start: usize, end: usize) -> (s: String)
    requires
        start <= end <= chars@.len(),
    ensures
        s@ == chars@.subrange(start as int, end as int),
{
    let mut s: String = String::new();
    let mut at: usize = start;
    while at < end
        invariant
            start <= at <= end <= chars@.len(),
            s@ =~= chars@.subrange(start as int, at as int),
        decreases end - at,
    {
        s.push(chars[at]);
        at += 1;
    }
    s
}

pub fn strip_prefix(s: &str, prefix: &str) -> (rest: Option<String>)
    ensures
        rest.is_some() == begins(s@, prefix@),
        rest.is_some() ==> rest.unwrap()@ == without_prefix(s@, prefix@),
{
    let chars: Vec<char> = chars_of(s);
    let wanted: Vec<char> = chars_of(prefix);
    if stands_at(&chars, &wanted, 0) {
        Some(part_of(&chars, wanted.len(), chars.len()))
    } else {
        None
    }
}

pub fn strip_suffix(s: &str, suffix: &str) -> (rest: Option<String>)
    ensures
        rest.is_some() == ends(s@, suffix@),
        rest.is_some() ==> rest.unwrap()@ == without_suffix(s@, suffix@),
{
    let chars: Vec<char> = chars_of(s);
    let wanted: Vec<char> = chars_of(suffix);
    if wanted.len() <= chars.len() && stands_at(&chars, &wanted, chars.len() - wanted.len()) {
        Some(part_of(&chars, 0, chars.len() - wanted.len()))
    } else {
        None
    }
}

/// The pieces of a text between separators: a separator opens a new piece, any
/// other character belongs to the last one.
pub open spec fn split_on(s: Seq<char>, separator: char) -> Seq<Seq<char>>
    decreases s.len(),
{
    if s.len() == 0 {
        seq![Seq::<char>::empty()]
    } else {
        let before = split_on(s.drop_last(), separator);
        if s.last() == separator {
            before.push(Seq::<char>::empty())
        } else {
            before.drop_last().push(before.last().push(s.last()))
        }
    }
}

pub proof fn lemma_split_is_not_empty(s: Seq<char>, separator: char)
    ensures
        split_on(s, separator).len() > 0,
    decreases s.len(),
{
    if s.len() > 0 {
        lemma_split_is_not_empty(s.drop_last(), separator);
    }
}

/// What a list of strings says.
pub open spec fn texts(list: Seq<String>) -> Seq<Seq<char>> {
    list.map_values(|s: String| s@)
}

/// The pieces of a text between separators.
pub fn split(s: &str, separator: char) -> (pieces: Vec<String>)
    ensures
        texts(pieces@) == split_on(s@, separator),
{
    let chars: Vec<char> = chars_of(s);
    let mut pieces: Vec<String> = Vec::new();
    let mut current: String = String::new();
    let mut at: usize = 0;
    while at < chars.len()
        invariant
            at <= chars@.len(),
            chars@ == s@,
            texts(pieces@).push(current@) =~= split_on(s@.subrange(0, at as int), separator),
        decreases chars@.len() - at,
    {
        let c: char = chars[at];
        let ghost before = texts(pieces@).push(current@);
        assert(s@.subrange(0, at + 1).drop_last() =~= s@.subrange(0, at as int));
        assert(s@.subrange(0, at + 1).last() == c);
        if c == separator {
            pieces.push(current);
            current = String::new();
            assert(texts(pieces@) =~= before);
        } else {
            assert(before.drop_last() =~= texts(pieces@));
            assert(before.last() == current@);
            current.push(c);
        }
        at += 1;
    }
    assert(s@.subrange(0, at as int) =~= s@);
    let ghost before = texts(pieces@).push(current@);
    pieces.push(current);
    assert(texts(pieces@) =~= before);
    pieces
}

/// The first separator, and what stands on either side of it.
pub open spec fn halves(s: Seq<char>, separator: char) -> Option<(Seq<char>, Seq<char>)> {
    match found(s, seq![separator], 0) {
        Some(at) => Some((s.subrange(0, at), s.subrange(at + 1, s.len() as int))),
        None => None,
    }
}

pub fn split_once(s: &str, separator: char) -> (pair: Option<(String, String)>)
    ensures
        pair.is_some() == halves(s@, separator).is_some(),
        pair.is_some() ==> pair.unwrap().0@ == halves(s@, separator).unwrap().0
            && pair.unwrap().1@ == halves(s@, separator).unwrap().1,
{
    let chars: Vec<char> = chars_of(s);
    let mut wanted: Vec<char> = Vec::new();
    wanted.push(separator);
    assert(wanted@ =~= seq![separator]);
    proof {
        lemma_found(s@, seq![separator], 0);
    }
    match find(&chars, &wanted, 0) {
        Some(at) => {
            let total: usize = chars.len();
            assert(at < total);
            Some((part_of(&chars, 0, at), part_of(&chars, at + 1, total)))
        },
        None => None,
    }
}

pub open spec fn without_return(line: Seq<char>) -> Seq<char> {
    if line.len() > 0 && line.last() == '\r' {
        line.drop_last()
    } else {
        line
    }
}

/// The lines of a text. A line ends at a newline, which may have a carriage
/// return in front of it; what follows the last newline is a line only when
/// there is something there.
pub open spec fn lines_of(s: Seq<char>) -> Seq<Seq<char>> {
    let pieces = split_on(s, '\n');
    let ended = pieces.drop_last().map_values(|line: Seq<char>| without_return(line));
    if pieces.last().len() == 0 {
        ended
    } else {
        ended.push(pieces.last())
    }
}

pub fn lines(s: &str) -> (list: Vec<String>)
    ensures
        texts(list@) == lines_of(s@),
{
    let pieces: Vec<String> = split(s, '\n');
    proof {
        lemma_split_is_not_empty(s@, '\n');
    }
    let ghost whole = split_on(s@, '\n');
    assert(texts(pieces@).len() == pieces@.len());
    let last: usize = pieces.len() - 1;
    let mut list: Vec<String> = Vec::new();
    let mut at: usize = 0;
    while at < last
        invariant
            at <= last < pieces@.len(),
            whole == texts(pieces@),
            list@.len() == at,
            forall|k: int| 0 <= k < at ==> #[trigger] list@[k]@ == without_return(whole[k]),
        decreases last - at,
    {
        let line: Vec<char> = chars_of(&pieces[at]);
        assert(whole[at as int] == line@);
        let kept: String = if line.len() > 0 && line[line.len() - 1] == '\r' {
            part_of(&line, 0, line.len() - 1)
        } else {
            text_of(&line)
        };
        assert(kept@ =~= without_return(line@));
        list.push(kept);
        at += 1;
    }
    assert(texts(list@) =~= whole.drop_last().map_values(
        |line: Seq<char>| without_return(line),
    ));
    assert(whole.last() == pieces@[at as int]@);
    if !pieces[at].as_str().is_empty() {
        list.push(pieces[at].clone());
    }
    assert(texts(list@) =~= lines_of(s@));
    list
}

/// The words of a text: the runs of characters that are not white space.
pub open spec fn words_of(s: Seq<char>) -> Seq<Seq<char>>
    decreases s.len(),
{
    if s.len() == 0 {
        Seq::empty()
    } else {
        let before = words_of(s.drop_last());
        if is_space_spec(s.last()) {
            before
        } else if s.len() > 1 && !is_space_spec(s[s.len() - 2]) {
            before.drop_last().push(before.last().push(s.last()))
        } else {
            before.push(seq![s.last()])
        }
    }
}

pub fn words(s: &str) -> (list: Vec<String>)
    ensures
        texts(list@) == words_of(s@),
{
    let chars: Vec<char> = chars_of(s);
    let mut list: Vec<String> = Vec::new();
    let mut current: String = String::new();
    let mut at: usize = 0;
    while at < chars.len()
        invariant
            at <= chars@.len(),
            chars@ == s@,
            (current@.len() > 0) == (at > 0 && !is_space_spec(s@[at - 1])),
            words_of(s@.subrange(0, at as int)) =~= if current@.len() > 0 {
                texts(list@).push(current@)
            } else {
                texts(list@)
            },
        decreases chars@.len() - at,
    {
        let c: char = chars[at];
        let ghost before = words_of(s@.subrange(0, at as int));
        assert(s@.subrange(0, at + 1).drop_last() =~= s@.subrange(0, at as int));
        assert(s@.subrange(0, at + 1).last() == c);
        if is_space(c) {
            if !current.as_str().is_empty() {
                list.push(current);
                current = String::new();
                assert(texts(list@) =~= before);
            }
        } else {
            assert(current@.len() > 0 ==> before.drop_last() =~= texts(list@));
            current.push(c);
            assert(current@.len() == 1 ==> current@ =~= seq![c]);
        }
        at += 1;
    }
    assert(s@.subrange(0, at as int) =~= s@);
    if !current.as_str().is_empty() {
        let ghost before = texts(list@).push(current@);
        list.push(current);
        assert(texts(list@) =~= before);
    }
    list
}

pub open spec fn trimmed_start(s: Seq<char>) -> Seq<char>
    decreases s.len(),
{
    if s.len() > 0 && is_space_spec(s[0]) {
        trimmed_start(s.drop_first())
    } else {
        s
    }
}

pub open spec fn trimmed_end(s: Seq<char>) -> Seq<char>
    decreases s.len(),
{
    if s.len() > 0 && is_space_spec(s.last()) {
        trimmed_end(s.drop_last())
    } else {
        s
    }
}

pub open spec fn trimmed(s: Seq<char>) -> Seq<char> {
    trimmed_end(trimmed_start(s))
}

pub fn trim_start(s: &str) -> (rest: String)
    ensures
        rest@ == trimmed_start(s@),
{
    let chars: Vec<char> = chars_of(s);
    let mut at: usize = 0;
    assert(s@.subrange(0, s@.len() as int) =~= s@);
    while at < chars.len() && is_space(chars[at])
        invariant
            at <= chars@.len(),
            chars@ == s@,
            trimmed_start(s@) == trimmed_start(s@.subrange(at as int, s@.len() as int)),
        decreases chars@.len() - at,
    {
        assert(s@.subrange(at as int, s@.len() as int).drop_first() =~= s@.subrange(
            at + 1,
            s@.len() as int,
        ));
        at += 1;
    }
    part_of(&chars, at, chars.len())
}

pub fn trim_end(s: &str) -> (rest: String)
    ensures
        rest@ == trimmed_end(s@),
{
    let chars: Vec<char> = chars_of(s);
    let mut end: usize = chars.len();
    assert(s@.subrange(0, end as int) =~= s@);
    while end > 0 && is_space(chars[end - 1])
        invariant
            end <= chars@.len(),
            chars@ == s@,
            trimmed_end(s@) == trimmed_end(s@.subrange(0, end as int)),
        decreases end,
    {
        assert(s@.subrange(0, end as int).drop_last() =~= s@.subrange(0, end - 1));
        end -= 1;
    }
    part_of(&chars, 0, end)
}

pub fn trim(s: &str) -> (rest: String)
    ensures
        rest@ == trimmed(s@),
{
    trim_end(&trim_start(s))
}

/// Every piece in order, with the separator between two of them.
pub open spec fn joined(pieces: Seq<Seq<char>>, separator: Seq<char>) -> Seq<char>
    decreases pieces.len(),
{
    if pieces.len() == 0 {
        Seq::empty()
    } else if pieces.len() == 1 {
        pieces[0]
    } else {
        joined(pieces.drop_last(), separator) + separator + pieces.last()
    }
}

/// A joined text, its first piece apart from the rest.
pub proof fn lemma_joined_from_front(pieces: Seq<Seq<char>>, separator: Seq<char>)
    requires
        pieces.len() > 1,
    ensures
        joined(pieces, separator) == pieces[0] + separator + joined(
            pieces.drop_first(),
            separator,
        ),
    decreases pieces.len(),
{
    let rest = pieces.drop_first();
    if pieces.len() == 2 {
        assert(pieces.drop_last().len() == 1);
        assert(joined(pieces.drop_last(), separator) == pieces[0]);
        assert(joined(rest, separator) == pieces[1]);
    } else {
        lemma_joined_from_front(pieces.drop_last(), separator);
        assert(pieces.drop_last().drop_first() =~= rest.drop_last());
        assert(rest.last() == pieces.last());
        assert(joined(pieces, separator) =~= pieces[0] + separator + joined(rest, separator));
    }
}

pub fn join(pieces: &[String], separator: &str) -> (s: String)
    ensures
        s@ == joined(texts(pieces@), separator@),
{
    let mut s: String = String::new();
    let mut at: usize = 0;
    while at < pieces.len()
        invariant
            at <= pieces@.len(),
            s@ =~= joined(texts(pieces@).subrange(0, at as int), separator@),
        decreases pieces@.len() - at,
    {
        let ghost so_far = texts(pieces@).subrange(0, at as int);
        assert(texts(pieces@).subrange(0, at + 1).drop_last() =~= so_far);
        assert(texts(pieces@).subrange(0, at + 1).last() == pieces@[at as int]@);
        if at > 0 {
            s.append(separator);
        }
        s.append(&pieces[at]);
        at += 1;
    }
    assert(texts(pieces@).subrange(0, at as int) =~= texts(pieces@));
    s
}

/// Every character `from` made into `to`.
pub open spec fn with_char(s: Seq<char>, from: char, to: char) -> Seq<char> {
    s.map_values(|c: char| if c == from { to } else { c })
}

pub fn replace_char(s: &str, from: char, to: char) -> (out: String)
    ensures
        out@ == with_char(s@, from, to),
{
    let chars: Vec<char> = chars_of(s);
    let mut out: String = String::new();
    let mut at: usize = 0;
    while at < chars.len()
        invariant
            at <= chars@.len(),
            chars@ == s@,
            out@ =~= with_char(s@, from, to).subrange(0, at as int),
        decreases chars@.len() - at,
    {
        out.push(if chars[at] == from { to } else { chars[at] });
        at += 1;
    }
    assert(with_char(s@, from, to).subrange(0, at as int) =~= with_char(s@, from, to));
    out
}

/// Every occurrence of `from`, read from the left and never overlapping, made
/// into `to`.
pub open spec fn with_all(s: Seq<char>, from: Seq<char>, to: Seq<char>) -> Seq<char>
    decreases s.len(),
{
    if from.len() == 0 || s.len() < from.len() {
        s
    } else if begins(s, from) {
        to + with_all(s.subrange(from.len() as int, s.len() as int), from, to)
    } else {
        seq![s[0]] + with_all(s.drop_first(), from, to)
    }
}

pub fn replace(s: &str, from: &str, to: &str) -> (out: String)
    requires
        from@.len() > 0,
    ensures
        out@ == with_all(s@, from@, to@),
{
    let chars: Vec<char> = chars_of(s);
    let wanted: Vec<char> = chars_of(from);
    let mut out: String = String::new();
    let mut at: usize = 0;
    assert(s@.subrange(0, s@.len() as int) =~= s@);
    while at < chars.len()
        invariant
            at <= chars@.len(),
            chars@ == s@,
            wanted@ == from@,
            from@.len() > 0,
            with_all(s@, from@, to@) =~= out@ + with_all(
                s@.subrange(at as int, s@.len() as int),
                from@,
                to@,
            ),
        decreases chars@.len() - at,
    {
        let ghost rest = s@.subrange(at as int, s@.len() as int);
        let here: bool = stands_at(&chars, &wanted, at);
        assert(here == begins(rest, from@)) by {
            if at + from@.len() <= s@.len() {
                assert(rest.subrange(0, from@.len() as int) =~= s@.subrange(
                    at as int,
                    at + from@.len(),
                ));
            }
        }
        if here {
            out.append(to);
            assert(rest.subrange(from@.len() as int, rest.len() as int) =~= s@.subrange(
                at + from@.len(),
                s@.len() as int,
            ));
            at += wanted.len();
        } else {
            let ghost done = out@;
            out.push(chars[at]);
            assert(rest.drop_first() =~= s@.subrange(at + 1, s@.len() as int));
            assert(out@ =~= done + seq![rest[0]]);
            proof {
                if rest.len() < from@.len() {
                    assert(rest =~= seq![rest[0]] + rest.drop_first());
                }
            }
            at += 1;
        }
    }
    assert(s@.subrange(at as int, s@.len() as int) =~= Seq::<char>::empty());
    out
}

/// The character for a digit.
pub open spec fn digit(n: nat) -> char {
    (('0' as u32) + n) as char
}

/// A number in decimal, without leading zeros.
pub open spec fn decimal(n: nat) -> Seq<char>
    decreases n,
{
    if n < 10 {
        seq![digit(n)]
    } else {
        decimal(n / 10).push(digit(n % 10))
    }
}

/// A number in decimal, with a minus sign when it is below zero.
pub open spec fn signed(n: int) -> Seq<char> {
    if n < 0 {
        seq!['-'] + decimal((-n) as nat)
    } else {
        decimal(n as nat)
    }
}

pub fn digit_char(n: u8) -> (c: char)
    requires
        n < 10,
    ensures
        c == digit(n as nat),
{
    (48 + n) as char
}

pub fn show_u128(n: u128) -> (s: String)
    ensures
        s@ == decimal(n as nat),
    decreases n,
{
    let mut s: String = if n < 10 {
        String::new()
    } else {
        show_u128(n / 10)
    };
    s.push(digit_char((n % 10) as u8));
    assert(s@ =~= decimal(n as nat));
    s
}

pub fn show(n: u64) -> (s: String)
    ensures
        s@ == decimal(n as nat),
{
    show_u128(n as u128)
}

pub fn show_size(n: usize) -> (s: String)
    ensures
        s@ == decimal(n as nat),
{
    show_u128(n as u128)
}

pub fn show_i64(n: i64) -> (s: String)
    ensures
        s@ == signed(n as int),
{
    if n < 0 {
        let mut s: String = String::new();
        s.push('-');
        let size: u128 = (-(n as i128)) as u128;
        s.append(&show_u128(size));
        assert(s@ =~= signed(n as int));
        s
    } else {
        show_u128(n as u128)
    }
}

/// Whether `a` comes before `b`: at the first character where they differ, or
/// because it ends first.
pub open spec fn before(a: Seq<char>, b: Seq<char>) -> bool
    decreases a.len(),
{
    if b.len() == 0 {
        false
    } else if a.len() == 0 {
        true
    } else if a[0] != b[0] {
        a[0] < b[0]
    } else {
        before(a.drop_first(), b.drop_first())
    }
}

pub fn comes_before(a: &str, b: &str) -> (yes: bool)
    ensures
        yes == before(a@, b@),
{
    let left: Vec<char> = chars_of(a);
    let right: Vec<char> = chars_of(b);
    let mut at: usize = 0;
    assert(a@.subrange(0, a@.len() as int) =~= a@);
    assert(b@.subrange(0, b@.len() as int) =~= b@);
    while at < left.len() && at < right.len()
        invariant
            at <= left@.len(),
            at <= right@.len(),
            left@ == a@,
            right@ == b@,
            before(a@, b@) == before(
                a@.subrange(at as int, a@.len() as int),
                b@.subrange(at as int, b@.len() as int),
            ),
        decreases left@.len() - at,
    {
        if left[at] != right[at] {
            return left[at] < right[at];
        }
        assert(a@.subrange(at as int, a@.len() as int).drop_first() =~= a@.subrange(
            at + 1,
            a@.len() as int,
        ));
        assert(b@.subrange(at as int, b@.len() as int).drop_first() =~= b@.subrange(
            at + 1,
            b@.len() as int,
        ));
        at += 1;
    }
    at < right.len()
}

/// No text comes before itself, and of two different texts exactly one comes
/// before the other.
pub proof fn lemma_before_is_an_order(a: Seq<char>, b: Seq<char>)
    ensures
        a == b ==> !before(a, b),
        a != b ==> before(a, b) != before(b, a),
    decreases a.len(),
{
    if a.len() > 0 && b.len() > 0 {
        lemma_before_is_an_order(a.drop_first(), b.drop_first());
        if a[0] == b[0] && a.drop_first() == b.drop_first() {
            assert(a =~= seq![a[0]] + a.drop_first());
            assert(b =~= seq![b[0]] + b.drop_first());
        }
    } else if a.len() == 0 && b.len() == 0 {
        assert(a =~= b);
    }
}

/// What `format!("{:?}")` makes of a text.
pub uninterp spec fn debug_form(s: Seq<char>) -> Seq<char>;

/// The `Debug` form of a `str`: the text in quotes, with what cannot be printed
/// escaped. Which characters are escaped, and how, is left to the standard
/// library.
#[verifier::external_body]
pub(crate) fn debug(s: &str) -> (out: String)
    ensures
        out@ == debug_form(s@),
{
    format!("{:?}", s)
}

/// A copy of a list of strings.
pub fn copy_list(list: &[String]) -> (copy: Vec<String>)
    ensures
        copy@ == list@,
{
    let mut copy: Vec<String> = Vec::new();
    let mut at: usize = 0;
    while at < list.len()
        invariant
            at <= list@.len(),
            copy@ =~= list@.subrange(0, at as int),
        decreases list@.len() - at,
    {
        copy.push(list[at].clone());
        at += 1;
    }
    assert(list@.subrange(0, at as int) =~= list@);
    copy
}

/// Whether a text is in a list.
pub fn listed(list: &[String], s: &str) -> (yes: bool)
    ensures
        yes == texts(list@).contains(s@),
{
    let mut at: usize = 0;
    while at < list.len()
        invariant
            at <= list@.len(),
            forall|k: int| 0 <= k < at ==> texts(list@)[k] != s@,
        decreases list@.len() - at,
    {
        if same(list[at].as_str(), s) {
            assert(texts(list@)[at as int] == s@);
            return true;
        }
        assert(texts(list@)[at as int] == list@[at as int]@);
        at += 1;
    }
    false
}

/// The last character at or before `upto` where `needle` stands in `s`.
pub open spec fn found_last(s: Seq<char>, needle: Seq<char>, upto: int) -> Option<int>
    decreases upto + 1,
{
    if upto < 0 {
        None
    } else if occurs_at(s, needle, upto) {
        Some(upto)
    } else {
        found_last(s, needle, upto - 1)
    }
}

/// Where a text holds another for the last time.
pub open spec fn last_of(s: Seq<char>, needle: Seq<char>) -> Option<int> {
    found_last(s, needle, s.len() - needle.len())
}

pub fn find_last(s: &[char], needle: &[char]) -> (at: Option<usize>)
    ensures
        at.is_some() == last_of(s@, needle@).is_some(),
        at.is_some() ==> at.unwrap() == last_of(s@, needle@).unwrap() && at.unwrap()
            + needle@.len() <= s@.len(),
{
    if needle.len() > s.len() {
        return None;
    }
    let mut at: usize = s.len() - needle.len();
    loop
        invariant
            at + needle@.len() <= s@.len(),
            last_of(s@, needle@) == found_last(s@, needle@, at as int),
        decreases at,
    {
        if stands_at(s, needle, at) {
            return Some(at);
        }
        if at == 0 {
            assert(found_last(s@, needle@, -1).is_none());
            return None;
        }
        at -= 1;
    }
}

/// How many bytes a text takes.
pub fn byte_len(s: &str) -> (len: usize)
    ensures
        len as nat == width(s@),
{
    let bytes: &[u8] = s.as_bytes();
    bytes.len()
}

/// The text without the newlines, blanks and tabs at its end.
pub open spec fn without_blank_end(s: Seq<char>) -> Seq<char>
    decreases s.len(),
{
    if s.len() > 0 && (s.last() == '\n' || s.last() == ' ' || s.last() == '\t') {
        without_blank_end(s.drop_last())
    } else {
        s
    }
}

pub fn trim_blank_end(s: &str) -> (rest: String)
    ensures
        rest@ == without_blank_end(s@),
{
    let chars: Vec<char> = chars_of(s);
    let mut end: usize = chars.len();
    assert(s@.subrange(0, end as int) =~= s@);
    while end > 0 && (chars[end - 1] == '\n' || chars[end - 1] == ' ' || chars[end - 1] == '\t')
        invariant
            end <= chars@.len(),
            chars@ == s@,
            without_blank_end(s@) == without_blank_end(s@.subrange(0, end as int)),
        decreases end,
    {
        assert(s@.subrange(0, end as int).drop_last() =~= s@.subrange(0, end - 1));
        end -= 1;
    }
    part_of(&chars, 0, end)
}

/// Whether a text is white space throughout.
pub open spec fn is_blank(s: Seq<char>) -> bool {
    forall|i: int| 0 <= i < s.len() ==> is_space_spec(#[trigger] s[i])
}

pub fn blank(s: &str) -> (yes: bool)
    ensures
        yes == is_blank(s@),
{
    let chars: Vec<char> = chars_of(s);
    let mut at: usize = 0;
    while at < chars.len()
        invariant
            at <= chars@.len(),
            chars@ == s@,
            forall|i: int| 0 <= i < at ==> is_space_spec(#[trigger] s@[i]),
        decreases chars@.len() - at,
    {
        if !is_space(chars[at]) {
            return false;
        }
        at += 1;
    }
    true
}

/// A number in decimal is its digits and nothing else: the last one is what is
/// left over by ten, the ones before it are those of the number without it, and
/// zero is one digit.
pub proof fn law_decimal_digits(n: nat)
    ensures
        decimal(n).len() > 0,
        forall|i: int| 0 <= i < decimal(n).len() ==> '0' <= #[trigger] decimal(n)[i] <= '9',
        decimal(n).last() as u32 == 48 + n % 10,
        n >= 10 ==> decimal(n).drop_last() == decimal(n / 10),
        n < 10 ==> decimal(n).len() == 1,
        n > 0 ==> decimal(n)[0] != '0',
    decreases n,
{
    if n >= 10 {
        law_decimal_digits(n / 10);
        assert(decimal(n).drop_last() =~= decimal(n / 10));
        assert(decimal(n)[0] == decimal(n / 10)[0]);
        assert forall|i: int| 0 <= i < decimal(n).len() implies '0' <= #[trigger] decimal(n)[i]
            <= '9' by {
            if i < decimal(n / 10).len() {
                assert(decimal(n)[i] == decimal(n / 10)[i]);
            }
        }
    }
}

/// A slice holds exactly the bytes between its two offsets.
pub proof fn law_a_slice_holds_its_bytes(s: Seq<char>, start: int, end: int)
    requires
        sliced(s, start, end).is_some(),
    ensures
        encode_utf8(sliced(s, start, end).unwrap()) == encode_utf8(s).subrange(start, end),
{
    let bytes = encode_utf8(s);
    lemma_cut(s, start);
    let tail = sliced(s, start, width(s) as int).unwrap();
    lemma_boundary_in_suffix(bytes, start, end);
    assert(encode_utf8(tail) == bytes.subrange(start, bytes.len() as int));
    lemma_cut(tail, end - start);
    let part = sliced(tail, 0, end - start).unwrap();
    assert(encode_utf8(tail).subrange(0, end - start) =~= bytes.subrange(start, end));
    assert(part == sliced(s, start, end).unwrap());
}

pub proof fn lemma_occurs_between(a: Seq<char>, needle: Seq<char>, b: Seq<char>)
    ensures
        occurs(a + needle + b, needle),
{
    let s = a + needle + b;
    assert(s.subrange(a.len() as int, a.len() as int + needle.len()) =~= needle);
    assert(occurs_at(s, needle, a.len() as int));
}

/// What stands somewhere in a part of a text stands somewhere in the text.
pub proof fn lemma_occurs_within(a: Seq<char>, part: Seq<char>, b: Seq<char>, needle: Seq<char>)
    requires
        occurs(part, needle),
    ensures
        occurs(a + part + b, needle),
{
    let at = choose|at: int| occurs_at(part, needle, at);
    let s = a + part + b;
    assert(s.subrange(a.len() + at, a.len() + at + needle.len()) =~= part.subrange(
        at,
        at + needle.len(),
    ));
    assert(occurs_at(s, needle, a.len() + at));
}

/// Every piece stands in the text they are joined to.
pub proof fn law_every_piece_is_joined(pieces: Seq<Seq<char>>, separator: Seq<char>, k: int)
    requires
        0 <= k < pieces.len(),
    ensures
        occurs(joined(pieces, separator), pieces[k]),
    decreases pieces.len(),
{
    let whole = joined(pieces, separator);
    if pieces.len() == 1 {
        assert(Seq::<char>::empty() + pieces[0] + Seq::<char>::empty() =~= whole);
        lemma_occurs_between(Seq::empty(), pieces[0], Seq::empty());
    } else if k == pieces.len() - 1 {
        let front = joined(pieces.drop_last(), separator) + separator;
        assert(front + pieces[k] + Seq::<char>::empty() =~= whole);
        lemma_occurs_between(front, pieces[k], Seq::empty());
    } else {
        let front = joined(pieces.drop_last(), separator);
        law_every_piece_is_joined(pieces.drop_last(), separator, k);
        assert(Seq::<char>::empty() + front + (separator + pieces.last()) =~= whole);
        lemma_occurs_within(Seq::empty(), front, separator + pieces.last(), pieces[k]);
    }
}

proof fn lemma_split_append(s: Seq<char>, separator: char, more: Seq<char>)
    requires
        !more.contains(separator),
    ensures
        ({
            let before = split_on(s, separator);
            split_on(s + more, separator) == before.drop_last().push(before.last() + more)
        }),
    decreases more.len(),
{
    let before = split_on(s, separator);
    lemma_split_is_not_empty(s, separator);
    if more.len() == 0 {
        assert(s + more =~= s);
        assert(before.last() + more =~= before.last());
        assert(before.drop_last().push(before.last()) =~= before);
    } else {
        let shorter = more.drop_last();
        assert(!shorter.contains(separator)) by {
            if shorter.contains(separator) {
                let k = choose|k: int| 0 <= k < shorter.len() && shorter[k] == separator;
                assert(more[k] == separator);
            }
        }
        lemma_split_append(s, separator, shorter);
        let whole = s + more;
        assert(whole.drop_last() =~= s + shorter);
        assert(whole.last() == more.last());
        assert(more[more.len() - 1] == more.last());
        assert(more.last() != separator);
        let part = split_on(s + shorter, separator);
        assert(part.drop_last() =~= before.drop_last());
        assert(part.last().push(more.last()) =~= before.last() + more);
    }
}

/// Splitting undoes joining: pieces that hold no separator come back one by one.
pub proof fn law_splitting_undoes_joining(pieces: Seq<Seq<char>>, separator: char)
    requires
        pieces.len() > 0,
        forall|k: int| 0 <= k < pieces.len() ==> !(#[trigger] pieces[k]).contains(separator),
    ensures
        split_on(joined(pieces, seq![separator]), separator) == pieces,
    decreases pieces.len(),
{
    let whole = joined(pieces, seq![separator]);
    if pieces.len() == 1 {
        lemma_split_append(Seq::empty(), separator, pieces[0]);
        assert(Seq::<char>::empty() + pieces[0] =~= whole);
        assert(split_on(whole, separator) =~= pieces);
    } else {
        let fewer = pieces.drop_last();
        assert forall|k: int| 0 <= k < fewer.len() implies !(#[trigger] fewer[k]).contains(
            separator,
        ) by {
            assert(fewer[k] == pieces[k]);
        }
        law_splitting_undoes_joining(fewer, separator);
        let front = joined(fewer, seq![separator]);
        let cut = front + seq![separator];
        assert(cut.drop_last() =~= front);
        assert(split_on(cut, separator) == fewer.push(Seq::<char>::empty()));
        assert(!pieces[pieces.len() - 1].contains(separator));
        lemma_split_append(cut, separator, pieces.last());
        assert(cut + pieces.last() =~= whole);
        assert(Seq::<char>::empty() + pieces.last() =~= pieces.last());
        assert(split_on(whole, separator) =~= pieces);
    }
}

/// The last place where a text stands is one where it stands, with none behind it.
pub proof fn lemma_found_last(s: Seq<char>, needle: Seq<char>, upto: int)
    ensures
        found_last(s, needle, upto) matches Some(at) ==> 0 <= at <= upto && occurs_at(s, needle, at)
            && forall|j: int| at < j <= upto ==> !occurs_at(s, needle, j),
        found_last(s, needle, upto).is_none() ==> forall|j: int|
            0 <= j <= upto ==> !occurs_at(s, needle, j),
    decreases upto + 1,
{
    if upto >= 0 && !occurs_at(s, needle, upto) {
        lemma_found_last(s, needle, upto - 1);
    }
}

/// A text is cut at its first separator: nothing in front of the cut is one, and
/// the separator itself belongs to neither half. A text without one is not cut.
pub proof fn law_a_text_is_cut_at_its_first_separator(s: Seq<char>, separator: char)
    ensures
        halves(s, separator).is_some() <==> s.contains(separator),
        halves(s, separator) matches Some(pair) ==> s == pair.0 + seq![separator] + pair.1
            && !pair.0.contains(separator),
{
    lemma_found(s, seq![separator], 0);
    assert forall|j: int| 0 <= j < s.len() && s[j] == separator implies occurs_at(
        s,
        seq![separator],
        j,
    ) by {
        assert(s.subrange(j, j + 1) =~= seq![separator]);
    }
    if let Some(at) = found(s, seq![separator], 0) {
        assert(s.subrange(at, at + 1)[0] == separator);
        assert(s[at] == separator);
        assert(s =~= s.subrange(0, at) + seq![separator] + s.subrange(at + 1, s.len() as int));
        let front = s.subrange(0, at);
        if front.contains(separator) {
            let j = choose|j: int| 0 <= j < front.len() && front[j] == separator;
            assert(s[j] == separator);
            assert(occurs_at(s, seq![separator], j));
        }
    } else if s.contains(separator) {
        let j = choose|j: int| 0 <= j < s.len() && s[j] == separator;
        assert(occurs_at(s, seq![separator], j));
    }
}

/// Putting a separator between two texts and cutting there gives them back.
pub proof fn law_cutting_undoes_joining(a: Seq<char>, separator: char, b: Seq<char>)
    requires
        !a.contains(separator),
    ensures
        halves(a + seq![separator] + b, separator) == Some((a, b)),
{
    let s = a + seq![separator] + b;
    assert(s[a.len() as int] == separator);
    law_a_text_is_cut_at_its_first_separator(s, separator);
    let (front, back) = halves(s, separator).unwrap();
    let whole = front + seq![separator] + back;
    if front.len() < a.len() {
        assert(whole[front.len() as int] == separator);
        assert(a[front.len() as int] == separator);
    }
    if front.len() > a.len() {
        assert(front[a.len() as int] == whole[a.len() as int]);
        assert(front.contains(separator));
    }
    assert(front =~= a) by {
        assert forall|i: int| 0 <= i < a.len() implies front[i] == a[i] by {
            assert(whole[i] == s[i]);
        }
    }
    assert(back =~= b) by {
        assert forall|i: int| 0 <= i < b.len() implies back[i] == b[i] by {
            assert(whole[a.len() + 1 + i] == s[a.len() + 1 + i]);
        }
    }
}

proof fn lemma_trimmed_start(s: Seq<char>) -> (cut: int)
    ensures
        0 <= cut <= s.len(),
        trimmed_start(s) == s.subrange(cut, s.len() as int),
        forall|i: int| 0 <= i < cut ==> is_space_spec(#[trigger] s[i]),
        cut < s.len() ==> !is_space_spec(s[cut]),
    decreases s.len(),
{
    if s.len() > 0 && is_space_spec(s[0]) {
        let rest = lemma_trimmed_start(s.drop_first());
        assert(s.drop_first().subrange(rest, s.len() - 1) =~= s.subrange(rest + 1, s.len() as int));
        assert forall|i: int| 0 <= i < rest + 1 implies is_space_spec(#[trigger] s[i]) by {
            if i > 0 {
                assert(s.drop_first()[i - 1] == s[i]);
            }
        }
        rest + 1
    } else {
        assert(s.subrange(0, s.len() as int) =~= s);
        0
    }
}

proof fn lemma_trimmed_end(s: Seq<char>) -> (end: int)
    ensures
        0 <= end <= s.len(),
        trimmed_end(s) == s.subrange(0, end),
        forall|i: int| end <= i < s.len() ==> is_space_spec(#[trigger] s[i]),
        end > 0 ==> !is_space_spec(s[end - 1]),
    decreases s.len(),
{
    if s.len() > 0 && is_space_spec(s.last()) {
        let end = lemma_trimmed_end(s.drop_last());
        assert(s.drop_last().subrange(0, end) =~= s.subrange(0, end));
        assert forall|i: int| end <= i < s.len() implies is_space_spec(#[trigger] s[i]) by {
            if i < s.len() - 1 {
                assert(s.drop_last()[i] == s[i]);
            }
        }
        end
    } else {
        assert(s.subrange(0, s.len() as int) =~= s);
        s.len() as int
    }
}

/// Trimming takes away white space at both ends and nothing else.
pub proof fn law_trimming_takes_white_space_only(s: Seq<char>)
    ensures
        exists|from: int, to: int|
            0 <= from <= to <= s.len() && #[trigger] s.subrange(from, to) == trimmed(s) && is_blank(
                s.subrange(0, from),
            ) && is_blank(s.subrange(to, s.len() as int)),
        trimmed(s).len() > 0 ==> !is_space_spec(trimmed(s)[0]) && !is_space_spec(trimmed(s).last()),
        trimmed(s).len() == 0 ==> is_blank(s),
{
    let from = lemma_trimmed_start(s);
    let rest = trimmed_start(s);
    let end = lemma_trimmed_end(rest);
    let to = from + end;
    assert(s.subrange(from, to) =~= rest.subrange(0, end));
    assert forall|i: int| to <= i < s.len() implies is_space_spec(#[trigger] s[i]) by {
        assert(rest[i - from] == s[i]);
    }
    assert(is_blank(s.subrange(0, from)));
    assert(is_blank(s.subrange(to, s.len() as int)));
    if end > 0 {
        assert(rest[0] == s[from]);
        assert(trimmed(s)[0] == s[from]);
        assert(trimmed(s).last() == rest[end - 1]);
    } else {
        assert forall|i: int| 0 <= i < s.len() implies is_space_spec(#[trigger] s[i]) by {
            if i >= from {
                assert(rest[i - from] == s[i]);
            }
        }
    }
}

/// Lines that are joined by newlines are read back one by one, with or without a
/// newline behind the last of them.
pub proof fn law_joined_lines_read_back(lines: Seq<Seq<char>>)
    requires
        lines.len() > 0,
        forall|k: int| 0 <= k < lines.len() ==> !(#[trigger] lines[k]).contains('\n'),
        forall|k: int|
            0 <= k < lines.len() ==> (#[trigger] lines[k]).len() == 0 || lines[k].last() != '\r',
    ensures
        lines.last().len() > 0 ==> lines_of(joined(lines, seq!['\n'])) == lines,
        lines_of(joined(lines, seq!['\n']).push('\n')) == lines,
{
    law_splitting_undoes_joining(lines, '\n');
    let whole = joined(lines, seq!['\n']);
    assert forall|k: int| 0 <= k < lines.len() implies without_return(#[trigger] lines[k])
        == lines[k] by {}
    if lines.last().len() > 0 {
        assert(lines_of(whole) =~= lines);
    }
    let more = lines.push(Seq::empty());
    assert(more.drop_last() =~= lines);
    assert(joined(more, seq!['\n']) =~= whole.push('\n'));
    law_splitting_undoes_joining(more, '\n');
    assert(lines_of(whole.push('\n')) =~= lines);
}

/// Replacing a character changes that character wherever it stands, and leaves
/// every other one where it was.
pub proof fn law_replacing_touches_one_character(s: Seq<char>, from: char, to: char)
    ensures
        with_char(s, from, to).len() == s.len(),
        forall|i: int|
            0 <= i < s.len() && s[i] == from ==> #[trigger] with_char(s, from, to)[i] == to,
        forall|i: int|
            0 <= i < s.len() && s[i] != from ==> #[trigger] with_char(s, from, to)[i] == s[i],
        from != to ==> !with_char(s, from, to).contains(from),
{
}

/// A text in which nothing is to be replaced stays as it is.
pub proof fn law_replacing_nothing_changes_nothing(s: Seq<char>, from: Seq<char>, to: Seq<char>)
    requires
        !occurs(s, from),
    ensures
        with_all(s, from, to) == s,
    decreases s.len(),
{
    if from.len() > 0 && s.len() >= from.len() {
        assert(!occurs_at(s, from, 0));
        let rest = s.drop_first();
        if occurs(rest, from) {
            let at = choose|at: int| occurs_at(rest, from, at);
            assert(s.subrange(at + 1, at + 1 + from.len()) =~= rest.subrange(at, at + from.len()));
            assert(occurs_at(s, from, at + 1));
        }
        law_replacing_nothing_changes_nothing(rest, from, to);
        assert(seq![s[0]] + rest =~= s);
    }
}

/// What is to be replaced is replaced where it first stands, and then in the
/// rest of the text.
pub proof fn law_replacing_starts_at_the_first_place(
    s: Seq<char>,
    from: Seq<char>,
    to: Seq<char>,
    at: int,
)
    requires
        from.len() > 0,
        found(s, from, 0) == Some(at),
    ensures
        with_all(s, from, to) == s.subrange(0, at) + to + with_all(
            s.subrange(at + from.len(), s.len() as int),
            from,
            to,
        ),
    decreases s.len(),
{
    lemma_found(s, from, 0);
    if at == 0 {
        assert(s.subrange(0, 0) + to =~= to);
    } else {
        assert(!occurs_at(s, from, 0));
        let rest = s.drop_first();
        lemma_found(rest, from, 0);
        assert(rest.subrange(at - 1, at - 1 + from.len()) =~= s.subrange(at, at + from.len()));
        assert(occurs_at(rest, from, at - 1));
        let first = found(rest, from, 0).unwrap();
        assert(s.subrange(first + 1, first + 1 + from.len()) =~= rest.subrange(
            first,
            first + from.len(),
        ));
        assert(occurs_at(s, from, first + 1));
        assert(first == at - 1);
        law_replacing_starts_at_the_first_place(rest, from, to, at - 1);
        assert(rest.subrange(at - 1 + from.len(), rest.len() as int) =~= s.subrange(
            at + from.len(),
            s.len() as int,
        ));
        let tail = with_all(s.subrange(at + from.len(), s.len() as int), from, to);
        assert(seq![s[0]] + (rest.subrange(0, at - 1) + to + tail) =~= s.subrange(0, at) + to
            + tail);
    }
}

proof fn lemma_no_word_is_lost(s: Seq<char>)
    ensures
        s.len() > 0 && !is_space_spec(s.last()) ==> words_of(s).len() > 0,
{
}

/// A white space character separates words: the words in front of it are those
/// of the text in front, and the words behind it those of the text behind.
pub proof fn law_white_space_separates_words(a: Seq<char>, space: char, b: Seq<char>)
    requires
        is_space_spec(space),
    ensures
        words_of(a + seq![space] + b) == words_of(a) + words_of(b),
    decreases b.len(),
{
    let whole = a + seq![space] + b;
    if b.len() == 0 {
        assert(whole.drop_last() =~= a);
        assert(words_of(a) + words_of(b) =~= words_of(a));
    } else {
        let fewer = b.drop_last();
        law_white_space_separates_words(a, space, fewer);
        assert(whole.drop_last() =~= a + seq![space] + fewer);
        assert(whole.last() == b.last());
        lemma_no_word_is_lost(fewer);
        if b.len() > 1 {
            assert(whole[whole.len() - 2] == b[b.len() - 2]);
            assert(fewer.last() == b[b.len() - 2]);
        } else {
            assert(whole[whole.len() - 2] == space);
        }
        assert(words_of(whole) =~= words_of(a) + words_of(b));
    }
}

/// A text without white space is a single word.
pub proof fn law_a_text_without_white_space_is_a_word(s: Seq<char>)
    requires
        s.len() > 0,
        forall|i: int| 0 <= i < s.len() ==> !is_space_spec(#[trigger] s[i]),
    ensures
        words_of(s) == seq![s],
    decreases s.len(),
{
    if s.len() == 1 {
        assert(words_of(s.drop_last()) =~= Seq::<Seq<char>>::empty());
        assert(!is_space_spec(s[0]));
        assert(seq![s.last()] =~= s);
        assert(words_of(s) =~= seq![s]);
    } else {
        let fewer = s.drop_last();
        assert forall|i: int| 0 <= i < fewer.len() implies !is_space_spec(#[trigger] fewer[i]) by {
            assert(fewer[i] == s[i]);
        }
        law_a_text_without_white_space_is_a_word(fewer);
        assert(!is_space_spec(s[s.len() - 1]) && !is_space_spec(s[s.len() - 2]));
        assert(fewer.push(s.last()) =~= s);
        let before = words_of(fewer);
        assert(before.len() == 1 && before.last() == fewer);
        assert(s.last() == s[s.len() - 1]);
        assert(words_of(s) == before.drop_last().push(before.last().push(s.last())));
        assert(before.drop_last() =~= Seq::<Seq<char>>::empty());
        assert(words_of(s) =~= seq![s]);
    }
}

/// The order of texts: the first character that differs decides, and a text
/// comes before everything it begins.
pub proof fn law_the_first_difference_orders_texts(
    shared: Seq<char>,
    a: char,
    b: char,
    behind: Seq<char>,
    after: Seq<char>,
)
    ensures
        a != b ==> (before(shared + seq![a] + behind, shared + seq![b] + after) <==> a < b),
        before(shared, shared + seq![a] + behind),
        !before(shared + seq![a] + behind, shared),
        !before(shared, shared),
    decreases shared.len(),
{
    let one = shared + seq![a] + behind;
    let other = shared + seq![b] + after;
    if shared.len() == 0 {
        assert(one[0] == a && other[0] == b);
    } else {
        let rest = shared.drop_first();
        law_the_first_difference_orders_texts(rest, a, b, behind, after);
        assert(one.drop_first() =~= rest + seq![a] + behind);
        assert(other.drop_first() =~= rest + seq![b] + after);
        assert(one[0] == shared[0] && other[0] == shared[0]);
    }
}

/// A text that a newline was put behind ends its last line there: the last
/// newline of `a`, a newline and `b` stands behind `a` when `b` has none.
pub proof fn law_the_last_newline_is_found(a: Seq<char>, b: Seq<char>)
    requires
        !b.contains('\n'),
    ensures
        last_of(a + seq!['\n'] + b, "\n"@) == Some(a.len() as int),
        last_of(b, "\n"@).is_none(),
{
    reveal_strlit("\n");
    assert("\n"@ =~= seq!['\n']);
    let s = a + seq!['\n'] + b;
    lemma_found_last(s, "\n"@, s.len() - 1);
    lemma_found_last(b, "\n"@, b.len() - 1);
    assert(s.subrange(a.len() as int, a.len() as int + 1) =~= "\n"@);
    assert(occurs_at(s, "\n"@, a.len() as int));
    assert forall|j: int| a.len() < j implies !occurs_at(s, "\n"@, j) by {
        if occurs_at(s, "\n"@, j) {
            assert(s.subrange(j, j + 1)[0] == '\n');
            assert(b[j - a.len() - 1] == '\n');
        }
    }
    assert forall|j: int| !occurs_at(b, "\n"@, j) by {
        if occurs_at(b, "\n"@, j) {
            assert(b.subrange(j, j + 1)[0] == '\n');
            assert(b[j] == '\n');
        }
    }
}

/// The first newline of `a`, a newline and `b` stands behind `a` when `a` has
/// none.
pub proof fn law_the_first_newline_is_found(a: Seq<char>, b: Seq<char>)
    requires
        !a.contains('\n'),
    ensures
        found(a + seq!['\n'] + b, "\n"@, 0) == Some(a.len() as int),
        found(a, "\n"@, 0).is_none(),
{
    reveal_strlit("\n");
    assert("\n"@ =~= seq!['\n']);
    let s = a + seq!['\n'] + b;
    lemma_found(s, "\n"@, 0);
    lemma_found(a, "\n"@, 0);
    assert(s.subrange(a.len() as int, a.len() as int + 1) =~= "\n"@);
    assert(occurs_at(s, "\n"@, a.len() as int));
    assert forall|j: int| 0 <= j < a.len() implies !occurs_at(s, "\n"@, j) by {
        if occurs_at(s, "\n"@, j) {
            assert(s.subrange(j, j + 1)[0] == '\n');
            assert(a[j] == '\n');
        }
    }
    assert forall|j: int| !occurs_at(a, "\n"@, j) by {
        if occurs_at(a, "\n"@, j) {
            assert(a.subrange(j, j + 1)[0] == '\n');
            assert(a[j] == '\n');
        }
    }
}

} // verus!

//! Reading a JSON list of strings.

use vstd::prelude::*;

use crate::literals;
use crate::stryker;
use crate::text;

verus! {

broadcast use vstd::seq_lib::group_seq_properties;

/// `char::from_u32`: the character with this number, and none where the number
/// is that of a surrogate or past the last character.
pub assume_specification[ char::from_u32 ](i: u32) -> (c: Option<char>)
    ensures
        c.is_some() == (i < 0xd800 || 0xe000 <= i <= 0x10ffff),
        c matches Some(c) ==> c == i as char,
;

/// The number that four hexadecimal digits spell.
pub open spec fn unit_at(s: Seq<char>, at: int) -> Option<int> {
    if 0 <= at && at + 4 <= s.len() {
        match (
            literals::digit_value(s[at], 16),
            literals::digit_value(s[at + 1], 16),
            literals::digit_value(s[at + 2], 16),
            literals::digit_value(s[at + 3], 16),
        ) {
            (Some(a), Some(b), Some(c), Some(d)) => Some((a * 4096 + b * 256 + c * 16 + d) as int),
            _ => None,
        }
    } else {
        None
    }
}

fn hex_at(s: &[char], at: usize) -> (value: Option<u32>)
    requires
        at < s@.len(),
    ensures
        value.is_some() == literals::digit_value(s@[at as int], 16).is_some(),
        value matches Some(value) ==> Some(value as nat) == literals::digit_value(
            s@[at as int],
            16,
        ) && value < 16,
{
    let code: u32 = s[at] as u32;
    if 48 <= code && code <= 57 {
        Some(code - 48)
    } else if 97 <= code && code <= 102 {
        Some(code - 87)
    } else if 65 <= code && code <= 70 {
        Some(code - 55)
    } else {
        None
    }
}

fn read_unit(s: &[char], at: usize) -> (unit: Option<u32>)
    ensures
        unit.is_some() == unit_at(s@, at as int).is_some(),
        unit matches Some(unit) ==> Some(unit as int) == unit_at(s@, at as int) && unit <= 0xffff,
{
    if s.len() < 4 || at > s.len() - 4 {
        return None;
    }
    match (hex_at(s, at), hex_at(s, at + 1), hex_at(s, at + 2), hex_at(s, at + 3)) {
        (Some(a), Some(b), Some(c), Some(d)) => Some(a * 4096 + b * 256 + c * 16 + d),
        _ => None,
    }
}

/// The character that a one-letter escape stands for.
pub open spec fn escaped(c: char) -> Option<char> {
    if c == '"' || c == '\\' || c == '/' {
        Some(c)
    } else if c == 'n' {
        Some('\n')
    } else if c == 'r' {
        Some('\r')
    } else if c == 't' {
        Some('\t')
    } else if c == 'b' {
        Some(8u8 as char)
    } else if c == 'f' {
        Some(12u8 as char)
    } else {
        None
    }
}

/// The character at a position inside a string, and where the next one is.
/// Characters past the first 65536 are escaped as two numbers.
pub open spec fn char_at(s: Seq<char>, at: int) -> Option<(char, int)> {
    if !(0 <= at < s.len()) {
        None
    } else if s[at] != '\\' {
        Some((s[at], at + 1))
    } else if at + 1 >= s.len() {
        None
    } else if s[at + 1] == 'u' {
        match unit_at(s, at + 2) {
            None => None,
            Some(high) => if high < 0xd800 || high >= 0xe000 {
                Some((high as u32 as char, at + 6))
            } else if high < 0xdc00 && at + 8 <= s.len() && s[at + 6] == '\\' && s[at + 7] == 'u' {
                match unit_at(s, at + 8) {
                    Some(low) => if 0xdc00 <= low < 0xe000 {
                        Some(
                            (
                                (0x1_0000 + (high - 0xd800) * 0x400 + (low - 0xdc00)) as u32 as char,
                                at + 12,
                            ),
                        )
                    } else {
                        None
                    },
                    None => None,
                }
            } else {
                None
            },
        }
    } else {
        match escaped(s[at + 1]) {
            Some(c) => Some((c, at + 2)),
            None => None,
        }
    }
}

fn read_char(s: &[char], at: usize) -> (read: Option<(char, usize)>)
    ensures
        read.is_some() == char_at(s@, at as int).is_some(),
        read matches Some((c, next)) ==> char_at(s@, at as int) == Some((c, next as int)) && at
            < next <= s@.len(),
{
    let total: usize = s.len();
    if at >= total {
        return None;
    }
    if s[at] != '\\' {
        return Some((s[at], at + 1));
    }
    if total - at < 2 {
        return None;
    }
    let c: char = s[at + 1];
    if c == 'u' {
        if total - at < 6 {
            return None;
        }
        let high: u32 = match read_unit(s, at + 2) {
            Some(high) => high,
            None => return None,
        };
        if high < 0xd800 || high >= 0xe000 {
            return match char::from_u32(high) {
                Some(decoded) => {
                    assert(decoded == high as int as u32 as char);
                    Some((decoded, at + 6))
                },
                None => None,
            };
        }
        if high >= 0xdc00 || total - at < 12 || s[at + 6] != '\\' || s[at + 7] != 'u' {
            return None;
        }
        let low: u32 = match read_unit(s, at + 8) {
            Some(low) => low,
            None => return None,
        };
        if low < 0xdc00 || low >= 0xe000 {
            return None;
        }
        let code: u32 = 0x1_0000 + (high - 0xd800) * 0x400 + (low - 0xdc00);
        return match char::from_u32(code) {
            Some(decoded) => {
                assert(decoded == code as int as u32 as char);
                Some((decoded, at + 12))
            },
            None => None,
        };
    }
    if c == '"' || c == '\\' || c == '/' {
        Some((c, at + 2))
    } else if c == 'n' {
        Some(('\n', at + 2))
    } else if c == 'r' {
        Some(('\r', at + 2))
    } else if c == 't' {
        Some(('\t', at + 2))
    } else if c == 'b' {
        Some((8u8 as char, at + 2))
    } else if c == 'f' {
        Some((12u8 as char, at + 2))
    } else {
        None
    }
}

/// The rest of a string from a position inside it, behind what was read of it
/// already, and where the text goes on past the closing quote.
pub open spec fn string_from(s: Seq<char>, at: int, before: Seq<char>) -> Option<(Seq<char>, int)>
    decreases s.len() - at,
{
    if !(0 <= at < s.len()) {
        None
    } else if s[at] == '"' {
        Some((before, at + 1))
    } else {
        match char_at(s, at) {
            Some((c, next)) => string_from(s, next, before.push(c)),
            None => None,
        }
    }
}

pub proof fn lemma_string_goes_on(s: Seq<char>, at: int, before: Seq<char>)
    ensures
        string_from(s, at, before) matches Some((_, next)) ==> at < next <= s.len(),
    decreases s.len() - at,
{
    if 0 <= at < s.len() && s[at] != '"' {
        match char_at(s, at) {
            Some((c, next)) => lemma_string_goes_on(s, next, before.push(c)),
            None => {},
        }
    }
}

fn read_string(s: &[char], from: usize) -> (read: Option<(String, usize)>)
    ensures
        read.is_some() == string_from(s@, from as int, Seq::empty()).is_some(),
        read matches Some((text, next)) ==> string_from(s@, from as int, Seq::empty()) == Some(
            (text@, next as int),
        ) && from < next <= s@.len(),
{
    proof {
        lemma_string_goes_on(s@, from as int, Seq::empty());
    }
    let mut text: String = String::new();
    let mut at: usize = from;
    assert(text@ =~= Seq::<char>::empty());
    while at < s.len()
        invariant
            string_from(s@, from as int, Seq::empty()) == string_from(s@, at as int, text@),
            string_from(s@, from as int, Seq::empty()) matches Some((_, next)) ==> from < next
                <= s@.len(),
        decreases s@.len() - at,
    {
        if s[at] == '"' {
            return Some((text, at + 1));
        }
        match read_char(s, at) {
            Some((c, next)) => {
                text.push(c);
                at = next;
            },
            None => return None,
        }
    }
    None
}

/// Where the white space at a position ends.
pub open spec fn past_space(s: Seq<char>, at: int) -> int
    decreases s.len() - at,
{
    if 0 <= at < s.len() && (s[at] == ' ' || s[at] == '\t' || s[at] == '\n' || s[at] == '\r') {
        past_space(s, at + 1)
    } else {
        at
    }
}

pub proof fn lemma_past_space(s: Seq<char>, at: int)
    ensures
        at <= past_space(s, at),
        at <= s.len() ==> past_space(s, at) <= s.len(),
    decreases s.len() - at,
{
    if 0 <= at < s.len() && (s[at] == ' ' || s[at] == '\t' || s[at] == '\n' || s[at] == '\r') {
        lemma_past_space(s, at + 1);
    }
}

fn skip_space(s: &[char], from: usize) -> (past: usize)
    requires
        from <= s@.len(),
    ensures
        past as int == past_space(s@, from as int),
        from <= past <= s@.len(),
{
    let mut at: usize = from;
    while at < s.len() && (s[at] == ' ' || s[at] == '\t' || s[at] == '\n' || s[at] == '\r')
        invariant
            from <= at <= s@.len(),
            past_space(s@, from as int) == past_space(s@, at as int),
        decreases s@.len() - at,
    {
        at += 1;
    }
    at
}

/// The strings of a list from a position where one has to stand, behind those
/// that were read already, up to the bracket that closes the list.
pub open spec fn items_from(s: Seq<char>, at: int, before: Seq<Seq<char>>) -> Option<Seq<Seq<char>>>
    decreases s.len() - at,
{
    let here = past_space(s, at);
    if !(0 <= here < s.len()) || s[here] != '"' {
        None
    } else {
        match string_from(s, here + 1, Seq::empty()) {
            None => None,
            Some((item, next)) => {
                let then = past_space(s, next);
                if !(0 <= then < s.len()) {
                    None
                } else if s[then] == ']' {
                    Some(before.push(item))
                } else if s[then] == ',' {
                    proof {
                        lemma_past_space(s, at);
                        lemma_string_goes_on(s, here + 1, Seq::empty());
                        lemma_past_space(s, next);
                    }
                    items_from(s, then + 1, before.push(item))
                } else {
                    None
                }
            },
        }
    }
}

/// The strings of a list, from just past the bracket that opens it. None when
/// the text is no list of strings.
pub open spec fn list_in(s: Seq<char>) -> Option<Seq<Seq<char>>> {
    let here = past_space(s, 0);
    if here < s.len() && s[here] == ']' {
        Some(Seq::empty())
    } else {
        items_from(s, 0, Seq::empty())
    }
}

/// The strings of a list, from just past the bracket that opens it, each read to
/// its closing quote. A bracket or a comma inside a string is part of it.
pub fn read_list(s: &str) -> (list: Option<Vec<String>>)
    ensures
        list.is_some() == list_in(s@).is_some(),
        list matches Some(list) ==> Some(text::texts(list@)) == list_in(s@),
{
    let chars: Vec<char> = text::chars_of(s);
    let mut list: Vec<String> = Vec::new();
    assert(text::texts(list@) =~= Seq::<Seq<char>>::empty());
    let first: usize = skip_space(&chars, 0);
    if first < chars.len() && chars[first] == ']' {
        return Some(list);
    }
    let mut at: usize = 0;
    loop
        invariant
            at <= chars@.len(),
            chars@ == s@,
            list_in(s@) == items_from(s@, at as int, text::texts(list@)),
        decreases chars@.len() - at,
    {
        let here: usize = skip_space(&chars, at);
        if here >= chars.len() || chars[here] != '"' {
            return None;
        }
        let ghost before = text::texts(list@);
        match read_string(&chars, here + 1) {
            None => return None,
            Some((item, next)) => {
                let then: usize = skip_space(&chars, next);
                if then >= chars.len() {
                    return None;
                }
                list.push(item);
                assert(text::texts(list@) =~= before.push(item@));
                if chars[then] == ']' {
                    return Some(list);
                }
                if chars[then] != ',' {
                    return None;
                }
                at = then + 1;
            },
        }
    }
}

proof fn lemma_char_reads(s: Seq<char>, at: int, c: char)
    requires
        0 <= at,
        at + stryker::json_char(c).len() <= s.len(),
        s.subrange(at, at + stryker::json_char(c).len()) == stryker::json_char(c),
    ensures
        char_at(s, at) == Some((c, at + stryker::json_char(c).len())),
        s[at] != '"',
{
    let written = stryker::json_char(c);
    let here = s.subrange(at, at + written.len());
    assert forall|k: int| 0 <= k < written.len() implies s[at + k] == #[trigger] written[k] by {
        assert(here[k] == s[at + k]);
    }
    assert(s[at] == written[0]);
    if written.len() > 1 {
        assert(s[at + 1] == written[1]);
    }
    if written.len() == 6 {
        assert(s[at + 2] == written[2]);
        assert(s[at + 3] == written[3]);
        assert(s[at + 4] == written[4]);
        assert(s[at + 5] == written[5]);
        let code = c as u32;
        assert(unit_at(s, at + 2) == Some(code as int));
        assert(code as int as u32 as char == c);
    }
}

proof fn lemma_string_reads(s: Seq<char>, at: int, written: Seq<char>, before: Seq<char>)
    requires
        0 <= at,
        at + stryker::json_chars(written).len() < s.len(),
        s.subrange(at, at + stryker::json_chars(written).len()) == stryker::json_chars(written),
        s[at + stryker::json_chars(written).len()] == '"',
    ensures
        string_from(s, at, before) == Some(
            (before + written, at + stryker::json_chars(written).len() + 1),
        ),
    decreases written.len(),
{
    let whole = stryker::json_chars(written);
    if written.len() == 0 {
        assert(whole.len() == 0);
        assert(before + written =~= before);
    } else {
        stryker::lemma_json_from_front(written);
        let first = stryker::json_char(written[0]);
        let rest = stryker::json_chars(written.drop_first());
        assert(s.subrange(at, at + first.len()) =~= whole.subrange(0, first.len() as int));
        assert(whole.subrange(0, first.len() as int) =~= first);
        let next = at + first.len();
        assert(s.subrange(next, next + rest.len()) =~= whole.subrange(
            first.len() as int,
            whole.len() as int,
        ));
        assert(whole.subrange(first.len() as int, whole.len() as int) =~= rest);
        lemma_char_reads(s, at, written[0]);
        lemma_string_reads(s, next, written.drop_first(), before.push(written[0]));
        assert(before.push(written[0]) + written.drop_first() =~= before + written);
    }
}

/// How a list of strings stands between its brackets.
pub open spec fn inside(values: Seq<Seq<char>>) -> Seq<char> {
    text::joined(values.map_values(|value: Seq<char>| stryker::json(value)), ", "@)
}

proof fn lemma_items_read(
    s: Seq<char>,
    at: int,
    start: int,
    values: Seq<Seq<char>>,
    before: Seq<Seq<char>>,
)
    requires
        values.len() > 0,
        0 <= start,
        past_space(s, at) == start,
        start + inside(values).len() < s.len(),
        s.subrange(start, start + inside(values).len()) == inside(values),
        s[start + inside(values).len()] == ']',
    ensures
        items_from(s, at, before) == Some(before + values),
    decreases values.len(),
{
    reveal_strlit(", ");
    let pieces = values.map_values(|value: Seq<char>| stryker::json(value));
    let whole = inside(values);
    let first = stryker::json(values[0]);
    let chars = stryker::json_chars(values[0]);
    assert(pieces[0] == first);
    if values.len() > 1 {
        text::lemma_joined_from_front(pieces, ", "@);
        assert(pieces.drop_first() =~= values.drop_first().map_values(
            |value: Seq<char>| stryker::json(value),
        ));
        assert(whole == first + ", "@ + inside(values.drop_first()));
    } else {
        assert(whole == first);
    }
    assert(first.len() == chars.len() + 2);
    assert(whole.subrange(0, first.len() as int) =~= first);
    let there = s.subrange(start, start + whole.len());
    assert forall|k: int| 0 <= k < whole.len() implies s[start + k] == #[trigger] whole[k] by {
        assert(there[k] == s[start + k]);
    }
    assert(whole[0] == '"');
    assert(s[start] == whole[0]);
    assert(s.subrange(start + 1, start + 1 + chars.len()) =~= chars) by {
        assert forall|k: int| 0 <= k < chars.len() implies s[start + 1 + k] == #[trigger] chars[k] by {
            assert(whole[k + 1] == chars[k]);
            assert(s[start + (k + 1)] == whole[k + 1]);
        }
    }
    assert(whole[chars.len() as int + 1] == '"');
    assert(s[start + (chars.len() as int + 1)] == '"');
    lemma_string_reads(s, start + 1, values[0], Seq::empty());
    assert(Seq::<char>::empty() + values[0] =~= values[0]);
    let next = start + first.len();
    if values.len() == 1 {
        assert(s[next] == ']');
        assert(before.push(values[0]) =~= before + values);
    } else {
        let rest = inside(values.drop_first());
        assert(whole[first.len() as int] == ',');
        assert(whole[first.len() as int + 1] == ' ');
        assert(s[start + first.len() as int] == ',');
        assert(s[start + (first.len() as int + 1)] == ' ');
        assert(s.subrange(next + 2, next + 2 + rest.len()) =~= rest) by {
            assert forall|k: int| 0 <= k < rest.len() implies s[next + 2 + k] == #[trigger] rest[k] by {
                assert(whole[first.len() + 2 + k] == rest[k]);
                assert(s[start + (first.len() + 2 + k)] == whole[first.len() + 2 + k]);
            }
        }
        assert(rest.len() > 0 && rest[0] == '"') by {
            lemma_inside_starts_with_a_quote(values.drop_first());
        }
        assert(s.subrange(next + 2, next + 2 + rest.len())[0] == s[next + 2]);
        assert(past_space(s, next + 1) == past_space(s, next + 2));
        lemma_items_read(s, next + 1, next + 2, values.drop_first(), before.push(values[0]));
        assert(before.push(values[0]) + values.drop_first() =~= before + values);
    }
}

proof fn lemma_inside_starts_with_a_quote(values: Seq<Seq<char>>)
    requires
        values.len() > 0,
    ensures
        inside(values).len() > 0,
        inside(values)[0] == '"',
{
    let pieces = values.map_values(|value: Seq<char>| stryker::json(value));
    assert(pieces[0] == stryker::json(values[0]));
    if values.len() > 1 {
        text::lemma_joined_from_front(pieces, ", "@);
    }
}

/// Reading a list of JSON strings gives back every text that was written, in
/// order, whatever is in it and whatever stands behind the list.
pub proof fn law_a_written_list_reads_back(values: Seq<Seq<char>>, rest: Seq<char>)
    ensures
        list_in(inside(values) + seq![']'] + rest) == Some(values),
{
    let s = inside(values) + seq![']'] + rest;
    if values.len() == 0 {
        assert(inside(values).len() == 0);
        assert(s[0] == ']');
        assert(values =~= Seq::<Seq<char>>::empty());
    } else {
        lemma_inside_starts_with_a_quote(values);
        assert(s[0] == '"');
        assert(s.subrange(0, inside(values).len() as int) =~= inside(values));
        assert(s[inside(values).len() as int] == ']');
        lemma_items_read(s, 0, 0, values, Seq::empty());
        assert(Seq::<Seq<char>>::empty() + values =~= values);
    }
}

proof fn lemma_inner_quotes_are_escaped(s: Seq<char>, at: int)
    requires
        0 <= at < stryker::json_chars(s).len(),
        stryker::json_chars(s)[at] == '"',
    ensures
        at > 0,
        stryker::json_chars(s)[at - 1] == '\\',
    decreases s.len(),
{
    let before = stryker::json_chars(s.drop_last());
    let last = stryker::json_char(s.last());
    if at < before.len() {
        lemma_inner_quotes_are_escaped(s.drop_last(), at);
    } else {
        assert(last[at - before.len()] == '"');
        assert(s.last() == '"');
        assert(at - before.len() == 1);
        assert(stryker::json_chars(s)[at - 1] == last[0]);
    }
}

/// Around a quote in a written list: it opens a string, it is escaped, or it
/// closes one. So no string in the list can look like a key behind it.
pub proof fn lemma_quotes_in_a_list(values: Seq<Seq<char>>, at: int)
    requires
        0 <= at < inside(values).len(),
        inside(values)[at] == '"',
    ensures
        at == 0 || inside(values)[at - 1] == ' ' || inside(values)[at - 1] == '\\' || at
            == inside(values).len() - 1 || inside(values)[at + 1] == ',',
    decreases values.len(),
{
    reveal_strlit(", ");
    let pieces = values.map_values(|value: Seq<char>| stryker::json(value));
    let whole = inside(values);
    let last = stryker::json(values.last());
    let start = whole.len() - last.len();
    assert(pieces.last() == last);
    if values.len() > 1 {
        let fewer = values.drop_last();
        assert(pieces.drop_last() =~= fewer.map_values(|value: Seq<char>| stryker::json(value)));
        let front = inside(fewer);
        assert(whole == front + ", "@ + last);
        if at < front.len() {
            assert(front[at] == whole[at]);
            lemma_quotes_in_a_list(fewer, at);
            if at == front.len() - 1 {
                assert(whole[at + 1] == ", "@[0]);
            } else {
                assert(whole[at + 1] == front[at + 1]);
            }
            if at > 0 {
                assert(whole[at - 1] == front[at - 1]);
            }
        } else if at < start {
            assert(whole[at] == ", "@[at - front.len()]);
        } else if at == start {
            assert(whole[at - 1] == ", "@[1]);
        }
    }
    if start < at < whole.len() - 1 {
        let chars = stryker::json_chars(values.last());
        assert(whole[at] == last[at - start]);
        assert(last[at - start] == chars[at - start - 1]);
        lemma_inner_quotes_are_escaped(values.last(), at - start - 1);
        assert(whole[at - 1] == last[at - start - 1]);
        assert(last[at - start - 1] == chars[at - start - 2]);
    }
}

/// A unit is the number its four digits spell in base sixteen, the first digit
/// counting most.
pub proof fn law_a_unit_is_a_number_in_base_sixteen(s: Seq<char>, at: int)
    requires
        0 <= at,
        at + 4 <= s.len(),
    ensures
        match literals::digits_value(s.subrange(at, at + 4), 16) {
            Some(value) => unit_at(s, at) == Some(value as int),
            None => unit_at(s, at).is_none(),
        },
{
    reveal_with_fuel(literals::digits_value, 5);
    let four = s.subrange(at, at + 4);
    let three = four.drop_last();
    let two = three.drop_last();
    let one = two.drop_last();
    assert(four.last() == s[at + 3]);
    assert(three.last() == s[at + 2]);
    assert(two.last() == s[at + 1]);
    assert(one.last() == s[at]);
    assert(one.drop_last().len() == 0);
}

/// Two units of a pair are one character: the first gives the upper ten bits of
/// its distance from the end of the first plane, the second the lower ten.
pub proof fn law_a_pair_of_units_is_one_character(s: Seq<char>, at: int, high: int, low: int)
    requires
        0 <= at,
        at + 12 <= s.len(),
        s[at] == '\\' && s[at + 1] == 'u' && s[at + 6] == '\\' && s[at + 7] == 'u',
        unit_at(s, at + 2) == Some(0xd800 + high),
        unit_at(s, at + 8) == Some(0xdc00 + low),
        0 <= high < 0x400,
        0 <= low < 0x400,
    ensures
        char_at(s, at) == Some(((0x1_0000 + 0x400 * high + low) as u32 as char, at + 12)),
{
}

/// The escapes of one letter: a newline, a carriage return, a tab, a backspace,
/// a form feed, and the three characters that stand for themselves.
pub proof fn law_an_escape_of_one_letter(s: Seq<char>, at: int)
    requires
        0 <= at,
        at + 2 <= s.len(),
        s[at] == '\\',
        s[at + 1] != 'u',
    ensures
        s[at + 1] == 'n' ==> char_at(s, at) == Some((10u8 as char, at + 2)),
        s[at + 1] == 'r' ==> char_at(s, at) == Some((13u8 as char, at + 2)),
        s[at + 1] == 't' ==> char_at(s, at) == Some((9u8 as char, at + 2)),
        s[at + 1] == 'b' ==> char_at(s, at) == Some((8u8 as char, at + 2)),
        s[at + 1] == 'f' ==> char_at(s, at) == Some((12u8 as char, at + 2)),
        seq!['"', '\\', '/'].contains(s[at + 1]) ==> char_at(s, at) == Some((s[at + 1], at + 2)),
        !seq!['n', 'r', 't', 'b', 'f', '"', '\\', '/'].contains(s[at + 1]) ==> char_at(
            s,
            at,
        ).is_none(),
{
    let all = seq!['n', 'r', 't', 'b', 'f', '"', '\\', '/'];
    assert(all[0] == 'n' && all[1] == 'r' && all[2] == 't' && all[3] == 'b' && all[4] == 'f'
        && all[5] == '"' && all[6] == '\\' && all[7] == '/');
}

} // verus!

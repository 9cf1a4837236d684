//! Several edits of one text, applied back to front so that earlier offsets
//! stay valid.

use vstd::prelude::*;
use vstd::utf8::*;

use crate::sorting::{self, Keyed};
use crate::text;

verus! {

broadcast use {vstd::seq_lib::group_seq_properties, vstd::utf8::group_utf8_lib};

/// Bytes to replace, and with what, as plain values.
#[verifier::ext_equal]
pub struct Change {
    pub start: int,
    pub end: int,
    pub text: Seq<char>,
}

/// One edit to make to a text.
pub struct Edit {
    pub start: usize,
    pub end: usize,
    pub text: String,
}

impl View for Edit {
    type V = Change;

    open spec fn view(&self) -> Change {
        Change { start: self.start as int, end: self.end as int, text: self.text@ }
    }
}

/// The edits of a list as plain values.
pub open spec fn changes(list: Seq<Edit>) -> Seq<Change> {
    list.map_values(|edit: Edit| edit@)
}

/// Edits are ordered from the back of the text to the front.
pub open spec fn back_to_front() -> spec_fn(Change) -> int {
    |change: Change| 0xffff_ffff_ffff_ffff - change.start
}

impl Keyed for Edit {
    open spec fn rank(&self) -> int {
        0xffff_ffff_ffff_ffff - self.start
    }

    fn key(&self) -> (key: u128) {
        0xffff_ffff_ffff_ffffu128 - self.start as u128
    }
}

/// The text after one edit, when the edit cuts it at characters.
pub open spec fn edited(s: Seq<char>, change: Change) -> Option<Seq<char>> {
    if text::sliced(s, change.start, change.end).is_some() {
        Some(text::spliced(s, change.start, change.end, change.text))
    } else {
        None
    }
}

/// The text after these edits, one after the other, when each of them cuts what
/// it finds at characters.
pub open spec fn applied(s: Seq<char>, list: Seq<Change>) -> Option<Seq<char>>
    decreases list.len(),
{
    if list.len() == 0 {
        Some(s)
    } else {
        match applied(s, list.drop_last()) {
            Some(so_far) => edited(so_far, list.last()),
            None => None,
        }
    }
}

/// The text after these edits, the last in the text first.
pub open spec fn applied_back_to_front(s: Seq<char>, list: Seq<Change>) -> Option<Seq<char>> {
    applied(s, sorting::in_order(list, back_to_front()))
}

proof fn lemma_failed_stays_failed(s: Seq<char>, list: Seq<Change>, upto: int)
    requires
        0 <= upto <= list.len(),
        applied(s, list.subrange(0, upto)).is_none(),
    ensures
        applied(s, list).is_none(),
    decreases list.len() - upto,
{
    if upto < list.len() {
        assert(list.subrange(0, upto + 1).drop_last() =~= list.subrange(0, upto));
        lemma_failed_stays_failed(s, list, upto + 1);
    } else {
        assert(list.subrange(0, upto) =~= list);
    }
}

/// Applies edits from the back of a text to its front, or says that one of them
/// does not cut the text at characters.
pub fn apply(s: &str, list: Vec<Edit>) -> (out: Option<String>)
    ensures
        out.is_some() == applied_back_to_front(s@, changes(list@)).is_some(),
        out.is_some() ==> out.unwrap()@ == applied_back_to_front(s@, changes(list@)).unwrap(),
{
    let ghost all = list@;
    let ordered: Vec<Edit> = sorting::sort(list);
    proof {
        let picture = |edit: Edit| edit@;
        sorting::lemma_sorting_pictures(all, sorting::ranks::<Edit>(), picture, back_to_front());
    }
    let ghost queue = changes(ordered@);
    let mut out: String = text::owned(s);
    let mut at: usize = 0;
    while at < ordered.len()
        invariant
            at <= ordered@.len(),
            queue == changes(ordered@),
            queue == sorting::in_order(changes(list@), back_to_front()),
            applied(s@, queue.subrange(0, at as int)) == Some(out@),
        decreases ordered@.len() - at,
    {
        let edit: &Edit = &ordered[at];
        assert(queue.subrange(0, at + 1).drop_last() =~= queue.subrange(0, at as int));
        assert(queue.subrange(0, at + 1).last() == edit@);
        if text::slice(out.as_str(), edit.start, edit.end).is_none() {
            proof {
                lemma_failed_stays_failed(s@, queue, at + 1);
            }
            return None;
        }
        out = text::splice(out.as_str(), edit.start, edit.end, edit.text.as_str());
        at += 1;
    }
    assert(queue.subrange(0, at as int) =~= queue);
    Some(out)
}

/// Bytes with ranges replaced, all of them at once: what lies between the
/// ranges stands unchanged, and each range holds its replacement. The changes
/// come from the front of the text to the back.
pub open spec fn woven(bytes: Seq<u8>, list: Seq<Change>, from: int) -> Seq<u8>
    decreases list.len(),
{
    if list.len() == 0 {
        bytes.subrange(from, bytes.len() as int)
    } else {
        bytes.subrange(from, list[0].start) + encode_utf8(list[0].text) + woven(
            bytes,
            list.drop_first(),
            list[0].end,
        )
    }
}

/// Whether changes come from the front to the back without touching each
/// other's bytes.
pub open spec fn is_apart(list: Seq<Change>) -> bool {
    forall|i: int, j: int|
        0 <= i < j < list.len() ==> (#[trigger] list[i]).end <= (#[trigger] list[j]).start
}

/// Whether every change cuts the text at characters.
pub open spec fn all_fit(s: Seq<char>, list: Seq<Change>) -> bool {
    forall|i: int|
        0 <= i < list.len() ==> text::sliced(
            s,
            (#[trigger] list[i]).start,
            list[i].end,
        ).is_some()
}

proof fn lemma_woven_prefix(bytes: Seq<u8>, list: Seq<Change>, from: int, to: int)
    requires
        0 <= from <= to <= bytes.len(),
        list.len() > 0 ==> to <= list[0].start <= bytes.len(),
    ensures
        woven(bytes, list, from) == bytes.subrange(from, to) + woven(bytes, list, to),
{
    if list.len() == 0 {
        assert(bytes.subrange(from, bytes.len() as int) =~= bytes.subrange(from, to)
            + bytes.subrange(to, bytes.len() as int));
    } else {
        let rest = encode_utf8(list[0].text) + woven(bytes, list.drop_first(), list[0].end);
        assert(bytes.subrange(from, list[0].start) =~= bytes.subrange(from, to) + bytes.subrange(
            to,
            list[0].start,
        ));
        assert(woven(bytes, list, from) =~= bytes.subrange(from, list[0].start) + rest);
        assert(woven(bytes, list, to) =~= bytes.subrange(to, list[0].start) + rest);
        assert(woven(bytes, list, from) =~= bytes.subrange(from, to) + woven(bytes, list, to));
    }
}

pub proof fn lemma_boundary_in_shared_prefix(a: Seq<u8>, b: Seq<u8>, shared: int, at: int)
    requires
        valid_utf8(a),
        valid_utf8(b),
        0 <= at <= shared <= a.len(),
        shared <= b.len(),
        a.subrange(0, shared) == b.subrange(0, shared),
        is_char_boundary(a, shared),
        is_char_boundary(b, shared),
    ensures
        is_char_boundary(a, at) == is_char_boundary(b, at),
{
    if at < shared {
        assert(a.subrange(0, shared)[at] == a[at]);
        assert(b.subrange(0, shared)[at] == b[at]);
        is_char_boundary_iff_not_is_continuation_byte(a, at);
        is_char_boundary_iff_not_is_continuation_byte(b, at);
    }
}

/// The list from back to front.
pub open spec fn reversed(list: Seq<Change>) -> Seq<Change> {
    list.reverse()
}

/// Edits that fit a text and keep out of each other's way, applied from the
/// back to the front, all go through, and what comes out is the text with every
/// range replaced at once: nothing outside the ranges has moved or changed.
pub proof fn law_edits_apart_are_all_made(s: Seq<char>, list: Seq<Change>)
    requires
        is_apart(list),
        all_fit(s, list),
    ensures
        applied(s, reversed(list)) matches Some(out) && encode_utf8(out) == woven(
            encode_utf8(s),
            list,
            0,
        ),
    decreases list.len(),
{
    let bytes = encode_utf8(s);
    if list.len() == 0 {
        assert(reversed(list) =~= Seq::<Change>::empty());
        assert(bytes.subrange(0, bytes.len() as int) =~= bytes);
    } else {
        let rest = list.drop_first();
        let first = list[0];
        assert forall|i: int, j: int| 0 <= i < j < rest.len() implies (#[trigger] rest[i]).end <= (
        #[trigger] rest[j]).start by {
            assert(rest[i] == list[i + 1] && rest[j] == list[j + 1]);
        }
        assert forall|i: int| 0 <= i < rest.len() implies text::sliced(
            s,
            (#[trigger] rest[i]).start,
            rest[i].end,
        ).is_some() by {
            assert(rest[i] == list[i + 1]);
        }
        law_edits_apart_are_all_made(s, rest);
        let back = reversed(list);
        assert(back.drop_last() =~= reversed(rest));
        assert(back.last() == first);
        let so_far = applied(s, reversed(rest)).unwrap();
        let shared = if rest.len() > 0 {
            rest[0].start
        } else {
            bytes.len() as int
        };
        assert(text::sliced(s, first.start, first.end).is_some());
        assert(first.end <= shared) by {
            if rest.len() > 0 {
                assert(rest[0] == list[1]);
            }
        }
        assert(shared <= bytes.len() && is_char_boundary(bytes, shared)) by {
            is_char_boundary_start_end_of_seq(bytes);
            if rest.len() > 0 {
                assert(text::sliced(s, rest[0].start, rest[0].end).is_some());
            }
        }
        lemma_woven_prefix(bytes, rest, 0, shared);
        lemma_woven_prefix(bytes, rest, first.end, shared);
        let after = encode_utf8(so_far);
        assert(after.subrange(0, shared) =~= bytes.subrange(0, shared));
        assert(is_char_boundary(after, shared)) by {
            lemma_prefix_boundary(bytes, after, shared);
        }
        lemma_boundary_in_shared_prefix(bytes, after, shared, first.start);
        lemma_boundary_in_shared_prefix(bytes, after, shared, first.end);
        text::lemma_spliced_bytes(so_far, first.start, first.end, first.text);
        let out = text::spliced(so_far, first.start, first.end, first.text);
        assert(after.subrange(0, first.start) =~= bytes.subrange(0, first.start)) by {
            assert(after.subrange(0, shared).subrange(0, first.start) =~= after.subrange(
                0,
                first.start,
            ));
            assert(bytes.subrange(0, shared).subrange(0, first.start) =~= bytes.subrange(
                0,
                first.start,
            ));
        }
        assert(after.subrange(first.end, after.len() as int) =~= woven(bytes, rest, first.end)) by {
            let tail = woven(bytes, rest, shared);
            assert(after =~= bytes.subrange(0, shared) + tail);
            assert(after.subrange(first.end, after.len() as int) =~= bytes.subrange(
                first.end,
                shared,
            ) + tail);
        }
        assert(encode_utf8(out) =~= woven(bytes, list, 0));
    }
}

proof fn lemma_prefix_boundary(a: Seq<u8>, b: Seq<u8>, at: int)
    requires
        valid_utf8(a),
        valid_utf8(b),
        0 <= at <= a.len(),
        at <= b.len(),
        a.subrange(0, at) == b.subrange(0, at),
        is_char_boundary(a, at),
    ensures
        is_char_boundary(b, at),
    decreases a.len(),
{
    if at > 0 {
        let step = length_of_first_scalar(a);
        assert(a.subrange(0, at)[0] == a[0] && b.subrange(0, at)[0] == b[0]);
        reveal_with_fuel(is_char_boundary, 2);
        assert(step <= at) by {
            if at < step {
                is_char_boundary_iff_not_is_continuation_byte(a, at);
                assert(is_continuation_byte(a[at]));
            }
        }
        assert(length_of_first_scalar(b) == step);
        let rest_a = pop_first_scalar(a);
        let rest_b = pop_first_scalar(b);
        assert(rest_a.subrange(0, at - step) =~= a.subrange(0, at).subrange(step, at));
        assert(rest_b.subrange(0, at - step) =~= b.subrange(0, at).subrange(step, at));
        lemma_prefix_boundary(rest_a, rest_b, at - step);
    }
}

} // verus!

//! Sets of names, kept as lists in ascending order.

use vstd::prelude::*;

use crate::text;

verus! {

broadcast use vstd::seq_lib::group_seq_properties;

/// Whether a list is a set: ascending, with nothing in it twice.
pub open spec fn is_sorted(list: Seq<Seq<char>>) -> bool {
    forall|i: int, j: int|
        0 <= i < j < list.len() ==> text::before(#[trigger] list[i], #[trigger] list[j])
}

/// The set with one more name in it.
pub open spec fn with_name(list: Seq<Seq<char>>, name: Seq<char>) -> Seq<Seq<char>>
    decreases list.len(),
{
    if list.len() == 0 || text::before(list.last(), name) {
        list.push(name)
    } else if list.last() == name {
        list
    } else {
        with_name(list.drop_last(), name).push(list.last())
    }
}

/// Of three names, when the first comes before the second and that before the
/// third, the first comes before the third.
pub proof fn lemma_before_is_transitive(a: Seq<char>, b: Seq<char>, c: Seq<char>)
    requires
        text::before(a, b),
        text::before(b, c),
    ensures
        text::before(a, c),
    decreases a.len(),
{
    if a.len() > 0 && a[0] == b[0] && b[0] == c[0] {
        lemma_before_is_transitive(a.drop_first(), b.drop_first(), c.drop_first());
    }
}

/// Of three names, when the second does not come before the first, nor the third
/// before the second, the third does not come before the first.
pub proof fn lemma_not_before(a: Seq<char>, b: Seq<char>, c: Seq<char>)
    requires
        !text::before(b, a),
        !text::before(c, b),
    ensures
        !text::before(c, a),
{
    if text::before(c, a) {
        text::lemma_before_is_an_order(a, b);
        if a != b {
            lemma_before_is_transitive(c, a, b);
        }
    }
}

/// Adding a name adds that name and nothing else, and leaves a set.
pub proof fn lemma_with_name(list: Seq<Seq<char>>, name: Seq<char>)
    requires
        is_sorted(list),
    ensures
        is_sorted(with_name(list, name)),
        forall|other: Seq<char>| #[trigger]
            with_name(list, name).contains(other) <==> list.contains(other) || other == name,
        with_name(list, name).len() > 0,
        with_name(list, name).last() == name || (list.len() > 0 && with_name(list, name).last()
            == list.last()),
    decreases list.len(),
{
    let out = with_name(list, name);
    if list.len() == 0 || text::before(list.last(), name) {
        assert forall|i: int, j: int| 0 <= i < j < out.len() implies text::before(
            #[trigger] out[i],
            #[trigger] out[j],
        ) by {
            if j == out.len() - 1 && i < list.len() - 1 {
                assert(text::before(list[i], list[list.len() - 1]));
                lemma_before_is_transitive(list[i], list.last(), name);
            }
        }
        assert forall|other: Seq<char>| out.contains(other) <==> list.contains(other) || other
            == name by {
            if list.contains(other) {
                let k = choose|k: int| 0 <= k < list.len() && list[k] == other;
                assert(out[k] == other);
            }
            if other == name {
                assert(out[list.len() as int] == name);
            }
        }
    } else if list.last() == name {
        assert(list[list.len() - 1] == name);
    } else {
        let shorter = list.drop_last();
        lemma_with_name(shorter, name);
        text::lemma_before_is_an_order(list.last(), name);
        let inside = with_name(shorter, name);
        assert(text::before(inside.last(), list.last())) by {
            if shorter.len() > 0 {
                assert(shorter.last() == list[list.len() - 2]);
                assert(text::before(list[list.len() - 2], list[list.len() - 1]));
            }
        }
        assert forall|i: int, j: int| 0 <= i < j < out.len() implies text::before(
            #[trigger] out[i],
            #[trigger] out[j],
        ) by {
            if j == out.len() - 1 && i < inside.len() - 1 {
                assert(text::before(inside[i], inside[inside.len() - 1]));
                lemma_before_is_transitive(inside[i], inside.last(), list.last());
            } else if j < out.len() - 1 {
                assert(text::before(inside[i], inside[j]));
            }
        }
        assert forall|other: Seq<char>| out.contains(other) <==> list.contains(other) || other
            == name by {
            if out.contains(other) {
                let k = choose|k: int| 0 <= k < out.len() && out[k] == other;
                if k < inside.len() {
                    assert(inside[k] == other);
                    assert(inside.contains(other));
                    if other != name {
                        assert(shorter.contains(other));
                        let m = choose|m: int| 0 <= m < shorter.len() && shorter[m] == other;
                        assert(list[m] == other);
                    }
                } else {
                    assert(list[list.len() - 1] == other);
                }
            }
            if list.contains(other) {
                let m = choose|m: int| 0 <= m < list.len() && list[m] == other;
                if m < shorter.len() {
                    assert(shorter[m] == other);
                    assert(shorter.contains(other));
                    assert(inside.contains(other));
                    let k = choose|k: int| 0 <= k < inside.len() && inside[k] == other;
                    assert(out[k] == other);
                } else {
                    assert(out[out.len() - 1] == other);
                }
            }
            if other == name {
                assert(inside.contains(name));
                let k = choose|k: int| 0 <= k < inside.len() && inside[k] == name;
                assert(out[k] == name);
            }
        }
    }
}

proof fn lemma_with_name_at(list: Seq<Seq<char>>, name: Seq<char>, at: int)
    requires
        0 <= at <= list.len(),
        at > 0 ==> text::before(list[at - 1], name),
        forall|i: int|
            at <= i < list.len() ==> !text::before(#[trigger] list[i], name) && list[i] != name,
    ensures
        with_name(list, name) == list.insert(at, name),
    decreases list.len(),
{
    if at == list.len() {
        assert(list.insert(at, name) =~= list.push(name));
    } else {
        assert(list[list.len() - 1] != name);
        lemma_with_name_at(list.drop_last(), name, at);
        assert(list.insert(at, name) =~= list.drop_last().insert(at, name).push(list.last()));
    }
}

proof fn lemma_with_name_known(list: Seq<Seq<char>>, name: Seq<char>, at: int)
    requires
        0 <= at < list.len(),
        list[at] == name,
        forall|i: int|
            at < i < list.len() ==> !text::before(#[trigger] list[i], name) && list[i] != name,
    ensures
        with_name(list, name) == list,
    decreases list.len(),
{
    text::lemma_before_is_an_order(name, name);
    if at < list.len() - 1 {
        assert(list[list.len() - 1] != name);
        lemma_with_name_known(list.drop_last(), name, at);
        assert(list.drop_last().push(list.last()) =~= list);
    }
}

/// Puts one more name into a set, and says whether it was new.
pub fn add_name(list: &mut Vec<String>, name: &str) -> (new: bool)
    requires
        is_sorted(text::texts(old(list)@)),
    ensures
        text::texts(final(list)@) == with_name(text::texts(old(list)@), name@),
        new == !text::texts(old(list)@).contains(name@),
{
    let ghost all = text::texts(list@);
    let mut at: usize = list.len();
    let mut known: bool = false;
    while at > 0 && !known && !text::comes_before(list[at - 1].as_str(), name)
        invariant
            at <= list@.len(),
            list@ == old(list)@,
            all == text::texts(list@),
            known ==> at < list@.len() && all[at as int] == name@,
            !known ==> forall|i: int|
                at <= i < all.len() ==> !text::before(#[trigger] all[i], name@) && all[i] != name@,
            known ==> forall|i: int|
                at < i < all.len() ==> !text::before(#[trigger] all[i], name@) && all[i] != name@,
        decreases at,
    {
        at -= 1;
        assert(all[at as int] == list@[at as int]@);
        known = text::same(list[at].as_str(), name);
    }
    if known {
        assert(all.contains(name@)) by {
            assert(all[at as int] == name@);
        }
        proof {
            lemma_with_name_known(all, name@, at as int);
        }
        false
    } else {
        assert(!all.contains(name@)) by {
            if all.contains(name@) {
                let k = choose|k: int| 0 <= k < all.len() && all[k] == name@;
                assert(k < at);
                assert(text::before(all[at - 1], name@)) by {
                    assert(all[at - 1] == list@[at - 1]@);
                }
                text::lemma_before_is_an_order(name@, name@);
                if k < at - 1 {
                    lemma_before_is_transitive(all[k], all[at - 1], name@);
                }
            }
        }
        proof {
            if at > 0 {
                assert(all[at - 1] == list@[at - 1]@);
            }
            lemma_with_name_at(all, name@, at as int);
        }
        let copy: String = text::owned(name);
        list.insert(at, copy);
        assert(text::texts(list@) =~= all.insert(at as int, name@));
        true
    }
}

} // verus!

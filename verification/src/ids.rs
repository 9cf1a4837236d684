//! Sets of ids, kept as lists in ascending order.

use vstd::prelude::*;

verus! {

broadcast use vstd::seq_lib::group_seq_properties;

/// Whether a list is a set: ascending, with nothing in it twice.
pub open spec fn is_set(list: Seq<i64>) -> bool {
    forall|i: int, j: int| 0 <= i < j < list.len() ==> #[trigger] list[i] < #[trigger] list[j]
}

/// The set with one more id in it.
pub open spec fn with_id(list: Seq<i64>, id: i64) -> Seq<i64>
    decreases list.len(),
{
    if list.len() == 0 || list.last() < id {
        list.push(id)
    } else if list.last() == id {
        list
    } else {
        with_id(list.drop_last(), id).push(list.last())
    }
}

/// The set with all of these ids in it.
pub open spec fn with_ids(list: Seq<i64>, more: Seq<i64>) -> Seq<i64>
    decreases more.len(),
{
    if more.len() == 0 {
        list
    } else {
        with_id(with_ids(list, more.drop_last()), more.last())
    }
}

/// Whether two sets have nothing in common.
pub open spec fn are_disjoint(a: Seq<i64>, b: Seq<i64>) -> bool {
    forall|id: i64| !(#[trigger] a.contains(id) && b.contains(id))
}

/// Adding an id adds that id and nothing else, and leaves a set.
pub proof fn lemma_with_id(list: Seq<i64>, id: i64)
    requires
        is_set(list),
    ensures
        is_set(with_id(list, id)),
        forall|other: i64| #[trigger]
            with_id(list, id).contains(other) <==> list.contains(other) || other == id,
        with_id(list, id).len() > 0,
        with_id(list, id).last() == id || (list.len() > 0 && with_id(list, id).last()
            == list.last()),
    decreases list.len(),
{
    let out = with_id(list, id);
    if list.len() == 0 || list.last() < id {
        assert forall|other: i64| out.contains(other) <==> list.contains(other) || other == id by {
            if list.contains(other) {
                let k = choose|k: int| 0 <= k < list.len() && list[k] == other;
                assert(out[k] == other);
            }
            if other == id {
                assert(out[list.len() as int] == id);
            }
        }
    } else if list.last() == id {
        assert(list[list.len() - 1] == id);
    } else {
        let shorter = list.drop_last();
        lemma_with_id(shorter, id);
        let inside = with_id(shorter, id);
        assert(inside.last() < list.last()) by {
            if shorter.len() > 0 {
                assert(shorter.last() == list[list.len() - 2]);
            }
        }
        assert forall|i: int, j: int| 0 <= i < j < out.len() implies #[trigger] out[i]
            < #[trigger] out[j] by {
            if j == out.len() - 1 {
                assert(inside[i] <= inside.last());
            }
        }
        assert forall|other: i64| out.contains(other) <==> list.contains(other) || other == id by {
            if out.contains(other) {
                let k = choose|k: int| 0 <= k < out.len() && out[k] == other;
                if k < inside.len() {
                    assert(inside[k] == other);
                    assert(inside.contains(other));
                    if other != id {
                        assert(shorter.contains(other));
                        let m = choose|m: int| 0 <= m < shorter.len() && shorter[m] == other;
                        assert(list[m] == other);
                    }
                } else {
                    assert(list[list.len() - 1] == other);
                }
            }
            if list.contains(other) {
                let m = choose|m: int| 0 <= m < list.len() && list[m] == other;
                if m < shorter.len() {
                    assert(shorter[m] == other);
                    assert(shorter.contains(other));
                    assert(inside.contains(other));
                    let k = choose|k: int| 0 <= k < inside.len() && inside[k] == other;
                    assert(out[k] == other);
                } else {
                    assert(out[out.len() - 1] == other);
                }
            }
            if other == id {
                assert(inside.contains(id));
                let k = choose|k: int| 0 <= k < inside.len() && inside[k] == id;
                assert(out[k] == id);
            }
        }
    }
}

/// Adding ids adds those ids and nothing else, and leaves a set.
pub proof fn lemma_with_ids(list: Seq<i64>, more: Seq<i64>)
    requires
        is_set(list),
    ensures
        is_set(with_ids(list, more)),
        forall|id: i64| #[trigger]
            with_ids(list, more).contains(id) <==> list.contains(id) || more.contains(id),
    decreases more.len(),
{
    if more.len() > 0 {
        lemma_with_ids(list, more.drop_last());
        lemma_with_id(with_ids(list, more.drop_last()), more.last());
        assert forall|id: i64|
            with_ids(list, more).contains(id) <==> list.contains(id) || more.contains(id) by {
            if more.contains(id) {
                let k = more.index_of(id);
                if k < more.len() - 1 {
                    assert(more.drop_last()[k] == id);
                    assert(more.drop_last().contains(id));
                }
            }
            if more.drop_last().contains(id) {
                let k = more.drop_last().index_of(id);
                assert(more[k] == id);
            }
            assert(more[more.len() - 1] == more.last());
        }
    }
}

proof fn lemma_with_id_at(list: Seq<i64>, id: i64, at: int)
    requires
        0 <= at <= list.len(),
        at > 0 ==> list[at - 1] < id,
        forall|i: int| at <= i < list.len() ==> #[trigger] list[i] > id,
    ensures
        with_id(list, id) == list.insert(at, id),
    decreases list.len(),
{
    if at == list.len() {
        assert(list.insert(at, id) =~= list.push(id));
    } else {
        assert(list[list.len() - 1] > id);
        lemma_with_id_at(list.drop_last(), id, at);
        assert(list.insert(at, id) =~= list.drop_last().insert(at, id).push(list.last()));
    }
}

proof fn lemma_with_id_known(list: Seq<i64>, id: i64, at: int)
    requires
        0 <= at < list.len(),
        list[at] == id,
        forall|i: int| at < i < list.len() ==> #[trigger] list[i] > id,
    ensures
        with_id(list, id) == list,
    decreases list.len(),
{
    if at < list.len() - 1 {
        assert(list[list.len() - 1] > id);
        lemma_with_id_known(list.drop_last(), id, at);
        assert(list.drop_last().push(list.last()) =~= list);
    }
}

/// Adding an id a second time changes nothing.
pub proof fn lemma_with_id_twice(list: Seq<i64>, id: i64)
    requires
        is_set(list),
    ensures
        with_id(with_id(list, id), id) == with_id(list, id),
{
    lemma_with_id(list, id);
    let out = with_id(list, id);
    assert(out.contains(id));
    let at = choose|at: int| 0 <= at < out.len() && out[at] == id;
    lemma_with_id_known(out, id, at);
}

/// Puts one more id into a set.
pub fn add_id(list: &mut Vec<i64>, id: i64)
    ensures
        final(list)@ == with_id(old(list)@, id),
{
    let mut at: usize = list.len();
    while at > 0 && list[at - 1] > id
        invariant
            at <= list@.len(),
            list@ == old(list)@,
            forall|i: int| at <= i < list@.len() ==> #[trigger] list@[i] > id,
        decreases at,
    {
        at -= 1;
    }
    if at > 0 && list[at - 1] == id {
        proof {
            lemma_with_id_known(list@, id, at - 1);
        }
    } else {
        proof {
            lemma_with_id_at(list@, id, at as int);
        }
        list.insert(at, id);
    }
}

/// Puts all of these ids into a set.
pub fn add_ids(list: &mut Vec<i64>, more: &[i64])
    ensures
        final(list)@ == with_ids(old(list)@, more@),
{
    let mut at: usize = 0;
    assert(more@.subrange(0, 0) =~= Seq::<i64>::empty());
    while at < more.len()
        invariant
            at <= more@.len(),
            list@ == with_ids(old(list)@, more@.subrange(0, at as int)),
        decreases more@.len() - at,
    {
        assert(more@.subrange(0, at + 1).drop_last() =~= more@.subrange(0, at as int));
        add_id(list, more[at]);
        at += 1;
    }
    assert(more@.subrange(0, at as int) =~= more@);
}

/// Whether an id is in a list.
pub fn has_id(list: &[i64], id: i64) -> (yes: bool)
    ensures
        yes == list@.contains(id),
{
    let mut at: usize = 0;
    while at < list.len()
        invariant
            at <= list@.len(),
            forall|k: int| 0 <= k < at ==> list@[k] != id,
        decreases list@.len() - at,
    {
        if list[at] == id {
            return true;
        }
        at += 1;
    }
    false
}

/// Whether two sets have nothing in common.
pub fn disjoint(a: &[i64], b: &[i64]) -> (yes: bool)
    requires
        is_set(a@),
        is_set(b@),
    ensures
        yes == are_disjoint(a@, b@),
{
    let mut i: usize = 0;
    let mut j: usize = 0;
    while i < a.len() && j < b.len()
        invariant
            i <= a@.len(),
            j <= b@.len(),
            is_set(a@),
            is_set(b@),
            forall|k: int| 0 <= k < i ==> !b@.contains(#[trigger] a@[k]),
            forall|k: int| 0 <= k < j ==> !a@.contains(#[trigger] b@[k]),
        decreases a@.len() - i + b@.len() - j,
    {
        if a[i] == b[j] {
            assert(a@.contains(a@[i as int]) && b@.contains(b@[j as int]));
            return false;
        }
        if a[i] < b[j] {
            assert(!b@.contains(a@[i as int])) by {
                if b@.contains(a@[i as int]) {
                    let m = b@.index_of(a@[i as int]);
                    assert(b@[m] == a@[i as int]);
                    if m < j {
                        assert(a@.contains(b@[m]));
                    }
                }
            }
            i += 1;
        } else {
            assert(!a@.contains(b@[j as int])) by {
                if a@.contains(b@[j as int]) {
                    let m = a@.index_of(b@[j as int]);
                    assert(a@[m] == b@[j as int]);
                    if m < i {
                        assert(b@.contains(a@[m]));
                    }
                }
            }
            j += 1;
        }
    }
    proof {
        assert forall|id: i64| !(#[trigger] a@.contains(id) && b@.contains(id)) by {
            if a@.contains(id) && b@.contains(id) {
                let k = a@.index_of(id);
                let m = b@.index_of(id);
                assert(a@[k] == id && b@[m] == id);
                if i == a@.len() {
                    assert(!b@.contains(a@[k]));
                } else {
                    assert(!a@.contains(b@[m]));
                }
            }
        }
    }
    true
}

} // verus!

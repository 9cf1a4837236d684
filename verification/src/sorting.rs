//! One stable sort, for everything that is put in order.

use vstd::multiset::Multiset;
use vstd::prelude::*;

verus! {

broadcast use vstd::seq_lib::group_seq_properties;

/// Something that is ordered by a number.
pub trait Keyed: Sized {
    spec fn rank(&self) -> int;

    fn key(&self) -> (key: u128)
        ensures
            key as int == self.rank(),
    ;
}

/// An item put into an ordered list, behind everything that does not rank above
/// it.
pub open spec fn placed<T>(list: Seq<T>, item: T, rank: spec_fn(T) -> int) -> Seq<T>
    decreases list.len(),
{
    if list.len() == 0 || rank(list.last()) <= rank(item) {
        list.push(item)
    } else {
        placed(list.drop_last(), item, rank).push(list.last())
    }
}

/// The list in order: items of one rank keep the order they came in.
pub open spec fn in_order<T>(list: Seq<T>, rank: spec_fn(T) -> int) -> Seq<T>
    decreases list.len(),
{
    if list.len() == 0 {
        list
    } else {
        placed(in_order(list.drop_last(), rank), list.last(), rank)
    }
}

/// Whether a list never steps down.
pub open spec fn is_ordered<T>(list: Seq<T>, rank: spec_fn(T) -> int) -> bool {
    forall|i: int, j: int|
        0 <= i <= j < list.len() ==> rank(#[trigger] list[i]) <= rank(#[trigger] list[j])
}

/// The ranks that a type gives its own values.
pub open spec fn ranks<T: Keyed>() -> spec_fn(T) -> int {
    |item: T| item.rank()
}

proof fn lemma_placed<T>(list: Seq<T>, item: T, rank: spec_fn(T) -> int)
    requires
        is_ordered(list, rank),
    ensures
        is_ordered(placed(list, item, rank), rank),
        placed(list, item, rank).len() == list.len() + 1,
        placed(list, item, rank).to_multiset() == list.to_multiset().insert(item),
        placed(list, item, rank).last() == item || (list.len() > 0 && placed(
            list,
            item,
            rank,
        ).last() == list.last() && rank(list.last()) > rank(item)),
    decreases list.len(),
{
    broadcast use vstd::seq_lib::group_to_multiset_ensures;

    if list.len() == 0 || rank(list.last()) <= rank(item) {
    } else {
        lemma_placed(list.drop_last(), item, rank);
        let shorter = placed(list.drop_last(), item, rank);
        assert(list =~= list.drop_last().push(list.last()));
        assert(rank(shorter.last()) <= rank(list.last())) by {
            if list.drop_last().len() > 0 {
                assert(list.drop_last().last() == list[list.len() - 2]);
            }
        }
        assert(is_ordered(shorter.push(list.last()), rank));
        assert(placed(list, item, rank).to_multiset() =~= list.to_multiset().insert(item));
    }
}

/// Sorting gives a list in order that holds exactly what the list held.
pub proof fn law_sorting_orders_and_keeps_everything<T>(list: Seq<T>, rank: spec_fn(T) -> int)
    ensures
        is_ordered(in_order(list, rank), rank),
        in_order(list, rank).len() == list.len(),
        in_order(list, rank).to_multiset() == list.to_multiset(),
    decreases list.len(),
{
    broadcast use vstd::seq_lib::group_to_multiset_ensures;

    if list.len() > 0 {
        law_sorting_orders_and_keeps_everything(list.drop_last(), rank);
        lemma_placed(in_order(list.drop_last(), rank), list.last(), rank);
        assert(list =~= list.drop_last().push(list.last()));
    }
}

/// What is already in order stays as it is.
pub proof fn law_sorting_leaves_an_ordered_list_alone<T>(list: Seq<T>, rank: spec_fn(T) -> int)
    requires
        is_ordered(list, rank),
    ensures
        in_order(list, rank) == list,
    decreases list.len(),
{
    if list.len() > 0 {
        law_sorting_leaves_an_ordered_list_alone(list.drop_last(), rank);
        assert(list =~= list.drop_last().push(list.last()));
        if list.len() > 1 {
            assert(list.drop_last().last() == list[list.len() - 2]);
        }
    }
}

/// Sorting by a rank that can be read off a picture of each item, and then
/// taking the pictures, is taking the pictures and then sorting.
pub proof fn lemma_sorting_pictures<T, U>(
    list: Seq<T>,
    rank: spec_fn(T) -> int,
    picture: spec_fn(T) -> U,
    seen: spec_fn(U) -> int,
)
    requires
        forall|item: T| #[trigger] seen(picture(item)) == rank(item),
    ensures
        in_order(list, rank).map_values(picture) == in_order(list.map_values(picture), seen),
    decreases list.len(),
{
    if list.len() > 0 {
        lemma_sorting_pictures(list.drop_last(), rank, picture, seen);
        assert(list.map_values(picture).drop_last() =~= list.drop_last().map_values(picture));
        lemma_placing_pictures(
            in_order(list.drop_last(), rank),
            list.last(),
            rank,
            picture,
            seen,
        );
    } else {
        assert(in_order(list, rank).map_values(picture) =~= in_order(
            list.map_values(picture),
            seen,
        ));
    }
}

proof fn lemma_placing_pictures<T, U>(
    list: Seq<T>,
    item: T,
    rank: spec_fn(T) -> int,
    picture: spec_fn(T) -> U,
    seen: spec_fn(U) -> int,
)
    requires
        forall|item: T| #[trigger] seen(picture(item)) == rank(item),
    ensures
        placed(list, item, rank).map_values(picture) == placed(
            list.map_values(picture),
            picture(item),
            seen,
        ),
    decreases list.len(),
{
    let pictures = list.map_values(picture);
    if list.len() > 0 {
        assert(pictures.last() == picture(list.last()));
        assert(seen(picture(list.last())) == rank(list.last()));
    }
    assert(seen(picture(item)) == rank(item));
    if list.len() == 0 || rank(list.last()) <= rank(item) {
        assert(list.push(item).map_values(picture) =~= pictures.push(picture(item)));
    } else {
        lemma_placing_pictures(list.drop_last(), item, rank, picture, seen);
        assert(pictures.drop_last() =~= list.drop_last().map_values(picture));
        let shorter = placed(list.drop_last(), item, rank);
        assert(shorter.push(list.last()).map_values(picture) =~= shorter.map_values(picture).push(
            picture(list.last()),
        ));
    }
}

proof fn lemma_placed_at<T>(list: Seq<T>, item: T, at: int, rank: spec_fn(T) -> int)
    requires
        0 <= at <= list.len(),
        at > 0 ==> rank(list[at - 1]) <= rank(item),
        forall|i: int| at <= i < list.len() ==> rank(#[trigger] list[i]) > rank(item),
    ensures
        placed(list, item, rank) == list.insert(at, item),
    decreases list.len(),
{
    if at == list.len() {
        assert(list.insert(at, item) =~= list.push(item));
    } else {
        assert(rank(list[list.len() - 1]) > rank(item));
        lemma_placed_at(list.drop_last(), item, at, rank);
        assert(list.insert(at, item) =~= list.drop_last().insert(at, item).push(list.last()));
    }
}

/// Sorts a list, keeping the order of items of one rank.
pub fn sort<T: Keyed>(items: Vec<T>) -> (list: Vec<T>)
    ensures
        list@ == in_order(items@, ranks::<T>()),
{
    let ghost all = items@;
    let mut items: Vec<T> = items;
    let mut pending: Vec<T> = Vec::new();
    while items.len() > 0
        invariant
            items@ =~= all.subrange(0, items@.len() as int),
            items@.len() + pending@.len() == all.len(),
            forall|k: int|
                0 <= k < pending@.len() ==> #[trigger] pending@[k] == all[all.len() - 1 - k],
        decreases items@.len(),
    {
        match items.pop() {
            Some(item) => pending.push(item),
            None => {},
        }
    }
    let mut list: Vec<T> = Vec::new();
    while pending.len() > 0
        invariant
            pending@.len() <= all.len(),
            forall|k: int|
                0 <= k < pending@.len() ==> #[trigger] pending@[k] == all[all.len() - 1 - k],
            list@ == in_order(all.subrange(0, all.len() - pending@.len()), ranks::<T>()),
        decreases pending@.len(),
    {
        let ghost done = all.subrange(0, all.len() - pending@.len());
        let ghost next = all[all.len() - pending@.len()];
        match pending.pop() {
            Some(item) => {
                let key: u128 = item.key();
                let mut at: usize = list.len();
                while at > 0 && list[at - 1].key() > key
                    invariant
                        at <= list@.len(),
                        key as int == item.rank(),
                        forall|i: int|
                            at <= i < list@.len() ==> (#[trigger] list@[i]).rank() > item.rank(),
                    decreases at,
                {
                    at -= 1;
                }
                proof {
                    lemma_placed_at(list@, item, at as int, ranks::<T>());
                    let wider = all.subrange(0, all.len() - pending@.len());
                    assert(wider.drop_last() =~= done);
                    assert(wider.last() == next);
                }
                list.insert(at, item);
            },
            None => {},
        }
    }
    assert(all.subrange(0, all.len() as int) =~= all);
    list
}

/// There is one strict order of some values: two lists that hold the same values,
/// each with its keys ascending, are one list.
pub proof fn lemma_strict_order_is_unique<T>(a: Seq<T>, b: Seq<T>, key: spec_fn(T) -> int)
    requires
        forall|i: int, j: int| 0 <= i < j < a.len() ==> key(#[trigger] a[i]) < key(#[trigger] a[j]),
        forall|i: int, j: int| 0 <= i < j < b.len() ==> key(#[trigger] b[i]) < key(#[trigger] b[j]),
        forall|x: T| #[trigger] a.contains(x) <==> b.contains(x),
    ensures
        a == b,
    decreases a.len(),
{
    if a.len() == 0 {
        if b.len() > 0 {
            assert(b.contains(b[0]));
            assert(a.contains(b[0]));
        }
        assert(a =~= b);
    } else {
        assert(a.contains(a[0]));
        let last = a[a.len() - 1];
        assert(a.contains(last));
        assert(b.contains(last));
        let at = choose|at: int| 0 <= at < b.len() && b[at] == last;
        let other = b[b.len() - 1];
        assert(b.contains(other));
        assert(a.contains(other));
        let from = choose|from: int| 0 <= from < a.len() && a[from] == other;
        assert(key(last) <= key(other));
        assert(key(other) <= key(last));
        assert(from == a.len() - 1);
        assert(last == other);
        let fewer = a.drop_last();
        let rest = b.drop_last();
        assert forall|x: T| #[trigger] fewer.contains(x) <==> rest.contains(x) by {
            if fewer.contains(x) {
                let k = choose|k: int| 0 <= k < fewer.len() && fewer[k] == x;
                assert(a[k] == x && key(a[k]) < key(a[a.len() - 1]));
                assert(a.contains(x));
                assert(x != last);
                assert(b.contains(x));
                let l = choose|l: int| 0 <= l < b.len() && b[l] == x;
                assert(l != b.len() - 1);
                assert(rest[l] == x);
            }
            if rest.contains(x) {
                let k = choose|k: int| 0 <= k < rest.len() && rest[k] == x;
                assert(b[k] == x && key(b[k]) < key(b[b.len() - 1]));
                assert(b.contains(x));
                assert(x != last);
                assert(a.contains(x));
                let l = choose|l: int| 0 <= l < a.len() && a[l] == x;
                assert(l != a.len() - 1);
                assert(fewer[l] == x);
            }
        }
        lemma_strict_order_is_unique(fewer, rest, key);
        assert(a =~= fewer.push(last));
        assert(b =~= rest.push(last));
    }
}

} // verus!

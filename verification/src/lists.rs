//! Facts about lists.

use vstd::prelude::*;

verus! {

/// How often a value occurs in a list.
pub open spec fn occurrences<T>(list: Seq<T>, value: T) -> nat
    decreases list.len(),
{
    if list.len() == 0 {
        0
    } else {
        occurrences(list.drop_last(), value) + if list.last() == value {
            1nat
        } else {
            0nat
        }
    }
}

/// A push counts if it is of the value.
pub proof fn lemma_occurrences_push<T>(list: Seq<T>, last: T, value: T)
    ensures
        occurrences(list.push(last), value) == occurrences(list, value) + if last == value {
            1nat
        } else {
            0nat
        },
{
    assert(list.push(last).drop_last() =~= list);
}

/// A further element counts if it is the value.
pub proof fn lemma_occurrences_take<T>(list: Seq<T>, k: int, value: T)
    requires
        0 <= k < list.len(),
    ensures
        occurrences(list.take(k + 1), value) == occurrences(list.take(k), value) + if list[k]
            == value {
            1nat
        } else {
            0nat
        },
{
    assert(list.take(k + 1).drop_last() =~= list.take(k));
}

/// A value that a list holds behind a prefix occurs once more than in the
/// prefix at least.
pub proof fn lemma_occurrences_prefix<T>(list: Seq<T>, k: int, value: T)
    requires
        0 <= k < list.len(),
        list[k] == value,
    ensures
        occurrences(list.take(k), value) + 1 <= occurrences(list, value),
    decreases list.len(),
{
    if k == list.len() - 1 {
        assert(list.take(k) =~= list.drop_last());
    } else {
        lemma_occurrences_prefix(list.drop_last(), k, value);
        assert(list.drop_last().take(k) =~= list.take(k));
    }
}

/// A value occurs in a prefix at most as often as in the list.
pub proof fn lemma_occurrences_bound<T>(list: Seq<T>, k: int, value: T)
    requires
        0 <= k <= list.len(),
    ensures
        occurrences(list.take(k), value) <= occurrences(list, value),
    decreases list.len(),
{
    if k == list.len() {
        assert(list.take(k) =~= list);
    } else {
        lemma_occurrences_bound(list.drop_last(), k, value);
        assert(list.drop_last().take(k) =~= list.take(k));
    }
}

/// What a list does not hold does not occur in it.
pub proof fn lemma_occurrences_absent<T>(list: Seq<T>, value: T)
    requires
        forall|i: int| 0 <= i < list.len() ==> #[trigger] list[i] != value,
    ensures
        occurrences(list, value) == 0,
    decreases list.len(),
{
    if list.len() > 0 {
        lemma_occurrences_absent(list.drop_last(), value);
    }
}

/// What occurs in a list is held by it.
pub proof fn lemma_occurrences_present<T>(list: Seq<T>, value: T)
    requires
        occurrences(list, value) > 0,
    ensures
        list.contains(value),
{
    if !list.contains(value) {
        assert forall|i: int| 0 <= i < list.len() implies #[trigger] list[i] != value by {
            assert(list.contains(list[i]));
        }
        lemma_occurrences_absent(list, value);
    }
}

/// A list holds what occurs in it.
pub proof fn lemma_occurrences_contains<T>(list: Seq<T>, value: T)
    ensures
        occurrences(list, value) > 0 <==> list.contains(value),
{
    if occurrences(list, value) > 0 {
        lemma_occurrences_present(list, value);
    }
    if list.contains(value) {
        let i = list.index_of(value);
        lemma_occurrences_prefix(list, i, value);
    }
}

/// What a list holds after a push.
pub proof fn lemma_push_contains<T>(list: Seq<T>, last: T, value: T)
    ensures
        list.push(last).contains(value) <==> list.contains(value) || value == last,
{
    let longer = list.push(last);
    assert(longer[list.len() as int] == last);
    if list.contains(value) {
        let i = list.index_of(value);
        assert(longer[i] == value);
    }
    if longer.contains(value) {
        let i = longer.index_of(value);
        if i < list.len() {
            assert(list[i] == value);
        }
    }
}

/// The elements of all lists, list by list.
pub open spec fn flattened<T>(lists: Seq<Seq<T>>) -> Seq<T>
    decreases lists.len(),
{
    if lists.len() == 0 {
        Seq::empty()
    } else {
        flattened(lists.drop_last()) + lists.last()
    }
}

/// A further list appends its elements.
pub proof fn lemma_flattened_push<T>(lists: Seq<Seq<T>>, last: Seq<T>)
    ensures
        flattened(lists.push(last)) == flattened(lists) + last,
{
    assert(lists.push(last).drop_last() =~= lists);
}

/// The first lists hold the first elements.
pub proof fn lemma_flattened_take<T>(lists: Seq<Seq<T>>, k: int)
    requires
        0 <= k <= lists.len(),
    ensures
        flattened(lists.take(k)).is_prefix_of(flattened(lists)),
    decreases lists.len(),
{
    if k == lists.len() {
        assert(lists.take(k) =~= lists);
    } else {
        lemma_flattened_take(lists.drop_last(), k);
        assert(lists.drop_last().take(k) =~= lists.take(k));
    }
}

/// How many elements the first lists hold.
pub open spec fn held_before<T>(lists: Seq<Seq<T>>, k: int) -> int {
    flattened(lists.take(k)).len() as int
}

/// An element of a list stands behind those of the lists before it.
pub proof fn lemma_flattened_at<T>(lists: Seq<Seq<T>>, k: int, j: int)
    requires
        0 <= k < lists.len(),
        0 <= j < lists[k].len(),
    ensures
        held_before(lists, k) + j < flattened(lists).len(),
        flattened(lists)[held_before(lists, k) + j] == lists[k][j],
{
    assert(lists.take(k + 1) =~= lists.take(k).push(lists[k]));
    lemma_flattened_push(lists.take(k), lists[k]);
    lemma_flattened_take(lists, k + 1);
    let place = held_before(lists, k) + j;
    assert(flattened(lists.take(k + 1))[place] == lists[k][j]);
    assert(flattened(lists)[place] == flattened(lists.take(k + 1))[place]);
}

/// Lists of the same lengths hold as many elements before each.
pub proof fn lemma_held_before<S, T>(first: Seq<Seq<S>>, second: Seq<Seq<T>>, k: int)
    requires
        first.len() == second.len(),
        forall|i: int| 0 <= i < first.len() ==> (#[trigger] first[i]).len() == second[i].len(),
        0 <= k <= first.len(),
    ensures
        held_before(first, k) == held_before(second, k),
    decreases k,
{
    if k > 0 {
        lemma_held_before(first, second, k - 1);
        assert(first.take(k) =~= first.take(k - 1).push(first[k - 1]));
        assert(second.take(k) =~= second.take(k - 1).push(second[k - 1]));
        lemma_flattened_push(first.take(k - 1), first[k - 1]);
        lemma_flattened_push(second.take(k - 1), second[k - 1]);
    } else {
        assert(first.take(0) =~= Seq::<Seq<S>>::empty());
        assert(second.take(0) =~= Seq::<Seq<T>>::empty());
    }
}

} // verus!

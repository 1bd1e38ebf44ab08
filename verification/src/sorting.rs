//! Sorting by an integer key.

use vstd::prelude::*;

verus! {

/// An integer to sort values by.
pub trait SortKey<T> {
    spec fn of(value: T) -> int;

    fn key(value: &T) -> (key: u64)
        ensures
            key == Self::of(*value),
    ;
}

/// Whether the values are in ascending order of their keys.
pub open spec fn ascending<T, K: SortKey<T>>(values: Seq<T>) -> bool {
    forall|i: int, j: int|
        0 <= i <= j < values.len() ==> K::of(#[trigger] values[i]) <= K::of(#[trigger] values[j])
}

/// By object number.
pub struct ByNumber;

/// By the offset at which a span starts.
pub struct ByOffset;

/// Whether `order` lists, for each position after, the position before.
pub open spec fn is_order<T>(order: Seq<int>, before: Seq<T>, after: Seq<T>) -> bool {
    &&& order.len() == before.len()
    &&& after.len() == before.len()
    &&& order.no_duplicates()
    &&& forall|i: int|
        #![trigger order[i]]
        #![trigger after[i]]
        0 <= i < order.len() ==> 0 <= order[i] < before.len() && after[i] == before[order[i]]
    &&& forall|k: int| 0 <= k < before.len() ==> #[trigger] order.contains(k)
}

/// Whether `after` holds the values of `before` in some order.
pub open spec fn reordered<T>(before: Seq<T>, after: Seq<T>) -> bool {
    exists|order: Seq<int>| is_order(order, before, after)
}

/// Calls `slice::sort_unstable_by_key`: the values are reordered so that their
/// keys ascend. Nothing is said of the order of values with equal keys.
#[verifier::external_body]
pub(crate) fn sort_by_key<T, K: SortKey<T>>(values: &mut Vec<T>)
    ensures
        reordered(old(values)@, final(values)@),
        (forall|i: int, j: int|
            0 <= i <= j < final(values)@.len() ==> K::of(#[trigger] final(values)@[i]) <= K::of(
                #[trigger] final(values)@[j],
            )),
{
    values.sort_unstable_by_key(|value| K::key(value))
}

/// Every value of a reordered sequence was there before, and stays.
pub proof fn lemma_reordered<T>(before: Seq<T>, after: Seq<T>)
    requires
        reordered(before, after),
    ensures
        after.len() == before.len(),
        forall|i: int| 0 <= i < after.len() ==> before.contains(#[trigger] after[i]),
        forall|k: int| 0 <= k < before.len() ==> after.contains(#[trigger] before[k]),
{
    let order = choose|order: Seq<int>| is_order(order, before, after);
    assert forall|i: int| 0 <= i < after.len() implies before.contains(#[trigger] after[i]) by {
        assert(before[order[i]] == after[i]);
    }
    assert forall|k: int| 0 <= k < before.len() implies after.contains(#[trigger] before[k]) by {
        assert(order.contains(k));
        let i = choose|i: int| 0 <= i < order.len() && order[i] == k;
        assert(after[i] == before[k]);
    }
}

/// Reordering twice is reordering.
pub proof fn lemma_reordered_twice<T>(first: Seq<T>, second: Seq<T>, third: Seq<T>)
    requires
        reordered(first, second),
        reordered(second, third),
    ensures
        reordered(first, third),
{
    let one = choose|order: Seq<int>| is_order(order, first, second);
    let two = choose|order: Seq<int>| is_order(order, second, third);
    let both = Seq::new(two.len(), |i: int| one[two[i]]);
    assert forall|i: int| 0 <= i < both.len() implies 0 <= both[i] < first.len() && third[i]
        == first[both[i]] by {
        assert(third[i] == second[two[i]]);
    }
    assert forall|i: int, j: int| 0 <= i < both.len() && 0 <= j < both.len() && i != j implies both[i]
        != both[j] by {
        assert(two[i] != two[j]);
    }
    assert forall|k: int| 0 <= k < first.len() implies #[trigger] both.contains(k) by {
        assert(one.contains(k));
        let middle = choose|i: int| 0 <= i < one.len() && one[i] == k;
        assert(two.contains(middle));
        let i = choose|i: int| 0 <= i < two.len() && two[i] == middle;
        assert(both[i] == k);
    }
    assert(is_order(both, first, third));
}

/// Appending the same values keeps two sequences reordered.
pub proof fn lemma_reordered_append<T>(before: Seq<T>, after: Seq<T>, tail: Seq<T>)
    requires
        reordered(before, after),
    ensures
        reordered(before + tail, after + tail),
{
    let order = choose|order: Seq<int>| is_order(order, before, after);
    let n = before.len();
    let longer = order + Seq::new(tail.len(), |i: int| n + i);
    assert forall|i: int| 0 <= i < longer.len() implies 0 <= longer[i] < (before + tail).len() && (
    after + tail)[i] == (before + tail)[longer[i]] by {
        if i < n {
            assert(order[i] == longer[i]);
        }
    }
    assert forall|i: int, j: int| 0 <= i < longer.len() && 0 <= j < longer.len() && i
        != j implies longer[i] != longer[j] by {
        if i < n {
            assert(order[i] == longer[i]);
        }
        if j < n {
            assert(order[j] == longer[j]);
        }
    }
    assert forall|k: int| 0 <= k < (before + tail).len() implies #[trigger] longer.contains(k) by {
        if k < n {
            assert(order.contains(k));
            let i = choose|i: int| 0 <= i < order.len() && order[i] == k;
            assert(longer[i] == k);
        } else {
            assert(longer[k] == k);
        }
    }
    assert(is_order(longer, before + tail, after + tail));
}

/// Two values after come from two values before.
pub proof fn lemma_reordered_pair<T>(before: Seq<T>, after: Seq<T>, i: int, j: int) -> (pair: (
    int,
    int,
))
    requires
        reordered(before, after),
        0 <= i < after.len(),
        0 <= j < after.len(),
        i != j,
    ensures
        0 <= pair.0 < before.len(),
        0 <= pair.1 < before.len(),
        pair.0 != pair.1,
        before[pair.0] == after[i],
        before[pair.1] == after[j],
{
    let order = choose|order: Seq<int>| is_order(order, before, after);
    assert(order[i] != order[j]);
    (order[i], order[j])
}

/// Two values before go to two values after.
pub proof fn lemma_reordered_places<T>(before: Seq<T>, after: Seq<T>, j: int, k: int) -> (places: (
    int,
    int,
))
    requires
        reordered(before, after),
        0 <= j < before.len(),
        0 <= k < before.len(),
        j != k,
    ensures
        0 <= places.0 < after.len(),
        0 <= places.1 < after.len(),
        places.0 != places.1,
        after[places.0] == before[j],
        after[places.1] == before[k],
{
    let order = choose|order: Seq<int>| is_order(order, before, after);
    assert(order.contains(j));
    assert(order.contains(k));
    let a = choose|i: int| 0 <= i < order.len() && order[i] == j;
    let b = choose|i: int| 0 <= i < order.len() && order[i] == k;
    assert(after[a] == before[j]);
    assert(after[b] == before[k]);
    (a, b)
}

} // verus!

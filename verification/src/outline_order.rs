//! The tree that a depth-first list of outline depths describes.
//!
//! Everything here is stated over the depths alone: entry `i` owns the entries
//! that follow it until the first one no deeper than itself.

use vstd::prelude::*;

verus! {

/// The list starts at the top level and no entry skips a level.
pub open spec fn well_nested(depths: Seq<nat>) -> bool {
    &&& depths.len() > 0 ==> depths[0] == 0
    &&& forall|i: int| 1 <= i < depths.len() ==> (#[trigger] depths[i]) <= depths[i - 1] + 1
}

/// The first position at or after `from` whose depth is at most `depth`, or
/// the end of the list.
pub open spec fn first_at_most(depths: Seq<nat>, from: int, depth: nat) -> int
    decreases depths.len() - from,
{
    if from >= depths.len() || depths[from] <= depth {
        from
    } else {
        first_at_most(depths, from + 1, depth)
    }
}

/// The last position before `before` whose depth is at most `depth`, or -1.
pub open spec fn last_at_most(depths: Seq<nat>, before: int, depth: nat) -> int
    decreases before,
{
    if before <= 0 {
        -1
    } else if depths[before - 1] <= depth {
        before - 1
    } else {
        last_at_most(depths, before - 1, depth)
    }
}

/// The position after the last descendant of entry `i`.
pub open spec fn subtree_end(depths: Seq<nat>, i: int) -> int {
    first_at_most(depths, i + 1, depths[i])
}

/// Whether a later entry could still become a descendant of entry `i`.
pub open spec fn is_open(depths: Seq<nat>, i: int) -> bool {
    subtree_end(depths, i) == depths.len()
}

/// The entry that entry `i` belongs to, unless it is at the top level.
pub open spec fn parent(depths: Seq<nat>, i: int) -> Option<int> {
    if depths[i] == 0 {
        None
    } else {
        Some(last_at_most(depths, i, (depths[i] - 1) as nat))
    }
}

/// The entry before entry `i` under the same parent.
pub open spec fn previous_sibling(depths: Seq<nat>, i: int) -> Option<int> {
    let j = last_at_most(depths, i, depths[i]);
    if j >= 0 && depths[j] == depths[i] {
        Some(j)
    } else {
        None
    }
}

/// The entry after entry `i` under the same parent.
pub open spec fn next_sibling(depths: Seq<nat>, i: int) -> Option<int> {
    let end = subtree_end(depths, i);
    if end < depths.len() && depths[end] == depths[i] {
        Some(end)
    } else {
        None
    }
}

/// The first entry directly below entry `i`.
pub open spec fn first_child(depths: Seq<nat>, i: int) -> Option<int> {
    if subtree_end(depths, i) > i + 1 {
        Some(i + 1)
    } else {
        None
    }
}

/// The last entry directly below entry `i`.
pub open spec fn last_child(depths: Seq<nat>, i: int) -> Option<int> {
    if subtree_end(depths, i) > i + 1 {
        Some(last_at_most(depths, subtree_end(depths, i), depths[i] + 1))
    } else {
        None
    }
}

/// How many entries lie below entry `i`, at any depth.
pub open spec fn descendants(depths: Seq<nat>, i: int) -> int {
    subtree_end(depths, i) - i - 1
}

/// The first top-level entry.
pub open spec fn first_root(depths: Seq<nat>) -> Option<int> {
    if depths.len() > 0 {
        Some(0int)
    } else {
        None
    }
}

/// The last top-level entry.
pub open spec fn last_root(depths: Seq<nat>) -> Option<int> {
    if depths.len() > 0 {
        Some(last_at_most(depths, depths.len() as int, 0))
    } else {
        None
    }
}

/// How many levels are open after the last entry.
pub open spec fn open_levels(depths: Seq<nat>) -> nat {
    if depths.len() == 0 {
        0
    } else {
        depths.last() + 1
    }
}

/// The open entry at a level.
pub open spec fn open_at(depths: Seq<nat>, level: nat) -> int {
    last_at_most(depths, depths.len() as int, level)
}

pub proof fn lemma_first_at_most(depths: Seq<nat>, from: int, depth: nat)
    requires
        0 <= from <= depths.len(),
    ensures
        from <= first_at_most(depths, from, depth) <= depths.len(),
        forall|k: int|
            from <= k < first_at_most(depths, from, depth) ==> #[trigger] depths[k] > depth,
        first_at_most(depths, from, depth) < depths.len() ==> depths[first_at_most(
            depths,
            from,
            depth,
        )] <= depth,
    decreases depths.len() - from,
{
    if from < depths.len() && depths[from] > depth {
        lemma_first_at_most(depths, from + 1, depth);
    }
}

pub proof fn lemma_last_at_most(depths: Seq<nat>, before: int, depth: nat)
    requires
        0 <= before <= depths.len(),
    ensures
        -1 <= last_at_most(depths, before, depth) < before || before == 0 && last_at_most(
            depths,
            before,
            depth,
        ) == -1,
        forall|k: int|
            last_at_most(depths, before, depth) < k < before ==> #[trigger] depths[k] > depth,
        last_at_most(depths, before, depth) >= 0 ==> depths[last_at_most(depths, before, depth)]
            <= depth,
    decreases before,
{
    if before > 0 && depths[before - 1] > depth {
        lemma_last_at_most(depths, before - 1, depth);
    }
}

/// The search finds the only position with nothing shallower after it.
pub proof fn lemma_last_at_most_is(depths: Seq<nat>, before: int, depth: nat, position: int)
    requires
        0 <= position < before <= depths.len(),
        depths[position] <= depth,
        forall|k: int| position < k < before ==> #[trigger] depths[k] > depth,
    ensures
        last_at_most(depths, before, depth) == position,
{
    lemma_last_at_most(depths, before, depth);
    let found = last_at_most(depths, before, depth);
    if found < position {
        assert(depths[position] > depth);
    } else if found > position {
        assert(depths[found] > depth);
    }
}

/// The search finds the only position with nothing as shallow before it.
pub proof fn lemma_first_at_most_is(depths: Seq<nat>, from: int, depth: nat, position: int)
    requires
        0 <= from <= position <= depths.len(),
        position < depths.len() ==> depths[position] <= depth,
        forall|k: int| from <= k < position ==> #[trigger] depths[k] > depth,
    ensures
        first_at_most(depths, from, depth) == position,
{
    lemma_first_at_most(depths, from, depth);
    let found = first_at_most(depths, from, depth);
    if found < position {
        assert(depths[found] > depth);
    } else if found > position {
        assert(depths[position] > depth);
    }
}

/// In a well nested list, the last entry no deeper than a level below the next
/// one's depth is exactly at that level.
pub proof fn lemma_levels(depths: Seq<nat>, before: int, depth: nat)
    requires
        well_nested(depths),
        0 < before <= depths.len(),
        depth <= depths[before - 1] || before < depths.len() && depth < depths[before],
    ensures
        0 <= last_at_most(depths, before, depth) < before,
        depths[last_at_most(depths, before, depth)] == depth,
{
    lemma_last_at_most(depths, before, depth);
    let found = last_at_most(depths, before, depth);
    if found < 0 {
        assert(depths[0] > depth);
    }
    if found + 1 < before {
        assert(depths[found + 1] > depth);
        assert(depths[found + 1] <= depths[found] + 1);
    } else if depth > depths[found] {
        assert(before < depths.len() && depth < depths[before]);
        assert(depths[before] <= depths[before - 1] + 1);
    }
}

/// The searches over a longer list, for positions that do not reach its end.
pub proof fn lemma_last_at_most_prefix(longer: Seq<nat>, shorter: Seq<nat>, before: int, depth: nat)
    requires
        0 <= before <= shorter.len() <= longer.len(),
        shorter == longer.take(shorter.len() as int),
    ensures
        last_at_most(longer, before, depth) == last_at_most(shorter, before, depth),
    decreases before,
{
    if before > 0 {
        assert(shorter[before - 1] == longer[before - 1]);
        if shorter[before - 1] > depth {
            lemma_last_at_most_prefix(longer, shorter, before - 1, depth);
        }
    }
}

/// How one more entry at depth `depth` moves the end of entry `i`.
pub proof fn lemma_push_end(depths: Seq<nat>, depth: nat, i: int)
    requires
        0 <= i < depths.len(),
    ensures
        i < subtree_end(depths, i) <= depths.len(),
        subtree_end(depths.push(depth), i) == (if is_open(depths, i) && depth > depths[i] {
            depths.len() as int + 1
        } else {
            subtree_end(depths, i)
        }),
{
    let longer = depths.push(depth);
    lemma_first_at_most(depths, i + 1, depths[i]);
    let end = subtree_end(depths, i);
    assert forall|k: int| i + 1 <= k < end implies #[trigger] longer[k] > longer[i] by {
        assert(longer[k] == depths[k]);
    }
    if is_open(depths, i) && depth > depths[i] {
        assert forall|k: int| i + 1 <= k < longer.len() implies #[trigger] longer[k]
            > longer[i] by {
            if k < end {
                assert(longer[k] == depths[k]);
            }
        }
        lemma_first_at_most_is(longer, i + 1, longer[i], longer.len() as int);
    } else {
        if end < depths.len() {
            assert(longer[end] == depths[end]);
        }
        lemma_first_at_most_is(longer, i + 1, longer[i], end);
    }
}

/// What one more entry changes in the links of the entries before it: it is
/// the next sibling of its previous sibling and the last child of its parent,
/// and every other link stays.
pub proof fn lemma_push_links(depths: Seq<nat>, depth: nat, i: int)
    requires
        well_nested(depths.push(depth)),
        0 <= i < depths.len(),
    ensures
        ({
            let longer = depths.push(depth);
            let added = depths.len() as int;
            &&& parent(longer, i) == parent(depths, i)
            &&& previous_sibling(longer, i) == previous_sibling(depths, i)
            &&& next_sibling(longer, i) == (if previous_sibling(longer, added) == Some(i) {
                Some(added)
            } else {
                next_sibling(depths, i)
            })
            &&& last_child(longer, i) == (if parent(longer, added) == Some(i) {
                Some(added)
            } else {
                last_child(depths, i)
            })
            &&& first_child(longer, i) == (if parent(longer, added) == Some(i) && first_child(
                depths,
                i,
            ) is None {
                Some(added)
            } else {
                first_child(depths, i)
            })
            &&& (previous_sibling(longer, added) == Some(i) <==> is_open(depths, i) && depth
                == depths[i])
            &&& (parent(longer, added) == Some(i) <==> is_open(depths, i) && depth == depths[i] + 1)
        }),
{
    let longer = depths.push(depth);
    let added = depths.len() as int;
    assert(longer.take(depths.len() as int) =~= depths);
    lemma_push_end(depths, depth, i);
    lemma_first_at_most(depths, i + 1, depths[i]);
    lemma_last_at_most_prefix(longer, depths, i, depths[i]);
    assert(longer[i] == depths[i]);
    lemma_last_at_most(depths, i, depths[i]);
    if depths[i] > 0 {
        lemma_last_at_most_prefix(longer, depths, i, (depths[i] - 1) as nat);
    }
    assert(parent(longer, i) == parent(depths, i));
    assert(previous_sibling(longer, i) == previous_sibling(depths, i)) by {
        let j = last_at_most(depths, i, depths[i]);
        if j >= 0 {
            assert(longer[j] == depths[j]);
        }
    }
    // The new entry's own position under entry `i`.
    assert(previous_sibling(longer, added) == Some(i) <==> is_open(depths, i) && depth
        == depths[i]) by {
        lemma_last_at_most(longer, added, depth);
        let j = last_at_most(longer, added, depth);
        if is_open(depths, i) && depth == depths[i] {
            assert forall|k: int| i < k < added implies #[trigger] longer[k] > depth by {
                assert(longer[k] == depths[k]);
            }
            lemma_last_at_most_is(longer, added, depth, i);
        }
        if previous_sibling(longer, added) == Some(i) {
            assert forall|k: int| i + 1 <= k < added implies #[trigger] depths[k] > depths[i] by {
                assert(longer[k] > depth);
            }
            lemma_first_at_most_is(depths, i + 1, depths[i], added);
        }
    }
    assert(parent(longer, added) == Some(i) <==> is_open(depths, i) && depth == depths[i] + 1) by {
        if depth > 0 {
            let above = (depth - 1) as nat;
            lemma_levels(longer, added, above);
            lemma_last_at_most(longer, added, above);
            if is_open(depths, i) && depth == depths[i] + 1 {
                assert forall|k: int| i < k < added implies #[trigger] longer[k] > above by {
                    assert(longer[k] == depths[k]);
                }
                lemma_last_at_most_is(longer, added, above, i);
            }
            if parent(longer, added) == Some(i) {
                assert forall|k: int| i + 1 <= k < added implies #[trigger] depths[k]
                    > depths[i] by {
                    assert(longer[k] > above);
                }
                lemma_first_at_most_is(depths, i + 1, depths[i], added);
            }
        }
    }
    let end = subtree_end(depths, i);
    if end < depths.len() {
        assert(longer[end] == depths[end]);
    }
    // The last child of entry `i`.
    lemma_last_at_most_prefix(longer, depths, end, depths[i] + 1);
    if is_open(depths, i) && depth > depths[i] {
        if i + 1 == added {
            assert(longer[added] <= longer[added - 1] + 1);
        }
    }
}

/// An open entry is the open entry of its level, and the levels below the last
/// entry's depth are all open.
pub proof fn lemma_open_levels(depths: Seq<nat>, level: nat)
    requires
        well_nested(depths),
        level < open_levels(depths),
    ensures
        0 <= open_at(depths, level) < depths.len(),
        depths[open_at(depths, level)] == level,
        is_open(depths, open_at(depths, level)),
        level > 0 ==> open_at(depths, (level - 1) as nat) < open_at(depths, level),
        level > 0 ==> parent(depths, open_at(depths, level)) == Some(
            open_at(depths, (level - 1) as nat),
        ),
{
    let n = depths.len() as int;
    lemma_levels(depths, n, level);
    lemma_last_at_most(depths, n, level);
    let i = open_at(depths, level);
    lemma_first_at_most_is(depths, i + 1, level, n);
    if level > 0 {
        let above = (level - 1) as nat;
        lemma_levels(depths, n, above);
        lemma_last_at_most(depths, n, above);
        let p = open_at(depths, above);
        if p >= i {
            assert(p != i);
            assert(depths[p] > level);
        }
        assert forall|k: int| p < k < i implies #[trigger] depths[k] > above by {}
        lemma_last_at_most_is(depths, i, above, p);
    }
}

/// The open entries after one more entry: the shallower ones stay, and the new
/// entry opens its own level.
pub proof fn lemma_push_open(depths: Seq<nat>, depth: nat, level: nat)
    requires
        level <= depth,
    ensures
        open_at(depths.push(depth), level) == (if level == depth {
            depths.len() as int
        } else {
            open_at(depths, level)
        }),
{
    let longer = depths.push(depth);
    let n = depths.len() as int;
    assert(longer.take(n) =~= depths);
    if level < depth {
        assert(longer[n] == depth);
        lemma_last_at_most_prefix(longer, depths, n, level);
    }
}

/// Entry `i` closes exactly when a following entry is no deeper, and stays
/// closed.
pub proof fn law_entries_close_once(depths: Seq<nat>, depth: nat, i: int)
    requires
        0 <= i < depths.len(),
    ensures
        is_open(depths.push(depth), i) <==> is_open(depths, i) && depth > depths[i],
{
    lemma_push_end(depths, depth, i);
}

/// Sibling links agree in both directions.
pub proof fn law_siblings_agree(depths: Seq<nat>, i: int, j: int)
    requires
        well_nested(depths),
        0 <= i < depths.len(),
        0 <= j < depths.len(),
    ensures
        next_sibling(depths, i) == Some(j) <==> previous_sibling(depths, j) == Some(i),
        next_sibling(depths, i) == Some(j) ==> parent(depths, i) == parent(depths, j),
{
    lemma_first_at_most(depths, i + 1, depths[i]);
    lemma_last_at_most(depths, j, depths[j]);
    if next_sibling(depths, i) == Some(j) {
        lemma_last_at_most_is(depths, j, depths[j], i);
        if depths[i] > 0 {
            let above = (depths[i] - 1) as nat;
            lemma_levels(depths, i, above);
            lemma_last_at_most(depths, i, above);
            let p = last_at_most(depths, i, above);
            assert forall|k: int| p < k < j implies #[trigger] depths[k] > above by {}
            lemma_last_at_most_is(depths, j, above, p);
        }
    }
    if previous_sibling(depths, j) == Some(i) {
        assert forall|k: int| i + 1 <= k < j implies #[trigger] depths[k] > depths[i] by {}
        lemma_first_at_most_is(depths, i + 1, depths[i], j);
    }
}

/// The parent of an entry is one level above it and still owns it, and an
/// entry's first and last children name it as their parent.
pub proof fn law_children_agree(depths: Seq<nat>, i: int)
    requires
        well_nested(depths),
        0 <= i < depths.len(),
    ensures
        parent(depths, i) matches Some(p) ==> {
            &&& 0 <= p < i < subtree_end(depths, p)
            &&& depths[i] == depths[p] + 1
            &&& first_child(depths, p) is Some
        },
        first_child(depths, i) matches Some(c) ==> i < c < subtree_end(depths, i) && parent(
            depths,
            c,
        ) == Some(i) && previous_sibling(depths, c) is None,
        last_child(depths, i) matches Some(c) ==> i < c < subtree_end(depths, i) && parent(
            depths,
            c,
        ) == Some(i) && next_sibling(depths, c) is None,
        first_child(depths, i) is Some <==> last_child(depths, i) is Some,
        first_child(depths, i) is Some <==> descendants(depths, i) > 0,
{
    lemma_first_at_most(depths, i + 1, depths[i]);
    if depths[i] > 0 {
        let above = (depths[i] - 1) as nat;
        lemma_levels(depths, i, above);
        lemma_last_at_most(depths, i, above);
        let p = last_at_most(depths, i, above);
        lemma_first_at_most(depths, p + 1, depths[p]);
        if subtree_end(depths, p) <= i {
            assert(depths[subtree_end(depths, p)] > above || subtree_end(depths, p) == i);
        }
    }
    let end = subtree_end(depths, i);
    if end > i + 1 {
        let below = depths[i] + 1;
        let first = i + 1;
        assert(depths[first] <= depths[first - 1] + 1);
        assert(depths[first] == below);
        lemma_last_at_most_is(depths, first, depths[i], i);
        lemma_last_at_most(depths, first, depths[first]);
        lemma_last_at_most_is(depths, first, depths[first], i);
        lemma_last_at_most(depths, end, below);
        let last = last_at_most(depths, end, below);
        if last < first {
            assert(depths[first] > below);
        }
        assert(depths[last] == below);
        assert forall|k: int| i < k < last implies #[trigger] depths[k] > depths[i] by {}
        lemma_last_at_most_is(depths, last, depths[i], i);
        lemma_first_at_most(depths, last + 1, depths[last]);
        lemma_first_at_most_is(depths, last + 1, below, end);
    }
}

/// An entry without a next sibling ends where its parent ends.
pub proof fn lemma_end_without_next(depths: Seq<nat>, i: int)
    requires
        well_nested(depths),
        0 <= i < depths.len(),
        next_sibling(depths, i) is None,
    ensures
        subtree_end(depths, i) == (match parent(depths, i) {
            None => depths.len() as int,
            Some(p) => subtree_end(depths, p),
        }),
{
    lemma_first_at_most(depths, i + 1, depths[i]);
    let end = subtree_end(depths, i);
    if depths[i] > 0 {
        let above = (depths[i] - 1) as nat;
        lemma_levels(depths, i, above);
        lemma_last_at_most(depths, i, above);
        let p = last_at_most(depths, i, above);
        assert forall|k: int| p + 1 <= k < end implies #[trigger] depths[k] > depths[p] by {}
        lemma_first_at_most_is(depths, p + 1, depths[p], end);
    }
}

/// Whether entry `j` is the next entry after entry `i` on its level, before the
/// level ends.
pub open spec fn is_next(depths: Seq<nat>, i: int, j: int) -> bool {
    &&& 0 <= i < j < depths.len()
    &&& depths[j] == depths[i]
    &&& forall|k: int| i < k < j ==> #[trigger] depths[k] > depths[i]
}

/// Whether entry `c` lies directly below entry `p`.
pub open spec fn is_child(depths: Seq<nat>, p: int, c: int) -> bool {
    &&& 0 <= p < c < depths.len()
    &&& depths[c] == depths[p] + 1
    &&& forall|k: int| p < k < c ==> #[trigger] depths[k] > depths[p]
}

/// Whether exactly the `count` entries after entry `i` are deeper than it
/// without a break.
pub open spec fn has_below(depths: Seq<nat>, i: int, count: int) -> bool {
    &&& 0 <= count
    &&& 0 <= i
    &&& i + count < depths.len()
    &&& forall|k: int| i < k <= i + count ==> #[trigger] depths[k] > depths[i]
    &&& i + count + 1 < depths.len() ==> depths[i + count + 1] <= depths[i]
}

/// The links of an entry are what the depths say: its parent is the entry that
/// it lies directly below, its siblings are the nearest entries beside it, its
/// children are the first and the last entry directly below it, and its
/// descendants are all entries below it.
pub proof fn law_links_are_the_relatives(depths: Seq<nat>, i: int, j: int, count: int)
    requires
        well_nested(depths),
        0 <= i < depths.len(),
    ensures
        parent(depths, i) == Some(j) <==> is_child(depths, j, i),
        parent(depths, i) is None <==> depths[i] == 0,
        next_sibling(depths, i) == Some(j) <==> is_next(depths, i, j),
        previous_sibling(depths, i) == Some(j) <==> is_next(depths, j, i),
        first_child(depths, i) == Some(j) <==> is_child(depths, i, j) && forall|k: int|
            k < j ==> !#[trigger] is_child(depths, i, k),
        last_child(depths, i) == Some(j) <==> is_child(depths, i, j) && forall|k: int|
            k > j ==> !#[trigger] is_child(depths, i, k),
        descendants(depths, i) == count <==> has_below(depths, i, count),
{
    lemma_first_at_most(depths, i + 1, depths[i]);
    lemma_last_at_most(depths, i, depths[i]);
    let end = subtree_end(depths, i);
    if depths[i] > 0 {
        let above = (depths[i] - 1) as nat;
        lemma_levels(depths, i, above);
        lemma_last_at_most(depths, i, above);
        if is_child(depths, j, i) {
            lemma_last_at_most_is(depths, i, above, j);
        }
    }
    if is_next(depths, i, j) {
        lemma_first_at_most_is(depths, i + 1, depths[i], j);
    }
    if is_next(depths, j, i) {
        lemma_last_at_most_is(depths, i, depths[i], j);
    }
    if has_below(depths, i, count) {
        lemma_first_at_most_is(depths, i + 1, depths[i], i + count + 1);
    }
    if end > i + 1 {
        let below = depths[i] + 1;
        assert(depths[i + 1] <= depths[i + 1 - 1] + 1);
        assert(is_child(depths, i, i + 1));
        lemma_last_at_most(depths, end, below);
        let last = last_at_most(depths, end, below);
        if last < i + 1 {
            assert(depths[i + 1] > below);
        }
        assert(is_child(depths, i, last));
        assert forall|k: int| k > last implies !#[trigger] is_child(depths, i, k) by {
            if is_child(depths, i, k) && k >= end {
                assert(end == k || depths[end] > depths[i]);
            }
        }
        if is_child(depths, i, j) {
            if j > end {
                assert(depths[end] > depths[i]);
            }
        }
    } else {
        assert forall|k: int| !#[trigger] is_child(depths, i, k) by {
            if is_child(depths, i, k) {
                assert(end < depths.len());
                assert(k == end || depths[end] > depths[i]);
            }
        }
    }
}

/// The outline's first and last items are the first and the last entry at the
/// top level.
pub proof fn law_roots_are_the_outermost(depths: Seq<nat>, i: int)
    requires
        well_nested(depths),
        depths.len() > 0,
    ensures
        first_root(depths) == Some(i) <==> 0 <= i < depths.len() && depths[i] == 0 && forall|k: int|
            0 <= k < i ==> #[trigger] depths[k] > 0,
        last_root(depths) == Some(i) <==> 0 <= i < depths.len() && depths[i] == 0 && forall|k: int|
            i < k < depths.len() ==> #[trigger] depths[k] > 0,
{
    let len = depths.len() as int;
    lemma_last_at_most(depths, len, 0);
    if last_at_most(depths, len, 0) < 0 {
        assert(depths[0] > 0);
    }
    if 0 <= i < len && depths[i] == 0 && forall|k: int| i < k < len ==> #[trigger] depths[k] > 0 {
        lemma_last_at_most_is(depths, len, 0, i);
    }
    if 0 < i < len && (forall|k: int| 0 <= k < i ==> #[trigger] depths[k] > 0) {
        assert(depths[0] > 0);
    }
}

} // verus!

//! What the checks of a page tree accept.

use vstd::prelude::*;
use vstd::set_lib::{lemma_int_range, set_int_range};
use crate::fragment::inspection::FragmentKind;
use crate::fragment::page_tree::{
    enter, enter_kids, fits, leaves, leaves_of_first, link_capacity, nodes,
    nodes_of_first, page_tree_failure, top, whole_walk, Forest, PageTree, PageWalk,
};
use crate::fragment::record::position_of;
use crate::types::PdfRef;

verus! {

/// Whether every node above the pages has something below it.
pub open spec fn is_filled(tree: PageTree) -> bool
    decreases tree,
{
    match tree {
        PageTree::Leaf { .. } => true,
        PageTree::Node { kids, .. } => kids.len() > 0 && forall|j: int|
            #![trigger kids[j]]
            0 <= j < kids.len() ==> is_filled(kids[j]),
    }
}

/// A tree has a record for each page and each node.
proof fn lemma_sizes(forest: Forest, tree: PageTree)
    requires
        is_filled(tree),
    ensures
        nodes(forest, tree).len() >= 1,
        leaves(tree).len() >= 1,
    decreases tree, 0nat,
{
    if let PageTree::Node { kids, .. } = tree {
        lemma_sizes_of_first(forest, tree, kids, kids.len());
    }
}

proof fn lemma_sizes_of_first(forest: Forest, tree: PageTree, kids: Seq<PageTree>, count: nat)
    requires
        tree matches PageTree::Node { kids: all, .. } && all == kids,
        is_filled(tree),
        count <= kids.len(),
    ensures
        nodes_of_first(forest, kids, count).len() >= count,
        leaves_of_first(kids, count).len() >= count,
    decreases kids, count,
{
    if count > 0 {
        lemma_sizes_of_first(forest, tree, kids, (count - 1) as nat);
        lemma_sizes(forest, kids[count - 1]);
    }
}

/// What the first trees hold is the start of what more of them hold.
proof fn lemma_first_of_more(
    forest: Forest,
    tree: PageTree,
    kids: Seq<PageTree>,
    fewer: nat,
    count: nat,
)
    requires
        tree matches PageTree::Node { kids: all, .. } && all == kids,
        is_filled(tree),
        fewer <= count <= kids.len(),
    ensures
        nodes_of_first(forest, kids, fewer).is_prefix_of(nodes_of_first(forest, kids, count)),
        leaves_of_first(kids, fewer).is_prefix_of(leaves_of_first(kids, count)),
        nodes_of_first(forest, kids, fewer).len() + (count - fewer) <= nodes_of_first(
            forest,
            kids,
            count,
        ).len(),
    decreases count,
{
    if fewer < count {
        let less = (count - 1) as nat;
        lemma_first_of_more(forest, tree, kids, fewer, less);
        lemma_sizes(forest, kids[less as int]);
        let few = nodes_of_first(forest, kids, fewer);
        let most = nodes_of_first(forest, kids, less);
        let all = nodes_of_first(forest, kids, count);
        assert(most =~= all.take(most.len() as int));
        assert(few =~= all.take(few.len() as int)) by {
            assert(few =~= most.take(few.len() as int));
        }
        let few = leaves_of_first(kids, fewer);
        let most = leaves_of_first(kids, less);
        let all = leaves_of_first(kids, count);
        assert(most =~= all.take(most.len() as int));
        assert(few =~= all.take(few.len() as int)) by {
            assert(few =~= most.take(few.len() as int));
        }
    } else {
        let few = nodes_of_first(forest, kids, fewer);
        assert(few =~= few.take(few.len() as int));
        let few = leaves_of_first(kids, fewer);
        assert(few =~= few.take(few.len() as int));
    }
}

/// Whether a walk is before some pages and records that it has room for.
spec fn awaits(
    forest: Forest,
    open: Set<int>,
    waiting: int,
    walk: PageWalk,
    pages: Seq<PdfRef>,
    reached: Seq<int>,
) -> bool {
    &&& open.finite()
    &&& 0 <= waiting
    &&& waiting + reached.len() <= forest.records.len()
    &&& link_capacity(forest.records.len()) <= usize::MAX
    &&& pages.len() <= forest.max_pages
    &&& reached.no_duplicates()
    &&& forall|k: int|
        0 <= k < reached.len() ==> open.contains(#[trigger] reached[k]) && walk.left.contains(
            reached[k],
        )
    &&& walk.leaves + pages.len() <= forest.pages.len()
    &&& forest.pages.subrange(walk.leaves as int, walk.leaves as int + pages.len()) == pages
}

/// Whether a walk has gone over some pages and records and nothing else.
spec fn went_over(
    before: PageWalk,
    after: PageWalk,
    pages: Seq<PdfRef>,
    reached: Seq<int>,
) -> bool {
    &&& after.leaves == before.leaves + pages.len()
    &&& forall|i: int| #[trigger]
        after.left.contains(i) <==> before.left.contains(i) && !reached.contains(i)
}

/// A tree that fits is walked to its end.
proof fn lemma_walked(
    forest: Forest,
    tree: PageTree,
    parent: Option<PdfRef>,
    inherited_media_box: bool,
    open: Set<int>,
    waiting: int,
    walk: PageWalk,
)
    requires
        fits(forest, tree, parent, inherited_media_box),
        is_filled(tree),
        awaits(forest, open, waiting, walk, leaves(tree), nodes(forest, tree)),
    ensures
        ({
            let result = enter(
                forest,
                top(tree),
                parent,
                inherited_media_box,
                open,
                waiting,
                walk,
            );
            result matches Ok(after) && went_over(
                walk,
                after,
                leaves(tree),
                nodes(forest, tree),
            )
        }),
    decreases tree, 0nat,
{
    let reference = top(tree);
    let index = position_of(forest.records, reference.number)->0;
    let all = nodes(forest, tree);
    assert(all[0] == index);
    assert(open.contains(index) && walk.left.contains(index));
    let reached = PageWalk { left: walk.left.remove(index), leaves: walk.leaves };
    match tree {
        PageTree::Leaf { .. } => {
            let pages = forest.pages.subrange(walk.leaves as int, walk.leaves as int + leaves(tree).len());
            assert(pages[0] == leaves(tree)[0]);
            assert(forest.pages[walk.leaves as int] == reference);
            let after = PageWalk { left: reached.left, leaves: walk.leaves + 1 };
            assert(all =~= seq![index]);
            assert forall|i: int| #[trigger] after.left.contains(i) <==> walk.left.contains(i)
                && !all.contains(i) by {
                assert(all.contains(i) <==> i == index) by {
                    assert(all[0] == index);
                }
            }
        },
        PageTree::Node { kids, .. } => {
            lemma_sizes(forest, tree);
            lemma_sizes_of_first(forest, tree, kids, kids.len());
            match forest.kinds[index] {
                Some(FragmentKind::Pages { parent: actual, count, kids: links, has_media_box }) => {
                    let below = nodes_of_first(forest, kids, kids.len());
                    assert(all =~= seq![index] + below);
                    let inherited = inherited_media_box || has_media_box;
                    let left = open.remove(index);
                    assert(awaits(forest, left, waiting + 1, reached, leaves(tree), below)) by {
                        assert forall|k: int| 0 <= k < below.len() implies left.contains(
                            #[trigger] below[k],
                        ) && reached.left.contains(below[k]) by {
                            assert(all[k + 1] == below[k]);
                            assert(all[0] != all[k + 1]);
                        }
                        assert forall|i: int, j: int|
                            0 <= i < j < below.len() implies below[i] != below[j] by {
                            assert(all[i + 1] == below[i]);
                            assert(all[j + 1] == below[j]);
                        }
                    }
                    assert(below.len() + waiting + 1 <= forest.records.len());
                    assert(nodes_of_first(forest, kids, 0) =~= Seq::<int>::empty());
                    assert(leaves_of_first(kids, 0) =~= Seq::<PdfRef>::empty());
                    lemma_walked_kids(
                        forest,
                        tree,
                        kids,
                        links@,
                        0,
                        inherited,
                        left,
                        waiting + 1,
                        reached,
                        reached,
                    );
                    let after = enter_kids(
                        forest,
                        reference,
                        links@,
                        0,
                        inherited,
                        left,
                        waiting + 1,
                        reached,
                    )->Ok_0;
                    assert forall|i: int| #[trigger] after.left.contains(i)
                        <==> walk.left.contains(i) && !all.contains(i) by {
                        if all.contains(i) {
                            let k = choose|k: int| 0 <= k < all.len() && all[k] == i;
                            if k > 0 {
                                assert(below[k - 1] == i);
                            }
                        }
                        if i == index {
                            assert(all[0] == i);
                        }
                        if below.contains(i) {
                            let k = choose|k: int| 0 <= k < below.len() && below[k] == i;
                            assert(all[k + 1] == i);
                        }
                    }
                },
                _ => {},
            }
        },
    }
}

/// The children of a node that fits are walked to their end.
proof fn lemma_walked_kids(
    forest: Forest,
    tree: PageTree,
    kids: Seq<PageTree>,
    links: Seq<PdfRef>,
    from: int,
    inherited_media_box: bool,
    open: Set<int>,
    waiting: int,
    start: PageWalk,
    walk: PageWalk,
)
    requires
        tree matches PageTree::Node { kids: all, .. } && all == kids,
        is_filled(tree),
        links.len() == kids.len(),
        0 <= from <= kids.len(),
        forall|j: int|
            #![trigger kids[j]]
            0 <= j < kids.len() ==> top(kids[j]) == links[j] && fits(
                forest,
                kids[j],
                Some(top(tree)),
                inherited_media_box,
            ),
        awaits(
            forest,
            open,
            waiting,
            start,
            leaves_of_first(kids, kids.len()),
            nodes_of_first(forest, kids, kids.len()),
        ),
        went_over(
            start,
            walk,
            leaves_of_first(kids, from as nat),
            nodes_of_first(forest, kids, from as nat),
        ),
    ensures
        ({
            let result = enter_kids(
                forest,
                top(tree),
                links,
                from,
                inherited_media_box,
                open,
                waiting,
                walk,
            );
            result matches Ok(after) && went_over(
                start,
                after,
                leaves_of_first(kids, kids.len()),
                nodes_of_first(forest, kids, kids.len()),
            )
        }),
    decreases kids, 1 + kids.len() - from,
{
    if from < kids.len() {
        let kid = kids[from];
        let next = (from + 1) as nat;
        let all = nodes_of_first(forest, kids, kids.len());
        let pages = leaves_of_first(kids, kids.len());
        let done = nodes_of_first(forest, kids, from as nat);
        let passed = leaves_of_first(kids, from as nat);
        let here = nodes(forest, kid);
        let longer = nodes_of_first(forest, kids, next);
        let pending = waiting + kids.len() - from - 1;
        lemma_first_of_more(forest, tree, kids, next, kids.len());
        lemma_first_of_more(forest, tree, kids, from as nat, kids.len());
        lemma_sizes_of_first(forest, tree, kids, from as nat);
        assert(longer =~= done + here);
        assert(leaves_of_first(kids, next) =~= passed + leaves(kid));
        assert forall|k: int| 0 <= k < here.len() implies all[done.len() + k] == #[trigger] here[k]
            by {
            assert(longer[done.len() + k] == here[k]);
            assert(longer =~= all.take(longer.len() as int));
        }
        assert(done =~= all.take(done.len() as int));
        assert(awaits(forest, open, pending, walk, leaves(kid), here)) by {
            assert forall|k: int| 0 <= k < here.len() implies open.contains(#[trigger] here[k])
                && walk.left.contains(here[k]) by {
                assert(all[done.len() + k] == here[k]);
                if done.contains(here[k]) {
                    let j = choose|j: int| 0 <= j < done.len() && done[j] == here[k];
                    assert(all[j] == all[done.len() + k]);
                }
            }
            assert forall|i: int, j: int| 0 <= i < j < here.len() implies here[i] != here[j] by {
                assert(all[done.len() + i] == here[i]);
                assert(all[done.len() + j] == here[j]);
            }
            let more = leaves_of_first(kids, next);
            assert(more =~= pages.take(more.len() as int));
            let whole = forest.pages.subrange(start.leaves as int, start.leaves as int + pages.len());
            assert(forest.pages.subrange(walk.leaves as int, walk.leaves as int + leaves(kid).len())
                =~= leaves(kid)) by {
                assert forall|k: int| 0 <= k < leaves(kid).len() implies forest.pages[walk.leaves
                    + k] == #[trigger] leaves(kid)[k] by {
                    assert(more[passed.len() + k] == leaves(kid)[k]);
                    assert(whole[passed.len() + k] == forest.pages[start.leaves + passed.len()
                        + k]);
                }
            }
        }
        lemma_walked(
            forest,
            kid,
            Some(top(tree)),
            inherited_media_box,
            open,
            pending,
            walk,
        );
        let after = enter(
            forest,
            links[from],
            Some(top(tree)),
            inherited_media_box,
            open,
            pending,
            walk,
        )->Ok_0;
        assert(went_over(start, after, leaves_of_first(kids, next), longer)) by {
            assert forall|i: int| #[trigger] after.left.contains(i) <==> start.left.contains(i)
                && !longer.contains(i) by {
                assert(longer.contains(i) <==> done.contains(i) || here.contains(i)) by {
                    if done.contains(i) {
                        let k = choose|k: int| 0 <= k < done.len() && done[k] == i;
                        assert(longer[k] == i);
                    }
                    if here.contains(i) {
                        let k = choose|k: int| 0 <= k < here.len() && here[k] == i;
                        assert(longer[done.len() + k] == i);
                    }
                }
            }
        }
        lemma_walked_kids(
            forest,
            tree,
            kids,
            links,
            from + 1,
            inherited_media_box,
            open,
            waiting,
            start,
            after,
        );
    }
}

/// Every page tree of the explicit pages is accepted: if the objects are linked
/// as some tree below the root says, in which no object occurs twice, no node is
/// empty, every page has a media box of its own or from any node above it, and
/// the pages in document order are the explicit ones, no more than allowed, then
/// nothing is wrong with it.
pub proof fn law_page_trees_are_accepted(forest: Forest, root: PdfRef, tree: PageTree)
    requires
        link_capacity(forest.records.len()) <= usize::MAX,
        top(tree) == root,
        fits(forest, tree, None, false),
        is_filled(tree),
        leaves(tree) == forest.pages,
        nodes(forest, tree).no_duplicates(),
        forest.pages.len() <= forest.max_pages,
    ensures
        page_tree_failure(forest, root) is None,
{
    let walk = whole_walk(forest.records.len());
    let all = nodes(forest, tree);
    lemma_int_range(0, forest.records.len() as int);
    lemma_records_of(forest, tree, None, false);
    assert forall|k: int| 0 <= k < all.len() implies walk.left.contains(#[trigger] all[k]) by {
        assert(0 <= all[k] < forest.records.len());
    }
    assert(all.len() <= forest.records.len()) by {
        all.unique_seq_to_set();
        assert(all.to_set().subset_of(set_int_range(0, forest.records.len() as int))) by {
            assert forall|i: int| all.to_set().contains(i) implies set_int_range(
                0,
                forest.records.len() as int,
            ).contains(i) by {
                let k = choose|k: int| 0 <= k < all.len() && all[k] == i;
                assert(0 <= all[k] < forest.records.len());
            }
        }
        vstd::set_lib::lemma_len_subset(
            all.to_set(),
            set_int_range(0, forest.records.len() as int),
        );
    }
    assert(forest.pages.subrange(0, forest.pages.len() as int) =~= forest.pages);
    lemma_walked(forest, tree, None, false, walk.left, 0, walk);
}

/// The records of a tree that fits are records.
proof fn lemma_records_of(
    forest: Forest,
    tree: PageTree,
    parent: Option<PdfRef>,
    inherited_media_box: bool,
)
    requires
        fits(forest, tree, parent, inherited_media_box),
    ensures
        forall|k: int|
            0 <= k < nodes(forest, tree).len() ==> 0 <= #[trigger] nodes(forest, tree)[k]
                < forest.records.len(),
    decreases tree, 0nat,
{
    let index = position_of(forest.records, top(tree).number)->0;
    assert(crate::fragment::record::is_numbered(forest.records, index, top(tree).number));
    let all = nodes(forest, tree);
    if let PageTree::Node { reference, kids } = tree {
        if let Some(FragmentKind::Pages { has_media_box, .. }) = forest.kinds[index] {
            lemma_records_of_first(
                forest,
                tree,
                kids,
                inherited_media_box || has_media_box,
                kids.len(),
            );
            let below = nodes_of_first(forest, kids, kids.len());
            assert forall|k: int| 0 <= k < all.len() implies 0 <= #[trigger] all[k]
                < forest.records.len() by {
                if k > 0 {
                    assert(all[k] == below[k - 1]);
                }
            }
        }
    }
}

proof fn lemma_records_of_first(
    forest: Forest,
    tree: PageTree,
    kids: Seq<PageTree>,
    inherited_media_box: bool,
    count: nat,
)
    requires
        tree matches PageTree::Node { kids: all, .. } && all == kids,
        count <= kids.len(),
        forall|j: int|
            #![trigger kids[j]]
            0 <= j < kids.len() ==> fits(forest, kids[j], Some(top(tree)), inherited_media_box),
    ensures
        forall|k: int|
            0 <= k < nodes_of_first(forest, kids, count).len() ==> 0 <= #[trigger] nodes_of_first(
                forest,
                kids,
                count,
            )[k] < forest.records.len(),
    decreases kids, count,
{
    if count > 0 {
        lemma_records_of_first(forest, tree, kids, inherited_media_box, (count - 1) as nat);
        lemma_records_of(forest, kids[count - 1], Some(top(tree)), inherited_media_box);
        let first = nodes_of_first(forest, kids, (count - 1) as nat);
        let last = nodes(forest, kids[count - 1]);
        let all = nodes_of_first(forest, kids, count);
        assert(all =~= first + last);
        assert forall|k: int| 0 <= k < all.len() implies 0 <= #[trigger] all[k]
            < forest.records.len() by {
            if k < first.len() {
                assert(all[k] == first[k]);
            } else {
                assert(all[k] == last[k - first.len()]);
            }
        }
    }
}

} // verus!

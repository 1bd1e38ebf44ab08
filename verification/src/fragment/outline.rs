//! The outline objects of a rebuilt file.

use vstd::prelude::*;
use vstd::layout::size_of;
use crate::fallible::reserve_exact;
use crate::fragment::record::{
    allocation_failure, at, check_pdf_allocation, checked_add, checked_reference, malformed,
    pdf_limit, reference_failure,
};
use crate::outline_order::{
    descendants, first_child, first_root, last_at_most, last_child, last_root, next_sibling,
    open_at, open_levels, parent, previous_sibling, subtree_end, well_nested,
    lemma_end_without_next, lemma_first_at_most, lemma_last_at_most, lemma_levels,
    lemma_open_levels, lemma_push_links, lemma_push_open, law_children_agree,
};
use crate::types::{first_failure, Bookmark, Error, Limits, PdfRef, MAX_PDF_OBJECTS};

verus! {

/// An explicit depth cap keeps the outline's nesting bounded.
pub const MAX_OUTLINE_DEPTH: u32 = 256;

/// One outline item with every link it is written with.
#[derive(Clone, Copy, Debug, PartialEq, Eq, Structural)]
pub struct OutlineNode {
    pub reference: PdfRef,
    pub parent: PdfRef,
    pub parent_index: Option<usize>,
    pub previous: Option<PdfRef>,
    pub next: Option<PdfRef>,
    pub first_child: Option<PdfRef>,
    pub last_child: Option<PdfRef>,
    pub descendants: u32,
    pub page: PdfRef,
}

/// The depths of a list of bookmarks.
pub open spec fn depths_of(bookmarks: Seq<Bookmark>) -> Seq<nat> {
    Seq::new(bookmarks.len(), |i: int| bookmarks[i].depth as nat)
}

/// The object of outline item `i`, numbered after the outline root.
pub open spec fn item_reference(root: PdfRef, i: int) -> PdfRef {
    PdfRef { number: (root.number + 1 + i) as u32, generation: 0 }
}

/// The object that a link to another item names.
pub open spec fn item_link(root: PdfRef, item: Option<int>) -> Option<PdfRef> {
    match item {
        Some(i) => Some(item_reference(root, i)),
        None => None,
    }
}

/// Why bookmark `i` cannot follow the ones before it.
pub open spec fn bookmark_failure(
    bookmarks: Seq<Bookmark>,
    pages: Seq<PdfRef>,
    root: PdfRef,
    i: int,
) -> Option<Error> {
    let bookmark = bookmarks[i];
    if bookmark.depth >= MAX_OUTLINE_DEPTH {
        Some(
            pdf_limit(
                None,
                0,
                "PDF outline depth",
                MAX_OUTLINE_DEPTH as u64,
                (bookmark.depth + 1) as u64,
            ),
        )
    } else if i == 0 && bookmark.depth != 0 || i != 0 && bookmark.depth > bookmarks[i - 1].depth
        + 1 {
        Some(malformed(None, 0, "bookmark depth skips a parent"))
    } else if bookmark.title@.len() == 0 {
        Some(malformed(None, 0, "bookmark title is empty"))
    } else if bookmark.page_index >= pages.len() {
        Some(malformed(None, 0, "bookmark destination is outside the ordered pages"))
    } else if root.number + i + 1 > u32::MAX {
        Some(pdf_limit(Some(root), 0, "PDF object number", MAX_PDF_OBJECTS as u64, u64::MAX))
    } else {
        reference_failure(item_reference(root, i), 0)
    }
}

/// The first failure among the bookmarks from position `from` on.
pub open spec fn bookmarks_failure(
    bookmarks: Seq<Bookmark>,
    pages: Seq<PdfRef>,
    root: PdfRef,
    from: int,
) -> Option<Error>
    decreases bookmarks.len() - from,
{
    if from >= bookmarks.len() {
        None
    } else {
        first_failure(
            bookmark_failure(bookmarks, pages, root, from),
            bookmarks_failure(bookmarks, pages, root, from + 1),
        )
    }
}

/// Why an outline of these bookmarks cannot be built.
pub open spec fn outline_failure(
    bookmarks: Seq<Bookmark>,
    pages: Seq<PdfRef>,
    root: PdfRef,
) -> Option<Error> {
    if bookmarks.len() == 0 {
        Some(Error::InvalidInput { reason: "PDF outline root has no first item" })
    } else {
        bookmarks_failure(bookmarks, pages, root, 0)
    }
}

/// Whether a node carries the links that the depths alone determine.
spec fn carries_links(node: OutlineNode, depths: Seq<nat>, root: PdfRef, i: int) -> bool {
    &&& node.reference == item_reference(root, i)
    &&& match parent(depths, i) {
        None => node.parent_index is None && node.parent == root,
        Some(p) => {
            &&& node.parent_index is Some
            &&& node.parent_index->0 == p
            &&& node.parent == item_reference(root, p)
        },
    }
    &&& node.previous == item_link(root, previous_sibling(depths, i))
    &&& node.next == item_link(root, next_sibling(depths, i))
    &&& node.first_child == item_link(root, first_child(depths, i))
    &&& node.last_child == item_link(root, last_child(depths, i))
}

/// Item `i` of the outline, as the bookmarks determine it.
#[verifier::opaque]
pub open spec fn outline_node(
    bookmarks: Seq<Bookmark>,
    pages: Seq<PdfRef>,
    root: PdfRef,
    i: int,
) -> OutlineNode {
    let depths = depths_of(bookmarks);
    OutlineNode {
        reference: item_reference(root, i),
        parent: match parent(depths, i) {
            Some(above) => item_reference(root, above),
            None => root,
        },
        parent_index: match parent(depths, i) {
            Some(above) => Some(above as usize),
            None => None,
        },
        previous: item_link(root, previous_sibling(depths, i)),
        next: item_link(root, next_sibling(depths, i)),
        first_child: item_link(root, first_child(depths, i)),
        last_child: item_link(root, last_child(depths, i)),
        descendants: descendants(depths, i) as u32,
        page: pages[bookmarks[i].page_index as int],
    }
}

/// The outline of the bookmarks, in document order.
pub open spec fn outline_nodes(
    bookmarks: Seq<Bookmark>,
    pages: Seq<PdfRef>,
    root: PdfRef,
) -> Seq<OutlineNode> {
    Seq::new(bookmarks.len(), |i: int| outline_node(bookmarks, pages, root, i))
}

/// Why the outline's index may not be allocated.
pub open spec fn outline_memory_failure(
    count: nat,
    root: PdfRef,
    limits: Limits,
    retained_bytes: u64,
) -> Option<Error> {
    let metadata_bytes = count * size_of::<OutlineNode>();
    if metadata_bytes > usize::MAX {
        Some(Error::InvalidInput { reason: "PDF outline index allocation overflows 64 bits" })
    } else {
        allocation_failure(limits, retained_bytes + metadata_bytes, Some(root), 0)
    }
}

/// Whether an error reports that the index of an outline of `count` items was
/// not available.
pub open spec fn outline_refused(error: Error, limits: Limits, count: nat) -> bool {
    error == pdf_limit(
        None,
        0,
        "PDF outline index allocation",
        limits.max_allocation_bytes,
        (count * size_of::<OutlineNode>()) as u64,
    )
}

proof fn lemma_no_failure_nests(
    bookmarks: Seq<Bookmark>,
    pages: Seq<PdfRef>,
    root: PdfRef,
    upto: int,
)
    requires
        0 <= upto <= bookmarks.len(),
        forall|i: int|
            0 <= i < upto ==> (#[trigger] bookmark_failure(bookmarks, pages, root, i)) is None,
    ensures
        well_nested(depths_of(bookmarks).take(upto)),
{
    let depths = depths_of(bookmarks).take(upto);
    if upto > 0 {
        assert(bookmark_failure(bookmarks, pages, root, 0) is None);
    }
    assert forall|i: int| 1 <= i < depths.len() implies (#[trigger] depths[i]) <= depths[i - 1]
        + 1 by {
        assert(bookmark_failure(bookmarks, pages, root, i) is None);
    }
}

/// A failure that the bookmarks before it do not have is the first one.
proof fn lemma_first_bookmark_failure(
    bookmarks: Seq<Bookmark>,
    pages: Seq<PdfRef>,
    root: PdfRef,
    from: int,
    at: int,
)
    requires
        0 <= from <= at <= bookmarks.len(),
        forall|i: int|
            from <= i < at ==> (#[trigger] bookmark_failure(bookmarks, pages, root, i)) is None,
    ensures
        at < bookmarks.len() && bookmark_failure(bookmarks, pages, root, at) is Some
            ==> bookmarks_failure(bookmarks, pages, root, from) == bookmark_failure(
            bookmarks,
            pages,
            root,
            at,
        ),
        at == bookmarks.len() ==> bookmarks_failure(bookmarks, pages, root, from) is None,
    decreases at - from,
{
    if from < at {
        lemma_first_bookmark_failure(bookmarks, pages, root, from + 1, at);
    }
}

/// The position of an item from the object it is numbered as.
fn item_position(reference: PdfRef, root: PdfRef, Ghost(i): Ghost<int>) -> (position: usize)
    requires
        reference == item_reference(root, i),
        0 <= i <= usize::MAX,
        root.number + 1 + i <= u32::MAX,
    ensures
        position == i,
{
    (reference.number - root.number - 1) as usize
}

/// Admit one bookmark after the ones before it.
fn check_bookmark(
    bookmarks: &[Bookmark],
    pages: &[PdfRef],
    root: PdfRef,
    index: usize,
) -> (checked: Result<PdfRef, Error>)
    requires
        index < bookmarks@.len(),
    ensures
        match bookmark_failure(bookmarks@, pages@, root, index as int) {
            Some(failure) => checked == Err::<PdfRef, Error>(failure),
            None => checked == Ok::<PdfRef, Error>(item_reference(root, index as int)) && root.number
                + index + 1 <= MAX_PDF_OBJECTS,
        },
{
    let bookmark = &bookmarks[index];
    if bookmark.depth >= MAX_OUTLINE_DEPTH {
        return Err(
            pdf_limit(
                None,
                0,
                "PDF outline depth",
                MAX_OUTLINE_DEPTH as u64,
                bookmark.depth as u64 + 1,
            ),
        );
    }
    let skips: bool = if index == 0 {
        bookmark.depth != 0
    } else {
        bookmark.depth as u64 > bookmarks[index - 1].depth as u64 + 1
    };
    if skips {
        return Err(malformed(None, 0, "bookmark depth skips a parent"));
    }
    if bookmark.title.as_str().is_empty() {
        return Err(malformed(None, 0, "bookmark title is empty"));
    }
    if bookmark.page_index as usize >= pages.len() {
        return Err(malformed(None, 0, "bookmark destination is outside the ordered pages"));
    }
    if index >= (u32::MAX - root.number) as usize {
        return Err(
            pdf_limit(Some(root), 0, "PDF object number", MAX_PDF_OBJECTS as u64, u64::MAX),
        );
    }
    let reference = PdfRef { number: root.number + 1 + index as u32, generation: 0 };
    checked_reference(reference, 0)?;
    Ok(reference)
}

/// The nodes after an item was added: the previous sibling and the parent
/// learn of it.
spec fn with_item(
    nodes: Seq<OutlineNode>,
    node: OutlineNode,
    previous: Option<int>,
    above: Option<int>,
) -> Seq<OutlineNode> {
    let reference = Some(node.reference);
    Seq::new(
        nodes.len(),
        |i: int|
            OutlineNode {
                next: if previous == Some(i) {
                    reference
                } else {
                    nodes[i].next
                },
                first_child: if above == Some(i) && nodes[i].first_child is None {
                    reference
                } else {
                    nodes[i].first_child
                },
                last_child: if above == Some(i) {
                    reference
                } else {
                    nodes[i].last_child
                },
                ..nodes[i]
            },
    ).push(node)
}

/// Whether the nodes so far carry the links of the depths so far.
#[verifier::opaque]
spec fn linked(
    nodes: Seq<OutlineNode>,
    bookmarks: Seq<Bookmark>,
    pages: Seq<PdfRef>,
    root: PdfRef,
    upto: int,
) -> bool {
    let depths = depths_of(bookmarks).take(upto);
    &&& nodes.len() == upto
    &&& well_nested(depths)
    &&& forall|i: int|
        #![trigger nodes[i]]
        0 <= i < upto ==> {
            &&& carries_links(nodes[i], depths, root, i)
            &&& nodes[i].page == pages[bookmarks[i].page_index as int]
            &&& nodes[i].descendants == 0
        }
}

/// Whether the stack holds the open items, outermost first.
#[verifier::opaque]
spec fn stacked(stack: Seq<usize>, depths: Seq<nat>) -> bool {
    &&& stack.len() == open_levels(depths)
    &&& forall|level: int|
        0 <= level < stack.len() ==> #[trigger] stack[level] == open_at(depths, level as nat)
}

/// The open items above and at a new item's depth.
proof fn lemma_open_items(stack: Seq<usize>, depths: Seq<nat>, depth: nat)
    requires
        well_nested(depths.push(depth)),
        stacked(stack, depths),
    ensures
        depth <= stack.len(),
        depth > 0 ==> parent(depths.push(depth), depths.len() as int) == Some(
            stack[depth - 1] as int,
        ) && stack[depth - 1] < depths.len(),
        depth == 0 ==> parent(depths.push(depth), depths.len() as int) is None,
        depth < stack.len() ==> previous_sibling(depths.push(depth), depths.len() as int) == Some(
            stack[depth as int] as int,
        ) && stack[depth as int] < depths.len(),
        depth >= stack.len() ==> previous_sibling(depths.push(depth), depths.len() as int) is None,
{
    reveal(stacked);
    let longer = depths.push(depth);
    lemma_prefix_nests(depths, depth);
    assert(longer[depths.len() as int] == depth);
    if depths.len() > 0 {
        assert(longer[depths.len() - 1] == depths.last());
    }
    lemma_new_item(depths, depth);
    if depth > 0 {
        lemma_open_levels(depths, (depth - 1) as nat);
        assert(stack[depth - 1] == open_at(depths, (depth - 1) as nat));
    }
    if depth < stack.len() {
        lemma_open_levels(depths, depth);
        assert(stack[depth as int] == open_at(depths, depth));
    }
}

proof fn lemma_prefix_nests(depths: Seq<nat>, depth: nat)
    requires
        well_nested(depths.push(depth)),
    ensures
        well_nested(depths),
{
    let longer = depths.push(depth);
    if depths.len() > 0 {
        assert(longer[0] == depths[0]);
    }
    assert forall|i: int| 1 <= i < depths.len() implies (#[trigger] depths[i]) <= depths[i - 1]
        + 1 by {
        assert(longer[i] <= longer[i - 1] + 1);
    }
}

proof fn lemma_stack_push(stack: Seq<usize>, depths: Seq<nat>, depth: nat, added: usize)
    requires
        stacked(stack, depths),
        depth <= stack.len(),
        added == depths.len(),
    ensures
        stacked(stack.take(depth as int).push(added), depths.push(depth)),
{
    reveal(stacked);
    let longer = stack.take(depth as int).push(added);
    assert forall|level: int| 0 <= level < longer.len() implies #[trigger] longer[level]
        == open_at(depths.push(depth), level as nat) by {
        lemma_push_open(depths, depth, level as nat);
        if level < depth {
            assert(longer[level] == stack[level]);
        }
    }
}

/// Adding an item to its previous sibling and its parent keeps every node
/// linked.
proof fn lemma_link(
    nodes: Seq<OutlineNode>,
    node: OutlineNode,
    bookmarks: Seq<Bookmark>,
    pages: Seq<PdfRef>,
    root: PdfRef,
    added: int,
)
    requires
        0 <= added < bookmarks.len(),
        linked(nodes, bookmarks, pages, root, added),
        well_nested(depths_of(bookmarks).take(added + 1)),
        node.page == pages[bookmarks[added].page_index as int],
        node.descendants == 0,
        carries_links(node, depths_of(bookmarks).take(added + 1), root, added),
    ensures
        linked(
            with_item(
                nodes,
                node,
                previous_sibling(depths_of(bookmarks).take(added + 1), added),
                parent(depths_of(bookmarks).take(added + 1), added),
            ),
            bookmarks,
            pages,
            root,
            added + 1,
        ),
{
    reveal(linked);
    let before = depths_of(bookmarks).take(added);
    let after = depths_of(bookmarks).take(added + 1);
    let depth = bookmarks[added].depth as nat;
    assert(after =~= before.push(depth));
    let longer = with_item(
        nodes,
        node,
        previous_sibling(after, added),
        parent(after, added),
    );
    assert forall|i: int| 0 <= i < added + 1 implies {
        &&& carries_links(#[trigger] longer[i], after, root, i)
        &&& longer[i].page == pages[bookmarks[i].page_index as int]
        &&& longer[i].descendants == 0
    } by {
        if i < added {
            assert(carries_links(nodes[i], before, root, i));
            lemma_push_links(before, depth, i);
        }
    }
}

/// A new item has nothing after it and nothing below it.
proof fn lemma_new_item_is_bare(depths: Seq<nat>)
    requires
        depths.len() > 0,
    ensures
        next_sibling(depths, depths.len() - 1) is None,
        first_child(depths, depths.len() - 1) is None,
        last_child(depths, depths.len() - 1) is None,
{
}

/// Add one item after its previous sibling and below its parent.
fn link_item(
    nodes: &mut Vec<OutlineNode>,
    node: OutlineNode,
    previous: Option<usize>,
    above: Option<usize>,
)
    requires
        previous matches Some(i) ==> i < old(nodes)@.len(),
        above matches Some(i) ==> i < old(nodes)@.len(),
    ensures
        final(nodes)@ == with_item(old(nodes)@, node, at(previous), at(above)),
{
    if let Some(position) = previous {
        let mut sibling = nodes[position];
        sibling.next = Some(node.reference);
        nodes.set(position, sibling);
    }
    if let Some(position) = above {
        let mut over = nodes[position];
        if over.first_child.is_none() {
            over.first_child = Some(node.reference);
        }
        over.last_child = Some(node.reference);
        nodes.set(position, over);
    }
    nodes.push(node);
    assert(nodes@ =~= with_item(old(nodes)@, node, at(previous), at(above)));
}

/// The link to the item at a position.
fn reference_at(
    nodes: &Vec<OutlineNode>,
    position: Option<usize>,
    Ghost(bookmarks): Ghost<Seq<Bookmark>>,
    Ghost(pages): Ghost<Seq<PdfRef>>,
    root: PdfRef,
) -> (reference: Option<PdfRef>)
    requires
        linked(nodes@, bookmarks, pages, root, nodes@.len() as int),
        position matches Some(i) ==> i < nodes@.len(),
    ensures
        reference == item_link(root, at(position)),
{
    proof {
        reveal(linked);
    }
    match position {
        Some(position) => {
            assert(carries_links(
                nodes@[position as int],
                depths_of(bookmarks).take(nodes@.len() as int),
                root,
                position as int,
            ));
            Some(nodes[position].reference)
        },
        None => None,
    }
}

/// Complete the nodes of an outline whose links are all set.
fn finish_outline(
    nodes: &mut Vec<OutlineNode>,
    root: PdfRef,
    Ghost(bookmarks): Ghost<Seq<Bookmark>>,
    Ghost(pages): Ghost<Seq<PdfRef>>,
)
    requires
        linked(old(nodes)@, bookmarks, pages, root, bookmarks.len() as int),
        root.number + bookmarks.len() <= u32::MAX || bookmarks.len() == 0,
    ensures
        final(nodes)@ == outline_nodes(bookmarks, pages, root),
        well_nested(depths_of(bookmarks)),
{
    let ghost depths = depths_of(bookmarks);
    proof {
        assert(depths.take(bookmarks.len() as int) =~= depths);
        reveal(linked);
    }
    count_descendants(nodes, root, Ghost(depths));
    proof {
        reveal(outline_node);
        assert forall|i: int| 0 <= i < nodes@.len() implies #[trigger] nodes@[i] == outline_node(
            bookmarks,
            pages,
            root,
            i,
        ) by {
            assert(carries_links(nodes@[i], depths, root, i));
        }
        assert(nodes@ =~= outline_nodes(bookmarks, pages, root));
    }
}

/// Link the items of a non-empty outline, appending to the reserved `nodes`.
pub fn link_outline(
    bookmarks: &[Bookmark],
    pages: &[PdfRef],
    root: PdfRef,
    reserved: Vec<OutlineNode>,
) -> (built: Result<Vec<OutlineNode>, Error>)
    requires
        reserved@.len() == 0,
    ensures
        match bookmarks_failure(bookmarks@, pages@, root, 0) {
            Some(failure) => built == Err::<Vec<OutlineNode>, Error>(failure),
            None => {
                &&& built is Ok
                &&& built->Ok_0@ == outline_nodes(bookmarks@, pages@, root)
                &&& well_nested(depths_of(bookmarks@))
                &&& root.number + bookmarks@.len() <= u32::MAX
            },
        },
{
    let ghost depths = depths_of(bookmarks@);
    let mut nodes: Vec<OutlineNode> = reserved;
    let mut stack: Vec<usize> = Vec::new();
    let mut index: usize = 0;
    proof {
        reveal(linked);
        reveal(stacked);
    }
    while index < bookmarks.len()
        invariant
            index <= bookmarks@.len(),
            nodes@.len() == index,
            depths == depths_of(bookmarks@),
            forall|i: int|
                0 <= i < index ==> (#[trigger] bookmark_failure(bookmarks@, pages@, root, i))
                    is None,
            index > 0 ==> root.number + index <= MAX_PDF_OBJECTS,
            stacked(stack@, depths.take(index as int)),
            linked(nodes@, bookmarks@, pages@, root, index as int),
        decreases bookmarks@.len() - index,
    {
        let ghost before = depths.take(index as int);
        let ghost after = depths.take(index + 1);
        let reference = match check_bookmark(bookmarks, pages, root, index) {
            Ok(reference) => reference,
            Err(error) => {
                proof {
                    lemma_first_bookmark_failure(bookmarks@, pages@, root, 0, index as int);
                }
                return Err(error);
            },
        };
        let depth: usize = bookmarks[index].depth as usize;
        let page = pages[bookmarks[index].page_index as usize];
        proof {
            lemma_no_failure_nests(bookmarks@, pages@, root, index + 1);
            assert(after =~= before.push(depth as nat));
            lemma_open_items(stack@, before, depth as nat);
            lemma_stack_push(stack@, before, depth as nat, index);
            lemma_new_item_is_bare(after);
        }
        // The item still open at this depth is the previous sibling.
        let previous: Option<usize> = if depth < stack.len() {
            Some(stack[depth])
        } else {
            None
        };
        let above: Option<usize> = if depth == 0 {
            None
        } else {
            Some(stack[depth - 1])
        };
        let parent_link = reference_at(&nodes, above, Ghost(bookmarks@), Ghost(pages@), root);
        let node = OutlineNode {
            reference,
            parent: match parent_link {
                Some(link) => link,
                None => root,
            },
            parent_index: above,
            previous: reference_at(&nodes, previous, Ghost(bookmarks@), Ghost(pages@), root),
            next: None,
            first_child: None,
            last_child: None,
            descendants: 0,
            page,
        };
        proof {
            lemma_link(nodes@, node, bookmarks@, pages@, root, index as int);
        }
        link_item(&mut nodes, node, previous, above);
        stack.truncate(depth);
        stack.push(index);
        index += 1;
    }
    proof {
        lemma_first_bookmark_failure(bookmarks@, pages@, root, 0, index as int);
    }
    finish_outline(&mut nodes, root, Ghost(bookmarks@), Ghost(pages@));
    Ok(nodes)
}

/// The open items above and at a new item's depth are its parent and its
/// previous sibling.
proof fn lemma_new_item(before: Seq<nat>, depth: nat)
    requires
        well_nested(before.push(depth)),
        depth <= open_levels(before),
    ensures
        previous_sibling(before.push(depth), before.len() as int) == (if depth < open_levels(
            before,
        ) {
            Some(open_at(before, depth))
        } else {
            None
        }),
        parent(before.push(depth), before.len() as int) == (if depth == 0 {
            None
        } else {
            Some(open_at(before, (depth - 1) as nat))
        }),
{
    let after = before.push(depth);
    let n = before.len() as int;
    assert(after.take(n) =~= before);
    assert forall|i: int| 1 <= i < before.len() implies (#[trigger] before[i]) <= before[i - 1]
        + 1 by {
        assert(after[i] <= after[i - 1] + 1);
    }
    if before.len() > 0 {
        assert(after[0] == before[0]);
    }
    assert(after[n] == depth);
    crate::outline_order::lemma_last_at_most_prefix(after, before, n, depth);
    if depth > 0 {
        crate::outline_order::lemma_last_at_most_prefix(after, before, n, (depth - 1) as nat);
    }
    let j = last_at_most(before, n, depth);
    lemma_last_at_most(before, n, depth);
    if depth < open_levels(before) {
        lemma_open_levels(before, depth);
        assert(after[j] == before[j]);
    } else if j >= 0 {
        // Nothing open is as deep as the new item.
        assert(after[j] == before[j]);
        assert(j == n - 1);
    }
}

/// Fill in how many items lie below each item: an item ends where its next
/// sibling starts, or where its parent ends.
fn count_descendants(nodes: &mut Vec<OutlineNode>, root: PdfRef, Ghost(depths): Ghost<Seq<nat>>)
    requires
        well_nested(depths),
        old(nodes)@.len() == depths.len(),
        root.number + depths.len() <= u32::MAX || depths.len() == 0,
        forall|i: int|
            0 <= i < depths.len() ==> carries_links(#[trigger] old(nodes)@[i], depths, root, i),
    ensures
        final(nodes)@.len() == depths.len(),
        forall|i: int|
            #![trigger final(nodes)@[i]]
            0 <= i < depths.len() ==> {
                &&& carries_links(final(nodes)@[i], depths, root, i)
                &&& final(nodes)@[i].descendants == descendants(depths, i)
                &&& final(nodes)@[i].page == old(nodes)@[i].page
            },
{
    let count: usize = nodes.len();
    let ghost original = nodes@;
    let mut index: usize = 0;
    while index < count
        invariant
            well_nested(depths),
            count == depths.len(),
            index <= count,
            nodes@.len() == depths.len(),
            original.len() == depths.len(),
            root.number + depths.len() <= u32::MAX || depths.len() == 0,
            forall|i: int|
                #![trigger nodes@[i]]
                0 <= i < depths.len() ==> {
                    &&& carries_links(nodes@[i], depths, root, i)
                    &&& nodes@[i].page == original[i].page
                    &&& i < index ==> nodes@[i].descendants == descendants(depths, i)
                },
        decreases count - index,
    {
        let mut node = nodes[index];
        proof {
            lemma_first_at_most(depths, index + 1, depths[index as int]);
            if next_sibling(depths, index as int) is None {
                lemma_end_without_next(depths, index as int);
            }
            if parent(depths, index as int) is Some {
                law_children_agree(depths, index as int);
            }
        }
        let end: usize = match node.next {
            Some(next) => item_position(next, root, Ghost(subtree_end(depths, index as int))),
            None => match node.parent_index {
                Some(above) => above + 1 + nodes[above].descendants as usize,
                None => count,
            },
        };
        assert(end == subtree_end(depths, index as int));
        node.descendants = (end - index - 1) as u32;
        nodes.set(index, node);
        index += 1;
    }
}

/// Build the outline of the bookmarks below `root`, with the first and the
/// last top-level item.
pub fn build_outline_nodes(
    bookmarks: &[Bookmark],
    pages: &[PdfRef],
    root: PdfRef,
    limits: &Limits,
    retained_bytes: u64,
) -> (built: Result<(Vec<OutlineNode>, PdfRef, PdfRef), Error>)
    ensures
        match outline_memory_failure(bookmarks@.len(), root, *limits, retained_bytes) {
            Some(failure) => built == Err::<(Vec<OutlineNode>, PdfRef, PdfRef), Error>(failure),
            None => {
                ||| bookmarks@.len() > 0 && (built matches Err(error) && outline_refused(
                    error,
                    *limits,
                    bookmarks@.len(),
                ))
                ||| match outline_failure(bookmarks@, pages@, root) {
                    Some(failure) => built == Err::<
                        (Vec<OutlineNode>, PdfRef, PdfRef),
                        Error,
                    >(failure),
                    None => built matches Ok((nodes, first, last)) && {
                        let depths = depths_of(bookmarks@);
                        &&& nodes@ == outline_nodes(bookmarks@, pages@, root)
                        &&& well_nested(depths)
                        &&& Some(first) == item_link(root, first_root(depths))
                        &&& Some(last) == item_link(root, last_root(depths))
                        &&& root.number + bookmarks@.len() <= u32::MAX
                    },
                }
            },
        },
{
    let metadata_bytes: usize = match bookmarks.len().checked_mul(
        core::mem::size_of::<OutlineNode>(),
    ) {
        Some(bytes) => bytes,
        None => {
            return Err(
                Error::InvalidInput { reason: "PDF outline index allocation overflows 64 bits" },
            );
        },
    };
    let needed = checked_add(retained_bytes, metadata_bytes as u64)?;
    check_pdf_allocation(limits, needed, Some(root), 0)?;
    let mut nodes: Vec<OutlineNode> = Vec::new();
    let refused = pdf_limit(
        None,
        0,
        "PDF outline index allocation",
        limits.max_allocation_bytes,
        metadata_bytes as u64,
    );
    reserve_exact(&mut nodes, bookmarks.len(), refused)?;
    if bookmarks.len() == 0 {
        return Err(Error::InvalidInput { reason: "PDF outline root has no first item" });
    }
    let nodes = link_outline(bookmarks, pages, root, nodes)?;
    let ghost depths = depths_of(bookmarks@);
    proof {
        reveal(outline_node);
    }
    let first = nodes[0].reference;
    let mut last: usize = nodes.len() - 1;
    proof {
        lemma_levels(depths, depths.len() as int, 0);
        lemma_last_at_most(depths, depths.len() as int, 0);
    }
    while bookmarks[last].depth != 0
        invariant
            last < bookmarks@.len(),
            depths == depths_of(bookmarks@),
            0 <= last_at_most(depths, depths.len() as int, 0) <= last,
            depths[last_at_most(depths, depths.len() as int, 0)] == 0,
            forall|k: int| last < k < bookmarks@.len() ==> #[trigger] depths[k] > 0,
        decreases last,
    {
        last -= 1;
    }
    proof {
        crate::outline_order::lemma_last_at_most_is(
            depths,
            depths.len() as int,
            0,
            last as int,
        );
    }
    let last = nodes[last].reference;
    Ok((nodes, first, last))
}

} // verus!

//! The page tree that the supplied objects already hold.

use vstd::prelude::*;
use vstd::layout::size_of;
use vstd::set_lib::{lemma_int_range, set_int_range};
use crate::fallible::{allocator_refused, reserve_exact};
use crate::fragment::inspection::FragmentKind;
use crate::fragment::record::{
    allocation_failure, check_pdf_allocation, checked_add, indexed, malformed, object_index,
    pdf_error, pdf_limit, position_of, FragmentPlan, Record,
};
use crate::types::{first_failure, outcome, Error, Limits, PdfErrorKind, PdfRef};

verus! {

/// What a walk of the page tree looks at.
pub ghost struct Forest {
    pub records: Seq<Record>,
    pub kinds: Seq<Option<FragmentKind>>,
    pub pages: Seq<PdfRef>,
    pub max_pages: u32,
}

/// What a walk has left to reach, and how many pages it has passed.
pub ghost struct PageWalk {
    pub left: Set<int>,
    pub leaves: nat,
}

/// The most links that may wait to be followed.
pub open spec fn link_capacity(count: nat) -> int {
    2 * count as int + 1
}

/// Walk the node that `reference` names, in document order.
///
/// `parent` is the node it was reached from, `open` holds every record that is
/// not above it, and `waiting` links are left to follow once its subtree is
/// done.
pub open spec fn enter(
    forest: Forest,
    reference: PdfRef,
    parent: Option<PdfRef>,
    inherited_media_box: bool,
    open: Set<int>,
    waiting: int,
    walk: PageWalk,
) -> Result<PageWalk, Error>
    decreases open.len(), 0nat,
    when open.finite()
{
    match position_of(forest.records, reference.number) {
        None => Err(malformed(Some(reference), 0, "page-tree child object is missing")),
        Some(index) => {
            let offset = forest.records[index].range.offset;
            let reached = PageWalk { left: walk.left.remove(index), leaves: walk.leaves };
            if !walk.left.contains(index) || !open.contains(index) {
                Err(
                    malformed(
                        Some(reference),
                        offset,
                        "page tree contains a repeated child or cycle",
                    ),
                )
            } else {
                match forest.kinds[index] {
                    Some(FragmentKind::Page { parent: actual, has_media_box }) => {
                        if Some(actual) != parent {
                            Err(
                                malformed(
                                    Some(reference),
                                    offset,
                                    "Page /Parent link does not match the page tree",
                                ),
                            )
                        } else if !has_media_box && !inherited_media_box {
                            Err(
                                malformed(
                                    Some(reference),
                                    offset,
                                    "Page has no direct or inherited MediaBox",
                                ),
                            )
                        } else if walk.leaves >= forest.pages.len()
                            || forest.pages[walk.leaves as int] != reference {
                            Err(
                                pdf_error(
                                    Some(reference),
                                    offset,
                                    PdfErrorKind::AmbiguousRepair,
                                    "page-tree order differs from explicit page order",
                                ),
                            )
                        } else {
                            Ok(PageWalk { left: reached.left, leaves: walk.leaves + 1 })
                        }
                    },
                    Some(FragmentKind::Pages { parent: actual, count, kids, has_media_box }) => {
                        if actual != parent {
                            Err(
                                malformed(
                                    Some(reference),
                                    offset,
                                    "Pages /Parent link does not match the page tree",
                                ),
                            )
                        } else if count == 0 || kids@.len() == 0 {
                            Err(malformed(Some(reference), offset, "Pages node is empty"))
                        } else if count > forest.max_pages {
                            Err(
                                pdf_limit(
                                    Some(reference),
                                    offset,
                                    "page-tree count",
                                    forest.max_pages as u64,
                                    count as u64,
                                ),
                            )
                        } else if waiting + 1 + kids@.len() > usize::MAX {
                            Err(
                                Error::InvalidInput {
                                    reason: "PDF page-tree traversal length overflows address space",
                                },
                            )
                        } else if waiting + 1 + kids@.len() > link_capacity(forest.records.len()) {
                            Err(
                                pdf_error(
                                    Some(reference),
                                    offset,
                                    PdfErrorKind::AmbiguousRepair,
                                    "page tree has more child links than indexed objects",
                                ),
                            )
                        } else {
                            match enter_kids(
                                forest,
                                reference,
                                kids@,
                                0,
                                inherited_media_box || has_media_box,
                                open.remove(index),
                                waiting + 1,
                                reached,
                            ) {
                                Err(error) => Err(error),
                                Ok(after) => if after.leaves - walk.leaves != count {
                                    Err(
                                        malformed(
                                            Some(reference),
                                            0,
                                            "Pages /Count differs from descendant page count",
                                        ),
                                    )
                                } else {
                                    Ok(after)
                                },
                            }
                        }
                    },
                    _ => Err(
                        malformed(
                            Some(reference),
                            offset,
                            "page-tree child has neither Page nor Pages type",
                        ),
                    ),
                }
            }
        },
    }
}

/// Walk the children of a node from position `from` on.
pub open spec fn enter_kids(
    forest: Forest,
    parent: PdfRef,
    kids: Seq<PdfRef>,
    from: int,
    inherited_media_box: bool,
    open: Set<int>,
    waiting: int,
    walk: PageWalk,
) -> Result<PageWalk, Error>
    decreases open.len(), 1 + kids.len() - from,
    when open.finite() && 0 <= from <= kids.len()
{
    if from == kids.len() {
        Ok(walk)
    } else {
        match enter(
            forest,
            kids[from],
            Some(parent),
            inherited_media_box,
            open,
            waiting + kids.len() - from - 1,
            walk,
        ) {
            Err(error) => Err(error),
            Ok(after) => enter_kids(
                forest,
                parent,
                kids,
                from + 1,
                inherited_media_box,
                open,
                waiting,
                after,
            ),
        }
    }
}

/// A walk that has not started.
pub open spec fn whole_walk(count: nat) -> PageWalk {
    PageWalk { left: set_int_range(0, count as int), leaves: 0 }
}

/// Why the tree below `root` is not a page tree of the explicit pages.
pub open spec fn page_tree_failure(forest: Forest, root: PdfRef) -> Option<Error> {
    let walk = whole_walk(forest.records.len());
    match enter(forest, root, None, false, walk.left, 0, walk) {
        Err(error) => Some(error),
        Ok(after) => if after.leaves != forest.pages.len() {
            Some(
                pdf_error(
                    Some(root),
                    0,
                    PdfErrorKind::AmbiguousRepair,
                    "page tree omits an explicitly ordered page",
                ),
            )
        } else {
            None
        },
    }
}

/// One pending step of a walk.
#[derive(Clone, Copy, Debug)]
pub enum WalkStep {
    Enter { reference: PdfRef, parent: Option<PdfRef>, inherited_media_box: bool },
    Exit { reference: PdfRef, leaves_before: usize, declared_count: u32 },
}

/// What the pending steps come to, the last one first.
spec fn run(
    forest: Forest,
    stack: Seq<WalkStep>,
    opens: Seq<Set<int>>,
    walk: PageWalk,
) -> Result<PageWalk, Error>
    decreases stack.len(),
{
    if stack.len() == 0 {
        Ok(walk)
    } else {
        let rest = stack.drop_last();
        match stack.last() {
            WalkStep::Enter { reference, parent, inherited_media_box } => {
                match enter(
                    forest,
                    reference,
                    parent,
                    inherited_media_box,
                    opens.last(),
                    rest.len() as int,
                    walk,
                ) {
                    Err(error) => Err(error),
                    Ok(after) => run(forest, rest, opens.drop_last(), after),
                }
            },
            WalkStep::Exit { reference, leaves_before, declared_count } => {
                if walk.leaves - leaves_before != declared_count {
                    Err(
                        malformed(
                            Some(reference),
                            0,
                            "Pages /Count differs from descendant page count",
                        ),
                    )
                } else {
                    run(forest, rest, opens.drop_last(), walk)
                }
            },
        }
    }
}

/// The steps that enter the children from position `from` on, the first child
/// last.
spec fn kid_steps(
    kids: Seq<PdfRef>,
    from: int,
    parent: PdfRef,
    inherited_media_box: bool,
) -> Seq<WalkStep> {
    Seq::new(
        (kids.len() - from) as nat,
        |k: int|
            WalkStep::Enter {
                reference: kids[kids.len() - 1 - k],
                parent: Some(parent),
                inherited_media_box,
            },
    )
}

spec fn repeated(open: Set<int>, count: int) -> Seq<Set<int>> {
    Seq::new(count as nat, |k: int| open)
}

proof fn lemma_run_kids(
    forest: Forest,
    stack: Seq<WalkStep>,
    opens: Seq<Set<int>>,
    kids: Seq<PdfRef>,
    from: int,
    parent: PdfRef,
    inherited_media_box: bool,
    open: Set<int>,
    walk: PageWalk,
)
    requires
        0 <= from <= kids.len(),
        opens.len() == stack.len(),
        open.finite(),
    ensures
        run(
            forest,
            stack + kid_steps(kids, from, parent, inherited_media_box),
            opens + repeated(open, kids.len() - from),
            walk,
        ) == (match enter_kids(
            forest,
            parent,
            kids,
            from,
            inherited_media_box,
            open,
            stack.len() as int,
            walk,
        ) {
            Err(error) => Err(error),
            Ok(after) => run(forest, stack, opens, after),
        }),
    decreases kids.len() - from,
{
    let steps = kid_steps(kids, from, parent, inherited_media_box);
    let all = stack + steps;
    let all_opens = opens + repeated(open, kids.len() - from);
    if from == kids.len() {
        assert(all =~= stack);
        assert(all_opens =~= opens);
    } else {
        let rest = stack + kid_steps(kids, from + 1, parent, inherited_media_box);
        let rest_opens = opens + repeated(open, kids.len() - from - 1);
        assert(all.drop_last() =~= rest);
        assert(all_opens.drop_last() =~= rest_opens);
        assert(all.last() == steps.last());
        assert(all_opens.last() == open);
        match enter(
            forest,
            kids[from],
            Some(parent),
            inherited_media_box,
            open,
            rest.len() as int,
            walk,
        ) {
            Err(_) => {},
            Ok(after) => {
                lemma_run_kids(
                    forest,
                    stack,
                    opens,
                    kids,
                    from + 1,
                    parent,
                    inherited_media_box,
                    open,
                    after,
                );
            },
        }
    }
}

/// What holds between two steps of a walk.
spec fn walking(
    forest: Forest,
    stack: Seq<WalkStep>,
    opens: Seq<Set<int>>,
    walk: PageWalk,
    visited: Seq<bool>,
    leaves: usize,
) -> bool {
    &&& opens.len() == stack.len()
    &&& visited.len() == forest.records.len()
    &&& walk.leaves == leaves
    &&& walk.left.finite()
    &&& forall|i: int| #[trigger]
        walk.left.contains(i) <==> 0 <= i < visited.len() && !visited[i]
    &&& forall|k: int|
        0 <= k < opens.len() ==> (#[trigger] opens[k]).finite() && walk.left.subset_of(opens[k])
    &&& forall|k: int|
        0 <= k < stack.len() ==> match #[trigger] stack[k] {
            WalkStep::Exit { leaves_before, .. } => leaves_before <= leaves,
            _ => true,
        }
}

/// Push the steps that enter the children of a node, the first child on top.
fn push_kids(
    stack: &mut Vec<WalkStep>,
    kids: &Vec<PdfRef>,
    parent: PdfRef,
    inherited_media_box: bool,
)
    ensures
        final(stack)@ == old(stack)@ + kid_steps(kids@, 0, parent, inherited_media_box),
{
    let mut next: usize = kids.len();
    let ghost base = stack@;
    while next > 0
        invariant
            next <= kids@.len(),
            stack@ == base + kid_steps(kids@, next as int, parent, inherited_media_box),
        decreases next,
    {
        next -= 1;
        stack.push(
            WalkStep::Enter { reference: kids[next], parent: Some(parent), inherited_media_box },
        );
        assert(stack@ =~= base + kid_steps(kids@, next as int, parent, inherited_media_box));
    }
}

/// Walk the page tree below `root` with buffers that hold nothing yet.
pub fn walk_page_tree(
    pages: &[PdfRef],
    root: PdfRef,
    records: &[Record],
    kinds: &[Option<FragmentKind>],
    max_pages: u32,
    visit_buffer: Vec<bool>,
    stack_buffer: Vec<WalkStep>,
) -> (walked: Result<(), Error>)
    requires
        indexed(records@),
        kinds@.len() == records@.len(),
        link_capacity(records@.len()) <= usize::MAX,
        visit_buffer@.len() == 0,
        stack_buffer@.len() == 0,
    ensures
        walked == outcome(
            page_tree_failure(
                Forest { records: records@, kinds: kinds@, pages: pages@, max_pages },
                root,
            ),
        ),
{
    let ghost forest = Forest { records: records@, kinds: kinds@, pages: pages@, max_pages };
    let capacity: usize = 2 * records.len() + 1;
    let mut visited: Vec<bool> = visit_buffer;
    while visited.len() < records.len()
        invariant
            visited@.len() <= records@.len(),
            forall|i: int| 0 <= i < visited@.len() ==> !(#[trigger] visited@[i]),
        decreases records@.len() - visited@.len(),
    {
        visited.push(false);
    }
    let mut stack: Vec<WalkStep> = stack_buffer;
    stack.push(WalkStep::Enter { reference: root, parent: None, inherited_media_box: false });
    let mut leaves: usize = 0;
    let ghost mut walk = whole_walk(records@.len());
    let ghost mut opens = seq![walk.left];
    let ghost result = enter(forest, root, None, false, walk.left, 0, walk);
    proof {
        lemma_int_range(0, records@.len() as int);
        assert(stack@.drop_last() =~= Seq::<WalkStep>::empty());
        assert(run(forest, stack@.drop_last(), opens.drop_last(), walk) == Ok::<PageWalk, Error>(
            walk,
        ));
        match result {
            Ok(after) => {
                assert(run(forest, stack@.drop_last(), opens.drop_last(), after) == Ok::<
                    PageWalk,
                    Error,
                >(after));
            },
            Err(_) => {},
        }
    }
    while stack.len() > 0
        invariant
            forest == (Forest { records: records@, kinds: kinds@, pages: pages@, max_pages }),
            indexed(records@),
            kinds@.len() == records@.len(),
            capacity == link_capacity(records@.len()),
            walking(forest, stack@, opens, walk, visited@, leaves),
            run(forest, stack@, opens, walk) == result,
            result == enter(
                forest,
                root,
                None,
                false,
                whole_walk(records@.len()).left,
                0,
                whole_walk(records@.len()),
            ),
        decreases walk.left.len(), stack@.len(),
    {
        let ghost steps = stack@;
        let ghost rest = stack@.drop_last();
        let ghost rest_opens = opens.drop_last();
        let ghost open = opens.last();
        assert(opens[opens.len() - 1] == open);
        let step = match stack.pop() {
            Some(step) => step,
            None => {
                return Ok(());
            },
        };
        assert(stack@ == rest);
        assert(steps[rest.len() as int] == step);
        match step {
            WalkStep::Enter { reference, parent, inherited_media_box } => {
                let index = match object_index(records, reference) {
                    Some(index) => index,
                    None => {
                        return Err(
                            malformed(Some(reference), 0, "page-tree child object is missing"),
                        );
                    },
                };
                let offset = records[index].range.offset;
                assert(walk.left.contains(index as int) <==> !visited@[index as int]);
                if visited[index] {
                    return Err(
                        malformed(
                            Some(reference),
                            offset,
                            "page tree contains a repeated child or cycle",
                        ),
                    );
                }
                assert(open.contains(index as int));
                visited.set(index, true);
                let ghost reached = PageWalk {
                    left: walk.left.remove(index as int),
                    leaves: walk.leaves,
                };
                match &kinds[index] {
                    Some(FragmentKind::Page { parent: actual, has_media_box }) => {
                        if !is_same(Some(*actual), parent) {
                            return Err(
                                malformed(
                                    Some(reference),
                                    offset,
                                    "Page /Parent link does not match the page tree",
                                ),
                            );
                        }
                        if !*has_media_box && !inherited_media_box {
                            return Err(
                                malformed(
                                    Some(reference),
                                    offset,
                                    "Page has no direct or inherited MediaBox",
                                ),
                            );
                        }
                        if leaves >= pages.len() || pages[leaves] != reference {
                            return Err(
                                pdf_error(
                                    Some(reference),
                                    offset,
                                    PdfErrorKind::AmbiguousRepair,
                                    "page-tree order differs from explicit page order",
                                ),
                            );
                        }
                        leaves += 1;
                        proof {
                            walk = PageWalk { left: reached.left, leaves: walk.leaves + 1 };
                            opens = rest_opens;
                        }
                    },
                    Some(FragmentKind::Pages { parent: actual, count, kids, has_media_box }) => {
                        if !is_same(*actual, parent) {
                            return Err(
                                malformed(
                                    Some(reference),
                                    offset,
                                    "Pages /Parent link does not match the page tree",
                                ),
                            );
                        }
                        if *count == 0 || kids.len() == 0 {
                            return Err(malformed(Some(reference), offset, "Pages node is empty"));
                        }
                        if *count > max_pages {
                            return Err(
                                pdf_limit(
                                    Some(reference),
                                    offset,
                                    "page-tree count",
                                    max_pages as u64,
                                    *count as u64,
                                ),
                            );
                        }
                        let room: usize = usize::MAX - kids.len();
                        if stack.len() >= room {
                            return Err(
                                Error::InvalidInput {
                                    reason: "PDF page-tree traversal length overflows address space",
                                },
                            );
                        }
                        if stack.len() + 1 + kids.len() > capacity {
                            return Err(
                                pdf_error(
                                    Some(reference),
                                    offset,
                                    PdfErrorKind::AmbiguousRepair,
                                    "page tree has more child links than indexed objects",
                                ),
                            );
                        }
                        let exit = WalkStep::Exit {
                            reference,
                            leaves_before: leaves,
                            declared_count: *count,
                        };
                        stack.push(exit);
                        push_kids(
                            &mut stack,
                            kids,
                            reference,
                            inherited_media_box || *has_media_box,
                        );
                        proof {
                            let below = open.remove(index as int);
                            let inherited = inherited_media_box || *has_media_box;
                            let with_exit = rest.push(exit);
                            let exit_opens = rest_opens.push(open);
                            lemma_run_kids(
                                forest,
                                with_exit,
                                exit_opens,
                                kids@,
                                0,
                                reference,
                                inherited,
                                below,
                                reached,
                            );
                            assert(with_exit.drop_last() =~= rest);
                            assert(exit_opens.drop_last() =~= rest_opens);
                            assert(with_exit.last() == exit);
                            opens = exit_opens + repeated(below, kids@.len() as int);
                            walk = reached;
                        }
                    },
                    _ => {
                        return Err(
                            malformed(
                                Some(reference),
                                offset,
                                "page-tree child has neither Page nor Pages type",
                            ),
                        );
                    },
                }
            },
            WalkStep::Exit { reference, leaves_before, declared_count } => {
                if leaves - leaves_before != declared_count as usize {
                    return Err(
                        malformed(
                            Some(reference),
                            0,
                            "Pages /Count differs from descendant page count",
                        ),
                    );
                }
                proof {
                    opens = rest_opens;
                }
            },
        }
    }
    if leaves != pages.len() {
        return Err(
            pdf_error(
                Some(root),
                0,
                PdfErrorKind::AmbiguousRepair,
                "page tree omits an explicitly ordered page",
            ),
        );
    }
    Ok(())
}

/// Where the root's own object starts, if it was supplied.
pub open spec fn root_offset(records: Seq<Record>, root: PdfRef) -> u64 {
    match position_of(records, root.number) {
        Some(index) => records[index].range.offset,
        None => 0,
    }
}

/// Why a walk's marks may not be allocated.
pub open spec fn visited_failure(
    count: nat,
    root: PdfRef,
    offset: u64,
    retained_bytes: u64,
    limits: Limits,
) -> Option<Error> {
    allocation_failure(limits, retained_bytes + count, Some(root), offset)
}

/// Whether an error reports that a walk's buffers, which the limits allow, were
/// not available.
pub open spec fn walk_starved(
    count: nat,
    root: PdfRef,
    offset: u64,
    retained_bytes: u64,
    limits: Limits,
    error: Error,
) -> bool {
    ||| {
        &&& count > 0
        &&& visited_failure(count, root, offset, retained_bytes, limits) is None
        &&& allocator_refused(
            error,
            "PDF page-tree visited index allocation",
            limits,
            count as int,
        )
    }
    ||| {
        &&& walk_memory_failure(count, root, offset, retained_bytes, limits) is None
        &&& allocator_refused(
            error,
            "PDF page-tree traversal allocation",
            limits,
            link_capacity(count) * size_of::<WalkStep>(),
        )
    }
}

/// Why a walk's buffers may not be allocated.
pub open spec fn walk_memory_failure(
    count: nat,
    root: PdfRef,
    offset: u64,
    retained_bytes: u64,
    limits: Limits,
) -> Option<Error> {
    let with_visited = retained_bytes + count;
    let stack_bytes = link_capacity(count) * size_of::<WalkStep>();
    let overflow = Error::InvalidInput {
        reason: "PDF page-tree traversal allocation overflows address space",
    };
    first_failure(
        visited_failure(count, root, offset, retained_bytes, limits),
        if link_capacity(count) > usize::MAX || stack_bytes > usize::MAX {
            Some(overflow)
        } else {
            allocation_failure(limits, with_visited + stack_bytes, Some(root), offset)
        },
    )
}

/// Check that the page tree below the plan's root is well formed and lists the
/// explicit pages in order.
pub fn validate_existing_page_tree(
    plan: &FragmentPlan,
    records: &[Record],
    kinds: &[Option<FragmentKind>],
    retained_bytes: u64,
    limits: &Limits,
) -> (validated: Result<(), Error>)
    requires
        indexed(records@),
        kinds@.len() == records@.len(),
    ensures
        ({
            ||| validated == outcome(
                first_failure(
                    walk_memory_failure(
                        records@.len(),
                        plan.pages_root,
                        root_offset(records@, plan.pages_root),
                        retained_bytes,
                        *limits,
                    ),
                    page_tree_failure(
                        Forest {
                            records: records@,
                            kinds: kinds@,
                            pages: plan.pages@,
                            max_pages: limits.max_pages,
                        },
                        plan.pages_root,
                    ),
                ),
            )
            ||| validated matches Err(error) && walk_starved(
                records@.len(),
                plan.pages_root,
                root_offset(records@, plan.pages_root),
                retained_bytes,
                *limits,
                error,
            )
        }),
{
    let offset: u64 = match object_index(records, plan.pages_root) {
        Some(index) => records[index].range.offset,
        None => 0,
    };
    let visit_bytes: u64 = records.len() as u64;
    let with_visited = checked_add(retained_bytes, visit_bytes)?;
    check_pdf_allocation(limits, with_visited, Some(plan.pages_root), offset)?;
    let mut visited: Vec<bool> = Vec::new();
    let refused = limits.allocation_refused("PDF page-tree visited index allocation", visit_bytes);
    reserve_exact(&mut visited, records.len(), refused)?;
    let overflow = Error::InvalidInput {
        reason: "PDF page-tree traversal allocation overflows address space",
    };
    if records.len() > (usize::MAX - 1) / 2 {
        return Err(overflow);
    }
    let capacity: usize = 2 * records.len() + 1;
    let stack_bytes: usize = match capacity.checked_mul(core::mem::size_of::<WalkStep>()) {
        Some(bytes) => bytes,
        None => {
            return Err(overflow);
        },
    };
    let needed = checked_add(with_visited, stack_bytes as u64)?;
    check_pdf_allocation(limits, needed, Some(plan.pages_root), offset)?;
    let mut stack: Vec<WalkStep> = Vec::new();
    let refused = limits.allocation_refused(
        "PDF page-tree traversal allocation",
        stack_bytes as u64,
    );
    reserve_exact(&mut stack, capacity, refused)?;
    walk_page_tree(
        plan.pages,
        plan.pages_root,
        records,
        kinds,
        limits.max_pages,
        visited,
        stack,
    )
}

/// A page tree as a whole: pages at the leaves, `/Pages` nodes above them.
pub ghost enum PageTree {
    Leaf { reference: PdfRef },
    Node { reference: PdfRef, kids: Seq<PageTree> },
}

/// The object at the top of a tree.
pub open spec fn top(tree: PageTree) -> PdfRef {
    match tree {
        PageTree::Leaf { reference } => reference,
        PageTree::Node { reference, .. } => reference,
    }
}

/// The pages of a tree in document order.
pub open spec fn leaves(tree: PageTree) -> Seq<PdfRef>
    decreases tree, 0nat,
{
    match tree {
        PageTree::Leaf { reference } => seq![reference],
        PageTree::Node { kids, .. } => leaves_of_first(kids, kids.len()),
    }
}

/// The pages of the first `count` trees.
pub open spec fn leaves_of_first(kids: Seq<PageTree>, count: nat) -> Seq<PdfRef>
    decreases kids, count,
{
    if count == 0 || count > kids.len() {
        Seq::empty()
    } else {
        leaves_of_first(kids, (count - 1) as nat) + leaves(kids[count - 1])
    }
}

/// The records of a tree, each node before what is below it.
pub open spec fn nodes(forest: Forest, tree: PageTree) -> Seq<int>
    decreases tree, 0nat,
{
    let here = seq![position_of(forest.records, top(tree).number)->0];
    match tree {
        PageTree::Leaf { .. } => here,
        PageTree::Node { kids, .. } => here + nodes_of_first(forest, kids, kids.len()),
    }
}

/// The records of the first `count` trees.
pub open spec fn nodes_of_first(forest: Forest, kids: Seq<PageTree>, count: nat) -> Seq<int>
    decreases kids, count,
{
    if count == 0 || count > kids.len() {
        Seq::empty()
    } else {
        nodes_of_first(forest, kids, (count - 1) as nat) + nodes(forest, kids[count - 1])
    }
}

/// Whether the inspected objects are linked as the tree says: every `/Parent`,
/// `/Kids` and `/Count` agrees, and every page has a media box.
pub open spec fn fits(
    forest: Forest,
    tree: PageTree,
    parent: Option<PdfRef>,
    inherited_media_box: bool,
) -> bool
    decreases tree,
{
    position_of(forest.records, top(tree).number) matches Some(index) && match (
        tree,
        forest.kinds[index],
    ) {
        (
            PageTree::Leaf { .. },
            Some(FragmentKind::Page { parent: actual, has_media_box }),
        ) => Some(actual) == parent && (has_media_box || inherited_media_box),
        (
            PageTree::Node { reference, kids },
            Some(FragmentKind::Pages { parent: actual, count, kids: links, has_media_box }),
        ) => {
            &&& actual == parent
            &&& count == leaves(tree).len()
            &&& links@.len() == kids.len()
            &&& forall|j: int|
                #![trigger kids[j]]
                0 <= j < kids.len() ==> {
                    &&& top(kids[j]) == links@[j]
                    &&& fits(
                        forest,
                        kids[j],
                        Some(reference),
                        inherited_media_box || has_media_box,
                    )
                }
        },
        _ => false,
    }
}

/// What a walk that passed over a tree, or over several, has done.
spec fn passed(
    forest: Forest,
    before: PageWalk,
    after: PageWalk,
    pages: Seq<PdfRef>,
    reached: Seq<int>,
) -> bool {
    &&& after.leaves == before.leaves + pages.len()
    &&& after.leaves <= forest.pages.len()
    &&& forest.pages.subrange(before.leaves as int, after.leaves as int) == pages
    &&& after.left.subset_of(before.left)
    &&& reached.no_duplicates()
    &&& forall|k: int|
        0 <= k < reached.len() ==> before.left.contains(#[trigger] reached[k])
            && !after.left.contains(reached[k])
}

proof fn lemma_passed_on(
    forest: Forest,
    first: PageWalk,
    second: PageWalk,
    third: PageWalk,
    pages: Seq<PdfRef>,
    more_pages: Seq<PdfRef>,
    reached: Seq<int>,
    more_reached: Seq<int>,
)
    requires
        passed(forest, first, second, pages, reached),
        passed(forest, second, third, more_pages, more_reached),
    ensures
        passed(forest, first, third, pages + more_pages, reached + more_reached),
{
    let all = reached + more_reached;
    assert(forest.pages.subrange(first.leaves as int, third.leaves as int) =~= pages + more_pages)
        by {
        assert(forest.pages.subrange(first.leaves as int, third.leaves as int)
            =~= forest.pages.subrange(first.leaves as int, second.leaves as int)
            + forest.pages.subrange(second.leaves as int, third.leaves as int));
    }
    assert forall|k: int| 0 <= k < all.len() implies first.left.contains(#[trigger] all[k])
        && !third.left.contains(all[k]) by {
        if k >= reached.len() {
            assert(all[k] == more_reached[k - reached.len()]);
        }
    }
    assert forall|i: int, j: int| 0 <= i < j < all.len() implies all[i] != all[j] by {
        if i >= reached.len() {
            assert(all[i] == more_reached[i - reached.len()]);
        }
        if j >= reached.len() {
            assert(all[j] == more_reached[j - reached.len()]);
            if i < reached.len() {
                assert(!second.left.contains(reached[i]));
                assert(second.left.contains(more_reached[j - reached.len()]));
            }
        }
    }
}

/// An accepted walk of one node has passed over a tree.
proof fn lemma_accepted(
    forest: Forest,
    reference: PdfRef,
    parent: Option<PdfRef>,
    inherited_media_box: bool,
    open: Set<int>,
    waiting: int,
    walk: PageWalk,
) -> (tree: PageTree)
    requires
        open.finite(),
        enter(forest, reference, parent, inherited_media_box, open, waiting, walk) is Ok,
        walk.leaves <= forest.pages.len(),
    ensures
        top(tree) == reference,
        fits(forest, tree, parent, inherited_media_box),
        passed(
            forest,
            walk,
            enter(forest, reference, parent, inherited_media_box, open, waiting, walk)->Ok_0,
            leaves(tree),
            nodes(forest, tree),
        ),
    decreases open.len(), 0nat,
{
    let after = enter(forest, reference, parent, inherited_media_box, open, waiting, walk)->Ok_0;
    let index = position_of(forest.records, reference.number)->0;
    let reached = PageWalk { left: walk.left.remove(index), leaves: walk.leaves };
    match forest.kinds[index] {
        Some(FragmentKind::Pages { parent: actual, count, kids: links, has_media_box }) => {
            assert(Seq::<PdfRef>::empty() =~= forest.pages.subrange(
                walk.leaves as int,
                walk.leaves as int,
            ));
            let kids = lemma_accepted_kids(
                forest,
                reference,
                links@,
                0,
                inherited_media_box || has_media_box,
                open.remove(index),
                waiting + 1,
                reached,
                Seq::empty(),
                reached,
            );
            let tree = PageTree::Node { reference, kids };
            let here = seq![index];
            assert(passed(forest, walk, reached, Seq::empty(), here));
            lemma_passed_on(
                forest,
                walk,
                reached,
                after,
                Seq::empty(),
                leaves(tree),
                here,
                nodes_of_first(forest, kids, kids.len()),
            );
            assert(Seq::<PdfRef>::empty() + leaves(tree) =~= leaves(tree));
            tree
        },
        _ => {
            let tree = PageTree::Leaf { reference };
            assert(forest.pages.subrange(walk.leaves as int, after.leaves as int) =~= leaves(tree));
            assert(nodes(forest, tree) =~= seq![index]);
            tree
        },
    }
}

/// An accepted walk of a node's children has passed over a tree for each.
proof fn lemma_accepted_kids(
    forest: Forest,
    parent: PdfRef,
    links: Seq<PdfRef>,
    from: int,
    inherited_media_box: bool,
    open: Set<int>,
    waiting: int,
    start: PageWalk,
    done: Seq<PageTree>,
    walk: PageWalk,
) -> (kids: Seq<PageTree>)
    requires
        open.finite(),
        0 <= from <= links.len(),
        done.len() == from,
        start.leaves <= forest.pages.len(),
        enter_kids(forest, parent, links, from, inherited_media_box, open, waiting, walk) is Ok,
        passed(
            forest,
            start,
            walk,
            leaves_of_first(done, done.len()),
            nodes_of_first(forest, done, done.len()),
        ),
        forall|j: int|
            #![trigger done[j]]
            0 <= j < from ==> top(done[j]) == links[j] && fits(
                forest,
                done[j],
                Some(parent),
                inherited_media_box,
            ),
    ensures
        kids.len() == links.len(),
        passed(
            forest,
            start,
            enter_kids(forest, parent, links, from, inherited_media_box, open, waiting, walk)->Ok_0,
            leaves_of_first(kids, kids.len()),
            nodes_of_first(forest, kids, kids.len()),
        ),
        forall|j: int|
            #![trigger kids[j]]
            0 <= j < kids.len() ==> top(kids[j]) == links[j] && fits(
                forest,
                kids[j],
                Some(parent),
                inherited_media_box,
            ),
    decreases open.len(), 1 + links.len() - from,
{
    if from == links.len() {
        done
    } else {
        let pending = waiting + links.len() - from - 1;
        let tree = lemma_accepted(
            forest,
            links[from],
            Some(parent),
            inherited_media_box,
            open,
            pending,
            walk,
        );
        let after = enter(
            forest,
            links[from],
            Some(parent),
            inherited_media_box,
            open,
            pending,
            walk,
        )->Ok_0;
        let longer = done.push(tree);
        lemma_passed_on(
            forest,
            start,
            walk,
            after,
            leaves_of_first(done, done.len()),
            leaves(tree),
            nodes_of_first(forest, done, done.len()),
            nodes(forest, tree),
        );
        lemma_first_of_longer(forest, done, tree, done.len());
        assert(longer[from] == tree);
        lemma_accepted_kids(
            forest,
            parent,
            links,
            from + 1,
            inherited_media_box,
            open,
            waiting,
            start,
            longer,
            after,
        )
    }
}

proof fn lemma_first_of_longer(forest: Forest, kids: Seq<PageTree>, tree: PageTree, count: nat)
    requires
        count <= kids.len(),
    ensures
        leaves_of_first(kids.push(tree), count) == leaves_of_first(kids, count),
        nodes_of_first(forest, kids.push(tree), count) == nodes_of_first(forest, kids, count),
    decreases count,
{
    if count > 0 {
        lemma_first_of_longer(forest, kids, tree, (count - 1) as nat);
    }
}

/// An accepted page tree is a tree: no object is reached twice, every
/// `/Parent` and `/Kids` link agrees, every `/Count` is the number of pages
/// below, every page has or inherits a media box, and the pages in document
/// order are exactly the explicit ones.
pub proof fn law_accepted_page_tree(forest: Forest, root: PdfRef) -> (tree: PageTree)
    requires
        page_tree_failure(forest, root) is None,
    ensures
        top(tree) == root,
        fits(forest, tree, None, false),
        leaves(tree) == forest.pages,
        nodes(forest, tree).no_duplicates(),
{
    let walk = whole_walk(forest.records.len());
    lemma_int_range(0, forest.records.len() as int);
    let tree = lemma_accepted(forest, root, None, false, walk.left, 0, walk);
    assert(forest.pages.subrange(0, forest.pages.len() as int) =~= forest.pages);
    tree
}

/// Whether two optional references are the same.
fn is_same(left: Option<PdfRef>, right: Option<PdfRef>) -> (same: bool)
    ensures
        same == (left == right),
{
    match (left, right) {
        (None, None) => true,
        (Some(left), Some(right)) => left == right,
        _ => false,
    }
}

} // verus!

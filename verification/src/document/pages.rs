//! The pages of a document and the tree above them.

use vstd::prelude::*;
use crate::document::emit::{emit_page, page_bytes, page_steps, places_kept};
use crate::document::image::ImageObject;
use crate::document::texts::{node_pieces, page_node};
use crate::fallible::{allocator_refused, growth_bytes, growth_failure, reserve_bounded};
use crate::fragment::texts::header_text;
use crate::outline::Outline;
use crate::pieces::joined;
use crate::types::{first_failure, is_output_limit, outcome, over_limit, Error, Limits};
use crate::writer::{
    object_steps, object_text, passed, step_failure, step_refused, steps_refused, ObjectId,
    PdfWriter, Progress, Step, lemma_passed_more, lemma_passed_none, lemma_passed_one,
    lemma_refused_at, lemma_refused_first, lemma_refused_later,
};

verus! {

/// How many children a page-tree node has at most.
pub const PAGE_TREE_FANOUT: usize = 256;

/// How many pages a tree of three levels holds.
pub const MAX_TREE_PAGES: u64 = 16_777_216;

/// An open page-tree node.
#[derive(Debug)]
pub struct PageNode {
    pub id: ObjectId,
    pub parent: ObjectId,
    pub children: Vec<ObjectId>,
    pub page_count: u32,
}

/// What an object that is handed out but not yet written is for.
pub ghost enum Role {
    Catalog,
    PagesRoot,
    Leaf,
    Middle,
    OutlineRoot,
    Outline { level: int },
}

/// Builds PDF pages and outline items without retaining image or PDF payloads.
///
/// Pages are emitted as they arrive. The document retains one page object ID
/// per page for outline destinations, at most one active group at each
/// page-tree level, and one open outline item per active outline depth. A
/// caller may add a bookmark only after its destination page has been emitted.
/// A document with no pages is rejected by `finish`.
///
/// Bytes are queued in the writer until the caller takes them.
pub struct PdfDocument {
    pub writer: PdfWriter,
    pub limits: Limits,
    pub catalog_id: ObjectId,
    pub pages_root_id: ObjectId,
    pub root_children: Vec<ObjectId>,
    pub middle: Option<PageNode>,
    pub leaf: Option<PageNode>,
    pub page_ids: Vec<ObjectId>,
    pub pages_written: u32,
    pub outline: Outline,
    /// Whether an outline item could not be written.
    pub outline_failed: bool,
    pub input_bytes_read: u64,
    pub leaf_ids: Ghost<Seq<ObjectId>>,
    pub middle_ids: Ghost<Seq<ObjectId>>,
    pub roles: Ghost<Map<int, Role>>,
    /// Whether the root of the page tree has been written.
    pub tree_closed: Ghost<bool>,
    /// Whether a closed page-tree node could not be written, or not be listed
    /// in the root.
    pub tree_torn: Ghost<bool>,
}

/// The children of group `i` when the items are grouped in order.
pub open spec fn group(items: Seq<ObjectId>, i: int) -> Seq<ObjectId> {
    let start = 256 * i;
    let end = if start + 256 <= items.len() {
        start + 256
    } else {
        items.len() as int
    };
    items.subrange(start, end)
}

impl PdfDocument {
    /// Whether an object is held for a purpose.
    pub open spec fn has_role(self, id: ObjectId, role: Role) -> bool {
        self.roles@.dom().contains(id.number as int) && self.roles@[id.number as int] == role
    }

    /// Whether an object is the one that the document has for a purpose.
    pub open spec fn serves(self, n: int, role: Role) -> bool {
        match role {
            Role::Catalog => n == self.catalog_id.number,
            Role::PagesRoot => n == self.pages_root_id.number,
            Role::Leaf => self.leaf matches Some(leaf) && n == leaf.id.number,
            Role::Middle => self.middle matches Some(middle) && n == middle.id.number,
            Role::OutlineRoot => self.outline_failed || (self.outline.root matches Some(root)
                && n == root.number),
            Role::Outline { level } => self.outline_failed || 0 <= level
                < self.outline.open@.len() && n == self.outline.open@[level].reference.number,
        }
    }

    /// Whether every object that has not been written is held for a purpose,
    /// or is the length of the open stream.
    pub open spec fn all_held(self) -> bool {
        forall|i: int|
            #![trigger self.writer.offsets@[i]]
            0 <= i < self.writer.offsets@.len() && self.writer.offsets@[i] is None
                ==> self.roles@.dom().contains(i + 1) || (self.writer.stream matches Some(stream)
                && stream.length_id.number == i + 1)
    }

    /// Whether every object that is held has not been written, and each is
    /// held for one purpose.
    pub open spec fn roles_sound(self) -> bool {
        &&& forall|n: int|
            #![trigger self.roles@.dom().contains(n)]
            self.roles@.dom().contains(n) ==> {
                &&& 1 <= n <= self.writer.offsets@.len()
                &&& self.writer.offsets@[n - 1] is None
                &&& self.serves(n, self.roles@[n])
            }
        &&& self.has_role(self.catalog_id, Role::Catalog)
        &&& !self.tree_closed@ ==> self.has_role(self.pages_root_id, Role::PagesRoot)
        &&& self.leaf matches Some(leaf) ==> self.has_role(leaf.id, Role::Leaf)
        &&& self.middle matches Some(middle) ==> self.has_role(middle.id, Role::Middle)
        &&& !self.outline_failed ==> self.outline_roles_sound()
    }

    /// Whether the outline's objects are held.
    pub open spec fn outline_roles_sound(self) -> bool {
        &&& self.outline.root matches Some(root) ==> root.generation == 0 && self.has_role(
            ObjectId { number: root.number },
            Role::OutlineRoot,
        )
        &&& forall|level: int|
            #![trigger self.outline.open@[level]]
            0 <= level < self.outline.open@.len() ==> {
                let reference = self.outline.open@[level].reference;
                reference.generation == 0 && self.has_role(
                    ObjectId { number: reference.number },
                    Role::Outline { level },
                )
            }
    }

    /// Whether the page counts agree with what is held.
    pub open spec fn counts_sound(self) -> bool {
        &&& self.pages_written == self.page_ids@.len()
        &&& self.pages_written <= MAX_TREE_PAGES
        &&& self.leaf is Some ==> self.middle is Some
        &&& self.leaf matches Some(leaf) ==> {
            &&& leaf.page_count == leaf.children@.len()
            &&& leaf.children@.len() <= 256
        }
        &&& self.middle matches Some(middle) ==> {
            &&& middle.page_count <= self.pages_written
            &&& middle.children@.len() <= 256
        }
    }

    /// Whether the pages are grouped into leaves, and the leaves into middle
    /// nodes, in order: every group is full but the open one.
    pub open spec fn tree_sound(self) -> bool {
        let pages = self.page_ids@;
        let leaves = self.leaf_ids@;
        let middles = self.middle_ids@;
        &&& match self.leaf {
            None => pages.len() == 256 * leaves.len(),
            Some(leaf) => {
                &&& leaves.len() > 0
                &&& 256 * (leaves.len() - 1) <= pages.len() <= 256 * leaves.len()
                &&& leaf.id == leaves.last()
                &&& leaf.children@ == group(pages, leaves.len() - 1)
                &&& self.middle matches Some(middle) && leaf.parent == middle.id
            },
        }
        &&& match self.middle {
            None => leaves.len() == 256 * middles.len() && self.root_children@ == middles,
            Some(middle) => {
                &&& middles.len() > 0
                &&& 256 * (middles.len() - 1) <= leaves.len() <= 256 * middles.len()
                &&& middle.id == middles.last()
                &&& middle.parent == self.pages_root_id
                &&& middle.children@ == group(leaves, middles.len() - 1)
                &&& middle.page_count == pages.len() - 65_536 * (middles.len() - 1)
                &&& self.root_children@ == middles.drop_last()
            },
        }
    }

    /// Whether everything but the grouping of the pages is consistent.
    pub open spec fn held_sound(self) -> bool {
        &&& self.writer.well_formed()
        &&& self.writer.limits == self.limits
        &&& self.limits.valid()
        &&& self.roles_sound()
        &&& self.counts_sound()
        &&& !self.outline_failed ==> self.outline.well_formed()
    }

    pub open spec fn well_formed(self) -> bool {
        &&& self.held_sound()
        &&& !self.tree_closed@
        &&& !self.tree_torn@ ==> self.tree_sound()
    }

    /// Whether another state has the same page-tree nodes.
    pub open spec fn same_nodes(self, other: Self) -> bool {
        &&& self.leaf == other.leaf
        &&& self.middle == other.middle
        &&& self.root_children@ == other.root_children@
        &&& self.leaf_ids == other.leaf_ids
        &&& self.middle_ids == other.middle_ids
    }

    /// Whether another state differs in its page-tree nodes and output alone.
    pub open spec fn same_content(self, other: Self) -> bool {
        &&& self.limits == other.limits
        &&& self.catalog_id == other.catalog_id
        &&& self.pages_root_id == other.pages_root_id
        &&& self.tree_closed == other.tree_closed
        &&& self.page_ids@ == other.page_ids@
        &&& self.pages_written == other.pages_written
        &&& self.outline == other.outline
        &&& self.outline_failed == other.outline_failed
        &&& self.input_bytes_read == other.input_bytes_read
    }

    /// The object of a closed leaf.
    pub open spec fn leaf_text(self) -> Seq<u8> {
        match self.leaf {
            Some(leaf) => object_text(
                leaf.id.number as int,
                joined(
                    node_pieces(leaf.parent, leaf.page_count as nat, leaf.children@),
                    0,
                ),
            ),
            None => Seq::empty(),
        }
    }

    /// The object of a closed middle node.
    pub open spec fn middle_text(self) -> Seq<u8> {
        match self.middle {
            Some(middle) => object_text(
                middle.id.number as int,
                joined(
                    node_pieces(middle.parent, middle.page_count as nat, middle.children@),
                    0,
                ),
            ),
            None => Seq::empty(),
        }
    }
}

/// Whether output only grew.
pub open spec fn output_grew(before: PdfWriter, after: PdfWriter) -> bool {
    &&& before.written@.is_prefix_of(after.written@)
    &&& before.offsets@.len() <= after.offsets@.len()
    &&& before.poisoned ==> after.poisoned
}

/// Whether output of `text` in some steps stopped with an error. A writer that
/// is not ready has taken nothing. Else the steps before the refused one have
/// passed, and what they write of the text has been written; the writer takes no
/// more where the error names the limit on output.
pub open spec fn output_stopped(
    before: PdfWriter,
    after: PdfWriter,
    steps: Seq<Step>,
    text: Seq<u8>,
    error: Error,
) -> bool {
    &&& output_grew(before, after)
    &&& after.written@.is_prefix_of(before.written@ + text)
    &&& after.poisoned == (before.poisoned || is_output_limit(error))
    &&& match before.unready() {
        Some(unready) => error == unready && after.written@ == before.written@ && after.taken()
            == before.taken(),
        None => steps_refused(before.progress(), steps, error, after.progress()),
    }
}

/// Output that stopped stopped before what would have followed.
pub(crate) proof fn lemma_stopped_first(
    before: PdfWriter,
    after: PdfWriter,
    steps: Seq<Step>,
    more_steps: Seq<Step>,
    text: Seq<u8>,
    more_text: Seq<u8>,
    error: Error,
)
    requires
        output_stopped(before, after, steps, text, error),
    ensures
        output_stopped(before, after, steps + more_steps, text + more_text, error),
{
    let whole = before.written@ + text;
    let written = after.written@;
    assert(before.written@ + (text + more_text) =~= whole + more_text);
    assert(written =~= (whole + more_text).take(written.len() as int)) by {
        assert(written =~= whole.take(written.len() as int));
    }
    if before.unready() is None {
        lemma_refused_first(before.progress(), steps, more_steps, error, after.progress());
    }
}

/// Output that stopped after other output stopped in both.
pub(crate) proof fn lemma_stopped_later(
    before: PdfWriter,
    middle: PdfWriter,
    after: PdfWriter,
    steps: Seq<Step>,
    more_steps: Seq<Step>,
    text: Seq<u8>,
    more_text: Seq<u8>,
    error: Error,
)
    requires
        before.unready() is None,
        middle.unready() is None,
        passed(before.progress(), steps, middle.progress()),
        middle.written@ == before.written@ + text,
        before.offsets@.len() <= middle.offsets@.len(),
        output_stopped(middle, after, more_steps, more_text, error),
    ensures
        output_stopped(before, after, steps + more_steps, text + more_text, error),
{
    assert(before.written@ + text + more_text =~= before.written@ + (text + more_text));
    lemma_grew_on(before, middle, text, after);
    lemma_refused_later(before.progress(), steps, more_steps, error, after.progress());
}

/// Writing an object that was held leaves the others held or not as they were.
pub(crate) proof fn lemma_held_written(before: PdfDocument, after: PdfDocument, number: int)
    requires
        1 <= number <= before.writer.offsets@.len(),
        before.roles@.dom().contains(number),
        after.roles@ == before.roles@.remove(number),
        after.writer.stream == before.writer.stream,
        after.writer.offsets@.len() == before.writer.offsets@.len(),
        after.writer.offsets@[number - 1] is Some,
        forall|i: int|
            0 <= i < before.writer.offsets@.len() && i != number - 1
                ==> #[trigger] after.writer.offsets@[i] == before.writer.offsets@[i],
    ensures
        before.all_held() == after.all_held(),
        forall|except: int| before.held_but(except) == #[trigger] after.held_but(except),
{
    assert forall|i: int| 0 <= i < before.writer.offsets@.len() && i != number - 1 implies (
    #[trigger] before.writer.offsets@[i]) == after.writer.offsets@[i] by {
        assert(after.writer.offsets@[i] == before.writer.offsets@[i]);
    }
    assert forall|except: int| before.held_but(except) == #[trigger] after.held_but(except) by {
        if after.held_but(except) {
            assert forall|i: int|
                #![trigger before.writer.offsets@[i]]
                0 <= i < before.writer.offsets@.len() && before.writer.offsets@[i] is None && i + 1
                    != except implies before.roles@.dom().contains(i + 1) by {
                if i != number - 1 {
                    assert(after.writer.offsets@[i] is None);
                }
            }
        }
    }
    if after.all_held() {
        assert forall|i: int|
            #![trigger before.writer.offsets@[i]]
            0 <= i < before.writer.offsets@.len() && before.writer.offsets@[i]
                is None implies before.roles@.dom().contains(i + 1) || (
        before.writer.stream matches Some(stream) && stream.length_id.number == i + 1) by {
            if i != number - 1 {
                assert(after.writer.offsets@[i] is None);
            }
        }
    }
}

impl PdfDocument {
    /// Close the open leaf, if there is one.
    pub(crate) fn close_leaf(&mut self) -> (closed: Result<(), Error>)
        requires
            old(self).held_sound(),
        ensures
            final(self).held_sound(),
            final(self).same_content(*old(self)),
            final(self).leaf is None,
            final(self).middle == old(self).middle,
            final(self).root_children@ == old(self).root_children@,
            final(self).leaf_ids == old(self).leaf_ids,
            final(self).middle_ids == old(self).middle_ids,
            final(self).writer.offsets@.len() == old(self).writer.offsets@.len(),
            final(self).writer.stream == old(self).writer.stream,
            match closed {
                Ok(()) => {
                    &&& final(self).tree_torn == old(self).tree_torn
                    &&& old(self).all_held() == final(self).all_held()
                    &&& final(self).writer.written@ == old(self).writer.written@ + old(
                        self,
                    ).leaf_text()
                    &&& final(self).writer.poisoned == old(self).writer.poisoned
                    &&& final(self).writer.unready() == old(self).writer.unready()
                    &&& old(self).leaf is Some ==> old(self).writer.unready() is None
                    &&& passed(
                        old(self).writer.progress(),
                        old(self).leaf_closing_steps(),
                        final(self).writer.progress(),
                    )
                },
                Err(error) => {
                    &&& final(self).tree_torn@
                    &&& output_stopped(
                        old(self).writer,
                        final(self).writer,
                        old(self).leaf_closing_steps(),
                        old(self).leaf_text(),
                        error,
                    )
                },
            },
            old(self).leaf is None ==> closed is Ok && final(self).writer == old(self).writer,
    {
        let ghost before = *self;
        proof {
            assert(before.writer.written@ + Seq::<u8>::empty() =~= before.writer.written@);
            lemma_passed_none(before.writer.progress());
        }
        if let Some(leaf) = self.leaf.take() {
            assert(self.has_role(leaf.id, Role::Leaf));
            let ghost number = leaf.id.number as int;
            let pieces = page_node(leaf.parent, leaf.page_count, &leaf.children);
            let wrote = self.writer.write_object(leaf.id, &pieces);
            self.roles = Ghost(self.roles@.remove(number));
            if let Err(error) = wrote {
                self.tree_torn = Ghost(true);
                return Err(error);
            }
            proof {
                lemma_held_written(before, *self, number);
            }
        }
        Ok(())
    }

    /// Close the open middle node, if there is one.
    pub(crate) fn close_middle(&mut self) -> (closed: Result<(), Error>)
        requires
            old(self).held_sound(),
            old(self).leaf is None,
        ensures
            final(self).held_sound(),
            final(self).same_content(*old(self)),
            final(self).leaf is None,
            final(self).middle is None,
            final(self).leaf_ids == old(self).leaf_ids,
            final(self).middle_ids == old(self).middle_ids,
            final(self).writer.offsets@.len() == old(self).writer.offsets@.len(),
            final(self).writer.stream == old(self).writer.stream,
            match closed {
                Ok(()) => {
                    &&& final(self).tree_torn == old(self).tree_torn
                    &&& old(self).all_held() == final(self).all_held()
                    &&& final(self).writer.written@ == old(self).writer.written@ + old(
                        self,
                    ).middle_text()
                    &&& final(self).writer.poisoned == old(self).writer.poisoned
                    &&& final(self).writer.unready() == old(self).writer.unready()
                    &&& old(self).middle is Some ==> old(self).writer.unready() is None
                    &&& final(self).root_children@ == (match old(self).middle {
                        Some(middle) => old(self).root_children@.push(middle.id),
                        None => old(self).root_children@,
                    })
                    &&& passed(
                        old(self).writer.progress(),
                        old(self).middle_steps(),
                        final(self).writer.progress(),
                    )
                },
                Err(error) => {
                    &&& final(self).tree_torn@
                    &&& output_stopped(
                        old(self).writer,
                        final(self).writer,
                        old(self).middle_steps(),
                        old(self).middle_text(),
                        error,
                    )
                },
            },
    {
        let ghost before = *self;
        let ghost start = self.writer.progress();
        let ghost all = self.middle_steps();
        proof {
            assert(before.writer.written@ + Seq::<u8>::empty() =~= before.writer.written@);
            lemma_passed_none(start);
        }
        if let Some(middle) = self.middle.take() {
            assert(self.has_role(middle.id, Role::Middle));
            let ghost number = middle.id.number as int;
            let ghost write = before.middle_closing_steps();
            let ghost grow = Step::Grow {
                len: self.root_children@.len(),
                maximum: PAGE_TREE_FANOUT as u64,
                resource: "PDF page-tree root children",
            };
            let pieces = page_node(middle.parent, middle.page_count, &middle.children);
            let wrote = self.writer.write_object(middle.id, &pieces);
            self.roles = Ghost(self.roles@.remove(number));
            if let Err(error) = wrote {
                self.tree_torn = Ghost(true);
                proof {
                    if before.writer.unready() is None {
                        lemma_refused_first(
                            start,
                            write,
                            seq![grow],
                            error,
                            self.writer.progress(),
                        );
                    }
                }
                return Err(error);
            }
            let ghost now = self.writer.progress();
            let reserved = reserve_bounded(
                &mut self.root_children,
                PAGE_TREE_FANOUT as u64,
                &self.limits,
                "PDF page-tree root children",
            );
            if let Err(error) = reserved {
                self.tree_torn = Ghost(true);
                proof {
                    assert(all =~= write + seq![grow] + Seq::<Step>::empty());
                    lemma_refused_at(start, write, now, grow, Seq::empty(), all, error);
                }
                return Err(error);
            }
            self.root_children.push(middle.id);
            proof {
                lemma_held_written(before, *self, number);
                lemma_passed_one(now, grow);
                lemma_passed_more(start, write, now, seq![grow], now);
            }
        }
        Ok(())
    }

    /// The steps of writing the middle node.
    pub open spec fn middle_closing_steps(self) -> Seq<Step> {
        match self.middle {
            Some(middle) => object_steps(
                middle.id.number as int,
                node_pieces(middle.parent, middle.page_count as nat, middle.children@),
            ),
            None => Seq::empty(),
        }
    }

    /// The steps of closing the middle node.
    pub open spec fn middle_steps(self) -> Seq<Step> {
        if self.middle is Some {
            self.middle_closing_steps() + seq![
                Step::Grow {
                    len: self.root_children@.len(),
                    maximum: PAGE_TREE_FANOUT as u64,
                    resource: "PDF page-tree root children",
                },
            ]
        } else {
            Seq::empty()
        }
    }
}

impl PdfDocument {
    /// Open a middle node.
    fn open_middle(&mut self) -> (opened: Result<(), Error>)
        requires
            old(self).held_sound(),
            old(self).leaf is None,
            old(self).middle is None,
        ensures
            final(self).held_sound(),
            final(self).same_content(*old(self)),
            final(self).leaf is None,
            final(self).root_children@ == old(self).root_children@,
            final(self).leaf_ids == old(self).leaf_ids,
            final(self).tree_torn == old(self).tree_torn,
            final(self).writer.written == old(self).writer.written,
            final(self).writer.poisoned == old(self).writer.poisoned,
            final(self).writer.object_open == old(self).writer.object_open,
            final(self).writer.stream == old(self).writer.stream,
            final(self).writer.position == old(self).writer.position,
            final(self).writer.pending == old(self).writer.pending,
            match opened {
                Ok(()) => {
                    &&& old(self).writer.unready() is None
                    &&& old(self).all_held() ==> final(self).all_held()
                    &&& step_failure(old(self).writer.progress(), Step::Reserve) is None
                    &&& final(self).writer.offsets@ == old(self).writer.offsets@.push(None)
                    &&& final(self).middle matches Some(middle) && {
                        &&& middle.id.number == old(self).writer.offsets@.len() + 1
                        &&& middle.parent == old(self).pages_root_id
                        &&& middle.children@.len() == 0
                        &&& middle.page_count == 0
                        &&& final(self).middle_ids@ == old(self).middle_ids@.push(middle.id)
                    }
                },
                Err(error) => {
                    &&& final(self).middle is None
                    &&& final(self).middle_ids == old(self).middle_ids
                    &&& final(self).writer.offsets@ == old(self).writer.offsets@
                    &&& !is_output_limit(error)
                    &&& match old(self).writer.unready() {
                        Some(unready) => error == unready,
                        None => step_refused(
                            old(self).writer.progress(),
                            Step::Reserve,
                            error,
                        ),
                    }
                },
            },
    {
        let id = self.writer.reserve_object()?;
        self.middle = Some(
            PageNode { id, parent: self.pages_root_id, children: Vec::new(), page_count: 0 },
        );
        self.middle_ids = Ghost(self.middle_ids@.push(id));
        self.roles = Ghost(self.roles@.insert(id.number as int, Role::Middle));
        Ok(())
    }

    /// The steps of opening a leaf below a middle node with `children`.
    pub open spec fn open_steps(children: nat) -> Seq<Step> {
        seq![
            Step::Reserve,
            Step::Grow {
                len: children,
                maximum: PAGE_TREE_FANOUT as u64,
                resource: "PDF page-tree middle children",
            },
        ]
    }

    /// Open a leaf below the middle node.
    fn open_leaf(&mut self) -> (opened: Result<(), Error>)
        requires
            old(self).held_sound(),
            old(self).leaf is None,
            old(self).middle is Some,
            old(self).middle->0.children@.len() < 256,
        ensures
            final(self).held_sound(),
            final(self).same_content(*old(self)),
            final(self).root_children@ == old(self).root_children@,
            final(self).middle_ids == old(self).middle_ids,
            final(self).tree_torn == old(self).tree_torn,
            final(self).writer.written == old(self).writer.written,
            final(self).writer.poisoned == old(self).writer.poisoned,
            final(self).writer.object_open == old(self).writer.object_open,
            final(self).writer.stream == old(self).writer.stream,
            final(self).writer.position == old(self).writer.position,
            final(self).writer.pending == old(self).writer.pending,
            final(self).middle is Some,
            final(self).middle->0.id == old(self).middle->0.id,
            final(self).middle->0.parent == old(self).middle->0.parent,
            final(self).middle->0.page_count == old(self).middle->0.page_count,
            match opened {
                Ok(()) => {
                    &&& old(self).writer.unready() is None
                    &&& old(self).all_held() ==> final(self).all_held()
                    &&& final(self).writer.offsets@ == old(self).writer.offsets@.push(None)
                    &&& final(self).leaf matches Some(leaf) && {
                        &&& leaf.id.number == old(self).writer.offsets@.len() + 1
                        &&& leaf.parent == old(self).middle->0.id
                        &&& leaf.children@.len() == 0
                        &&& final(self).leaf_ids@ == old(self).leaf_ids@.push(leaf.id)
                        &&& final(self).middle->0.children@
                            == old(self).middle->0.children@.push(leaf.id)
                    }
                    &&& passed(
                        old(self).writer.progress(),
                        Self::open_steps(old(self).middle->0.children@.len()),
                        final(self).writer.progress(),
                    )
                },
                Err(error) => {
                    &&& final(self).leaf is None
                    &&& final(self).leaf_ids == old(self).leaf_ids
                    &&& final(self).middle->0.children@ == old(self).middle->0.children@
                    &&& old(self).writer.offsets@.len() <= final(self).writer.offsets@.len()
                    &&& !is_output_limit(error)
                    &&& match old(self).writer.unready() {
                        Some(unready) => error == unready,
                        None => steps_refused(
                            old(self).writer.progress(),
                            Self::open_steps(old(self).middle->0.children@.len()),
                            error,
                            final(self).writer.progress(),
                        ),
                    }
                },
            },
    {
        let ghost before = *self;
        let ghost start = self.writer.progress();
        let ghost children = self.middle->0.children@.len();
        let ghost all = Self::open_steps(children);
        let ghost grow = all[1];
        proof {
            lemma_passed_none(start);
            assert(all =~= Seq::<Step>::empty() + seq![Step::Reserve] + seq![grow]);
            assert(all =~= seq![Step::Reserve] + seq![grow] + Seq::<Step>::empty());
        }
        let id = match self.writer.reserve_object() {
            Ok(id) => id,
            Err(error) => {
                proof {
                    if before.writer.unready() is None {
                        lemma_refused_at(
                            start,
                            Seq::empty(),
                            start,
                            Step::Reserve,
                            seq![grow],
                            all,
                            error,
                        );
                    }
                }
                return Err(error);
            },
        };
        let ghost now = self.writer.progress();
        proof {
            lemma_passed_one(start, Step::Reserve);
        }
        if let Some(mut middle) = self.middle.take() {
            let reserved = reserve_bounded(
                &mut middle.children,
                PAGE_TREE_FANOUT as u64,
                &self.limits,
                "PDF page-tree middle children",
            );
            if let Err(error) = reserved {
                self.middle = Some(middle);
                proof {
                    lemma_refused_at(
                        start,
                        seq![Step::Reserve],
                        now,
                        grow,
                        Seq::empty(),
                        all,
                        error,
                    );
                }
                return Err(error);
            }
            proof {
                lemma_passed_one(now, grow);
                lemma_passed_more(start, seq![Step::Reserve], now, seq![grow], now);
                assert(all =~= seq![Step::Reserve] + seq![grow]);
            }
            middle.children.push(id);
            self.leaf = Some(
                PageNode { id, parent: middle.id, children: Vec::new(), page_count: 0 },
            );
            self.middle = Some(middle);
            self.leaf_ids = Ghost(self.leaf_ids@.push(id));
            self.roles = Ghost(self.roles@.insert(id.number as int, Role::Leaf));
        }
        Ok(())
    }

    /// Whether the open leaf, if any, takes no more pages.
    pub open spec fn needs_leaf(self) -> bool {
        match self.leaf {
            Some(leaf) => leaf.children@.len() >= 256,
            None => true,
        }
    }

    /// Whether the middle node, if any, takes no more leaves.
    pub open spec fn needs_middle(self) -> bool {
        match self.middle {
            Some(middle) => middle.children@.len() >= 256,
            None => true,
        }
    }

    /// The steps of making room for a page.
    pub open spec fn leaf_steps(self) -> Seq<Step> {
        if !self.needs_leaf() {
            Seq::empty()
        } else {
            self.leaf_closing_steps() + (if self.needs_middle() {
                self.middle_steps() + seq![Step::Reserve] + Self::open_steps(0)
            } else {
                Self::open_steps(self.middle->0.children@.len())
            })
        }
    }

    /// The steps of closing a full leaf.
    pub open spec fn leaf_closing_steps(self) -> Seq<Step> {
        match self.leaf {
            Some(leaf) => object_steps(
                leaf.id.number as int,
                node_pieces(leaf.parent, leaf.page_count as nat, leaf.children@),
            ),
            None => Seq::empty(),
        }
    }

    /// The nodes that are written before a page.
    pub open spec fn closed_nodes_text(self) -> Seq<u8> {
        if !self.needs_leaf() {
            Seq::empty()
        } else if self.needs_middle() {
            self.leaf_text() + self.middle_text()
        } else {
            self.leaf_text()
        }
    }

    /// How many pages the leaf of the next page holds before it.
    pub open spec fn leaf_siblings(self) -> nat {
        if !self.needs_leaf() {
            self.leaf->0.children@.len()
        } else {
            0
        }
    }

    /// How many objects have been handed out once there is a leaf for the next
    /// page.
    pub open spec fn leaf_base(self) -> int {
        if !self.needs_leaf() {
            self.writer.offsets@.len() as int
        } else if self.needs_middle() {
            self.writer.offsets@.len() as int + 2
        } else {
            self.writer.offsets@.len() as int + 1
        }
    }

    /// The number of the leaf that the next page belongs to.
    pub open spec fn leaf_number(self) -> int {
        if !self.needs_leaf() {
            self.leaf->0.id.number as int
        } else if self.needs_middle() {
            self.writer.offsets@.len() as int + 2
        } else {
            self.writer.offsets@.len() as int + 1
        }
    }
}

/// Closing a full leaf keeps the pages grouped.
proof fn lemma_tree_leaf_closed(before: PdfDocument, after: PdfDocument)
    requires
        before.tree_sound(),
        before.needs_leaf(),
        before.counts_sound(),
        after.leaf is None,
        after.middle == before.middle,
        after.root_children@ == before.root_children@,
        after.leaf_ids == before.leaf_ids,
        after.middle_ids == before.middle_ids,
        after.page_ids@ == before.page_ids@,
        after.pages_root_id == before.pages_root_id,
    ensures
        after.tree_sound(),
{
    if let Some(leaf) = before.leaf {
        let leaves = before.leaf_ids@.len();
        assert(group(before.page_ids@, leaves - 1).len() == 256);
    }
}

/// Closing a full middle node keeps the leaves grouped.
proof fn lemma_tree_middle_closed(before: PdfDocument, after: PdfDocument)
    requires
        before.tree_sound(),
        before.needs_middle(),
        before.counts_sound(),
        before.leaf is None,
        after.leaf is None,
        after.middle is None,
        after.root_children@ == (match before.middle {
            Some(middle) => before.root_children@.push(middle.id),
            None => before.root_children@,
        }),
        after.leaf_ids == before.leaf_ids,
        after.middle_ids == before.middle_ids,
        after.page_ids@ == before.page_ids@,
    ensures
        after.tree_sound(),
{
    if let Some(middle) = before.middle {
        let middles = before.middle_ids@;
        assert(group(before.leaf_ids@, middles.len() - 1).len() == 256);
        assert(middles =~= middles.drop_last().push(middles.last()));
    }
}

/// A new middle node starts a new group of leaves.
proof fn lemma_tree_middle_opened(before: PdfDocument, after: PdfDocument)
    requires
        before.tree_sound(),
        before.leaf is None,
        before.middle is None,
        after.leaf is None,
        after.middle is Some,
        after.middle->0.parent == after.pages_root_id,
        after.middle->0.children@.len() == 0,
        after.middle->0.page_count == 0,
        after.middle_ids@ == before.middle_ids@.push(after.middle->0.id),
        after.root_children@ == before.root_children@,
        after.leaf_ids == before.leaf_ids,
        after.page_ids@ == before.page_ids@,
    ensures
        after.tree_sound(),
{
    let middles = after.middle_ids@;
    assert(middles.drop_last() =~= before.middle_ids@);
    assert(after.middle->0.children@ =~= group(after.leaf_ids@, middles.len() - 1));
}

/// A new leaf starts a new group of pages.
proof fn lemma_tree_leaf_opened(before: PdfDocument, after: PdfDocument)
    requires
        before.tree_sound(),
        before.counts_sound(),
        before.leaf is None,
        before.middle is Some,
        before.middle->0.children@.len() < 256,
        after.leaf is Some,
        after.leaf->0.parent == before.middle->0.id,
        after.leaf->0.children@.len() == 0,
        after.leaf_ids@ == before.leaf_ids@.push(after.leaf->0.id),
        after.middle is Some,
        after.middle->0.id == before.middle->0.id,
        after.middle->0.parent == before.middle->0.parent,
        after.middle->0.page_count == before.middle->0.page_count,
        after.middle->0.children@ == before.middle->0.children@.push(after.leaf->0.id),
        after.middle_ids == before.middle_ids,
        after.root_children@ == before.root_children@,
        after.page_ids@ == before.page_ids@,
        after.pages_root_id == before.pages_root_id,
    ensures
        after.tree_sound(),
{
    let leaves = after.leaf_ids@;
    let groups = after.middle_ids@.len() as int;
    assert(after.leaf->0.children@ =~= group(after.page_ids@, leaves.len() - 1));
    assert(group(before.leaf_ids@, groups - 1).len() == before.leaf_ids@.len() - 256 * (groups
        - 1));
    assert(after.middle->0.children@ =~= group(leaves, groups - 1));
}

impl PdfDocument {
    /// Make room for a page: close full nodes, and open new ones.
    pub(crate) fn ensure_leaf(&mut self) -> (ensured: Result<(), Error>)
        requires
            old(self).well_formed(),
        ensures
            final(self).well_formed(),
            final(self).same_content(*old(self)),
            final(self).writer.stream == old(self).writer.stream,
            match ensured {
                Ok(()) => {
                    &&& old(self).needs_leaf() ==> old(self).writer.unready() is None
                    &&& old(self).all_held() ==> final(self).all_held()
                    &&& !final(self).needs_leaf()
                    &&& final(self).leaf->0.id.number == old(self).leaf_number()
                    &&& final(self).leaf->0.children@.len() == old(self).leaf_siblings()
                    &&& final(self).writer.offsets@.len() == old(self).leaf_base()
                    &&& final(self).tree_torn == old(self).tree_torn
                    &&& final(self).writer.written@ == old(self).writer.written@ + old(
                        self,
                    ).closed_nodes_text()
                    &&& final(self).writer.poisoned == old(self).writer.poisoned
                    &&& final(self).writer.object_open == old(self).writer.object_open
                    &&& passed(
                        old(self).writer.progress(),
                        old(self).leaf_steps(),
                        final(self).writer.progress(),
                    )
                },
                Err(error) => {
                    &&& output_stopped(
                        old(self).writer,
                        final(self).writer,
                        old(self).leaf_steps(),
                        old(self).closed_nodes_text(),
                        error,
                    )
                },
            },
    {
        let full: bool = match &self.leaf {
            Some(leaf) => leaf.children.len() >= PAGE_TREE_FANOUT,
            None => true,
        };
        let ghost begin = *self;
        let ghost start = self.writer.progress();
        proof {
            lemma_passed_none(start);
            assert(begin.writer.written@ + Seq::<u8>::empty() =~= begin.writer.written@);
        }
        if !full {
            return Ok(());
        }
        let ghost all = self.leaf_steps();
        let ghost first = self.leaf_closing_steps();
        let ghost rest = all.skip(first.len() as int);
        proof {
            assert(all =~= first + rest);
        }
        match self.close_leaf() {
            Ok(()) => {},
            Err(error) => {
                proof {
                    if begin.writer.unready() is None {
                        lemma_refused_first(start, first, rest, error, self.writer.progress());
                    }
                }
                return Err(error);
            },
        }
        let ghost closed = *self;
        proof {
            if !begin.tree_torn@ {
                lemma_tree_leaf_closed(begin, closed);
            }
        }
        let result = self.ensure_leaf_below();
        proof {
            match result {
                Ok(()) => {
                    lemma_passed_more(
                        start,
                        first,
                        closed.writer.progress(),
                        closed.below_steps(),
                        self.writer.progress(),
                    );
                    assert(begin.leaf_text() + closed.below_text() =~= begin.closed_nodes_text());
                    assert(begin.writer.written@ + begin.leaf_text() + closed.below_text()
                        =~= begin.writer.written@ + begin.closed_nodes_text());
                },
                Err(error) => {
                    if closed.writer.unready() is None {
                        lemma_refused_later(
                            start,
                            first,
                            closed.below_steps(),
                            error,
                            self.writer.progress(),
                        );
                    }
                    lemma_grew_on(begin.writer, closed.writer, begin.leaf_text(), self.writer);
                },
            }
        }
        result
    }

    /// The steps of opening a leaf when there is none.
    pub open spec fn below_steps(self) -> Seq<Step> {
        if self.needs_middle() {
            self.middle_steps() + seq![Step::Reserve] + Self::open_steps(0)
        } else {
            Self::open_steps(self.middle->0.children@.len())
        }
    }

    /// The node that is written when a leaf is opened.
    pub open spec fn below_text(self) -> Seq<u8> {
        if self.needs_middle() {
            self.middle_text()
        } else {
            Seq::empty()
        }
    }

    /// Open a leaf when there is none.
    fn ensure_leaf_below(&mut self) -> (ensured: Result<(), Error>)
        requires
            old(self).well_formed(),
            old(self).leaf is None,
        ensures
            final(self).well_formed(),
            final(self).same_content(*old(self)),
            final(self).writer.stream == old(self).writer.stream,
            match ensured {
                Ok(()) => {
                    &&& old(self).writer.unready() is None
                    &&& old(self).all_held() ==> final(self).all_held()
                    &&& !final(self).needs_leaf()
                    &&& final(self).leaf->0.id.number == old(self).leaf_number()
                    &&& final(self).leaf->0.children@.len() == old(self).leaf_siblings()
                    &&& final(self).writer.offsets@.len() == old(self).leaf_base()
                    &&& final(self).tree_torn == old(self).tree_torn
                    &&& final(self).writer.written@ == old(self).writer.written@ + old(
                        self,
                    ).below_text()
                    &&& final(self).writer.poisoned == old(self).writer.poisoned
                    &&& final(self).writer.object_open == old(self).writer.object_open
                    &&& passed(
                        old(self).writer.progress(),
                        old(self).below_steps(),
                        final(self).writer.progress(),
                    )
                },
                Err(error) => {
                    &&& output_stopped(
                        old(self).writer,
                        final(self).writer,
                        old(self).below_steps(),
                        old(self).below_text(),
                        error,
                    )
                },
            },
    {
        let ghost begin = *self;
        let ghost start = self.writer.progress();
        let ghost all = self.below_steps();
        let full: bool = match &self.middle {
            Some(middle) => middle.children.len() >= PAGE_TREE_FANOUT,
            None => true,
        };
        if !full {
            let opened = self.open_leaf();
            proof {
                assert(begin.writer.written@ + Seq::<u8>::empty() =~= begin.writer.written@);
                if opened is Ok && !begin.tree_torn@ {
                    lemma_tree_leaf_opened(begin, *self);
                }
            }
            return opened;
        }
        let ghost first = self.middle_steps();
        let ghost second = first + seq![Step::Reserve];
        let ghost third = Self::open_steps(0);
        match self.close_middle() {
            Ok(()) => {},
            Err(error) => {
                proof {
                    if begin.writer.unready() is None {
                        lemma_refused_first(
                            start,
                            first,
                            seq![Step::Reserve] + third,
                            error,
                            self.writer.progress(),
                        );
                        assert(first + (seq![Step::Reserve] + third) =~= all);
                    }
                }
                return Err(error);
            },
        }
        let ghost closed = *self;
        let ghost now = self.writer.progress();
        proof {
            if !begin.tree_torn@ {
                lemma_tree_middle_closed(begin, closed);
            }
        }
        match self.open_middle() {
            Ok(()) => {},
            Err(error) => {
                proof {
                    if begin.writer.unready() is None {
                        lemma_refused_at(start, first, now, Step::Reserve, third, all, error);
                    }
                    lemma_grew_on(begin.writer, closed.writer, begin.middle_text(), self.writer);
                }
                return Err(error);
            },
        }
        let ghost opened = *self;
        proof {
            if !begin.tree_torn@ {
                lemma_tree_middle_opened(closed, opened);
            }
            lemma_passed_one(now, Step::Reserve);
            lemma_passed_more(start, first, now, seq![Step::Reserve], opened.writer.progress());
        }
        let result = self.open_leaf();
        proof {
            match result {
                Ok(()) => {
                    if !begin.tree_torn@ {
                        lemma_tree_leaf_opened(opened, *self);
                    }
                    lemma_passed_more(
                        start,
                        second,
                        opened.writer.progress(),
                        third,
                        self.writer.progress(),
                    );
                },
                Err(error) => {
                    lemma_refused_later(start, second, third, error, self.writer.progress());
                    lemma_grew_on(begin.writer, closed.writer, begin.middle_text(), self.writer);
                },
            }
        }
        result
    }
}

/// Output that grew twice grew.
pub(crate) proof fn lemma_grew_on(
    first: PdfWriter,
    second: PdfWriter,
    text: Seq<u8>,
    third: PdfWriter,
)
    requires
        second.written@ == first.written@ + text,
        second.written@.is_prefix_of(third.written@),
        first.offsets@.len() <= third.offsets@.len(),
        first.poisoned ==> third.poisoned,
    ensures
        output_grew(first, third),
{
    assert(first.written@ =~= third.written@.take(first.written@.len() as int)) by {
        assert(second.written@ =~= third.written@.take(second.written@.len() as int));
    }
}

/// Why no more pages fit a document of `count` pages.
pub open spec fn next_page_failure(count: u32, limits: Limits) -> Option<Error> {
    if count == u32::MAX {
        Some(Error::InvalidInput { reason: "PDF page count overflows" })
    } else {
        first_failure(
            over_limit("pages", limits.max_pages as u64, count + 1),
            over_limit("PDF page-tree capacity", MAX_TREE_PAGES, count + 1),
        )
    }
}

/// How many pages the index of pages may hold.
pub open spec fn page_index_maximum(limits: Limits) -> u64 {
    if limits.max_pages < MAX_TREE_PAGES {
        limits.max_pages as u64
    } else {
        MAX_TREE_PAGES
    }
}

impl PdfDocument {
    /// Why a document cannot be begun.
    pub open spec fn start_failure(limits: Limits) -> Option<Error> {
        first_failure(
            limits.failure(),
            crate::writer::output_failure(limits, 0, header_text().len()),
        )
    }

    /// Write the PDF header and reserve the catalog and Pages root.
    pub fn new(limits: &Limits) -> (document: Result<Self, Error>)
        ensures
            match document {
                Ok(document) => {
                    &&& Self::start_failure(*limits) is None
                    &&& document.well_formed()
                    &&& document.all_held()
                    &&& document.limits == *limits
                    &&& document.writer.written@ == header_text()
                    &&& document.writer.taken() == 0
                    &&& document.writer.unready() is None
                    &&& document.writer.offsets@.len() == 2
                    &&& document.catalog_id.number == 1
                    &&& document.pages_root_id.number == 2
                    &&& document.page_ids@.len() == 0
                    &&& document.outline.entries@.len() == 0
                    &&& document.outline.root is None
                    &&& !document.outline_failed
                    &&& !document.tree_torn@
                    &&& document.leaf is None
                    &&& document.middle is None
                    &&& document.input_bytes_read == 0
                },
                Err(error) => {
                    ||| Self::start_failure(*limits) == Some(error)
                    ||| Self::start_failure(*limits) is None && exists|reached: Progress|
                        steps_refused(
                            Progress {
                                limits: *limits,
                                position: header_text().len() as int,
                                taken: 0,
                                objects: 0,
                            },
                            seq![Step::Reserve, Step::Reserve],
                            error,
                            reached,
                        )
                },
            },
    {
        limits.validate()?;
        let mut writer = PdfWriter::new(limits)?;
        let ghost start = writer.progress();
        let ghost all = seq![Step::Reserve, Step::Reserve];
        let ghost one = seq![Step::Reserve];
        proof {
            lemma_passed_none(start);
            assert(all =~= Seq::<Step>::empty() + one + one);
            assert(all =~= one + one + Seq::<Step>::empty());
        }
        let catalog_id = match writer.reserve_object() {
            Ok(id) => id,
            Err(error) => {
                proof {
                    lemma_refused_at(start, Seq::empty(), start, Step::Reserve, one, all, error);
                }
                return Err(error);
            },
        };
        let ghost now = writer.progress();
        proof {
            lemma_passed_one(start, Step::Reserve);
        }
        let pages_root_id = match writer.reserve_object() {
            Ok(id) => id,
            Err(error) => {
                proof {
                    lemma_refused_at(start, one, now, Step::Reserve, Seq::empty(), all, error);
                }
                return Err(error);
            },
        };
        let document = PdfDocument {
            writer,
            limits: *limits,
            catalog_id,
            pages_root_id,
            root_children: Vec::new(),
            middle: None,
            leaf: None,
            page_ids: Vec::new(),
            pages_written: 0,
            outline: Outline::new(),
            outline_failed: false,
            input_bytes_read: 0,
            leaf_ids: Ghost(Seq::empty()),
            middle_ids: Ghost(Seq::empty()),
            roles: Ghost(
                Map::empty().insert(catalog_id.number as int, Role::Catalog).insert(
                    pages_root_id.number as int,
                    Role::PagesRoot,
                ),
            ),
            tree_closed: Ghost(false),
            tree_torn: Ghost(false),
        };
        assert(document.root_children@ =~= document.middle_ids@);
        Ok(document)
    }

    /// Check that one more page fits.
    pub fn check_next_page(&self) -> (checked: Result<(), Error>)
        ensures
            checked == outcome(next_page_failure(self.pages_written, self.limits)),
    {
        if self.pages_written == u32::MAX {
            return Err(Error::InvalidInput { reason: "PDF page count overflows" });
        }
        let next: u32 = self.pages_written + 1;
        self.limits.check_pages(next)?;
        crate::types::check_limit("PDF page-tree capacity", MAX_TREE_PAGES, next as u64)
    }

    /// Whether an error says that memory for the index of pages was not
    /// available.
    pub open spec fn page_index_starved(self, error: Error) -> bool {
        allocator_refused(
            error,
            "PDF page index allocation",
            self.limits,
            growth_bytes::<ObjectId>(
                self.page_ids@.len(),
                page_index_maximum(self.limits),
                self.limits,
            ),
        )
    }

    /// Why the index of pages cannot grow.
    pub open spec fn page_index_refusal(self) -> Option<Error> {
        growth_failure::<ObjectId>(
            self.page_ids@.len(),
            page_index_maximum(self.limits),
            self.limits,
            "PDF page index allocation",
        )
    }

    /// Make room in the index of pages.
    pub(crate) fn reserve_page_index_slot(&mut self) -> (reserved: Result<(), Error>)
        requires
            old(self).well_formed(),
        ensures
            final(self).well_formed(),
            final(self).same_content(*old(self)),
            final(self).same_nodes(*old(self)),
            final(self).tree_torn == old(self).tree_torn,
            final(self).writer == old(self).writer,
            final(self).roles == old(self).roles,
            match old(self).page_index_refusal() {
                Some(refusal) => reserved == Err::<(), Error>(refusal),
                None => reserved matches Err(error) ==> old(self).page_index_starved(error),
            },
    {
        let maximum: u64 = if (self.limits.max_pages as u64) < MAX_TREE_PAGES {
            self.limits.max_pages as u64
        } else {
            MAX_TREE_PAGES
        };
        reserve_bounded(&mut self.page_ids, maximum, &self.limits, "PDF page index allocation")
    }

    /// The steps of writing and linking a page once there is a leaf.
    pub open spec fn push_steps(
        self,
        base: int,
        parent: ObjectId,
        width: Seq<u8>,
        height: Seq<u8>,
        images: Seq<ImageObject>,
        siblings: nat,
    ) -> Seq<Step> {
        page_steps(base, parent, width, height, images) + seq![
            Step::Grow {
                len: siblings,
                maximum: PAGE_TREE_FANOUT as u64,
                resource: "PDF page-tree leaf children",
            },
        ]
    }

    /// Whether a document has one more page.
    pub open spec fn with_page(self, other: Self, page: ObjectId) -> bool {
        &&& other.limits == self.limits
        &&& other.catalog_id == self.catalog_id
        &&& other.pages_root_id == self.pages_root_id
        &&& other.page_ids@ == self.page_ids@.push(page)
        &&& other.pages_written == self.pages_written + 1
        &&& other.outline == self.outline
        &&& other.outline_failed == self.outline_failed
        &&& other.tree_torn == self.tree_torn
    }

    /// Write a page below the open leaf, and return its index.
    pub fn push_page(&mut self, width: &Vec<u8>, height: &Vec<u8>, images: &[ImageObject]) -> (pushed:
        Result<u32, Error>)
        requires
            old(self).well_formed(),
            !old(self).needs_leaf(),
            old(self).pages_written < MAX_TREE_PAGES,
        ensures
            final(self).well_formed(),
            final(self).input_bytes_read == old(self).input_bytes_read,
            ({
                let leaf = old(self).leaf->0;
                let base = old(self).writer.offsets@.len() as int;
                let steps = old(self).push_steps(
                    base,
                    leaf.id,
                    width@,
                    height@,
                    images@,
                    leaf.children@.len(),
                );
                match pushed {
                    Ok(index) => {
                        &&& index == old(self).pages_written
                        &&& old(self).all_held() ==> final(self).all_held()
                        &&& old(self).writer.unready() is None
                        &&& old(self).with_page(
                            *final(self),
                            ObjectId { number: (base + 3) as u32 },
                        )
                        &&& final(self).writer.written@ == old(self).writer.written@ + page_bytes(
                            base,
                            leaf.id,
                            width@,
                            height@,
                            images@,
                        )
                        &&& final(self).writer.unready() is None
                        &&& passed(
                            old(self).writer.progress(),
                            steps,
                            final(self).writer.progress(),
                        )
                    },
                    Err(error) => {
                        &&& final(self).same_content(*old(self))
                        &&& output_stopped(
                            old(self).writer,
                            final(self).writer,
                            steps,
                            page_bytes(base, leaf.id, width@, height@, images@),
                            error,
                        )
                    },
                }
            }),
    {
        let ghost before = *self;
        let ghost start = self.writer.progress();
        let ghost base = self.writer.offsets@.len() as int;
        let ghost siblings = self.leaf->0.children@.len();
        let parent: ObjectId = match &self.leaf {
            Some(leaf) => leaf.id,
            None => self.pages_root_id,
        };
        let ghost first = page_steps(base, parent, width@, height@, images@);
        let ghost grow = Step::Grow {
            len: siblings,
            maximum: PAGE_TREE_FANOUT as u64,
            resource: "PDF page-tree leaf children",
        };
        let ghost all = first + seq![grow];
        assert(all =~= first + seq![grow] + Seq::<Step>::empty());
        let page = match emit_page(&mut self.writer, parent, width, height, images) {
            Ok(page) => page,
            Err(error) => {
                proof {
                    lemma_roles_kept(before, *self);
                    if before.writer.unready() is None {
                        lemma_refused_first(
                            start,
                            first,
                            seq![grow],
                            error,
                            self.writer.progress(),
                        );
                    }
                }
                return Err(error);
            },
        };
        let ghost now = self.writer.progress();
        proof {
            lemma_roles_kept(before, *self);
            if before.all_held() {
                lemma_still_held(before, *self);
            }
        }
        if let Some(mut leaf) = self.leaf.take() {
            let reserved = reserve_bounded(
                &mut leaf.children,
                PAGE_TREE_FANOUT as u64,
                &self.limits,
                "PDF page-tree leaf children",
            );
            if let Err(error) = reserved {
                self.leaf = Some(leaf);
                proof {
                    lemma_refused_at(start, first, now, grow, Seq::empty(), all, error);
                    assert(before.writer.written@.is_prefix_of(self.writer.written@));
                }
                return Err(error);
            }
            proof {
                lemma_passed_one(now, grow);
                lemma_passed_more(start, first, now, seq![grow], now);
            }
            leaf.children.push(page);
            leaf.page_count = leaf.page_count + 1;
            self.leaf = Some(leaf);
        }
        if let Some(mut middle) = self.middle.take() {
            middle.page_count = middle.page_count + 1;
            self.middle = Some(middle);
        }
        let index: u32 = self.pages_written;
        self.pages_written = self.pages_written + 1;
        self.page_ids.push(page);
        proof {
            if !before.tree_torn@ {
                lemma_tree_page_pushed(before, *self, page);
            }
        }
        Ok(index)
    }
}

/// Handing out and writing other objects keeps what is held.
pub proof fn lemma_roles_kept(before: PdfDocument, after: PdfDocument)
    requires
        before.roles_sound(),
        places_kept(before.writer, after.writer),
        after.roles == before.roles,
        after.catalog_id == before.catalog_id,
        after.pages_root_id == before.pages_root_id,
        after.tree_closed == before.tree_closed,
        after.leaf == before.leaf,
        after.middle == before.middle,
        after.outline == before.outline,
        after.outline_failed == before.outline_failed,
    ensures
        after.roles_sound(),
{
    assert forall|n: int|
        #![trigger after.roles@.dom().contains(n)]
        after.roles@.dom().contains(n) implies 1 <= n <= after.writer.offsets@.len()
        && after.writer.offsets@[n - 1] is None by {
        assert(before.roles@.dom().contains(n));
        assert(after.writer.offsets@.take(before.writer.offsets@.len() as int)[n - 1]
            == after.writer.offsets@[n - 1]);
    }
}

/// New objects that are written, or are the length of the open stream, leave
/// every other one held.
pub proof fn lemma_still_held(before: PdfDocument, after: PdfDocument)
    requires
        before.all_held(),
        before.writer.stream is None,
        places_kept(before.writer, after.writer),
        after.roles == before.roles,
        forall|i: int|
            #![trigger after.writer.offsets@[i]]
            before.writer.offsets@.len() <= i < after.writer.offsets@.len()
                ==> after.writer.offsets@[i] is Some || (after.writer.stream matches Some(stream)
                && stream.length_id.number == i + 1),
    ensures
        after.all_held(),
{
    let count = before.writer.offsets@.len() as int;
    assert forall|i: int|
        #![trigger after.writer.offsets@[i]]
        0 <= i < after.writer.offsets@.len() && after.writer.offsets@[i] is None implies (
    after.roles@.dom().contains(i + 1) || (after.writer.stream matches Some(stream)
        && stream.length_id.number == i + 1)) by {
        if i < count {
            assert(after.writer.offsets@.take(count)[i] == after.writer.offsets@[i]);
            assert(before.writer.offsets@[i] is None);
        }
    }
}

/// One more page keeps the pages grouped.
proof fn lemma_tree_page_pushed(before: PdfDocument, after: PdfDocument, page: ObjectId)
    requires
        before.tree_sound(),
        before.counts_sound(),
        !before.needs_leaf(),
        after.leaf is Some,
        after.leaf->0.id == before.leaf->0.id,
        after.leaf->0.parent == before.leaf->0.parent,
        after.leaf->0.children@ == before.leaf->0.children@.push(page),
        after.middle is Some,
        after.middle->0.id == before.middle->0.id,
        after.middle->0.parent == before.middle->0.parent,
        after.middle->0.children@ == before.middle->0.children@,
        after.middle->0.page_count == before.middle->0.page_count + 1,
        after.root_children@ == before.root_children@,
        after.leaf_ids == before.leaf_ids,
        after.middle_ids == before.middle_ids,
        after.page_ids@ == before.page_ids@.push(page),
        after.pages_root_id == before.pages_root_id,
    ensures
        after.tree_sound(),
{
    let leaves = before.leaf_ids@.len() as int;
    assert(group(before.page_ids@, leaves - 1).len() == before.page_ids@.len() - 256 * (leaves
        - 1));
    assert(after.leaf->0.children@ =~= group(after.page_ids@, leaves - 1));
}

} // verus!

//! The bookmarks of a document.

use vstd::prelude::*;
use vstd::layout::size_of;
use crate::document::pages::{
    output_stopped, PdfDocument, Role, lemma_held_written,
};
use crate::fallible::{
    allocator_refused, growth_bytes, growth_failure, reserve_bounded, string_capacity,
};
use crate::outline::{
    closed_pieces, depths, item_of, item_pieces, title_bytes, Entry, OpenOutline, Outline,
    lemma_closing_item, lemma_levels_held, lemma_rooted, lemma_roomier, lemma_title_bytes_grow,
};
use crate::outline_order::{open_at, well_nested};
use crate::pieces::joined;
use crate::types::{
    first_failure, is_output_limit, outcome, over_limit, Bookmark, Error, Limits, PdfRef,
};
use crate::writer::{
    object_steps, object_text, passed, steps_failure, steps_refused, ObjectId, Step,
    lemma_passed_more, lemma_passed_none, lemma_passed_one, lemma_refused_amid,
    lemma_refused_first, lemma_refused_later, lemma_refused_step,
};

verus! {

/// The object of an entry.
#[verifier::opaque]
pub open spec fn entry_text(entries: Seq<Entry>, root: PdfRef, i: int) -> Seq<u8> {
    object_text(
        entries[i].reference.number as int,
        joined(item_pieces(item_of(entries, root, i)), 0),
    )
}

/// The steps of writing an entry.
#[verifier::opaque]
pub open spec fn written_entry_steps(entries: Seq<Entry>, root: PdfRef, i: int) -> Seq<Step> {
    object_steps(
        entries[i].reference.number as int,
        item_pieces(item_of(entries, root, i)),
    )
}

/// The entries that are written when the entries after the first `levels` open
/// ones are complete, the deepest first. `before` lists the entries so far,
/// `after` those that are known now.
pub open spec fn closing_text(
    before: Seq<Entry>,
    after: Seq<Entry>,
    root: PdfRef,
    levels: int,
    depth: int,
) -> Seq<u8>
    decreases levels,
{
    if levels <= depth || levels <= 0 {
        Seq::empty()
    } else {
        entry_text(after, root, open_at(depths(before), (levels - 1) as nat)) + closing_text(
            before,
            after,
            root,
            levels - 1,
            depth,
        )
    }
}

/// The steps of writing those entries.
pub open spec fn closing_steps(
    before: Seq<Entry>,
    after: Seq<Entry>,
    root: PdfRef,
    levels: int,
    depth: int,
) -> Seq<Step>
    decreases levels,
{
    if levels <= depth || levels <= 0 {
        Seq::empty()
    } else {
        written_entry_steps(after, root, open_at(depths(before), (levels - 1) as nat))
            + closing_steps(before, after, root, levels - 1, depth)
    }
}

/// Whether the entries known now are those so far and perhaps one more, which
/// is the next one at its depth.
pub open spec fn follows(
    before: Seq<Entry>,
    after: Seq<Entry>,
    depth: nat,
    next: Option<PdfRef>,
) -> bool {
    match next {
        Some(reference) => exists|added: Entry|
            #![trigger before.push(added)]
            after == before.push(added) && added.depth == depth && added.reference == reference
                && well_nested(depths(after)),
        None => after == before,
    }
}

/// Whether only objects that were held for a purpose have been written.
pub open spec fn others_kept(before: PdfDocument, after: PdfDocument) -> bool {
    &&& after.writer.offsets@.len() == before.writer.offsets@.len()
    &&& forall|n: int| #[trigger]
        after.roles@.dom().contains(n) ==> before.roles@.dom().contains(n)
    &&& forall|i: int|
        #![trigger after.writer.offsets@[i]]
        0 <= i < before.writer.offsets@.len() && !before.roles@.dom().contains(i + 1)
            ==> after.writer.offsets@[i] == before.writer.offsets@[i]
}

impl PdfDocument {
    /// Whether everything is consistent, but that open entries may have been
    /// written already.
    pub open spec fn closing_sound(self) -> bool {
        &&& self.writer.well_formed()
        &&& self.writer.limits == self.limits
        &&& self.limits.valid()
        &&& self.roles_sound()
        &&& self.counts_sound()
        &&& !self.outline_failed
        &&& self.outline.holds_levels()
    }

    /// Whether every object that has not been written is held for a purpose,
    /// but for one.
    pub open spec fn held_but(self, except: int) -> bool {
        forall|i: int|
            #![trigger self.writer.offsets@[i]]
            0 <= i < self.writer.offsets@.len() && self.writer.offsets@[i] is None && i + 1
                != except ==> self.roles@.dom().contains(i + 1)
    }

    /// Write the deepest open entry.
    fn write_entry(&mut self, next: Option<PdfRef>, Ghost(after): Ghost<Seq<Entry>>) -> (wrote:
        Result<(), Error>)
        requires
            old(self).closing_sound(),
            old(self).writer.unready() is None,
            old(self).outline.open@.len() > 0,
            ({
                let level = (old(self).outline.open@.len() - 1) as nat;
                let i = open_at(depths(old(self).outline.entries@), level);
                item_of(after, old(self).outline.root_reference(), i) == (crate::outline::Item {
                    next,
                    descendants: old(self).outline.entries@.len() - i - 1,
                    ..item_of(old(self).outline.entries@, old(self).outline.root_reference(), i)
                }) && after[i].reference == old(self).outline.entries@[i].reference
            }),
        ensures
            ({
                let level = (old(self).outline.open@.len() - 1) as nat;
                let i = open_at(depths(old(self).outline.entries@), level);
                let text = entry_text(after, old(self).outline.root_reference(), i);
                let steps = written_entry_steps(after, old(self).outline.root_reference(), i);
                match wrote {
                    Ok(()) => {
                        &&& final(self).closing_sound()
                        &&& forall|except: int|
                            old(self).held_but(except) == #[trigger] final(self).held_but(except)
                        &&& final(self).outline.open@ == old(self).outline.open@.drop_last()
                        &&& final(self).writer.written@ == old(self).writer.written@ + text
                        &&& final(self).writer.unready() is None
                        &&& passed(
                            old(self).writer.progress(),
                            steps,
                            final(self).writer.progress(),
                        )
                    },
                    Err(error) => {
                        &&& final(self).outline_failed
                        &&& final(self).held_sound()
                        &&& output_stopped(
                            old(self).writer,
                            final(self).writer,
                            steps,
                            text,
                            error,
                        )
                    },
                }
            }),
            final(self).outline.same_entries(old(self).outline),
            final(self).same_pages(*old(self)),
            others_kept(*old(self), *final(self)),
    {
        let ghost before = *self;
        let ghost level = (self.outline.open@.len() - 1) as nat;
        let ghost i = open_at(depths(self.outline.entries@), level);
        let ghost root = self.outline.root_reference();
        let ghost held = self.outline.open@[level as int];
        let item = self.outline.close_top(next);
        proof {
            reveal(entry_text);
            reveal(written_entry_steps);
            reveal(Outline::holds_levels);
            assert(crate::outline::holds_entry(held, before.outline.entries@, root, i));
            assert(before.has_role(
                ObjectId { number: held.reference.number },
                Role::Outline { level: level as int },
            ));
            assert(item@ == item_of(after, root, i));
        }
        let pieces = closed_pieces(&item);
        let id = ObjectId { number: item.reference.number };
        let wrote = self.writer.write_object(id, &pieces);
        self.roles = Ghost(self.roles@.remove(id.number as int));
        if let Err(error) = wrote {
            self.outline_failed = true;
            return Err(error);
        }
        proof {
            lemma_held_written(before, *self, id.number as int);
            assert forall|l: int|
                #![trigger self.outline.open@[l]]
                0 <= l < self.outline.open@.len() implies {
                let reference = self.outline.open@[l].reference;
                reference.generation == 0 && self.has_role(
                    ObjectId { number: reference.number },
                    Role::Outline { level: l },
                )
            } by {
                assert(self.outline.open@[l] == before.outline.open@[l]);
            }
        }
        Ok(())
    }

    /// Whether another state has the same pages.
    pub open spec fn same_pages(self, other: Self) -> bool {
        &&& self.limits == other.limits
        &&& self.catalog_id == other.catalog_id
        &&& self.pages_root_id == other.pages_root_id
        &&& self.tree_closed == other.tree_closed
        &&& self.page_ids@ == other.page_ids@
        &&& self.pages_written == other.pages_written
        &&& self.tree_torn == other.tree_torn
        &&& self.input_bytes_read == other.input_bytes_read
        &&& self.same_nodes(other)
    }
}

/// The first of the entries to write, when there is one.
proof fn lemma_first_closing(
    before: Seq<Entry>,
    after: Seq<Entry>,
    root: PdfRef,
    levels: int,
    depth: int,
)
    requires
        0 <= depth < levels,
    ensures
        ({
            let i = open_at(depths(before), (levels - 1) as nat);
            let text = entry_text(after, root, i);
            &&& closing_text(before, after, root, levels, depth) == text + closing_text(
                before,
                after,
                root,
                levels - 1,
                depth,
            )
            &&& closing_steps(before, after, root, levels, depth) == written_entry_steps(
                after,
                root,
                i,
            ) + closing_steps(before, after, root, levels - 1, depth)
        }),
{
}

/// Done steps and text, with one more of each.
proof fn lemma_one_more_entry(
    written: Seq<u8>,
    done: Seq<u8>,
    text: Seq<u8>,
    rest: Seq<u8>,
    passing: Seq<Step>,
    more: Seq<Step>,
    steps: Seq<Step>,
)
    ensures
        written + done + text == written + (done + text),
        done + (text + rest) == done + text + rest,
        passing + (more + steps) == passing + more + steps,
{
    assert(written + done + text =~= written + (done + text));
    assert(done + (text + rest) =~= done + text + rest);
    assert(passing + (more + steps) =~= passing + more + steps);
}

impl PdfDocument {
    /// Write the entries that are complete once the next entry at `depth` is
    /// known, the deepest first.
    pub(crate) fn close_entries(
        &mut self,
        depth: usize,
        next: Option<PdfRef>,
        Ghost(after): Ghost<Seq<Entry>>,
    ) -> (closed: Result<(), Error>)
        requires
            old(self).held_sound(),
            !old(self).outline_failed,
            old(self).writer.unready() is None,
            depth <= old(self).outline.open@.len(),
            follows(old(self).outline.entries@, after, depth as nat, next),
        ensures
            ({
                let entries = old(self).outline.entries@;
                let root = old(self).outline.root_reference();
                let levels = old(self).outline.open@.len() as int;
                let steps = closing_steps(entries, after, root, levels, depth as int);
                match closed {
                    Ok(()) => {
                        &&& final(self).closing_sound()
                        &&& final(self).writer.unready() is None
                        &&& forall|except: int|
                            old(self).held_but(except) == #[trigger] final(self).held_but(except)
                        &&& final(self).writer.written@ == old(self).writer.written@
                            + closing_text(entries, after, root, levels, depth as int)
                        &&& final(self).outline.open@ == old(self).outline.open@.take(
                            depth as int,
                        )
                        &&& passed(
                            old(self).writer.progress(),
                            steps,
                            final(self).writer.progress(),
                        )
                    },
                    Err(error) => {
                        &&& final(self).held_sound()
                        &&& final(self).outline_failed
                        &&& output_stopped(
                            old(self).writer,
                            final(self).writer,
                            steps,
                            closing_text(entries, after, root, levels, depth as int),
                            error,
                        )
                    },
                }
            }),
            final(self).outline.same_entries(old(self).outline),
            final(self).same_pages(*old(self)),
            others_kept(*old(self), *final(self)),
    {
        let ghost before = *self;
        let ghost entries = self.outline.entries@;
        let ghost root = self.outline.root_reference();
        let ghost levels = self.outline.open@.len() as int;
        let ghost all = closing_text(entries, after, root, levels, depth as int);
        let ghost steps = closing_steps(entries, after, root, levels, depth as int);
        let ghost start = self.writer.progress();
        let ghost mut done = Seq::<u8>::empty();
        let ghost mut passing = Seq::<Step>::empty();
        proof {
            lemma_passed_none(start);
            assert(done + all =~= all);
            assert(passing + steps =~= steps);
            assert(before.writer.written@ + done =~= before.writer.written@);
            assert(before.outline.open@.take(levels) =~= before.outline.open@);
        }
        while self.outline.open.len() > depth
            invariant
                before == *old(self),
                before.held_sound(),
                before.writer.unready() is None,
                entries == before.outline.entries@,
                root == before.outline.root_reference(),
                levels == before.outline.open@.len(),
                start == before.writer.progress(),
                depth <= self.outline.open@.len() <= levels,
                follows(entries, after, depth as nat, next),
                steps == closing_steps(entries, after, root, levels, depth as int),
                all == closing_text(entries, after, root, levels, depth as int),
                self.closing_sound(),
                self.writer.unready() is None,
                self.outline.same_entries(before.outline),
                self.outline.open@ == before.outline.open@.take(self.outline.open@.len() as int),
                self.same_pages(before),
                others_kept(before, *self),
                forall|except: int|
                    before.held_but(except) == #[trigger] self.held_but(except),
                self.writer.written@ == before.writer.written@ + done,
                done + closing_text(
                    entries,
                    after,
                    root,
                    self.outline.open@.len() as int,
                    depth as int,
                ) == all,
                passing + closing_steps(
                    entries,
                    after,
                    root,
                    self.outline.open@.len() as int,
                    depth as int,
                ) == steps,
                passed(start, passing, self.writer.progress()),
            decreases self.outline.open@.len(),
        {
            let ghost left = self.outline.open@.len() as int;
            let ghost i = open_at(depths(entries), (left - 1) as nat);
            let ghost text = entry_text(after, root, i);
            let ghost more = written_entry_steps(after, root, i);
            let ghost now = self.writer.progress();
            let ghost rest = closing_steps(entries, after, root, left - 1, depth as int);
            proof {
                lemma_levels_held(self.outline);
                lemma_first_closing(entries, after, root, left, depth as int);
                lemma_closing_item(
                    entries,
                    after,
                    root,
                    (left - 1) as nat,
                    depth as nat,
                    next,
                );
                lemma_one_more_entry(
                    before.writer.written@,
                    done,
                    text,
                    closing_text(entries, after, root, left - 1, depth as int),
                    passing,
                    more,
                    rest,
                );
            }
            let sibling: Option<PdfRef> = if self.outline.open.len() - 1 == depth {
                next
            } else {
                None
            };
            match self.write_entry(sibling, Ghost(after)) {
                Ok(()) => {},
                Err(error) => {
                    proof {
                        lemma_refused_amid(
                            start,
                            passing,
                            now,
                            more,
                            rest,
                            steps,
                            error,
                            self.writer.progress(),
                        );
                        assert(before.writer.written@.is_prefix_of(self.writer.written@));
                    }
                    return Err(error);
                },
            }
            proof {
                lemma_passed_more(start, passing, now, more, self.writer.progress());
                done = done + text;
                passing = passing + more;
                assert(self.outline.open@ =~= before.outline.open@.take(left - 1));
            }
        }
        proof {
            assert(done =~= all);
            assert(passing =~= steps);
        }
        Ok(())
    }
}

/// Why the titles and entries that would be held may not be.
pub open spec fn held_memory_refusal(
    open: Seq<OpenOutline>,
    depth: int,
    title_capacity: u64,
    limits: Limits,
) -> Option<Error> {
    let titles = title_bytes(open, depth) + title_capacity;
    let nodes = (depth + 1) * size_of::<OpenOutline>();
    if titles > u64::MAX {
        Some(Error::InvalidInput { reason: "retained bookmark title bytes overflow" })
    } else if nodes > u64::MAX {
        Some(Error::InvalidInput { reason: "retained bookmark metadata bytes overflow" })
    } else if nodes + titles > u64::MAX {
        Some(Error::InvalidInput { reason: "retained bookmark allocation overflows" })
    } else {
        over_limit("allocation bytes", limits.max_allocation_bytes, nodes + titles)
    }
}

/// Admit the titles and entries that would be held once an entry at `depth` is
/// added: every deeper one is written before.
fn check_held_memory(
    open: &Vec<OpenOutline>,
    depth: usize,
    title_capacity: u64,
    limits: &Limits,
) -> (checked: Result<(), Error>)
    requires
        depth <= open@.len(),
        depth < u32::MAX,
        title_bytes(open@, open@.len() as int) <= u64::MAX,
    ensures
        checked == outcome(held_memory_refusal(open@, depth as int, title_capacity, *limits)),
        checked is Ok ==> title_bytes(open@, depth as int) + title_capacity <= u64::MAX,
{
    let mut titles: u64 = 0;
    let mut level: usize = 0;
    while level < depth
        invariant
            level <= depth <= open@.len(),
            title_bytes(open@, open@.len() as int) <= u64::MAX,
            titles == title_bytes(open@, level as int),
        decreases depth - level,
    {
        proof {
            lemma_title_bytes_grow(open@, level + 1, open@.len() as int);
        }
        titles = titles + open[level].title_capacity;
        level += 1;
    }
    titles = match titles.checked_add(title_capacity) {
        Some(titles) => titles,
        None => {
            return Err(Error::InvalidInput { reason: "retained bookmark title bytes overflow" });
        },
    };
    let nodes: u64 = depth as u64 + 1;
    let node_bytes: u64 = match nodes.checked_mul(core::mem::size_of::<OpenOutline>() as u64) {
        Some(bytes) => bytes,
        None => {
            return Err(
                Error::InvalidInput { reason: "retained bookmark metadata bytes overflow" },
            );
        },
    };
    let attempted: u64 = match node_bytes.checked_add(titles) {
        Some(bytes) => bytes,
        None => {
            return Err(Error::InvalidInput { reason: "retained bookmark allocation overflows" });
        },
    };
    limits.check_allocation(attempted)
}

/// Why the outline takes no more bookmarks after one that was half written.
pub open spec fn outline_failed_error() -> Error {
    Error::InvalidInput {
        reason: "PDF outline cannot continue after a failed bookmark operation",
    }
}

impl PdfDocument {
    /// Whether an error says that memory for another open entry was not
    /// available.
    pub open spec fn stack_starved(self, error: Error) -> bool {
        allocator_refused(
            error,
            "bookmark stack allocation",
            self.limits,
            growth_bytes::<OpenOutline>(
                self.outline.open@.len(),
                self.limits.max_bookmarks as u64,
                self.limits,
            ),
        )
    }

    /// Why a bookmark is refused before anything is reserved or written.
    pub open spec fn bookmark_refusal(self, bookmark: Bookmark, title_capacity: u64) -> Option<
        Error,
    > {
        let count = self.outline.count;
        let open = self.outline.open@;
        if self.outline_failed {
            Some(outline_failed_error())
        } else if bookmark.page_index >= self.page_ids@.len() {
            Some(Error::InvalidInput { reason: "bookmark destination page has not been emitted" })
        } else if count == u32::MAX {
            Some(Error::InvalidInput { reason: "bookmark count overflows" })
        } else if count + 1 > self.limits.max_bookmarks {
            over_limit("bookmarks", self.limits.max_bookmarks as u64, count + 1)
        } else if bookmark.depth > open.len() {
            Some(Error::InvalidInput { reason: "bookmark depth skips a parent" })
        } else {
            first_failure(
                held_memory_refusal(open, bookmark.depth as int, title_capacity, self.limits),
                if bookmark.depth == open.len() {
                    growth_failure::<OpenOutline>(
                        open.len(),
                        self.limits.max_bookmarks as u64,
                        self.limits,
                        "bookmark stack allocation",
                    )
                } else {
                    None
                },
            )
        }
    }

    /// Whether another state has the same file and the same outline.
    pub open spec fn same_document(self, other: Self) -> bool {
        &&& self.writer == other.writer
        &&& self.same_pages(other)
        &&& self.outline.same_entries(other.outline)
        &&& self.outline.open@ == other.outline.open@
        &&& self.outline.retained_titles == other.outline.retained_titles
        &&& self.outline_failed == other.outline_failed
        &&& self.roles == other.roles
    }

    /// Check a bookmark, and make room for it if it is below all open entries.
    fn prepare_bookmark(&mut self, bookmark: &Bookmark, title_capacity: u64) -> (prepared: Result<
        (),
        Error,
    >)
        requires
            old(self).well_formed(),
        ensures
            final(self).well_formed(),
            final(self).same_document(*old(self)),
            match old(self).bookmark_refusal(*bookmark, title_capacity) {
                Some(refusal) => prepared == Err::<(), Error>(refusal),
                None => {
                    &&& prepared matches Err(error) ==> bookmark.depth == old(
                        self,
                    ).outline.open@.len() && old(self).stack_starved(error)
                    &&& title_bytes(old(self).outline.open@, bookmark.depth as int)
                        + title_capacity <= u64::MAX
                },
            },
    {
        if self.outline_failed {
            return Err(
                Error::InvalidInput {
                    reason: "PDF outline cannot continue after a failed bookmark operation",
                },
            );
        }
        proof {
            lemma_levels_held(self.outline);
        }
        if bookmark.page_index as usize >= self.page_ids.len() {
            return Err(
                Error::InvalidInput { reason: "bookmark destination page has not been emitted" },
            );
        }
        if self.outline.count == u32::MAX {
            return Err(Error::InvalidInput { reason: "bookmark count overflows" });
        }
        self.limits.check_bookmarks(self.outline.count + 1)?;
        let depth: usize = bookmark.depth as usize;
        if depth > self.outline.open.len() {
            return Err(Error::InvalidInput { reason: "bookmark depth skips a parent" });
        }
        proof {
            crate::outline::lemma_open_levels_bound(self.outline);
        }
        check_held_memory(&self.outline.open, depth, title_capacity, &self.limits)?;
        if depth == self.outline.open.len() {
            let ghost before = self.outline;
            let reserved = reserve_bounded(
                &mut self.outline.open,
                self.limits.max_bookmarks as u64,
                &self.limits,
                "bookmark stack allocation",
            );
            proof {
                lemma_roomier(before, self.outline);
            }
            reserved?;
        }
        Ok(())
    }
}

impl PdfDocument {
    /// The object of the outline root, which the first bookmark hands out.
    pub open spec fn bookmark_root(self) -> PdfRef {
        match self.outline.root {
            Some(root) => root,
            None => PdfRef { number: (self.writer.offsets@.len() + 1) as u32, generation: 0 },
        }
    }

    /// The object of the next bookmark.
    pub open spec fn bookmark_id(self) -> ObjectId {
        let base = self.writer.offsets@.len();
        ObjectId {
            number: (if self.outline.root is None {
                base + 2
            } else {
                base + 1
            }) as u32,
        }
    }

    /// The steps of handing out the objects of the next bookmark.
    pub open spec fn number_steps(self) -> Seq<Step> {
        if self.outline.root is None {
            seq![Step::Reserve, Step::Reserve]
        } else {
            seq![Step::Reserve]
        }
    }

    /// Whether another state has the same entries and pages, and has written
    /// the same bytes.
    pub open spec fn same_entries(self, other: Self) -> bool {
        &&& self.same_pages(other)
        &&& self.outline.entries == other.outline.entries
        &&& self.outline.count == other.outline.count
        &&& self.outline.first == other.outline.first
        &&& self.outline.last == other.outline.last
        &&& self.outline.open@ == other.outline.open@
        &&& self.outline.retained_titles == other.outline.retained_titles
        &&& self.outline_failed == other.outline_failed
        &&& self.writer.written == other.writer.written
        &&& self.writer.poisoned == other.writer.poisoned
        &&& self.writer.stream == other.writer.stream
        &&& self.writer.object_open == other.writer.object_open
        &&& self.writer.pending == other.writer.pending
        &&& other.writer.offsets@.len() <= self.writer.offsets@.len()
    }

    /// Hand out the object of the outline root, if it has none.
    fn reserve_root(&mut self) -> (reserved: Result<PdfRef, Error>)
        requires
            old(self).well_formed(),
            !old(self).outline_failed,
        ensures
            final(self).well_formed(),
            final(self).same_entries(*old(self)),
            reserved is Err && old(self).all_held() ==> final(self).all_held(),
            match reserved {
                Ok(root) => {
                    &&& root == old(self).bookmark_root()
                    &&& old(self).all_held() ==> final(self).all_held()
                    &&& final(self).outline.root == Some(root)
                    &&& match old(self).outline.root {
                        Some(_) => *final(self) == *old(self),
                        None => {
                            &&& old(self).writer.unready() is None
                            &&& final(self).writer.offsets@.len() == old(
                                self,
                            ).writer.offsets@.len() + 1
                            &&& passed(
                                old(self).writer.progress(),
                                seq![Step::Reserve],
                                final(self).writer.progress(),
                            )
                        },
                    }
                },
                Err(error) => {
                    &&& old(self).outline.root is None
                    &&& !is_output_limit(error)
                    &&& match old(self).writer.unready() {
                        Some(unready) => error == unready,
                        None => steps_refused(
                            old(self).writer.progress(),
                            seq![Step::Reserve],
                            error,
                            final(self).writer.progress(),
                        ),
                    }
                },
            },
    {
        if let Some(root) = self.outline.root {
            return Ok(root);
        }
        let ghost before = *self;
        let ghost start = self.writer.progress();
        let id = match self.writer.reserve_object() {
            Ok(id) => id,
            Err(error) => {
                proof {
                    if before.writer.unready() is None {
                        lemma_refused_step(start, Step::Reserve, error);
                    }
                }
                return Err(error);
            },
        };
        let root = id.reference();
        self.outline.root = Some(root);
        self.roles = Ghost(self.roles@.insert(id.number as int, Role::OutlineRoot));
        proof {
            lemma_passed_one(start, Step::Reserve);
            lemma_rooted(before.outline, self.outline);
        }
        Ok(root)
    }

    /// Hand out the objects of the next bookmark.
    fn reserve_bookmark(&mut self) -> (reserved: Result<ObjectId, Error>)
        requires
            old(self).well_formed(),
            !old(self).outline_failed,
        ensures
            final(self).well_formed(),
            final(self).same_entries(*old(self)),
            reserved is Err && old(self).all_held() ==> final(self).all_held(),
            match reserved {
                Ok(id) => {
                    &&& old(self).writer.unready() is None
                    &&& id == old(self).bookmark_id()
                    &&& final(self).outline.root == Some(old(self).bookmark_root())
                    &&& old(self).all_held() ==> final(self).held_but(id.number as int)
                    &&& final(self).writer.is_unwritten(id)
                    &&& !final(self).roles@.dom().contains(id.number as int)
                    &&& passed(
                        old(self).writer.progress(),
                        old(self).number_steps(),
                        final(self).writer.progress(),
                    )
                },
                Err(error) => {
                    &&& !is_output_limit(error)
                    &&& match old(self).writer.unready() {
                        Some(unready) => error == unready,
                        None => steps_refused(
                            old(self).writer.progress(),
                            old(self).number_steps(),
                            error,
                            final(self).writer.progress(),
                        ),
                    }
                },
            },
    {
        let ghost before = *self;
        let ghost start = self.writer.progress();
        let ghost one = seq![Step::Reserve];
        proof {
            lemma_passed_none(start);
            assert(one + one =~= seq![Step::Reserve, Step::Reserve]);
            assert(Seq::<Step>::empty() + one =~= one);
        }
        match self.reserve_root() {
            Ok(_) => {},
            Err(error) => {
                proof {
                    if before.writer.unready() is None {
                        lemma_refused_first(start, one, one, error, self.writer.progress());
                    }
                }
                return Err(error);
            },
        }
        let ghost rooted = *self;
        let ghost now = self.writer.progress();
        let ghost first = if before.outline.root is None {
            one
        } else {
            Seq::<Step>::empty()
        };
        match self.writer.reserve_object() {
            Ok(id) => {
                proof {
                    lemma_passed_one(now, Step::Reserve);
                    lemma_passed_more(start, first, now, one, self.writer.progress());
                }
                Ok(id)
            },
            Err(error) => {
                proof {
                    if before.writer.unready() is None {
                        lemma_refused_step(now, Step::Reserve, error);
                        lemma_refused_later(start, first, one, error, self.writer.progress());
                    }
                }
                Err(error)
            },
        }
    }
}

impl PdfDocument {
    /// The entry that a bookmark adds.
    pub open spec fn entry_of(self, bookmark: Bookmark, id: ObjectId) -> Entry {
        Entry {
            depth: bookmark.depth as nat,
            reference: id.reference(),
            page: self.page_ids@[bookmark.page_index as int].reference(),
            title: bookmark.title@,
        }
    }

    /// The entries once a bookmark is added.
    pub open spec fn entries_with(self, bookmark: Bookmark, id: ObjectId) -> Seq<Entry> {
        self.outline.entries@.push(self.entry_of(bookmark, id))
    }

    /// The entries that are written when a bookmark arrives.
    pub open spec fn bookmark_text(self, bookmark: Bookmark, root: PdfRef, id: ObjectId) -> Seq<
        u8,
    > {
        closing_text(
            self.outline.entries@,
            self.entries_with(bookmark, id),
            root,
            self.outline.open@.len() as int,
            bookmark.depth as int,
        )
    }

    /// The steps of writing them.
    pub open spec fn entry_steps(self, bookmark: Bookmark, root: PdfRef, id: ObjectId) -> Seq<
        Step,
    > {
        closing_steps(
            self.outline.entries@,
            self.entries_with(bookmark, id),
            root,
            self.outline.open@.len() as int,
            bookmark.depth as int,
        )
    }

    /// The steps of adding a bookmark.
    pub open spec fn bookmark_steps(self, bookmark: Bookmark) -> Seq<Step> {
        self.number_steps() + self.entry_steps(
            bookmark,
            self.bookmark_root(),
            self.bookmark_id(),
        )
    }

    /// Write the entries that a checked bookmark completes, and add it.
    #[verifier::rlimit(40)]
    fn insert(&mut self, bookmark: Bookmark, id: ObjectId, title_capacity: u64) -> (inserted:
        Result<(), Error>)
        requires
            old(self).well_formed(),
            !old(self).outline_failed,
            old(self).writer.unready() is None,
            old(self).outline.root is Some,
            old(self).outline.count < u32::MAX,
            bookmark.depth <= old(self).outline.open@.len(),
            bookmark.page_index < old(self).page_ids@.len(),
            old(self).writer.is_unwritten(id),
            !old(self).roles@.dom().contains(id.number as int),
            title_bytes(old(self).outline.open@, bookmark.depth as int) + title_capacity
                <= u64::MAX,
        ensures
            final(self).well_formed(),
            final(self).same_pages(*old(self)),
            ({
                let root = old(self).outline.root_reference();
                let steps = old(self).entry_steps(bookmark, root, id);
                match inserted {
                    Ok(()) => {
                        &&& !final(self).outline_failed
                        &&& old(self).held_but(id.number as int) ==> final(self).all_held()
                        &&& final(self).writer.unready() is None
                        &&& final(self).writer.written@ == old(self).writer.written@ + old(
                            self,
                        ).bookmark_text(bookmark, root, id)
                        &&& final(self).outline.root == old(self).outline.root
                        &&& final(self).outline.entries@ == old(self).entries_with(bookmark, id)
                        &&& final(self).outline.open@.len() == bookmark.depth + 1
                        &&& title_bytes(final(self).outline.open@, bookmark.depth + 1)
                            == title_bytes(old(self).outline.open@, bookmark.depth as int)
                            + title_capacity
                        &&& passed(
                            old(self).writer.progress(),
                            steps,
                            final(self).writer.progress(),
                        )
                    },
                    Err(error) => {
                        &&& final(self).outline_failed
                        &&& final(self).outline.entries == old(self).outline.entries
                        &&& output_stopped(
                            old(self).writer,
                            final(self).writer,
                            steps,
                            old(self).bookmark_text(bookmark, root, id),
                            error,
                        )
                    },
                }
            }),
    {
        let depth: usize = bookmark.depth as usize;
        let page = self.page_ids[bookmark.page_index as usize].reference();
        let reference = id.reference();
        let ghost entry = self.entry_of(bookmark, id);
        let ghost entries = self.outline.entries@;
        let ghost after = entries.push(entry);
        let ghost begin = *self;
        let ghost open = self.outline.open@;
        proof {
            lemma_levels_held(self.outline);
            crate::outline::lemma_nested_entry(entries, entry);
        }
        self.close_entries(depth, Some(reference), Ghost(after))?;
        let ghost before = *self;
        proof {
            lemma_levels_held(self.outline);
            crate::outline::lemma_title_bytes_take(open, depth as int);
        }
        self.outline.push(reference, page, bookmark.title, title_capacity);
        self.roles = Ghost(
            self.roles@.insert(id.number as int, Role::Outline { level: depth as int }),
        );
        proof {
            lemma_levels_held(self.outline);
            if begin.held_but(id.number as int) {
                assert(before.held_but(id.number as int));
                assert forall|i: int|
                    #![trigger self.writer.offsets@[i]]
                    0 <= i < self.writer.offsets@.len() && self.writer.offsets@[i]
                        is None implies self.roles@.dom().contains(i + 1) by {
                    assert(before.writer.offsets@[i] is None);
                }
            }
            assert forall|l: int|
                #![trigger self.outline.open@[l]]
                0 <= l < self.outline.open@.len() implies {
                let reference = self.outline.open@[l].reference;
                reference.generation == 0 && self.has_role(
                    ObjectId { number: reference.number },
                    Role::Outline { level: l },
                )
            } by {
                if l < depth {
                    assert(before.outline.open@[l].reference == self.outline.open@[l].reference);
                    assert(before.has_role(
                        ObjectId { number: before.outline.open@[l].reference.number },
                        Role::Outline { level: l },
                    ));
                }
            }
        }
        Ok(())
    }
}

impl PdfDocument {
    /// Whether another state is this one with a bookmark added, whose title is
    /// charged `title_capacity` bytes.
    pub open spec fn with_bookmark(
        self,
        other: Self,
        bookmark: Bookmark,
        title_capacity: u64,
    ) -> bool {
        &&& self.writer.unready() is None
        &&& !other.outline_failed
        &&& self.all_held() ==> other.all_held()
        &&& other.same_pages(self)
        &&& other.outline.root == Some(self.bookmark_root())
        &&& other.outline.entries@ == self.entries_with(bookmark, self.bookmark_id())
        &&& other.outline.open@.len() == bookmark.depth + 1
        &&& title_bytes(other.outline.open@, bookmark.depth + 1) == title_bytes(
            self.outline.open@,
            bookmark.depth as int,
        ) + title_capacity
        &&& other.writer.unready() is None
        &&& other.writer.written@ == self.writer.written@ + self.bookmark_text(
            bookmark,
            self.bookmark_root(),
            self.bookmark_id(),
        )
        &&& passed(
            self.writer.progress(),
            self.bookmark_steps(bookmark),
            other.writer.progress(),
        )
    }

    /// Whether another state is this one after a bookmark that was in order
    /// could not be added: either nothing about the outline has changed, or
    /// entries could not be written and the outline takes no more.
    pub open spec fn bookmark_refused(self, other: Self, bookmark: Bookmark, error: Error) -> bool {
        &&& other.same_pages(self)
        &&& other.outline.entries == self.outline.entries
        &&& if other.outline_failed {
            &&& self.writer.unready() is None
            &&& steps_failure(self.writer.progress(), self.number_steps(), 0) is None
            &&& output_stopped(
                self.writer,
                other.writer,
                self.bookmark_steps(bookmark),
                self.bookmark_text(bookmark, self.bookmark_root(), self.bookmark_id()),
                error,
            )
        } else {
            &&& other.same_entries(self)
            &&& self.all_held() ==> other.all_held()
            &&& {
                ||| {
                    &&& bookmark.depth == self.outline.open@.len()
                    &&& self.stack_starved(error)
                    &&& other.writer == self.writer
                }
                ||| output_stopped(
                    self.writer,
                    other.writer,
                    self.number_steps(),
                    Seq::empty(),
                    error,
                )
            }
        }
    }

    /// Add an outline item whose title takes `title_capacity` bytes.
    pub fn add_titled_bookmark(&mut self, bookmark: Bookmark, title_capacity: u64) -> (added:
        Result<(), Error>)
        requires
            old(self).well_formed(),
        ensures
            final(self).well_formed(),
            added is Ok ==> {
                let entries = final(self).outline.entries@;
                &&& bookmark.page_index < old(self).page_ids@.len()
                &&& entries.len() == old(self).outline.entries@.len() + 1
                &&& entries.drop_last() == old(self).outline.entries@
                &&& entries.last().page.number == old(
                    self,
                ).page_ids@[bookmark.page_index as int].number
                &&& entries.last().page.generation == 0
                &&& entries.last().title == bookmark.title@
                &&& entries.last().depth == bookmark.depth
            },
            match old(self).bookmark_refusal(bookmark, title_capacity) {
                Some(refusal) => added == Err::<(), Error>(refusal) && final(self).same_document(
                    *old(self),
                ),
                None => match added {
                    Ok(()) => old(self).with_bookmark(
                            *final(self),
                            bookmark,
                            title_capacity,
                        ),
                    Err(error) => old(self).bookmark_refused(*final(self), bookmark, error),
                },
            },
    {
        let ghost begin = *self;
        let ghost start = self.writer.progress();
        self.prepare_bookmark(&bookmark, title_capacity)?;
        let ghost ready = *self;
        let id = self.reserve_bookmark()?;
        let ghost numbered = *self;
        let ghost first = begin.number_steps();
        let ghost second = begin.entry_steps(bookmark, begin.bookmark_root(), id);
        proof {
            assert(numbered.entries_with(bookmark, id) == begin.entries_with(bookmark, id));
        }
        match self.insert(bookmark, id, title_capacity) {
            Ok(()) => {
                proof {
                    lemma_passed_more(
                        start,
                        first,
                        numbered.writer.progress(),
                        second,
                        self.writer.progress(),
                    );
                    assert(self.outline.entries@.drop_last() =~= begin.outline.entries@);
                }
                Ok(())
            },
            Err(error) => {
                proof {
                    lemma_refused_later(start, first, second, error, self.writer.progress());
                }
                Err(error)
            },
        }
    }

    /// Add an outline item in preorder after its destination page is emitted.
    ///
    /// Depth starts at zero. Each new item may be a sibling, ancestor sibling,
    /// or direct child; a jump over a missing parent is rejected. Completed
    /// siblings and ancestors are written immediately, keeping only as many
    /// titles and links in memory as the outline is deep. How much memory a
    /// title takes is up to the allocator.
    pub fn add_bookmark(&mut self, bookmark: Bookmark) -> (added: Result<(), Error>)
        requires
            old(self).well_formed(),
        ensures
            final(self).well_formed(),
            added is Ok ==> {
                let entries = final(self).outline.entries@;
                &&& bookmark.page_index < old(self).page_ids@.len()
                &&& entries.len() == old(self).outline.entries@.len() + 1
                &&& entries.drop_last() == old(self).outline.entries@
                &&& entries.last().page.number == old(
                    self,
                ).page_ids@[bookmark.page_index as int].number
                &&& entries.last().page.generation == 0
                &&& entries.last().title == bookmark.title@
                &&& entries.last().depth == bookmark.depth
            },
            exists|title_capacity: u64|
                #![trigger old(self).bookmark_refusal(bookmark, title_capacity)]
                title_capacity >= bookmark.title@.len() && match old(self).bookmark_refusal(
                    bookmark,
                    title_capacity,
                ) {
                    Some(refusal) => added == Err::<(), Error>(refusal)
                        && final(self).same_document(*old(self)),
                    None => match added {
                        Ok(()) => old(self).with_bookmark(
                            *final(self),
                            bookmark,
                            title_capacity,
                        ),
                        Err(error) => old(self).bookmark_refused(*final(self), bookmark, error),
                    },
                },
    {
        let title_capacity: u64 = string_capacity(&bookmark.title) as u64;
        assert(old(self).bookmark_refusal(bookmark, title_capacity) == old(self).bookmark_refusal(
            bookmark,
            title_capacity,
        ));
        self.add_titled_bookmark(bookmark, title_capacity)
    }
}

/// A bookmark that is refused before any entry is written leaves the earlier
/// entries, their output, and what finishing needs as they were.
pub proof fn law_refused_bookmark_changes_nothing(
    document: PdfDocument,
    other: PdfDocument,
    bookmark: Bookmark,
    error: Error,
)
    requires
        document.bookmark_refused(other, bookmark, error),
        !other.outline_failed,
    ensures
        other.outline.entries == document.outline.entries,
        other.outline.open@ == document.outline.open@,
        other.writer.written == document.writer.written,
        other.page_ids@ == document.page_ids@,
        document.all_held() ==> other.all_held(),
{
}

/// An accepted bookmark is entered as it was given: it opens the page that has
/// its index among those added so far, under its title, at its depth, after the
/// entries before it. The numbers of its object and of a new outline root are the
/// next ones.
pub proof fn law_bookmarks_are_entered_as_given(
    before: PdfDocument,
    after: PdfDocument,
    bookmark: Bookmark,
    title_capacity: u64,
)
    requires
        before.with_bookmark(after, bookmark, title_capacity),
        before.writer.offsets@.len() + 2 <= u32::MAX,
    ensures
        ({
            let entries = after.outline.entries@;
            let added = entries.last();
            let objects = before.writer.offsets@.len();
            &&& entries.drop_last() == before.outline.entries@
            &&& added.page.number == before.page_ids@[bookmark.page_index as int].number
            &&& added.page.generation == 0
            &&& added.title == bookmark.title@
            &&& added.depth == bookmark.depth
            &&& added.reference.generation == 0
            &&& match before.outline.root {
                Some(root) => added.reference.number == objects + 1 && after.outline.root == Some(
                    root,
                ),
                None => added.reference.number == objects + 2 && after.outline.root == Some(
                    PdfRef { number: (objects + 1) as u32, generation: 0 },
                ),
            }
        }),
{
    assert(after.outline.entries@.drop_last() =~= before.outline.entries@);
}

} // verus!

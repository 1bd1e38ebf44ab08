//! Bookmarks appended to an inspected PDF.

use vstd::prelude::*;
use vstd::layout::size_of;
use crate::append::index::{CatalogEntry, PdfIndex, RepairObject};
use crate::append::prefix::{copied, PrefixCopy};
use crate::append::update::in_order;
use crate::append::writer::{
    appended_entries, appended_text, hash_of, lemma_no_objects, lemma_one_more_object,
    lemma_refused_after, objects_accepted, refused_at, objects_refused, output_failed,
    update_hash_start, Appended, AppendWriter, XrefEntry,
};
use crate::fallible::{allocator_refused, capacity, reserve_exact, string_capacity};
use crate::fragment::outline::MAX_OUTLINE_DEPTH;
use crate::outline::{
    closed_pieces, depths, item_of, item_pieces, link, title_bytes, Entry, OpenOutline, Outline,
    lemma_closing_item, lemma_levels_held, lemma_rooted, lemma_roomier, lemma_title_bytes_grow,
};
use crate::outline_order::{first_root, last_root, open_at, well_nested};
use crate::pieces::views;
use crate::sorting::reordered;
use crate::text::{decimal, pdf_ref, pdf_ref_text, push_bytes, push_decimal, push_text, spelled};
use crate::types::{
    outcome, over_limit, Bookmark, ConversionReport, Error, Limits, PdfRef, MAX_PDF_OBJECTS,
};

verus! {

/// Appends bookmark entries to a previously inspected PDF.
///
/// The PDF is copied before bookmarks are accepted, so an output can hold part
/// of a file when a later input or output error occurs. An existing nonempty
/// outline is preserved: `add_bookmark` then does nothing, and a clean PDF is
/// copied byte for byte.
pub struct PdfOutlineAppender<'a> {
    pub writer: AppendWriter,
    pub index: &'a PdfIndex,
    pub limits: Limits,
    pub next_number: Option<u32>,
    pub outline: Outline,
    pub input_bytes_read: u64,
}

impl<'a> PrefixCopy<'a> {
    /// Go on to accept bookmarks, once everything is copied.
    pub fn finish(self) -> (appender: Result<PdfOutlineAppender<'a>, Error>)
        requires
            self.well_formed(),
            self.done == self.index.logical_end,
            !self.writer.poisoned,
        ensures
            match appender {
                Ok(appender) => {
                    &&& self.patches.next_separator == self.patches.separators@.len()
                    &&& self.patches.next_gap == self.patches.gaps@.len()
                    &&& appender.well_formed()
                    &&& appender.index == self.index
                    &&& appender.limits == self.limits
                    &&& appender.writer.written@ == self.writer.written@
                    &&& appender.writer.pending@ == self.writer.pending@
                    &&& !appender.writer.poisoned
                    &&& !appender.writer.open
                    &&& appender.writer.entries@.len() == 0
                    &&& appender.writer.update_hash == Some(
                        update_hash_start(self.index.id_view(), self.writer.written@.len()),
                    )
                    &&& appender.outline.entries@.len() == 0
                    &&& appender.outline.root is None
                    &&& appender.next_number is None
                    &&& appender.input_bytes_read == self.index.logical_end
                },
                Err(error) => if self.patches.next_separator != self.patches.separators@.len() {
                    error == (Error::InvalidInput {
                        reason: "PDF stream separator patch exceeds copied prefix",
                    })
                } else {
                    self.patches.next_gap != self.patches.gaps@.len() && error == (
                    Error::InvalidInput { reason: "PDF orphan gap patch exceeds copied prefix" })
                },
            },
    {
        self.patches.check_consumed()?;
        let mut writer = self.writer;
        match &self.index.trailer_id {
            Some(id) => writer.start_update_hash(Some(id)),
            None => writer.start_update_hash(None),
        }
        Ok(
            PdfOutlineAppender {
                writer,
                index: self.index,
                limits: self.limits,
                next_number: None,
                outline: Outline::new(),
                input_bytes_read: self.index.logical_end,
            },
        )
    }
}

/// Why the next new object has no number, or the number it has.
pub open spec fn new_object(next_number: Option<u32>, index: PdfIndex) -> Result<u32, Error> {
    let candidate = match next_number {
        Some(number) => Ok(number),
        None => index.next_free_object_number,
    };
    match candidate {
        Err(error) => Err(error),
        Ok(number) => if number == 0 || number > MAX_PDF_OBJECTS {
            Err(
                Error::LimitExceeded {
                    resource: "PDF object number",
                    limit: MAX_PDF_OBJECTS as u64,
                    attempted: number as u64,
                },
            )
        } else {
            Ok(number)
        },
    }
}

/// How far the stack of `len` open entries has to grow, if it has room for
/// `capacity`.
pub open spec fn stack_growth(len: nat, capacity: nat, limits: Limits) -> Result<
    Option<int>,
    Error,
> {
    let doubled = 2 * (if capacity < 1 {
        1
    } else {
        capacity
    }) as int;
    let bounded = if doubled > limits.max_bookmarks {
        limits.max_bookmarks as int
    } else {
        doubled
    };
    let target = if bounded < len + 1 {
        len as int + 1
    } else {
        bounded
    };
    if len < capacity {
        Ok(None)
    } else if target * size_of::<OpenOutline>() > u64::MAX {
        Err(Error::InvalidInput { reason: "PDF bookmark allocation overflows" })
    } else {
        match over_limit(
            "allocation bytes",
            limits.max_allocation_bytes,
            target * size_of::<OpenOutline>(),
        ) {
            Some(error) => Err(error),
            None => Ok(Some(target)),
        }
    }
}

/// Whether an error comes from growing the stack of `len` open entries when it
/// is full. Whether it is full is up to the allocator.
pub open spec fn stack_growth_failed(len: nat, limits: Limits, error: Error) -> bool {
    match stack_growth(len, len, limits) {
        Err(failure) => error == failure,
        Ok(Some(target)) => allocator_refused(
            error,
            "PDF bookmark stack allocation",
            limits,
            target * size_of::<OpenOutline>(),
        ),
        Ok(None) => false,
    }
}

/// Why the titles and entries that would be held may not be.
pub open spec fn outline_memory_refusal(
    open: Seq<OpenOutline>,
    depth: int,
    title_capacity: u64,
    limits: Limits,
) -> Option<Error> {
    let titles = title_bytes(open, depth) + title_capacity;
    let metadata = (depth + 1) * size_of::<OpenOutline>() + titles;
    if titles > u64::MAX {
        Some(Error::InvalidInput { reason: "PDF bookmark title budget overflows" })
    } else if metadata > u64::MAX {
        Some(Error::InvalidInput { reason: "PDF bookmark allocation overflows" })
    } else {
        over_limit("allocation bytes", limits.max_allocation_bytes, metadata)
    }
}

impl<'a> PdfOutlineAppender<'a> {
    /// Whether the output is consistent and, unless it has failed, every open
    /// entry is held.
    pub open spec fn well_formed(self) -> bool {
        &&& self.writer.well_formed()
        &&& self.writer.limits == self.limits
        &&& !self.writer.poisoned ==> self.outline_sound()
    }

    pub open spec fn outline_sound(self) -> bool {
        &&& self.outline.well_formed()
        &&& self.outline.open@.len() <= MAX_OUTLINE_DEPTH
    }

    /// True when the original nonempty outline is preserved unchanged.
    pub fn preserves_existing_outlines(&self) -> (preserves: bool)
        ensures
            preserves == self.index.has_outlines,
    {
        self.index.has_outlines
    }

    /// Why a bookmark is refused before anything is reserved or written.
    pub open spec fn bookmark_refusal(self, bookmark: Bookmark, title_capacity: u64) -> Option<
        Error,
    > {
        let count = self.outline.count;
        if self.writer.poisoned {
            Some(output_failed())
        } else if count == u32::MAX {
            Some(Error::InvalidInput { reason: "PDF bookmark count overflows" })
        } else if count + 1 > self.limits.max_bookmarks {
            over_limit("bookmarks", self.limits.max_bookmarks as u64, count + 1)
        } else if bookmark.page_index >= self.index.pages@.len() {
            Some(Error::InvalidInput { reason: "bookmark page is outside the PDF page tree" })
        } else if bookmark.depth >= MAX_OUTLINE_DEPTH {
            over_limit("PDF outline depth", MAX_OUTLINE_DEPTH as u64, bookmark.depth + 1)
        } else if bookmark.depth > self.outline.open@.len() {
            Some(Error::InvalidInput { reason: "bookmark depth skips a parent" })
        } else if bookmark.title@.len() == 0 {
            Some(Error::InvalidInput { reason: "bookmark title is empty" })
        } else {
            outline_memory_refusal(
                self.outline.open@,
                bookmark.depth as int,
                title_capacity,
                self.limits,
            )
        }
    }

    /// The number of the outline root and of a new entry, or why there is
    /// none.
    pub open spec fn new_numbers(self) -> Result<(PdfRef, PdfRef), Error> {
        match self.outline.root {
            Some(root) => match new_object(self.next_number, *self.index) {
                Err(error) => Err(error),
                Ok(number) => Ok((root, PdfRef { number, generation: 0 })),
            },
            None => match new_object(self.next_number, *self.index) {
                Err(error) => Err(error),
                Ok(root) => match new_object(Some((root + 1) as u32), *self.index) {
                    Err(error) => Err(error),
                    Ok(number) => Ok(
                        (
                            PdfRef { number: root, generation: 0 },
                            PdfRef { number, generation: 0 },
                        ),
                    ),
                },
            },
        }
    }
}

/// The entries that are written when the entries after the first `levels` open
/// ones are complete, the deepest first. `before` lists the entries so far,
/// `after` those that are known now.
pub open spec fn closing_objects(
    before: Seq<Entry>,
    after: Seq<Entry>,
    root: PdfRef,
    levels: int,
    depth: int,
) -> Seq<Appended>
    decreases levels,
{
    if levels <= depth || levels <= 0 {
        Seq::empty()
    } else {
        let i = open_at(depths(before), (levels - 1) as nat);
        seq![
            Appended {
                reference: before[i].reference,
                body: item_pieces(item_of(after, root, i)),
            },
        ] + closing_objects(before, after, root, levels - 1, depth)
    }
}

/// Decide how far the stack of open entries has to grow, and the bytes that
/// takes.
pub fn plan_stack_growth(len: usize, capacity: usize, limits: &Limits) -> (planned: Result<
    Option<(usize, u64)>,
    Error,
>)
    requires
        len <= capacity,
        len < usize::MAX,
    ensures
        match stack_growth(len as nat, capacity as nat, *limits) {
            Ok(None) => planned == Ok::<Option<(usize, u64)>, Error>(None),
            Ok(Some(target)) => {
                &&& planned matches Ok(Some((planned, bytes))) && planned == target && bytes
                    == target * size_of::<OpenOutline>()
                &&& len < target
                &&& target * size_of::<OpenOutline>() <= limits.max_allocation_bytes
            },
            Err(error) => planned == Err::<Option<(usize, u64)>, Error>(error),
        },
{
    if len < capacity {
        return Ok(None);
    }
    let room: usize = if capacity < 1 {
        1
    } else {
        capacity
    };
    let most: usize = limits.max_bookmarks as usize;
    let bounded: usize = if room > most / 2 {
        most
    } else {
        2 * room
    };
    let target: usize = if bounded < len + 1 {
        len + 1
    } else {
        bounded
    };
    let bytes: u64 = match (target as u64).checked_mul(core::mem::size_of::<OpenOutline>() as u64) {
        Some(bytes) => bytes,
        None => {
            return Err(Error::InvalidInput { reason: "PDF bookmark allocation overflows" });
        },
    };
    limits.check_allocation(bytes)?;
    Ok(Some((target, bytes)))
}

/// Admit the titles and entries that would be held.
fn check_outline_memory(
    open: &Vec<OpenOutline>,
    depth: usize,
    title_capacity: u64,
    limits: &Limits,
) -> (checked: Result<(), Error>)
    requires
        depth <= open@.len(),
        depth < MAX_OUTLINE_DEPTH,
        title_bytes(open@, open@.len() as int) <= u64::MAX,
    ensures
        checked == outcome(
            outline_memory_refusal(open@, depth as int, title_capacity, *limits),
        ),
        checked is Ok ==> title_bytes(open@, depth as int) + title_capacity <= u64::MAX,
{
    let mut titles: u64 = 0;
    let mut level: usize = 0;
    while level < depth
        invariant
            level <= depth <= open@.len(),
            title_bytes(open@, open@.len() as int) <= u64::MAX,
            titles == title_bytes(open@, level as int),
        decreases depth - level,
    {
        proof {
            lemma_title_bytes_grow(open@, level + 1, open@.len() as int);
        }
        titles = titles + open[level].title_capacity;
        level += 1;
    }
    titles = match titles.checked_add(title_capacity) {
        Some(titles) => titles,
        None => {
            return Err(Error::InvalidInput { reason: "PDF bookmark title budget overflows" });
        },
    };
    let nodes: u64 = depth as u64 + 1;
    let overflow = Error::InvalidInput { reason: "PDF bookmark allocation overflows" };
    let node_bytes: u64 = match nodes.checked_mul(core::mem::size_of::<OpenOutline>() as u64) {
        Some(bytes) => bytes,
        None => {
            return Err(overflow);
        },
    };
    let metadata: u64 = match node_bytes.checked_add(titles) {
        Some(bytes) => bytes,
        None => {
            return Err(overflow);
        },
    };
    limits.check_allocation(metadata)
}

/// The first of the entries to write, when there is one.
proof fn lemma_first_closing(
    before: Seq<Entry>,
    after: Seq<Entry>,
    root: PdfRef,
    levels: int,
    depth: int,
    done: Seq<Appended>,
    all: Seq<Appended>,
)
    requires
        0 <= depth < levels,
        done + closing_objects(before, after, root, levels, depth) == all,
    ensures
        ({
            let i = open_at(depths(before), (levels - 1) as nat);
            let object = Appended {
                reference: before[i].reference,
                body: item_pieces(item_of(after, root, i)),
            };
            &&& done.len() < all.len()
            &&& all[done.len() as int] == object
            &&& done == all.take(done.len() as int)
            &&& done.push(object) + closing_objects(before, after, root, levels - 1, depth) == all
        }),
{
    let i = open_at(depths(before), (levels - 1) as nat);
    let object = Appended {
        reference: before[i].reference,
        body: item_pieces(item_of(after, root, i)),
    };
    let rest = closing_objects(before, after, root, levels - 1, depth);
    assert(closing_objects(before, after, root, levels, depth) == seq![object] + rest);
    assert(all[done.len() as int] == (seq![object] + rest)[0]);
    assert(done =~= all.take(done.len() as int));
    assert(done.push(object) + rest =~= all);
}

impl<'a> PdfOutlineAppender<'a> {
    /// Write the entries that are complete once the next entry at `depth` is
    /// known, the deepest first.
    fn close_outlines_to(
        &mut self,
        depth: usize,
        next: Option<PdfRef>,
        Ghost(after): Ghost<Seq<Entry>>,
    ) -> (closed: Result<(), Error>)
        requires
            old(self).well_formed(),
            old(self).outline_sound(),
            depth <= old(self).outline.open@.len(),
            match next {
                Some(reference) => exists|added: Entry|
                    #![trigger old(self).outline.entries@.push(added)]
                    after == old(self).outline.entries@.push(added) && added.depth == depth
                        && added.reference == reference && well_nested(depths(after)),
                None => after == old(self).outline.entries@,
            },
        ensures
            ({
                let objects = closing_objects(
                    old(self).outline.entries@,
                    after,
                    old(self).outline.root_reference(),
                    old(self).outline.open@.len() as int,
                    depth as int,
                );
                match closed {
                    Ok(()) => {
                        &&& objects_accepted(old(self).writer.state(), objects)
                        &&& old(self).writer.with_objects(final(self).writer, objects)
                        &&& final(self).outline.holds_levels()
                        &&& final(self).outline.open@ == old(self).outline.open@.take(
                            depth as int,
                        )
                    },
                    Err(error) => {
                        &&& objects_refused(
                            old(self).writer.state(),
                            objects,
                            error,
                            old(self).writer.added(final(self).writer),
                        )
                        &&& old(self).writer.kept_by(final(self).writer)
                        &&& final(self).writer.poisoned
                        &&& final(self).well_formed()
                    },
                }
            }),
            final(self).outline.same_entries(old(self).outline),
            final(self).index == old(self).index,
            final(self).limits == old(self).limits,
            final(self).next_number == old(self).next_number,
            final(self).input_bytes_read == old(self).input_bytes_read,
    {
        let ghost before = *self;
        let ghost entries = self.outline.entries@;
        let ghost root = self.outline.root_reference();
        let ghost levels = self.outline.open@.len() as int;
        let ghost all = closing_objects(entries, after, root, levels, depth as int);
        let ghost mut done = Seq::<Appended>::empty();
        proof {
            lemma_no_objects(self.writer);
            assert(done + all =~= all);
            assert(before.outline.open@.take(levels) =~= before.outline.open@);
        }
        while self.outline.open.len() > depth
            invariant
                before == *old(self),
                before.well_formed(),
                before.outline_sound(),
                self.index == before.index,
                self.limits == before.limits,
                self.next_number == before.next_number,
                self.input_bytes_read == before.input_bytes_read,
                entries == before.outline.entries@,
                root == before.outline.root_reference(),
                levels == before.outline.open@.len(),
                depth <= self.outline.open@.len() <= levels,
                all == closing_objects(entries, after, root, levels, depth as int),
                self.outline.holds_levels(),
                self.outline.same_entries(before.outline),
                self.outline.open@ == before.outline.open@.take(self.outline.open@.len() as int),
                self.writer.well_formed(),
                before.writer.with_objects(self.writer, done),
                objects_accepted(before.writer.state(), done),
                done + closing_objects(
                    entries,
                    after,
                    root,
                    self.outline.open@.len() as int,
                    depth as int,
                ) == all,
                match next {
                    Some(reference) => exists|added: Entry|
                        #![trigger entries.push(added)]
                        after == entries.push(added) && added.depth == depth && added.reference
                            == reference && well_nested(depths(after)),
                    None => after == entries,
                },
            decreases self.outline.open@.len(),
        {
            let ghost levels_left = self.outline.open@.len() as int;
            let ghost held = self.outline.open@;
            let ghost i = open_at(depths(entries), (levels_left - 1) as nat);
            proof {
                lemma_levels_held(self.outline);
                lemma_first_closing(entries, after, root, levels_left, depth as int, done, all);
                lemma_closing_item(
                    entries,
                    after,
                    root,
                    (levels_left - 1) as nat,
                    depth as nat,
                    next,
                );
            }
            let sibling: Option<PdfRef> = if self.outline.open.len() - 1 == depth {
                next
            } else {
                None
            };
            let item = self.outline.close_top(sibling);
            assert(item@ == item_of(after, root, i));
            let ghost object = Appended {
                reference: entries[i].reference,
                body: item_pieces(item_of(after, root, i)),
            };
            let pieces = closed_pieces(&item);
            let ghost writer = self.writer;
            match self.writer.write_object(item.reference, &pieces) {
                Ok(()) => {
                    proof {
                        lemma_one_more_object(before.writer, writer, self.writer, done, object);
                        done = done.push(object);
                        assert(self.outline.open@ =~= before.outline.open@.take(levels_left - 1));
                    }
                },
                Err(error) => {
                    proof {
                        lemma_refused_after(
                            before.writer,
                            writer,
                            self.writer,
                            done,
                            all,
                            error,
                        );
                    }
                    self.writer.fail();
                    return Err(error);
                },
            }
        }
        assert(done =~= all);
        Ok(())
    }
}

impl<'a> PdfOutlineAppender<'a> {
    /// Reserve the number of a new object.
    fn reserve_new_object(&mut self) -> (reserved: Result<PdfRef, Error>)
        ensures
            match new_object(old(self).next_number, *old(self).index) {
                Ok(number) => {
                    &&& reserved == Ok::<PdfRef, Error>(PdfRef { number, generation: 0 })
                    &&& final(self).next_number == Some((number + 1) as u32)
                },
                Err(error) => {
                    &&& reserved == Err::<PdfRef, Error>(error)
                    &&& final(self).next_number == old(self).next_number
                },
            },
            final(self).writer == old(self).writer,
            final(self).index == old(self).index,
            final(self).limits == old(self).limits,
            final(self).outline == old(self).outline,
            final(self).input_bytes_read == old(self).input_bytes_read,
    {
        let number: u32 = match self.next_number {
            Some(number) => number,
            None => self.index.next_free_object_number?,
        };
        if number == 0 || number > MAX_PDF_OBJECTS {
            return Err(
                Error::LimitExceeded {
                    resource: "PDF object number",
                    limit: MAX_PDF_OBJECTS as u64,
                    attempted: number as u64,
                },
            );
        }
        self.next_number = Some(number + 1);
        Ok(PdfRef { number, generation: 0 })
    }

    /// Check a bookmark before anything is reserved or written.
    fn check_bookmark(&self, bookmark: &Bookmark, title_capacity: u64) -> (checked: Result<
        (),
        Error,
    >)
        requires
            self.well_formed(),
        ensures
            checked == outcome(self.bookmark_refusal(*bookmark, title_capacity)),
            checked is Ok ==> title_bytes(self.outline.open@, bookmark.depth as int)
                + title_capacity <= u64::MAX,
    {
        self.writer.ensure_healthy()?;
        proof {
            lemma_levels_held(self.outline);
        }
        if self.outline.count == u32::MAX {
            return Err(Error::InvalidInput { reason: "PDF bookmark count overflows" });
        }
        self.limits.check_bookmarks(self.outline.count + 1)?;
        if bookmark.page_index as usize >= self.index.pages.len() {
            return Err(
                Error::InvalidInput { reason: "bookmark page is outside the PDF page tree" },
            );
        }
        if bookmark.depth >= MAX_OUTLINE_DEPTH {
            return Err(
                Error::LimitExceeded {
                    resource: "PDF outline depth",
                    limit: MAX_OUTLINE_DEPTH as u64,
                    attempted: bookmark.depth as u64 + 1,
                },
            );
        }
        if bookmark.depth as usize > self.outline.open.len() {
            return Err(Error::InvalidInput { reason: "bookmark depth skips a parent" });
        }
        if bookmark.title.as_str().is_empty() {
            return Err(Error::InvalidInput { reason: "bookmark title is empty" });
        }
        check_outline_memory(
            &self.outline.open,
            bookmark.depth as usize,
            title_capacity,
            &self.limits,
        )
    }

    /// Make room for an entry below all open ones, if there is room for `room`.
    fn reserve_open_entry(&mut self, room: usize) -> (reserved: Result<(), Error>)
        requires
            old(self).well_formed(),
            old(self).outline_sound(),
            old(self).outline.open@.len() <= room,
        ensures
            final(self).well_formed(),
            final(self).outline_sound(),
            final(self).outline.open@ == old(self).outline.open@,
            final(self).outline.same_entries(old(self).outline),
            final(self).outline.retained_titles == old(self).outline.retained_titles,
            final(self).writer == old(self).writer,
            final(self).index == old(self).index,
            final(self).limits == old(self).limits,
            final(self).next_number == old(self).next_number,
            final(self).input_bytes_read == old(self).input_bytes_read,
            match stack_growth(old(self).outline.open@.len(), room as nat, old(self).limits) {
                Err(failure) => reserved == Err::<(), Error>(failure),
                Ok(None) => reserved is Ok,
                Ok(Some(target)) => reserved matches Err(error) ==> allocator_refused(
                    error,
                    "PDF bookmark stack allocation",
                    old(self).limits,
                    target * size_of::<OpenOutline>(),
                ),
            },
    {
        let planned = plan_stack_growth(self.outline.open.len(), room, &self.limits);
        if let Some((target, bytes)) = planned? {
            let refused = self.limits.allocation_refused("PDF bookmark stack allocation", bytes);
            let additional: usize = target - self.outline.open.len();
            let ghost before = self.outline;
            let granted = reserve_exact(&mut self.outline.open, additional, refused);
            proof {
                lemma_roomier(before, self.outline);
            }
            granted?;
        }
        Ok(())
    }

    /// Whether another state has the same output and the same entries.
    pub open spec fn same_document(self, other: Self) -> bool {
        &&& self.writer == other.writer
        &&& self.index == other.index
        &&& self.limits == other.limits
        &&& self.input_bytes_read == other.input_bytes_read
        &&& self.outline.open@ == other.outline.open@
        &&& self.outline.entries == other.outline.entries
        &&& self.outline.count == other.outline.count
        &&& self.outline.first == other.outline.first
        &&& self.outline.last == other.outline.last
    }

    /// The entry that a bookmark adds.
    pub open spec fn entry_of(self, bookmark: Bookmark, reference: PdfRef) -> Entry {
        Entry {
            depth: bookmark.depth as nat,
            reference,
            page: self.index.pages@[bookmark.page_index as int],
            title: bookmark.title@,
        }
    }

    /// The entries that are written when a bookmark arrives.
    pub open spec fn written_by(self, bookmark: Bookmark, root: PdfRef, reference: PdfRef) -> Seq<
        Appended,
    > {
        closing_objects(
            self.outline.entries@,
            self.outline.entries@.push(self.entry_of(bookmark, reference)),
            root,
            self.outline.open@.len() as int,
            bookmark.depth as int,
        )
    }

    /// Reserve the numbers of the outline root, if it has none, and of a new
    /// entry.
    fn reserve_numbers(&mut self) -> (reserved: Result<(PdfRef, PdfRef), Error>)
        requires
            old(self).well_formed(),
            old(self).outline_sound(),
        ensures
            reserved == old(self).new_numbers(),
            final(self).well_formed(),
            final(self).outline_sound(),
            final(self).same_document(*old(self)),
            reserved matches Ok((root, reference)) ==> {
                &&& final(self).outline.root == Some(root)
                &&& final(self).next_number == Some((reference.number + 1) as u32)
            },
    {
        let root = match self.outline.root {
            Some(root) => root,
            None => {
                let root = self.reserve_new_object()?;
                let ghost before = self.outline;
                self.outline.root = Some(root);
                proof {
                    lemma_rooted(before, self.outline);
                }
                root
            },
        };
        let reference = self.reserve_new_object()?;
        Ok((root, reference))
    }

    /// Write the entries that a checked bookmark completes, and add it.
    fn insert(
        &mut self,
        bookmark: Bookmark,
        root: PdfRef,
        reference: PdfRef,
        title_capacity: u64,
    ) -> (inserted: Result<(), Error>)
        requires
            old(self).well_formed(),
            old(self).outline_sound(),
            old(self).outline.root == Some(root),
            old(self).outline.count < u32::MAX,
            bookmark.depth <= old(self).outline.open@.len(),
            bookmark.depth < MAX_OUTLINE_DEPTH,
            bookmark.page_index < old(self).index.pages@.len(),
            title_bytes(old(self).outline.open@, bookmark.depth as int) + title_capacity
                <= u64::MAX,
        ensures
            ({
                let objects = old(self).written_by(bookmark, root, reference);
                match inserted {
                    Ok(()) => {
                        &&& final(self).well_formed()
                        &&& objects_accepted(old(self).writer.state(), objects)
                        &&& old(self).writer.with_objects(final(self).writer, objects)
                        &&& final(self).index == old(self).index
                        &&& final(self).limits == old(self).limits
                        &&& final(self).input_bytes_read == old(self).input_bytes_read
                        &&& final(self).next_number == old(self).next_number
                        &&& final(self).outline.root == Some(root)
                        &&& final(self).outline.entries@ == old(self).outline.entries@.push(
                            old(self).entry_of(bookmark, reference),
                        )
                        &&& final(self).outline.count == old(self).outline.count + 1
                        &&& final(self).outline.open@.len() == bookmark.depth + 1
                        &&& title_bytes(final(self).outline.open@, bookmark.depth + 1)
                            == title_bytes(old(self).outline.open@, bookmark.depth as int)
                            + title_capacity
                    },
                    Err(error) => {
                        &&& final(self).well_formed()
                        &&& final(self).index == old(self).index
                        &&& final(self).limits == old(self).limits
                        &&& final(self).input_bytes_read == old(self).input_bytes_read
                        &&& final(self).outline.same_entries(old(self).outline)
                        &&& final(self).writer.poisoned
                        &&& old(self).writer.kept_by(final(self).writer)
                        &&& objects_refused(
                            old(self).writer.state(),
                            objects,
                            error,
                            old(self).writer.added(final(self).writer),
                        )
                    },
                }
            }),
    {
        let depth: usize = bookmark.depth as usize;
        let page = self.index.pages[bookmark.page_index as usize];
        let ghost entry = self.entry_of(bookmark, reference);
        let ghost entries = self.outline.entries@;
        let ghost after = entries.push(entry);
        proof {
            lemma_levels_held(self.outline);
            crate::outline::lemma_nested_entry(entries, entry);
        }
        let ghost open = self.outline.open@;
        self.close_outlines_to(depth, Some(reference), Ghost(after))?;
        proof {
            lemma_levels_held(self.outline);
            crate::outline::lemma_title_bytes_take(open, depth as int);
        }
        self.outline.push(reference, page, bookmark.title, title_capacity);
        proof {
            lemma_levels_held(self.outline);
        }
        Ok(())
    }

    /// Whether another state is this one with a bookmark added, whose title is
    /// charged `title_capacity` bytes.
    pub open spec fn with_bookmark(
        self,
        other: Self,
        bookmark: Bookmark,
        title_capacity: u64,
    ) -> bool {
        self.new_numbers() matches Ok((root, reference)) && {
            let objects = self.written_by(bookmark, root, reference);
            &&& objects_accepted(self.writer.state(), objects)
            &&& self.writer.with_objects(other.writer, objects)
            &&& other.index == self.index
            &&& other.limits == self.limits
            &&& other.input_bytes_read == self.input_bytes_read
            &&& other.next_number == Some((reference.number + 1) as u32)
            &&& other.outline.root == Some(root)
            &&& other.outline.entries@ == self.outline.entries@.push(
                self.entry_of(bookmark, reference),
            )
            &&& other.outline.count == self.outline.count + 1
            &&& other.outline.open@.len() == bookmark.depth + 1
            &&& title_bytes(other.outline.open@, bookmark.depth + 1) == title_bytes(
                self.outline.open@,
                bookmark.depth as int,
            ) + title_capacity
        }
    }

    /// Whether another state is this one after a bookmark that was in order
    /// could not be added: either nothing has changed but reserved numbers, or
    /// the output has failed.
    pub open spec fn bookmark_refused(self, other: Self, bookmark: Bookmark, error: Error) -> bool {
        ||| other.same_document(self) && {
            ||| bookmark.depth == self.outline.open@.len() && stack_growth_failed(
                self.outline.open@.len(),
                self.limits,
                error,
            )
            ||| self.new_numbers() == Err::<(PdfRef, PdfRef), Error>(error)
        }
        ||| {
            &&& other.writer.poisoned
            &&& self.writer.kept_by(other.writer)
            &&& other.index == self.index
            &&& other.limits == self.limits
            &&& other.input_bytes_read == self.input_bytes_read
            &&& other.outline.entries == self.outline.entries
            &&& other.outline.count == self.outline.count
            &&& self.new_numbers() matches Ok((root, reference)) && objects_refused(
                self.writer.state(),
                self.written_by(bookmark, root, reference),
                error,
                self.writer.added(other.writer),
            )
        }
    }

    /// Accept one bookmark whose title takes `title_capacity` bytes.
    pub fn add_titled_bookmark(&mut self, bookmark: Bookmark, title_capacity: u64) -> (added:
        Result<(), Error>)
        requires
            old(self).well_formed(),
        ensures
            final(self).well_formed(),
            old(self).index.has_outlines ==> added is Ok && *final(self) == *old(self),
            added is Ok && !old(self).index.has_outlines ==> {
                let entries = final(self).outline.entries@;
                &&& bookmark.page_index < old(self).index.pages@.len()
                &&& entries.len() == old(self).outline.entries@.len() + 1
                &&& entries.drop_last() == old(self).outline.entries@
                &&& entries.last().page == old(self).index.pages@[bookmark.page_index as int]
                &&& entries.last().title == bookmark.title@
                &&& entries.last().depth == bookmark.depth
            },
            !old(self).index.has_outlines ==> match old(self).bookmark_refusal(
                bookmark,
                title_capacity,
            ) {
                Some(refusal) => added == Err::<(), Error>(refusal) && *final(self) == *old(self),
                None => match added {
                    Ok(()) => old(self).with_bookmark(
                            *final(self),
                            bookmark,
                            title_capacity,
                        ),
                    Err(error) => old(self).bookmark_refused(*final(self), bookmark, error),
                },
            },
    {
        if self.index.has_outlines {
            return Ok(());
        }
        self.check_bookmark(&bookmark, title_capacity)?;
        if bookmark.depth as usize == self.outline.open.len() {
            let room: usize = capacity(&self.outline.open);
            self.reserve_open_entry(room)?;
        }
        let (root, reference) = self.reserve_numbers()?;
        let inserted = self.insert(bookmark, root, reference, title_capacity);
        proof {
            if inserted is Ok {
                assert(self.outline.entries@.drop_last() =~= old(self).outline.entries@);
            }
        }
        inserted
    }

    /// Accept one bookmark in depth-first document order. How much memory its
    /// title takes is up to the allocator.
    pub fn add_bookmark(&mut self, bookmark: Bookmark) -> (added: Result<(), Error>)
        requires
            old(self).well_formed(),
        ensures
            final(self).well_formed(),
            old(self).index.has_outlines ==> added is Ok && *final(self) == *old(self),
            added is Ok && !old(self).index.has_outlines ==> {
                let entries = final(self).outline.entries@;
                &&& bookmark.page_index < old(self).index.pages@.len()
                &&& entries.len() == old(self).outline.entries@.len() + 1
                &&& entries.drop_last() == old(self).outline.entries@
                &&& entries.last().page == old(self).index.pages@[bookmark.page_index as int]
                &&& entries.last().title == bookmark.title@
                &&& entries.last().depth == bookmark.depth
            },
            !old(self).index.has_outlines ==> exists|title_capacity: u64|
                #![trigger old(self).bookmark_refusal(bookmark, title_capacity)]
                title_capacity >= bookmark.title@.len() && match old(self).bookmark_refusal(
                    bookmark,
                    title_capacity,
                ) {
                    Some(refusal) => added == Err::<(), Error>(refusal) && *final(self) == *old(
                        self,
                    ),
                    None => match added {
                        Ok(()) => old(self).with_bookmark(
                            *final(self),
                            bookmark,
                            title_capacity,
                        ),
                        Err(error) => old(self).bookmark_refused(*final(self), bookmark, error),
                    },
                },
    {
        let title_capacity: u64 = string_capacity(&bookmark.title) as u64;
        assert(old(self).bookmark_refusal(bookmark, title_capacity) == old(self).bookmark_refusal(
            bookmark,
            title_capacity,
        ));
        self.add_titled_bookmark(bookmark, title_capacity)
    }
}

/// The outline root.
#[verifier::opaque]
pub open spec fn root_pieces(first: PdfRef, last: PdfRef, count: nat) -> Seq<Seq<u8>> {
    seq![
        spelled("<< /Type /Outlines /First ") + pdf_ref_text(first) + spelled(" /Last ")
            + pdf_ref_text(last) + spelled(" /Count ") + decimal(count) + spelled(" >>"),
    ]
}

/// The catalog entries from entry `from` on, but for the outlines.
pub open spec fn kept_entries(entries: Seq<CatalogEntry>, from: int) -> Seq<Seq<u8>>
    decreases entries.len() - from,
{
    if from >= entries.len() {
        Seq::empty()
    } else if entries[from].name@ == spelled("Outlines") {
        kept_entries(entries, from + 1)
    } else {
        seq![spelled(" "), entries[from].raw_pair@] + kept_entries(entries, from + 1)
    }
}

/// The catalog with its outlines replaced.
#[verifier::opaque]
pub open spec fn catalog_pieces(entries: Seq<CatalogEntry>, outline_root: PdfRef) -> Seq<Seq<u8>> {
    seq![spelled("<<")] + kept_entries(entries, 0) + seq![
        spelled(" /Outlines ") + pdf_ref_text(outline_root) + spelled(" >>"),
    ]
}

/// The objects that repair the document.
pub open spec fn repairs(objects: Seq<RepairObject>) -> Seq<Appended> {
    Seq::new(
        objects.len(),
        |i: int| Appended { reference: objects[i].reference, body: seq![objects[i].body@] },
    )
}

impl<'a> PdfOutlineAppender<'a> {
    /// The entries that are still open, as they are written at the end.
    pub open spec fn closing(self) -> Seq<Appended> {
        closing_objects(
            self.outline.entries@,
            self.outline.entries@,
            self.outline.root_reference(),
            self.outline.open@.len() as int,
            0,
        )
    }

    /// How many objects are written at the end before the repairs.
    pub open spec fn repairs_start(self) -> int {
        self.closing().len() + if self.outline.root is Some {
            1int
        } else {
            0
        }
    }

    /// The objects that are written at the end.
    pub open spec fn last_objects(self) -> Seq<Appended> {
        let entries = self.outline.entries@;
        let root = self.outline.root_reference();
        let closing = self.closing();
        if self.outline.root is Some {
            closing.push(
                Appended {
                    reference: root,
                    body: root_pieces(
                        link(entries, first_root(depths(entries)))->0,
                        link(entries, last_root(depths(entries)))->0,
                        entries.len(),
                    ),
                },
            ) + repairs(self.index.repair_objects@) + seq![
                Appended {
                    reference: self.index.catalog,
                    body: catalog_pieces(self.index.catalog_entries@, root),
                },
            ]
        } else {
            closing + repairs(self.index.repair_objects@)
        }
    }
}

/// The outline root as pieces.
fn outline_root_pieces(first: PdfRef, last: PdfRef, count: u32) -> (pieces: Vec<Vec<u8>>)
    ensures
        views(pieces@) == root_pieces(first, last, count as nat),
{
    proof {
        reveal(root_pieces);
    }
    let mut text: Vec<u8> = Vec::new();
    push_text(&mut text, "<< /Type /Outlines /First ");
    pdf_ref(&mut text, first);
    push_text(&mut text, " /Last ");
    pdf_ref(&mut text, last);
    push_text(&mut text, " /Count ");
    push_decimal(&mut text, count as u64);
    push_text(&mut text, " >>");
    assert(text@ =~= root_pieces(first, last, count as nat)[0]);
    let mut pieces: Vec<Vec<u8>> = Vec::new();
    pieces.push(text);
    assert(views(pieces@) =~= root_pieces(first, last, count as nat));
    pieces
}

/// A piece with a copy of some bytes.
fn piece_of(bytes: &[u8]) -> (piece: Vec<u8>)
    ensures
        piece@ == bytes@,
{
    let mut piece: Vec<u8> = Vec::new();
    push_bytes(&mut piece, bytes);
    assert(piece@ =~= bytes@);
    piece
}

/// Whether two byte sequences are equal.
fn same_bytes(left: &[u8], right: &[u8]) -> (same: bool)
    ensures
        same == (left@ == right@),
{
    if left.len() != right.len() {
        return false;
    }
    let mut next: usize = 0;
    while next < left.len()
        invariant
            next <= left@.len() == right@.len(),
            forall|i: int| 0 <= i < next ==> #[trigger] left@[i] == right@[i],
        decreases left@.len() - next,
    {
        if left[next] != right[next] {
            return false;
        }
        next += 1;
    }
    assert(left@ =~= right@);
    true
}

/// The catalog with its outlines replaced, as pieces.
fn updated_catalog(entries: &Vec<CatalogEntry>, outline_root: PdfRef) -> (pieces: Vec<Vec<u8>>)
    ensures
        views(pieces@) == catalog_pieces(entries@, outline_root),
{
    proof {
        reveal(catalog_pieces);
    }
    let mut pieces: Vec<Vec<u8>> = Vec::new();
    pieces.push(piece_of("<<".as_bytes()));
    let ghost start = seq![spelled("<<")];
    assert(views(pieces@) =~= start);
    let mut next: usize = 0;
    while next < entries.len()
        invariant
            next <= entries@.len(),
            views(pieces@) + kept_entries(entries@, next as int) == start + kept_entries(
                entries@,
                0,
            ),
        decreases entries@.len() - next,
    {
        let entry = &entries[next];
        let ghost before = views(pieces@);
        if !same_bytes(&entry.name, "Outlines".as_bytes()) {
            pieces.push(piece_of(" ".as_bytes()));
            pieces.push(piece_of(&entry.raw_pair));
            assert(views(pieces@) =~= before + seq![spelled(" "), entry.raw_pair@]);
            assert(before + kept_entries(entries@, next as int) =~= views(pieces@) + kept_entries(
                entries@,
                next + 1,
            ));
        }
        next += 1;
    }
    assert(views(pieces@) + kept_entries(entries@, next as int) =~= views(pieces@));
    let ghost kept = views(pieces@);
    let mut end: Vec<u8> = Vec::new();
    push_text(&mut end, " /Outlines ");
    pdf_ref(&mut end, outline_root);
    push_text(&mut end, " >>");
    assert(end@ =~= spelled(" /Outlines ") + pdf_ref_text(outline_root) + spelled(" >>"));
    pieces.push(end);
    assert(views(pieces@) =~= kept + seq![
        spelled(" /Outlines ") + pdf_ref_text(outline_root) + spelled(" >>"),
    ]);
    pieces
}

impl AppendWriter {
    /// Write the next of some objects.
    fn append_next(
        &mut self,
        reference: PdfRef,
        body: &Vec<Vec<u8>>,
        Ghost(first): Ghost<AppendWriter>,
        Ghost(all): Ghost<Seq<Appended>>,
        Ghost(k): Ghost<int>,
    ) -> (wrote: Result<(), Error>)
        requires
            first.well_formed(),
            0 <= k < all.len(),
            first.with_objects(*old(self), all.take(k)),
            objects_accepted(first.state(), all.take(k)),
            all[k] == (Appended { reference, body: views(body@) }),
        ensures
            match wrote {
                Ok(()) => {
                    &&& first.with_objects(*final(self), all.take(k + 1))
                    &&& objects_accepted(first.state(), all.take(k + 1))
                },
                Err(error) => {
                    &&& objects_refused(first.state(), all, error, first.added(*final(self)))
                    &&& first.kept_by(*final(self))
                },
            },
    {
        let ghost before = *self;
        let wrote = self.write_object(reference, body);
        proof {
            let done = all.take(k);
            match wrote {
                Ok(()) => {
                    lemma_one_more_object(first, before, *self, done, all[k]);
                    assert(all.take(k + 1) =~= done.push(all[k]));
                },
                Err(error) => {
                    lemma_refused_after(first, before, *self, done, all, error);
                },
            }
        }
        wrote
    }
}

/// A refusal among the first objects refuses them all.
proof fn lemma_refused_among_first(
    state: crate::append::writer::WriterState,
    first: Seq<Appended>,
    second: Seq<Appended>,
    error: Error,
    written: Seq<u8>,
)
    requires
        objects_refused(state, first, error, written),
    ensures
        objects_refused(state, first + second, error, written),
{
    reveal(objects_refused);
    let all = first + second;
    let k = choose|k: int|
        #![trigger first[k]]
        0 <= k < first.len() && refused_at(state, first, k, error, written);
    assert(all[k] == first[k]);
    assert(all.take(k) =~= first.take(k));
}

impl<'a> PdfOutlineAppender<'a> {
    /// Why the outline has no complete root.
    pub open spec fn root_refusal(self) -> Option<Error> {
        if self.outline.root is Some && self.outline.entries@.len() == 0 {
            Some(Error::InvalidInput { reason: "PDF outline root has no first item" })
        } else {
            None
        }
    }

    /// Whether the outline has no complete root, and nothing has been written.
    pub open spec fn root_refused(self, other: Self, error: Error) -> bool {
        self.root_refusal() == Some(error) && other.writer.written@ == self.writer.written@
    }

    /// Write the entries that are still open, and the outline root.
    #[verifier::rlimit(40)]
    fn write_outline_end(&mut self, Ghost(all): Ghost<Seq<Appended>>) -> (wrote: Result<(), Error>)
        requires
            old(self).well_formed(),
            old(self).outline_sound(),
            all == old(self).last_objects(),
        ensures
            final(self).index == old(self).index,
            final(self).limits == old(self).limits,
            final(self).input_bytes_read == old(self).input_bytes_read,
            match wrote {
                Ok(()) => {
                    &&& old(self).root_refusal() is None
                    &&& objects_accepted(
                        old(self).writer.state(),
                        all.take(old(self).repairs_start()),
                    )
                    &&& old(self).writer.with_objects(
                        final(self).writer,
                        all.take(old(self).repairs_start()),
                    )
                    &&& final(self).outline.same_entries(old(self).outline)
                },
                Err(error) => {
                    &&& old(self).writer.kept_by(final(self).writer)
                    &&& final(self).outline.count == old(self).outline.count
                    &&& old(self).root_refused(*final(self), error) || objects_refused(
                        old(self).writer.state(),
                        all,
                        error,
                        old(self).writer.added(final(self).writer),
                    )
                },
            },
    {
        let ghost start = *self;
        let ghost entries = self.outline.entries@;
        let ghost closing = self.closing();
        let ghost rest = all.skip(closing.len() as int);
        proof {
            lemma_last_objects(*self);
            assert(all =~= closing + rest);
        }
        match self.close_outlines_to(0, None, Ghost(entries)) {
            Ok(()) => {},
            Err(error) => {
                proof {
                    lemma_refused_among_first(
                        start.writer.state(),
                        closing,
                        rest,
                        error,
                        start.writer.added(self.writer),
                    );
                }
                return Err(error);
            },
        }
        proof {
            lemma_levels_held(self.outline);
        }
        if let Some(root) = self.outline.root {
            let (first, last) = match (self.outline.first, self.outline.last) {
                (Some(first), Some(last)) => (first, last),
                _ => {
                    proof {
                        lemma_extension_kept(start.writer, self.writer, appended_text(closing));
                        lemma_levels_held(start.outline);
                        assert(closing =~= Seq::<Appended>::empty());
                        assert(self.writer.written@ =~= start.writer.written@);
                    }
                    return Err(
                        Error::InvalidInput { reason: "PDF outline root has no first item" },
                    );
                },
            };
            let pieces = outline_root_pieces(first, last, self.outline.count);
            self.writer.append_next(
                root,
                &pieces,
                Ghost(start.writer),
                Ghost(all),
                Ghost(closing.len() as int),
            )?;
        }
        Ok(())
    }

    /// Write the objects that repair the document.
    fn write_repairs(
        &mut self,
        Ghost(first): Ghost<AppendWriter>,
        Ghost(all): Ghost<Seq<Appended>>,
        Ghost(from): Ghost<int>,
    ) -> (wrote: Result<(), Error>)
        requires
            first.well_formed(),
            0 <= from,
            from + old(self).index.repair_objects@.len() <= all.len(),
            forall|i: int|
                #![trigger all[from + i]]
                0 <= i < old(self).index.repair_objects@.len() ==> all[from + i] == repairs(
                    old(self).index.repair_objects@,
                )[i],
            first.with_objects(old(self).writer, all.take(from)),
            objects_accepted(first.state(), all.take(from)),
        ensures
            final(self).index == old(self).index,
            final(self).limits == old(self).limits,
            final(self).input_bytes_read == old(self).input_bytes_read,
            final(self).outline == old(self).outline,
            ({
                let upto = from + old(self).index.repair_objects@.len();
                match wrote {
                    Ok(()) => {
                        &&& first.with_objects(final(self).writer, all.take(upto))
                        &&& objects_accepted(first.state(), all.take(upto))
                    },
                    Err(error) => {
                        &&& objects_refused(
                            first.state(),
                            all,
                            error,
                            first.added(final(self).writer),
                        )
                        &&& first.kept_by(final(self).writer)
                    },
                }
            }),
    {
        let mut next: usize = 0;
        while next < self.index.repair_objects.len()
            invariant
                next <= self.index.repair_objects@.len(),
                first.well_formed(),
                0 <= from,
                from + self.index.repair_objects@.len() <= all.len(),
                self.index == old(self).index,
                self.limits == old(self).limits,
                self.input_bytes_read == old(self).input_bytes_read,
                self.outline == old(self).outline,
                forall|i: int|
                    #![trigger all[from + i]]
                    0 <= i < self.index.repair_objects@.len() ==> all[from + i] == repairs(
                        self.index.repair_objects@,
                    )[i],
                first.with_objects(self.writer, all.take(from + next)),
                objects_accepted(first.state(), all.take(from + next)),
            decreases self.index.repair_objects@.len() - next,
        {
            let repair = &self.index.repair_objects[next];
            let mut pieces: Vec<Vec<u8>> = Vec::new();
            pieces.push(piece_of(&repair.body));
            assert(views(pieces@) =~= seq![repair.body@]);
            assert(all[from + next] == repairs(self.index.repair_objects@)[next as int]);
            let reference = repair.reference;
            self.writer.append_next(
                reference,
                &pieces,
                Ghost(first),
                Ghost(all),
                Ghost(from + next),
            )?;
            next += 1;
        }
        Ok(())
    }

    /// Write every remaining object.
    fn write_last_objects(&mut self) -> (wrote: Result<(), Error>)
        requires
            old(self).well_formed(),
            old(self).outline_sound(),
        ensures
            final(self).index == old(self).index,
            final(self).limits == old(self).limits,
            final(self).input_bytes_read == old(self).input_bytes_read,
            final(self).outline.count == old(self).outline.count,
            match wrote {
                Ok(()) => {
                    &&& old(self).root_refusal() is None
                    &&& objects_accepted(old(self).writer.state(), old(self).last_objects())
                    &&& old(self).writer.with_objects(
                        final(self).writer,
                        old(self).last_objects(),
                    )
                },
                Err(error) => {
                    &&& old(self).writer.kept_by(final(self).writer)
                    &&& old(self).root_refused(*final(self), error) || objects_refused(
                        old(self).writer.state(),
                        old(self).last_objects(),
                        error,
                        old(self).writer.added(final(self).writer),
                    )
                },
            },
    {
        let ghost start = *self;
        let ghost all = self.last_objects();
        let ghost from = self.repairs_start();
        proof {
            lemma_last_objects(*self);
        }
        self.write_outline_end(Ghost(all))?;
        self.write_repairs(Ghost(start.writer), Ghost(all), Ghost(from))?;
        if let Some(root) = self.outline.root {
            let pieces = updated_catalog(&self.index.catalog_entries, root);
            self.writer.append_next(
                self.index.catalog,
                &pieces,
                Ghost(start.writer),
                Ghost(all),
                Ghost(from + self.index.repair_objects@.len()),
            )?;
        }
        assert(all.take(all.len() as int) =~= all);
        Ok(())
    }
}

/// Where the parts of the last objects stand.
proof fn lemma_last_objects(appender: PdfOutlineAppender)
    ensures
        ({
            let all = appender.last_objects();
            let closing = appender.closing();
            let repaired = repairs(appender.index.repair_objects@);
            let from = appender.repairs_start();
            let entries = appender.outline.entries@;
            let root = appender.outline.root_reference();
            &&& all.take(closing.len() as int) == closing
            &&& closing.len() <= from
            &&& from + repaired.len() <= all.len()
            &&& forall|i: int|
                #![trigger all[from + i]]
                0 <= i < repaired.len() ==> all[from + i] == repaired[i]
            &&& appender.outline.root is None ==> from == closing.len() && all.len() == from
                + repaired.len()
            &&& appender.outline.root is Some ==> {
                &&& from == closing.len() + 1
                &&& all.len() == from + repaired.len() + 1
                &&& all[closing.len() as int] == (Appended {
                    reference: root,
                    body: root_pieces(
                        link(entries, first_root(depths(entries)))->0,
                        link(entries, last_root(depths(entries)))->0,
                        entries.len(),
                    ),
                })
                &&& all[from + repaired.len()] == (Appended {
                    reference: appender.index.catalog,
                    body: catalog_pieces(appender.index.catalog_entries@, root),
                })
            }
        }),
{
    let all = appender.last_objects();
    let closing = appender.closing();
    assert(all.take(closing.len() as int) =~= closing);
}

/// More output keeps what was written.
proof fn lemma_extension_kept(first: AppendWriter, second: AppendWriter, bytes: Seq<u8>)
    requires
        first.extended_by(second, bytes),
        first.limits == second.limits,
        first.poisoned ==> second.poisoned,
    ensures
        first.kept_by(second),
{
    assert(first.written@ =~= second.written@.take(first.written@.len() as int));
}

impl<'a> PdfOutlineAppender<'a> {
    /// Whether a later state is this one with its last objects and, if the
    /// revision has any object, its xref update.
    pub open spec fn completed_by(self, other: Self) -> bool {
        let objects = self.last_objects();
        let text = appended_text(objects);
        let listed = self.writer.entries@ + appended_entries(
            objects,
            self.writer.position as int,
        );
        let hash = hash_of(self.writer.update_hash, text);
        let position = (self.writer.position + text.len()) as u64;
        &&& other.writer.well_formed()
        &&& if listed.len() == 0 {
            other.writer.written@ == self.writer.written@ + text
        } else {
            exists|entries: Seq<XrefEntry>|
                #![trigger crate::append::update::update_text(hash, position, *self.index, entries)]
                reordered(listed, entries) && in_order(entries) && other.writer.written@
                    == self.writer.written@ + text + crate::append::update::update_text(
                    hash,
                    position,
                    *self.index,
                    entries,
                )
        }
    }

    /// Whether the output is complete as it is: no object has been appended, and
    /// none is left to append.
    pub open spec fn nothing_to_append(self) -> bool {
        &&& !self.writer.poisoned
        &&& !self.writer.open
        &&& self.writer.entries@.len() == 0
        &&& self.last_objects().len() == 0
        &&& self.root_refusal() is None
    }

    /// Write any repair and outline update. The output is complete once it has
    /// been taken and flushed.
    pub fn finish(&mut self) -> (finished: Result<(), Error>)
        requires
            old(self).well_formed(),
        ensures
            final(self).index == old(self).index,
            final(self).limits == old(self).limits,
            final(self).input_bytes_read == old(self).input_bytes_read,
            old(self).writer.kept_by(final(self).writer),
            old(self).nothing_to_append() ==> finished is Ok && final(self).writer.written@ == old(
                self,
            ).writer.written@,
            match finished {
                Ok(()) => {
                    &&& !old(self).writer.poisoned
                    &&& old(self).root_refusal() is None
                    &&& objects_accepted(old(self).writer.state(), old(self).last_objects())
                    &&& old(self).completed_by(*final(self))
                    &&& final(self).outline.count == old(self).outline.count
                    &&& !final(self).writer.poisoned
                    &&& !final(self).writer.open
                },
                Err(error) => if old(self).writer.poisoned {
                    error == output_failed() && *final(self) == *old(self)
                } else {
                    ||| old(self).root_refused(*final(self), error)
                    ||| objects_refused(
                        old(self).writer.state(),
                        old(self).last_objects(),
                        error,
                        old(self).writer.added(final(self).writer),
                    )
                    ||| objects_accepted(old(self).writer.state(), old(self).last_objects())
                        && old(self).completion_refused(*final(self), error)
                },
            },
    {
        self.writer.ensure_healthy()?;
        let ghost start = *self;
        let ghost text = appended_text(self.last_objects());
        proof {
            if start.nothing_to_append() {
                reveal(objects_refused);
                assert(start.last_objects() =~= Seq::<Appended>::empty());
            }
        }
        self.write_last_objects()?;
        proof {
            lemma_extension_kept(start.writer, self.writer, text);
        }
        let ghost middle = self.writer;
        if self.writer.entries.len() == 0 {
            if self.writer.open {
                return Err(Error::InvalidInput { reason: "PDF append object remains open" });
            }
            return Ok(());
        }
        let updated = self.writer.finish_update(self.index);
        proof {
            lemma_completed(start, *self, middle, updated);
            match updated {
                Ok(()) => {
                    let entries = choose|entries: Seq<XrefEntry>|
                        #![trigger middle.update_of(*start.index, entries)]
                        reordered(middle.entries@, entries) && in_order(entries)
                            && middle.update_failure(*start.index, entries) is None
                            && middle.extended_by(
                            self.writer,
                            middle.update_of(*start.index, entries),
                        );
                    lemma_extension_kept(
                        middle,
                        self.writer,
                        middle.update_of(*start.index, entries),
                    );
                },
                Err(_) => {},
            }
            lemma_kept_on(start.writer, middle, self.writer);
        }
        updated
    }

    /// Whether an error refuses to complete the output after the last objects:
    /// where the update cannot begin nothing more has been written, and else
    /// what precedes the piece that is refused.
    pub open spec fn completion_refused(self, other: Self, error: Error) -> bool {
        exists|middle: AppendWriter|
            #![trigger self.writer.with_objects(middle, self.last_objects())]
            self.writer.with_objects(middle, self.last_objects()) && {
                ||| {
                    &&& middle.open
                    &&& error == (Error::InvalidInput { reason: "PDF append object remains open" })
                    &&& other.writer.written@ == middle.written@
                }
                ||| middle.entries@.len() > 0 && middle.update_refused(
                    other.writer,
                    *self.index,
                    error,
                )
            }
    }

    /// Whether the output may be flushed as complete.
    pub fn ready_to_flush(&self, cancelled: bool) -> (ready: Result<(), Error>)
        ensures
            ready == outcome(
                if self.writer.open {
                    Some(Error::InvalidInput { reason: "PDF append object remains open" })
                } else if self.writer.poisoned {
                    Some(output_failed())
                } else if cancelled {
                    Some(Error::Cancelled)
                } else {
                    None
                },
            ),
    {
        self.writer.finish_copy(cancelled)
    }

    /// Report success, once everything is written and flushed, unless the
    /// conversion has been cancelled.
    pub fn report(&self, cancelled: bool) -> (report: Result<ConversionReport, Error>)
        requires
            self.writer.well_formed(),
        ensures
            report == (if cancelled {
                Err::<ConversionReport, Error>(Error::Cancelled)
            } else if self.index.pages@.len() > u32::MAX {
                Err(Error::InvalidInput { reason: "PDF page count exceeds 32 bits" })
            } else {
                Ok(
                    ConversionReport {
                        input_bytes_read: self.input_bytes_read,
                        output_bytes_written: self.writer.written@.len() as u64,
                        pages_converted: self.index.pages@.len() as u32,
                        bookmarks_written: self.outline.count,
                    },
                )
            }),
    {
        if cancelled {
            return Err(Error::Cancelled);
        }
        if self.index.pages.len() as u64 > u32::MAX as u64 {
            return Err(Error::InvalidInput { reason: "PDF page count exceeds 32 bits" });
        }
        Ok(
            ConversionReport {
                input_bytes_read: self.input_bytes_read,
                output_bytes_written: self.writer.position,
                pages_converted: self.index.pages.len() as u32,
                bookmarks_written: self.outline.count,
            },
        )
    }
}

proof fn lemma_kept_on(first: AppendWriter, second: AppendWriter, third: AppendWriter)
    requires
        first.kept_by(second),
        second.kept_by(third),
    ensures
        first.kept_by(third),
{
    assert(first.written@ =~= third.written@.take(first.written@.len() as int)) by {
        assert(second.written@ =~= third.written@.take(second.written@.len() as int));
        assert(first.written@ =~= second.written@.take(first.written@.len() as int));
    }
}

/// An update of the last objects completes the output.
proof fn lemma_completed(
    start: PdfOutlineAppender,
    end: PdfOutlineAppender,
    middle: AppendWriter,
    updated: Result<(), Error>,
)
    requires
        start.writer.well_formed(),
        start.writer.with_objects(middle, start.last_objects()),
        middle.entries@.len() > 0,
        updated is Ok ==> end.writer.well_formed() && exists|entries: Seq<XrefEntry>|
            #![trigger middle.update_of(*start.index, entries)]
            reordered(middle.entries@, entries) && in_order(entries) && middle.extended_by(
                end.writer,
                middle.update_of(*start.index, entries),
            ),
        updated matches Err(error) ==> middle.update_refused(end.writer, *start.index, error),
    ensures
        updated is Ok ==> start.completed_by(end),
        updated matches Err(error) ==> start.completion_refused(end, error),
{
    let objects = start.last_objects();
    let text = appended_text(objects);
    let hash = hash_of(start.writer.update_hash, text);
    let position = (start.writer.position + text.len()) as u64;
    match updated {
        Ok(()) => {
            let entries = choose|entries: Seq<XrefEntry>|
                #![trigger middle.update_of(*start.index, entries)]
                reordered(middle.entries@, entries) && in_order(entries) && middle.extended_by(
                    end.writer,
                    middle.update_of(*start.index, entries),
                );
            assert(middle.update_of(*start.index, entries) == crate::append::update::update_text(
                hash,
                position,
                *start.index,
                entries,
            ));
        },
        Err(error) => {
            assert(start.writer.with_objects(middle, start.last_objects()));
        },
    }
}

/// A PDF that needs no repair and gains no bookmark is complete as copied.
pub proof fn law_nothing_is_appended_to_a_clean_pdf(
    appender: PdfOutlineAppender,
    finished: PdfOutlineAppender,
)
    requires
        appender.completed_by(finished),
        appender.outline.root is None,
        appender.outline.open@.len() == 0,
        appender.index.repair_objects@.len() == 0,
        appender.writer.entries@.len() == 0,
    ensures
        finished.writer.written@ == appender.writer.written@,
{
    let objects = appender.last_objects();
    assert(objects =~= Seq::<Appended>::empty());
    assert(appended_text(objects) =~= Seq::<u8>::empty());
    assert(appended_entries(objects, appender.writer.position as int) =~= Seq::<
        XrefEntry,
    >::empty());
    assert(appender.writer.written@ + appended_text(objects) =~= appender.writer.written@);
}

/// A copy that needs no repair and has gained no bookmark is complete: there is
/// nothing to append.
pub proof fn law_clean_copy_is_complete(appender: PdfOutlineAppender)
    requires
        appender.well_formed(),
        !appender.writer.poisoned,
        !appender.writer.open,
        appender.writer.entries@.len() == 0,
        appender.outline.root is None,
        appender.index.repair_objects@.len() == 0,
    ensures
        appender.nothing_to_append(),
{
    lemma_levels_held(appender.outline);
    assert(appender.last_objects() =~= Seq::<Appended>::empty());
}

/// What completes an output only adds to it, so a copied PDF stays as it was
/// copied.
pub proof fn law_update_keeps_the_copy(appender: PdfOutlineAppender, finished: PdfOutlineAppender)
    requires
        appender.completed_by(finished),
    ensures
        appender.writer.written@.is_prefix_of(finished.writer.written@),
{
    let before = appender.writer.written@;
    let after = finished.writer.written@;
    assert(before =~= after.take(before.len() as int));
}

/// An accepted bookmark is entered as it was given: it opens the page of the
/// inspected PDF that has its index, under its title, at its depth, after the
/// entries before it. Its object is numbered next, and the outline root, where
/// there was none, just before it, from the first free number of the PDF on.
pub proof fn law_bookmarks_are_entered_as_given(
    before: PdfOutlineAppender,
    after: PdfOutlineAppender,
    bookmark: Bookmark,
    title_capacity: u64,
)
    requires
        before.with_bookmark(after, bookmark, title_capacity),
        before.next_number matches Some(n) ==> n < u32::MAX,
        bookmark.page_index < before.index.pages@.len(),
    ensures
        ({
            let entries = after.outline.entries@;
            let added = entries.last();
            let number = added.reference.number;
            &&& entries.drop_last() == before.outline.entries@
            &&& added.page == before.index.pages@[bookmark.page_index as int]
            &&& added.title == bookmark.title@
            &&& added.depth == bookmark.depth
            &&& added.reference.generation == 0
            &&& after.next_number == Some((number + 1) as u32)
            &&& 0 < number <= 8_388_607
            &&& match before.outline.root {
                Some(root) => {
                    &&& after.outline.root == Some(root)
                    &&& before.next_number matches Some(n) ==> number == n
                    &&& before.next_number is None ==> before.index.next_free_object_number == Ok::<
                        u32,
                        Error,
                    >(number)
                },
                None => after.outline.root matches Some(root) && {
                    &&& root.generation == 0
                    &&& number == root.number + 1
                    &&& before.next_number matches Some(n) ==> root.number == n
                    &&& before.next_number is None ==> before.index.next_free_object_number == Ok::<
                        u32,
                        Error,
                    >(root.number)
                },
            }
        }),
{
    assert(after.outline.entries@.drop_last() =~= before.outline.entries@);
}

/// A bookmark is accepted for addition exactly where the PDF has its page, its
/// title is not empty, its depth is at most one below the last entry's and below
/// the cap, and neither the bookmarks nor the memory pass the limits.
pub proof fn law_bookmarks_are_refused_for_cause(
    appender: PdfOutlineAppender,
    bookmark: Bookmark,
    title_capacity: u64,
)
    requires
        appender.well_formed(),
    ensures
        ({
            let entries = appender.outline.entries@;
            let deepest: int = if entries.len() == 0 {
                0
            } else {
                entries.last().depth as int + 1
            };
            let held = title_bytes(appender.outline.open@, bookmark.depth as int) + title_capacity
                + (bookmark.depth + 1) * size_of::<OpenOutline>();
            appender.bookmark_refusal(bookmark, title_capacity) is None <==> {
                &&& !appender.writer.poisoned
                &&& entries.len() + 1 <= appender.limits.max_bookmarks
                &&& bookmark.page_index < appender.index.pages@.len()
                &&& bookmark.depth < 256
                &&& bookmark.depth <= deepest
                &&& bookmark.title@.len() > 0
                &&& held <= appender.limits.max_allocation_bytes
            }
        }),
{
    if !appender.writer.poisoned {
        lemma_levels_held(appender.outline);
        let order = depths(appender.outline.entries@);
        if order.len() > 0 {
            assert(order.last() == appender.outline.entries@.last().depth);
        }
        if bookmark.depth <= appender.outline.open@.len() {
            lemma_titles_held(appender.outline.open@, bookmark.depth as int);
        }
    }
}

/// A refused bookmark says why: the output has failed, it is one too many, the PDF
/// has no such page, it lies too deep or skips a level, or it has no title.
pub proof fn law_refused_bookmarks_say_why(
    appender: PdfOutlineAppender,
    bookmark: Bookmark,
    title_capacity: u64,
)
    requires
        appender.well_formed(),
    ensures
        ({
            let refusal = appender.bookmark_refusal(bookmark, title_capacity);
            let entries = appender.outline.entries@;
            let healthy = !appender.writer.poisoned && entries.len() < u32::MAX;
            let allowed = healthy && entries.len() + 1 <= appender.limits.max_bookmarks;
            let placed = allowed && bookmark.page_index < appender.index.pages@.len();
            let deepest: int = if entries.len() == 0 {
                0
            } else {
                entries.last().depth as int + 1
            };
            let nested = placed && bookmark.depth < 256 && bookmark.depth <= deepest;
            &&& appender.writer.poisoned ==> refusal == Some(
                Error::InvalidInput { reason: "PDF append writer cannot continue after an output failure" },
            )
            &&& healthy && !allowed ==> refusal == Some(
                Error::LimitExceeded {
                    resource: "bookmarks",
                    limit: appender.limits.max_bookmarks as u64,
                    attempted: (entries.len() + 1) as u64,
                },
            )
            &&& allowed && !placed ==> refusal == Some(
                Error::InvalidInput { reason: "bookmark page is outside the PDF page tree" },
            )
            &&& placed && bookmark.depth >= 256 ==> refusal == Some(
                Error::LimitExceeded {
                    resource: "PDF outline depth",
                    limit: 256,
                    attempted: (bookmark.depth + 1) as u64,
                },
            )
            &&& placed && bookmark.depth < 256 && bookmark.depth > deepest ==> refusal == Some(
                Error::InvalidInput { reason: "bookmark depth skips a parent" },
            )
            &&& nested && bookmark.title@.len() == 0 ==> refusal == Some(
                Error::InvalidInput { reason: "bookmark title is empty" },
            )
        }),
{
    if !appender.writer.poisoned {
        lemma_levels_held(appender.outline);
        let order = depths(appender.outline.entries@);
        if order.len() > 0 {
            assert(order.last() == appender.outline.entries@.last().depth);
        }
    }
}

/// Titles take no less than nothing.
proof fn lemma_titles_held(open: Seq<OpenOutline>, levels: int)
    requires
        levels <= open.len(),
    ensures
        title_bytes(open, levels) >= 0,
    decreases levels,
{
    if levels > 0 {
        lemma_titles_held(open, levels - 1);
    }
}

} // verus!

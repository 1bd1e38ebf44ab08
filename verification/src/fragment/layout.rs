//! Where every byte of the rebuilt file goes, settled before any is written.

use vstd::prelude::*;
use crate::fallible::{allocator_refused, reserve_exact};
use crate::fragment::index::{supplied, Reconstruction};
use crate::fragment::outline::{
    build_outline_nodes, depths_of, item_link, item_reference, outline_failure, outline_node,
    outline_memory_failure, outline_nodes, outline_refused, OutlineNode,
};
use crate::fragment::record::{
    allocation_failure, check_pdf_allocation, checked_add, checked_reference, indexed, is_numbered,
    lemma_position, object_index, pdf_limit, position_of, reference_failure, synthetic_record,
    FragmentPlan, Record,
};
use crate::fragment::structure::Validated;
use crate::fragment::texts::{
    catalog_text, header_text, item_text, outline_item_prefix, outline_item_suffix,
    outline_root_text, outline_title_hex_len, page_list_text, page_reference_text,
    pages_prefix_text, pages_suffix_text, push_catalog, push_header, push_outline_root,
    push_pages_prefix, push_trailer, push_xref_header, trailer_text, xref_header_text,
};
use crate::outline_order::{first_root, last_root};
use crate::text::{decimal_digits, push_text, spelled, title_hex, LF};
use crate::types::{
    first_failure, outcome, Bookmark, Error, Limits, PdfRef, MAX_CLASSIC_PDF_BYTES, MAX_PDF_OBJECTS,
};

verus! {

/// An outline that is written with the rebuilt file.
pub struct OutlinePlan {
    pub root: PdfRef,
    pub first: PdfRef,
    pub last: PdfRef,
    pub nodes: Vec<OutlineNode>,
}

/// What the rebuilt file consists of.
pub ghost struct Parts {
    pub plan_pages: Seq<PdfRef>,
    pub pages_root: PdfRef,
    pub synthetic_pages: bool,
    pub catalog: PdfRef,
    pub synthetic_catalog: bool,
    pub titles: Seq<Bookmark>,
    pub outline_root: PdfRef,
}

/// The number after every other object, for the outline root.
pub open spec fn outline_root_of(records: Seq<Record>) -> PdfRef {
    PdfRef { number: (records.last().reference.number + 1) as u32, generation: 0 }
}

/// The parts of a reconstruction.
pub open spec fn parts_of(index: Reconstruction) -> Parts {
    Parts {
        plan_pages: index.plan.pages@,
        pages_root: index.plan.pages_root,
        synthetic_pages: !supplied(index.plan.objects@, index.plan.pages_root.number),
        catalog: index.catalog,
        synthetic_catalog: index.plan.catalog is None,
        titles: index.bookmarks@,
        outline_root: outline_root_of(index.records@),
    }
}

impl Parts {
    /// The outline items in document order.
    pub open spec fn nodes(self) -> Seq<OutlineNode> {
        outline_nodes(self.titles, self.plan_pages, self.outline_root)
    }

    /// The page tree root, where it is synthesized.
    #[verifier::opaque]
    pub open spec fn pages_text(self) -> Seq<u8> {
        if self.synthetic_pages {
            pages_prefix_text(self.pages_root, self.plan_pages.len() as u32) + page_list_text(
                self.plan_pages,
                0,
            ) + pages_suffix_text()
        } else {
            Seq::empty()
        }
    }

    /// The catalog, where it is synthesized.
    #[verifier::opaque]
    pub open spec fn catalog_text(self) -> Seq<u8> {
        if self.synthetic_catalog {
            catalog_text(
                self.catalog,
                self.pages_root,
                if self.titles.len() == 0 {
                    None
                } else {
                    Some(self.outline_root)
                },
            )
        } else {
            Seq::empty()
        }
    }

    /// The outline root, where there are bookmarks.
    #[verifier::opaque]
    pub open spec fn root_text(self) -> Seq<u8> {
        if self.titles.len() == 0 {
            Seq::empty()
        } else {
            outline_root_text(
                self.outline_root,
                item_link(self.outline_root, first_root(depths_of(self.titles)))->0,
                item_link(self.outline_root, last_root(depths_of(self.titles)))->0,
                self.titles.len() as u32,
            )
        }
    }

    /// The outline items from item `from` on.
    pub open spec fn items_text(self, from: int) -> Seq<u8>
        decreases self.titles.len() - from,
    {
        if from >= self.titles.len() {
            Seq::empty()
        } else {
            item_text(self.nodes()[from], self.titles[from].title@) + self.items_text(from + 1)
        }
    }
}

/// The copies of the supplied objects from record `from` on.
pub open spec fn objects_text(records: Seq<Record>, source: Seq<u8>, from: int) -> Seq<u8>
    decreases records.len() - from,
{
    if from >= records.len() {
        Seq::empty()
    } else {
        copy_text(records[from], source) + objects_text(records, source, from + 1)
    }
}

/// The copy of one object, and a line end. A synthesized object is not copied.
pub open spec fn copy_text(record: Record, source: Seq<u8>) -> Seq<u8> {
    if record.range.length == 0 {
        Seq::empty()
    } else {
        source.subrange(
            record.range.offset as int,
            record.range.offset + record.range.length,
        ).push(LF)
    }
}

/// The bytes of the copies from record `from` on.
pub open spec fn objects_length(records: Seq<Record>, from: int) -> int
    decreases records.len() - from,
{
    if from >= records.len() {
        0
    } else {
        copy_length(records[from]) + objects_length(records, from + 1)
    }
}

pub open spec fn copy_length(record: Record) -> int {
    if record.range.length == 0 {
        0
    } else {
        record.range.length + 1
    }
}

/// The bytes before the outline items.
pub open spec fn fixed_length(parts: Parts, records: Seq<Record>) -> int {
    header_text().len() + objects_length(records, 0) + parts.pages_text().len()
        + parts.catalog_text().len() + parts.root_text().len()
}

/// The bytes up to the xref table, when `length` of them come before outline
/// item `from`, or why they cannot be counted.
pub open spec fn measure_items(parts: Parts, from: int, length: int) -> Result<int, Error>
    decreases parts.titles.len() - from,
{
    if length > u64::MAX {
        Err(Error::InvalidInput { reason: "PDF arithmetic overflows 64 bits" })
    } else if from >= parts.titles.len() {
        Ok(length)
    } else if title_hex(parts.titles[from].title@).len() > u64::MAX {
        Err(Error::InvalidInput { reason: "PDF outline title hex length overflows 64 bits" })
    } else {
        measure_items(
            parts,
            from + 1,
            length + item_text(parts.nodes()[from], parts.titles[from].title@).len(),
        )
    }
}

/// The bytes of the whole file, when `body` of them come before the xref table
/// and `largest` is the last object number.
pub open spec fn file_length(body: int, largest: u32, catalog: PdfRef) -> int {
    let size = (largest + 1) as u64;
    body + xref_header_text(size).len() + 20 * size + trailer_text(
        size,
        catalog,
        body as u64,
    ).len()
}

/// Where the object of a reference starts in the source, or zero.
pub open spec fn source_offset(records: Seq<Record>, reference: PdfRef) -> u64 {
    match position_of(records, reference.number) {
        Some(i) => if records[i].reference == reference {
            records[i].range.offset
        } else {
            0
        },
        None => 0,
    }
}

/// Why a file of this many bytes is refused.
pub open spec fn size_failure(
    length: int,
    limits: Limits,
    catalog: PdfRef,
    offset: u64,
) -> Option<Error> {
    if length > u64::MAX {
        Some(Error::InvalidInput { reason: "PDF arithmetic overflows 64 bits" })
    } else if length > MAX_CLASSIC_PDF_BYTES {
        Some(
            pdf_limit(
                Some(catalog),
                offset,
                "classic PDF file bytes",
                MAX_CLASSIC_PDF_BYTES,
                length as u64,
            ),
        )
    } else if length > limits.max_output_bytes {
        Some(
            pdf_limit(
                Some(catalog),
                offset,
                "output bytes",
                limits.max_output_bytes,
                length as u64,
            ),
        )
    } else {
        None
    }
}

/// The last object number of the rebuilt file.
pub open spec fn largest_of(index: Reconstruction) -> u32 {
    (index.records@.last().reference.number + if index.bookmarks@.len() == 0 {
        0
    } else {
        index.bookmarks@.len() as int + 1
    }) as u32
}

/// The bytes retained while the outline is built.
pub open spec fn outline_retained(index: Reconstruction) -> int {
    index.record_bytes + index.page_index_bytes + index.limits.io_chunk_bytes
}

/// Why the outline cannot be built.
pub open spec fn outline_plan_failure(index: Reconstruction) -> Option<Error> {
    let root = outline_root_of(index.records@);
    if index.bookmarks@.len() == 0 {
        None
    } else {
        first_failure(
            reference_failure(root, 0),
            if outline_retained(index) > u64::MAX {
                Some(Error::InvalidInput { reason: "PDF arithmetic overflows 64 bits" })
            } else {
                first_failure(
                    outline_memory_failure(
                        index.bookmarks@.len(),
                        root,
                        index.limits,
                        outline_retained(index) as u64,
                    ),
                    outline_failure(index.bookmarks@, index.plan.pages@, root),
                )
            },
        )
    }
}

/// Whether an error reports that the index of an outline, which the limits
/// allow, was not available.
pub open spec fn outline_starved(index: Reconstruction, error: Error) -> bool {
    let root = outline_root_of(index.records@);
    let count = index.bookmarks@.len();
    &&& count > 0
    &&& reference_failure(root, 0) is None
    &&& outline_retained(index) <= u64::MAX
    &&& outline_memory_failure(count, root, index.limits, outline_retained(index) as u64) is None
    &&& outline_refused(error, index.limits, count)
}

/// Why the file cannot be laid out.
pub open spec fn layout_failure(index: Reconstruction) -> Option<Error> {
    let parts = parts_of(index);
    first_failure(
        outline_plan_failure(index),
        match measure_items(parts, 0, fixed_length(parts, index.records@)) {
            Err(error) => Some(error),
            Ok(body) => first_failure(
                size_failure(
                    file_length(body, largest_of(index), index.catalog),
                    index.limits,
                    index.catalog,
                    source_offset(index.records@, index.catalog),
                ),
                allocation_failure(
                    index.limits,
                    index.record_bytes + index.limits.io_chunk_bytes,
                    Some(index.plan.pages_root),
                    source_offset(index.records@, index.plan.pages_root),
                ),
            ),
        },
    )
}

/// The records of the outline objects.
pub open spec fn outline_records(parts: Parts) -> Seq<Record> {
    if parts.titles.len() == 0 {
        Seq::empty()
    } else {
        Seq::new(
            parts.titles.len() + 1,
            |i: int|
                synthetic_record(
                    PdfRef { number: (parts.outline_root.number + i) as u32, generation: 0 },
                ),
        )
    }
}

/// Every object of the rebuilt file, in order of object number.
pub open spec fn all_records(index: Reconstruction) -> Seq<Record> {
    index.records@ + outline_records(parts_of(index))
}

/// Where the copy of record `k` starts.
pub open spec fn copy_start(records: Seq<Record>, k: int) -> int {
    header_text().len() + objects_length(records, 0) - objects_length(records, k)
}

/// Where a synthesized page tree root starts.
pub open spec fn pages_start(records: Seq<Record>) -> int {
    header_text().len() + objects_length(records, 0)
}

/// Where a synthesized catalog starts.
pub open spec fn catalog_start(parts: Parts, records: Seq<Record>) -> int {
    pages_start(records) + parts.pages_text().len()
}

/// Where the outline root starts.
pub open spec fn outline_start(parts: Parts, records: Seq<Record>) -> int {
    catalog_start(parts, records) + parts.catalog_text().len()
}

/// Where outline item `i` starts.
pub open spec fn item_start(parts: Parts, records: Seq<Record>, i: int) -> int {
    outline_start(parts, records) + parts.root_text().len() + parts.items_text(0).len()
        - parts.items_text(i).len()
}

/// Where the object of record `k` starts in the rebuilt file.
pub open spec fn output_start(parts: Parts, records: Seq<Record>, k: int) -> int {
    let record = records[k];
    let number = record.reference.number;
    if record.range.length != 0 {
        copy_start(records, k)
    } else if parts.synthetic_pages && number == parts.pages_root.number {
        pages_start(records)
    } else if parts.synthetic_catalog && number == parts.catalog.number {
        catalog_start(parts, records)
    } else if number == parts.outline_root.number {
        outline_start(parts, records)
    } else {
        item_start(parts, records, number - parts.outline_root.number - 1)
    }
}

/// The records with the place of each object in the rebuilt file.
pub open spec fn placed(parts: Parts, records: Seq<Record>) -> Seq<Record> {
    Seq::new(
        records.len(),
        |k: int| Record { output_offset: output_start(parts, records, k) as u64, ..records[k] },
    )
}

/// A rebuilt file whose every byte has its place.
pub struct Layout<'a> {
    pub plan: FragmentPlan<'a>,
    pub bookmarks: &'a [Bookmark],
    pub limits: Limits,
    pub catalog: PdfRef,
    pub synthetic_pages: bool,
    pub records: Vec<Record>,
    pub outline: Option<OutlinePlan>,
    pub largest: u32,
    pub body_bytes: u64,
    pub final_size: u64,
    pub index: Ghost<Reconstruction<'a>>,
}

impl<'a> Layout<'a> {
    pub open spec fn parts(self) -> Parts {
        parts_of(self.index@)
    }

    /// Whether the layout is the one that its reconstruction determines.
    pub open spec fn well_formed(self) -> bool {
        let index = self.index@;
        let parts = self.parts();
        &&& index.well_formed()
        &&& layout_failure(index) is None
        &&& self.plan == index.plan
        &&& self.bookmarks == index.bookmarks
        &&& self.limits == index.limits
        &&& self.catalog == index.catalog
        &&& self.synthetic_pages == parts.synthetic_pages
        &&& self.records@ == placed(parts, all_records(index))
        &&& self.largest == largest_of(index)
        &&& measure_items(parts, 0, fixed_length(parts, index.records@)) == Ok::<int, Error>(
            self.body_bytes as int,
        )
        &&& self.final_size == file_length(self.body_bytes as int, self.largest, self.catalog)
        &&& match self.outline {
            None => parts.titles.len() == 0,
            Some(outline) => {
                &&& parts.titles.len() > 0
                &&& outline.root == parts.outline_root
                &&& outline.nodes@ == parts.nodes()
                &&& parts.root_text() == outline_root_text(
                    outline.root,
                    outline.first,
                    outline.last,
                    parts.titles.len() as u32,
                )
            },
        }
    }
}

/// Every object of the rebuilt file has a number of its own.
pub proof fn lemma_all_records(index: Reconstruction)
    requires
        index.well_formed(),
        outline_plan_failure(index) is None,
    ensures
        indexed(all_records(index)),
        index.records@.last().reference.number <= MAX_PDF_OBJECTS,
        index.bookmarks@.len() > 0 ==> parts_of(index).outline_root.number
            == index.records@.last().reference.number + 1 && parts_of(index).outline_root.number
            + index.bookmarks@.len() <= MAX_PDF_OBJECTS,
        largest_of(index) == all_records(index).last().reference.number,
        largest_of(index) <= MAX_PDF_OBJECTS,
        objects_length(all_records(index), 0) == objects_length(index.records@, 0),
{
    crate::fragment::index::lemma_index_records(index);
    let records = index.records@;
    let parts = parts_of(index);
    let all = all_records(index);
    let n = records.len() as int;
    let count = index.bookmarks@.len();
    if count > 0 {
        lemma_last_item(index.bookmarks@, index.plan.pages@, parts.outline_root, 0);
    }
    assert forall|i: int, j: int| 0 <= i < j < all.len() implies (
    #[trigger] all[i]).reference.number < (#[trigger] all[j]).reference.number by {
        if j < n {
            assert(records[i].reference.number < records[j].reference.number);
        } else if i < n {
            if i < n - 1 {
                assert(records[i].reference.number < records[n - 1].reference.number);
            }
        }
    }
    lemma_objects_length_extended(records, outline_records(parts), 0);
}

/// The last item of an accepted outline has a supported number.
proof fn lemma_last_item(bookmarks: Seq<Bookmark>, pages: Seq<PdfRef>, root: PdfRef, from: int)
    requires
        0 <= from < bookmarks.len(),
        crate::fragment::outline::bookmarks_failure(bookmarks, pages, root, from) is None,
    ensures
        root.number + bookmarks.len() <= MAX_PDF_OBJECTS,
    decreases bookmarks.len() - from,
{
    if from + 1 < bookmarks.len() {
        lemma_last_item(bookmarks, pages, root, from + 1);
    }
}

/// Synthesized objects add nothing to the copies.
proof fn lemma_objects_length_extended(records: Seq<Record>, more: Seq<Record>, from: int)
    requires
        0 <= from <= records.len(),
        forall|i: int| 0 <= i < more.len() ==> (#[trigger] more[i]).range.length == 0,
    ensures
        objects_length(records + more, from) == objects_length(records, from),
    decreases records.len() + more.len() - from,
{
    let all = records + more;
    if from < records.len() {
        lemma_objects_length_extended(records, more, from + 1);
        assert(all[from] == records[from]);
    } else {
        lemma_no_copies(all, from);
    }
}

proof fn lemma_no_copies(records: Seq<Record>, from: int)
    requires
        forall|i: int|
            from <= i < records.len() ==> (#[trigger] records[i]).range.length == 0,
    ensures
        objects_length(records, from) == 0,
    decreases records.len() - from,
{
    if from < records.len() {
        assert(records[from].range.length == 0);
        lemma_no_copies(records, from + 1);
    }
}

/// Give every copied object its place, the first one at `start`, and return
/// where the last copy ends.
fn place_objects(records: &mut Vec<Record>, start: u64) -> (end: Result<u64, Error>)
    ensures
        match end {
            Ok(end) => {
                &&& end == start + objects_length(old(records)@, 0)
                &&& final(records)@ == Seq::new(
                    old(records)@.len(),
                    |k: int|
                        if old(records)@[k].range.length == 0 {
                            old(records)@[k]
                        } else {
                            Record {
                                output_offset: (start + objects_length(old(records)@, 0)
                                    - objects_length(old(records)@, k)) as u64,
                                ..old(records)@[k]
                            }
                        },
                )
            },
            Err(error) => {
                &&& start + objects_length(old(records)@, 0) > u64::MAX
                &&& error == (Error::InvalidInput { reason: "PDF arithmetic overflows 64 bits" })
            },
        },
{
    let ghost before = records@;
    let mut position: u64 = start;
    let mut next: usize = 0;
    while next < records.len()
        invariant
            next <= records@.len() == before.len(),
            before == old(records)@,
            position == start + objects_length(before, 0) - objects_length(before, next as int),
            forall|k: int| next <= k < before.len() ==> #[trigger] records@[k] == before[k],
            forall|k: int|
                0 <= k < next ==> #[trigger] records@[k] == (if before[k].range.length == 0 {
                    before[k]
                } else {
                    Record {
                        output_offset: (start + objects_length(before, 0) - objects_length(
                            before,
                            k,
                        )) as u64,
                        ..before[k]
                    }
                }),
        decreases before.len() - next,
    {
        let mut record = records[next];
        assert(record == before[next as int]);
        if record.range.length != 0 {
            record.output_offset = position;
            proof {
                lemma_objects_length_positive(before, next + 1);
            }
            let with_end = checked_add(record.range.length, 1)?;
            position = checked_add(position, with_end)?;
            records.set(next, record);
        }
        next += 1;
    }
    proof {
        assert(objects_length(before, before.len() as int) == 0);
        assert(records@ =~= Seq::new(
            before.len(),
            |k: int|
                if before[k].range.length == 0 {
                    before[k]
                } else {
                    Record {
                        output_offset: (start + objects_length(before, 0) - objects_length(
                            before,
                            k,
                        )) as u64,
                        ..before[k]
                    }
                },
        ));
    }
    Ok(position)
}

proof fn lemma_objects_length_positive(records: Seq<Record>, from: int)
    ensures
        objects_length(records, from) >= 0,
    decreases records.len() - from,
{
    if from < records.len() {
        lemma_objects_length_positive(records, from + 1);
    }
}

/// Where a text that starts at `start` ends.
fn after_text(start: u64, text: &Vec<u8>) -> (end: Result<u64, Error>)
    ensures
        end == (if start + text@.len() <= u64::MAX {
            Ok::<u64, Error>((start + text@.len()) as u64)
        } else {
            Err(Error::InvalidInput { reason: "PDF arithmetic overflows 64 bits" })
        }),
{
    checked_add(start, text.len() as u64)
}

/// Where a synthesized page tree root that starts at `start` ends.
fn after_pages(start: u64, root: PdfRef, pages: &[PdfRef]) -> (end: Result<u64, Error>)
    requires
        pages@.len() <= u32::MAX,
    ensures
        ({
            let length = (pages_prefix_text(root, pages@.len() as u32) + page_list_text(pages@, 0)
                + pages_suffix_text()).len();
            end == (if start + length <= u64::MAX {
                Ok::<u64, Error>((start + length) as u64)
            } else {
                Err(Error::InvalidInput { reason: "PDF arithmetic overflows 64 bits" })
            })
        }),
{
    let mut prefix: Vec<u8> = Vec::new();
    push_pages_prefix(&mut prefix, root, pages.len() as u32);
    let mut suffix: Vec<u8> = Vec::new();
    push_text(&mut suffix, "] >>\nendobj\n");
    assert(suffix@ =~= pages_suffix_text());
    assert(prefix@ =~= pages_prefix_text(root, pages@.len() as u32));
    let mut position: u64 = after_text(start, &prefix)?;
    let mut next: usize = 0;
    proof {
        reveal_strlit(" 0 R ");
        assert(vstd::string::is_ascii(" 0 R "));
        vstd::string::is_ascii_spec_bytes(" 0 R ");
    }
    while next < pages.len()
        invariant
            next <= pages@.len(),
            position + page_list_text(pages@, next as int).len() == start + prefix@.len()
                + page_list_text(pages@, 0).len(),
            prefix@ == pages_prefix_text(root, pages@.len() as u32),
            suffix@ == pages_suffix_text(),
            spelled(" 0 R ").len() == 5,
        decreases pages@.len() - next,
    {
        let digits: u64 = decimal_digits(pages[next].number as u64);
        assert(page_reference_text(pages@[next as int]).len() == digits + 5);
        position = checked_add(position, digits + 5)?;
        next += 1;
    }
    after_text(position, &suffix)
}

/// The bytes of one outline item.
fn item_length(node: &OutlineNode, title: &str) -> (length: Result<(u64, u64), Error>)
    ensures
        match length {
            Ok((framing, hex)) => {
                &&& framing + hex == item_text(*node, title@).len()
                &&& hex == title_hex(title@).len()
            },
            Err(error) => {
                &&& title_hex(title@).len() > u64::MAX
                &&& error == (Error::InvalidInput {
                    reason: "PDF outline title hex length overflows 64 bits",
                })
            },
        },
{
    let mut framing: Vec<u8> = Vec::new();
    outline_item_prefix(node, &mut framing);
    outline_item_suffix(node, &mut framing);
    let hex: u64 = outline_title_hex_len(title)?;
    proof {
        reveal(item_text);
    }
    Ok((framing.len() as u64, hex))
}

/// Whether each outline item's record, from position `base` on, has the place
/// that follows from the first one starting at `start`.
#[verifier::opaque]
spec fn items_placed(
    before: Seq<Record>,
    after: Seq<Record>,
    base: int,
    upto: int,
    parts: Parts,
    start: int,
) -> bool {
    &&& after.len() == before.len()
    &&& forall|k: int|
        0 <= k < before.len() ==> #[trigger] after[k] == (if base <= k < base + upto {
            Record {
                output_offset: (start + parts.items_text(0).len() - parts.items_text(
                    k - base,
                ).len()) as u64,
                ..before[k]
            }
        } else {
            before[k]
        })
}

proof fn lemma_item_placed(
    before: Seq<Record>,
    after: Seq<Record>,
    base: int,
    upto: int,
    parts: Parts,
    start: int,
    position: u64,
)
    requires
        items_placed(before, after, base, upto, parts, start),
        0 <= base,
        0 <= upto,
        base + upto < before.len(),
        position == start + parts.items_text(0).len() - parts.items_text(upto).len(),
    ensures
        after.len() == before.len(),
        items_placed(
            before,
            after.update(
                base + upto,
                Record { output_offset: position, ..after[base + upto] },
            ),
            base,
            upto + 1,
            parts,
            start,
        ),
{
    reveal(items_placed);
}

/// Give every outline item its place, the first one at `start`, and return
/// where the last one ends.
fn place_items(
    records: &mut Vec<Record>,
    base: usize,
    bookmarks: &[Bookmark],
    nodes: &Vec<OutlineNode>,
    start: u64,
    Ghost(parts): Ghost<Parts>,
) -> (end: Result<u64, Error>)
    requires
        bookmarks@ == parts.titles,
        nodes@ == parts.nodes(),
        old(records)@.len() == base + bookmarks@.len(),
    ensures
        match measure_items(parts, 0, start as int) {
            Err(error) => end == Err::<u64, Error>(error),
            Ok(body) => {
                &&& end is Ok
                &&& end->Ok_0 == body
                &&& body == start + parts.items_text(0).len()
                &&& items_placed(
                    old(records)@,
                    final(records)@,
                    base as int,
                    bookmarks@.len() as int,
                    parts,
                    start as int,
                )
            },
        },
{
    let mut position: u64 = start;
    let mut next: usize = 0;
    let count: usize = records.len();
    assert(items_placed(old(records)@, records@, base as int, 0, parts, start as int)) by {
        reveal(items_placed);
    }
    while next < bookmarks.len()
        invariant
            next <= bookmarks@.len(),
            bookmarks@ == parts.titles,
            nodes@ == parts.nodes(),
            records@.len() == base + bookmarks@.len() == count,
            old(records)@.len() == count,
            position == start + parts.items_text(0).len() - parts.items_text(next as int).len(),
            measure_items(parts, 0, start as int) == measure_items(
                parts,
                next as int,
                position as int,
            ),
            items_placed(
                old(records)@,
                records@,
                base as int,
                next as int,
                parts,
                start as int,
            ),
        decreases bookmarks@.len() - next,
    {
        let mut record = records[base + next];
        proof {
            lemma_item_placed(
                old(records)@,
                records@,
                base as int,
                next as int,
                parts,
                start as int,
                position,
            );
        }
        record.output_offset = position;
        records.set(base + next, record);
        let (framing, hex) = item_length(&nodes[next], bookmarks[next].title.as_str())?;
        assert(parts.items_text(next as int).len() == framing + hex + parts.items_text(
            next + 1,
        ).len());
        assert(measure_items(parts, next as int, position as int) == measure_items(
            parts,
            next + 1,
            position + framing + hex,
        ));
        assert(position + framing + hex > u64::MAX ==> measure_items(
            parts,
            next + 1,
            position + framing + hex,
        ) is Err);
        let item: u64 = checked_add(framing, hex)?;
        position = checked_add(position, item)?;
        next += 1;
    }
    Ok(position)
}

/// Build the outline of the bookmarks and add its objects to the records.
fn plan_outline(index: &mut Reconstruction) -> (planned: Result<Option<OutlinePlan>, Error>)
    requires
        old(index).well_formed(),
    ensures
        match planned {
            Ok(outline) => {
                &&& outline_plan_failure(*old(index)) is None
                &&& final(index).records@ == all_records(*old(index))
                &&& same_request(*old(index), *final(index))
                &&& match outline {
                    None => old(index).bookmarks@.len() == 0,
                    Some(outline) => {
                        let parts = parts_of(*old(index));
                        &&& old(index).bookmarks@.len() > 0
                        &&& outline.root == parts.outline_root
                        &&& outline.nodes@ == parts.nodes()
                        &&& parts.root_text() == outline_root_text(
                            outline.root,
                            outline.first,
                            outline.last,
                            parts.titles.len() as u32,
                        )
                    },
                }
            },
            Err(error) => outline_plan_failure(*old(index)) == Some(error) || outline_starved(
                *old(index),
                error,
            ),
        },
{
    let ghost whole = *index;
    proof {
        crate::fragment::index::lemma_index_records(whole);
    }
    if index.bookmarks.len() == 0 {
        assert(index.records@ =~= all_records(whole));
        return Ok(None);
    }
    let largest: u32 = index.records[index.records.len() - 1].reference.number;
    let root = PdfRef { number: largest + 1, generation: 0 };
    checked_reference(root, 0)?;
    let indexes = checked_add(index.record_bytes, index.page_index_bytes)?;
    let retained = checked_add(indexes, index.limits.io_chunk_bytes as u64)?;
    let (nodes, first, last) = build_outline_nodes(
        index.bookmarks,
        index.plan.pages,
        root,
        &index.limits,
        retained,
    )?;
    proof {
        lemma_all_records(whole);
    }
    index.records.push(Record::synthetic(root));
    let mut next: usize = 0;
    while next < nodes.len()
        invariant
            next <= nodes@.len(),
            nodes@ == outline_nodes(whole.bookmarks@, whole.plan.pages@, root),
            nodes@.len() == whole.bookmarks@.len(),
            nodes@.len() > 0,
            root == parts_of(whole).outline_root,
            root.number + whole.bookmarks@.len() <= MAX_PDF_OBJECTS,
            same_request(whole, *index),
            index.records@ =~= whole.records@ + outline_records(parts_of(whole)).take(next + 1),
        decreases nodes@.len() - next,
    {
        let reference = nodes[next].reference;
        assert(reference == item_reference(root, next as int)) by {
            reveal(outline_node);
        }
        index.records.push(Record::synthetic(reference));
        assert(outline_records(parts_of(whole)).take(next + 2) =~= outline_records(
            parts_of(whole),
        ).take(next + 1).push(synthetic_record(reference)));
        next += 1;
    }
    proof {
        let more = outline_records(parts_of(whole));
        assert(more.take(more.len() as int) =~= more);
        assert(index.records@ =~= all_records(whole));
        reveal(Parts::root_text);
    }
    Ok(Some(OutlinePlan { root, first, last, nodes }))
}

/// Whether two reconstructions differ in their records alone.
spec fn same_request(one: Reconstruction, other: Reconstruction) -> bool {
    &&& one.plan == other.plan
    &&& one.bookmarks == other.bookmarks
    &&& one.limits == other.limits
    &&& one.source_size == other.source_size
    &&& one.sorted_pages == other.sorted_pages
    &&& one.catalog == other.catalog
    &&& one.record_bytes == other.record_bytes
    &&& one.page_index_bytes == other.page_index_bytes
}

/// Where the object of a reference starts in the source, or zero.
fn find_source_offset(records: &[Record], reference: PdfRef) -> (offset: u64)
    requires
        indexed(records@),
    ensures
        offset == source_offset(records@, reference),
{
    match object_index(records, reference) {
        Some(i) => if records[i].reference == reference {
            records[i].range.offset
        } else {
            0
        },
        None => 0,
    }
}

/// Appending records after the last number changes no earlier position.
proof fn lemma_position_extended(index: Reconstruction, reference: PdfRef)
    requires
        index.well_formed(),
        outline_plan_failure(index) is None,
        position_of(index.records@, reference.number) is Some,
    ensures
        position_of(all_records(index), reference.number) == position_of(
            index.records@,
            reference.number,
        ),
        source_offset(all_records(index), reference) == source_offset(index.records@, reference),
{
    lemma_all_records(index);
    let i = choose|i: int| is_numbered(index.records@, i, reference.number);
    crate::fragment::index::lemma_index_records(index);
    lemma_position(index.records@, i);
    assert(all_records(index)[i] == index.records@[i]);
    lemma_position(all_records(index), i);
}

/// Give the object of a reference its place.
fn place(records: &mut Vec<Record>, reference: PdfRef, position: u64)
    requires
        indexed(old(records)@),
        position_of(old(records)@, reference.number) is Some,
    ensures
        ({
            let k = position_of(old(records)@, reference.number)->0;
            final(records)@ == old(records)@.update(
                k,
                Record { output_offset: position, ..old(records)@[k] },
            )
        }),
{
    if let Some(k) = object_index(records, reference) {
        let mut record = records[k];
        record.output_offset = position;
        records.set(k, record);
    }
}

proof fn lemma_same_position(one: Seq<Record>, other: Seq<Record>, number: u32)
    requires
        indexed(one),
        one.len() == other.len(),
        forall|k: int|
            0 <= k < one.len() ==> (#[trigger] one[k]).reference == (#[trigger] other[k]).reference,
    ensures
        indexed(other),
        position_of(other, number) == position_of(one, number),
{
    assert forall|i: int, j: int| 0 <= i < j < other.len() implies (
    #[trigger] other[i]).reference.number < (#[trigger] other[j]).reference.number by {
        assert(one[i].reference.number < one[j].reference.number);
    }
    if exists|i: int| is_numbered(one, i, number) {
        let i = choose|i: int| is_numbered(one, i, number);
        lemma_position(one, i);
        assert(other[i].reference == one[i].reference);
        lemma_position(other, i);
    } else {
        assert forall|i: int| !is_numbered(other, i, number) by {
            assert(!is_numbered(one, i, number));
            if 0 <= i < one.len() {
                assert(other[i].reference == one[i].reference);
            }
        }
    }
}

/// Where a synthesized root stands among all records.
proof fn lemma_synthetic_positions(whole: Reconstruction)
    requires
        whole.well_formed(),
        outline_plan_failure(whole) is None,
    ensures
        ({
            let parts = parts_of(whole);
            let all = all_records(whole);
            forall|k: int|
                #![trigger all[k]]
                0 <= k < all.len() ==> {
                    &&& all[k].reference.number == parts.pages_root.number ==> position_of(
                        all,
                        parts.pages_root.number,
                    ) == Some(k)
                    &&& all[k].reference.number == parts.catalog.number ==> position_of(
                        all,
                        parts.catalog.number,
                    ) == Some(k)
                }
        }),
        parts_of(whole).synthetic_catalog ==> parts_of(whole).catalog.number != parts_of(
            whole,
        ).pages_root.number,
{
    let parts = parts_of(whole);
    let all = all_records(whole);
    lemma_all_records(whole);
    crate::fragment::index::lemma_index_roots(whole);
    assert forall|k: int|
        #![trigger all[k]]
        0 <= k < all.len() implies {
        &&& all[k].reference.number == parts.pages_root.number ==> position_of(
            all,
            parts.pages_root.number,
        ) == Some(k)
        &&& all[k].reference.number == parts.catalog.number ==> position_of(
            all,
            parts.catalog.number,
        ) == Some(k)
    } by {
        lemma_position(all, k);
    }
}

/// A record once the copies and the synthesized roots have their places.
spec fn root_placed(parts: Parts, all: Seq<Record>, k: int) -> Record {
    let record = all[k];
    let number = record.reference.number;
    if record.range.length != 0 {
        Record { output_offset: copy_start(all, k) as u64, ..record }
    } else if parts.synthetic_pages && number == parts.pages_root.number {
        Record { output_offset: pages_start(all) as u64, ..record }
    } else if parts.synthetic_catalog && number == parts.catalog.number {
        Record { output_offset: catalog_start(parts, all) as u64, ..record }
    } else {
        record
    }
}

spec fn roots_placed(parts: Parts, all: Seq<Record>, records: Seq<Record>) -> bool {
    &&& records.len() == all.len()
    &&& forall|k: int| 0 <= k < all.len() ==> #[trigger] records[k] == root_placed(parts, all, k)
}

proof fn lemma_placed_without_outline(whole: Reconstruction, records: Seq<Record>)
    requires
        whole.well_formed(),
        outline_plan_failure(whole) is None,
        whole.bookmarks@.len() == 0,
        roots_placed(parts_of(whole), all_records(whole), records),
    ensures
        records == placed(parts_of(whole), all_records(whole)),
{
    let all = all_records(whole);
    crate::fragment::index::lemma_index_records(whole);
    assert(all =~= whole.records@);
    assert(records =~= placed(parts_of(whole), all));
}

proof fn lemma_placed_with_outline(
    whole: Reconstruction,
    with_roots: Seq<Record>,
    with_outline: Seq<Record>,
    records: Seq<Record>,
)
    requires
        whole.well_formed(),
        outline_plan_failure(whole) is None,
        whole.bookmarks@.len() > 0,
        roots_placed(parts_of(whole), all_records(whole), with_roots),
        ({
            let parts = parts_of(whole);
            let all = all_records(whole);
            let base = whole.records@.len() + 1;
            let start = outline_start(parts, all);
            &&& with_outline == with_roots.update(
                base - 1,
                Record { output_offset: start as u64, ..with_roots[base - 1] },
            )
            &&& items_placed(
                with_outline,
                records,
                base as int,
                whole.bookmarks@.len() as int,
                parts,
                start + parts.root_text().len(),
            )
        }),
    ensures
        records == placed(parts_of(whole), all_records(whole)),
{
    reveal(items_placed);
    let parts = parts_of(whole);
    let all = all_records(whole);
    let base = whole.records@.len() + 1;
    lemma_all_records(whole);
    crate::fragment::index::lemma_index_records(whole);
    crate::fragment::index::lemma_index_roots(whole);
    let n = whole.records@.len() as int;
    let target = placed(parts, all);
    assert forall|k: int| 0 <= k < all.len() implies records[k] == target[k] by {
        if k < n {
            assert(all[k] == whole.records@[k]);
            assert(with_roots[k] == root_placed(parts, all, k));
        } else {
            let i = k - base;
            assert(all[k].reference.number == parts.outline_root.number + k - n);
            assert(all[n - 1] == whole.records@[n - 1]);
            let p = position_of(whole.records@, parts.pages_root.number)->0;
            let c = position_of(whole.records@, parts.catalog.number)->0;
            assert(all[p] == whole.records@[p]);
            assert(all[c] == whole.records@[c]);
            assert(all[p].reference.number < all[k].reference.number);
            assert(all[c].reference.number < all[k].reference.number);
            assert(with_roots[k] == root_placed(parts, all, k));
        }
    }
    assert(records =~= target);
}

/// Give the copied objects and the synthesized roots their places, and return
/// where the last of them ends.
fn place_roots(
    index: &mut Reconstruction,
    outline_root: Option<PdfRef>,
    Ghost(whole): Ghost<Reconstruction>,
) -> (end: Result<u64, Error>)
    requires
        whole.well_formed(),
        outline_plan_failure(whole) is None,
        old(index).records@ == all_records(whole),
        same_request(whole, *old(index)),
        outline_root == (if whole.bookmarks@.len() == 0 {
            None
        } else {
            Some(parts_of(whole).outline_root)
        }),
    ensures
        ({
            let parts = parts_of(whole);
            let all = all_records(whole);
            match end {
                Ok(end) => {
                    &&& end == outline_start(parts, all)
                    &&& roots_placed(parts, all, final(index).records@)
                    &&& same_request(whole, *final(index))
                },
                Err(error) => {
                    &&& outline_start(parts, all) > u64::MAX
                    &&& error == (Error::InvalidInput {
                        reason: "PDF arithmetic overflows 64 bits",
                    })
                },
            }
        }),
{
    let ghost parts = parts_of(whole);
    let ghost all = all_records(whole);
    proof {
        lemma_all_records(whole);
        crate::fragment::index::lemma_index_roots(whole);
        lemma_position_extended(whole, whole.plan.pages_root);
        lemma_position_extended(whole, whole.catalog);
    }
    let mut header: Vec<u8> = Vec::new();
    push_header(&mut header);
    let mut position: u64 = header.len() as u64;
    assert(position == header_text().len());
    let root = index.plan.pages_root;
    let catalog = index.catalog;
    position = place_objects(&mut index.records, position)?;
    assert(position == pages_start(all));
    let ghost copied = index.records@;
    assert forall|k: int| 0 <= k < all.len() implies (#[trigger] copied[k]).reference
        == all[k].reference && copied[k].range == all[k].range by {}
    assert(indexed(copied));
    proof {
        lemma_same_position(all, copied, root.number);
        lemma_same_position(all, copied, catalog.number);
    }
    let root_index: Option<usize> = object_index(&index.records, root);
    let synthetic: bool = match root_index {
        Some(k) => index.records[k].range.length == 0,
        None => false,
    };
    assert(synthetic == parts.synthetic_pages);
    proof {
        reveal(Parts::pages_text);
        reveal(Parts::catalog_text);
    }
    if synthetic {
        place(&mut index.records, root, position);
        position = after_pages(position, root, index.plan.pages)?;
    }
    assert(position == catalog_start(parts, all));
    let ghost with_pages = index.records@;
    assert(indexed(with_pages));
    proof {
        lemma_same_position(copied, with_pages, catalog.number);
    }
    if index.plan.catalog.is_none() {
        place(&mut index.records, catalog, position);
        let mut text: Vec<u8> = Vec::new();
        push_catalog(&mut text, catalog, root, outline_root);
        assert(text@ =~= parts.catalog_text());
        position = after_text(position, &text)?;
    }
    assert(position == outline_start(parts, all));
    let ghost with_catalog = index.records@;
    assert(roots_placed(parts, all, with_catalog)) by {
        lemma_synthetic_positions(whole);
    }
    Ok(position)
}

/// Give every object of the rebuilt file its place, and return where the body
/// ends.
fn place_all(
    index: &mut Reconstruction,
    outline: &Option<OutlinePlan>,
    Ghost(whole): Ghost<Reconstruction>,
) -> (end: Result<u64, Error>)
    requires
        whole.well_formed(),
        outline_plan_failure(whole) is None,
        old(index).records@ == all_records(whole),
        same_request(whole, *old(index)),
        match *outline {
            None => whole.bookmarks@.len() == 0,
            Some(outline) => {
                let parts = parts_of(whole);
                &&& whole.bookmarks@.len() > 0
                &&& outline.root == parts.outline_root
                &&& outline.nodes@ == parts.nodes()
                &&& parts.root_text() == outline_root_text(
                    outline.root,
                    outline.first,
                    outline.last,
                    whole.bookmarks@.len() as u32,
                )
            },
        },
    ensures
        ({
            let parts = parts_of(whole);
            match measure_items(parts, 0, fixed_length(parts, whole.records@)) {
                Err(error) => end == Err::<u64, Error>(error),
                Ok(body) => {
                    &&& end is Ok
                    &&& end->Ok_0 == body
                    &&& final(index).records@ == placed(parts, all_records(whole))
                    &&& same_request(whole, *final(index))
                },
            }
        }),
{
    let ghost parts = parts_of(whole);
    let ghost all = all_records(whole);
    proof {
        lemma_all_records(whole);
    }
    let outline_root: Option<PdfRef> = match outline {
        Some(outline) => Some(outline.root),
        None => None,
    };
    let mut position: u64 = place_roots(index, outline_root, Ghost(whole))?;
    let ghost with_catalog = index.records@;
    match outline {
        None => {
            proof {
                reveal(Parts::root_text);
                lemma_placed_without_outline(whole, with_catalog);
            }
            Ok(position)
        },
        Some(outline) => {
            let base: usize = index.records.len() - index.bookmarks.len();
            let mut record = index.records[base - 1];
            record.output_offset = position;
            index.records.set(base - 1, record);
            let ghost with_root = index.records@;
            let mut text: Vec<u8> = Vec::new();
            push_outline_root(
                &mut text,
                outline.root,
                outline.first,
                outline.last,
                index.bookmarks.len() as u32,
            );
            assert(text@ =~= parts.root_text());
            position = after_text(position, &text)?;
            assert(position == fixed_length(parts, whole.records@));
            let end = place_items(
                &mut index.records,
                base,
                index.bookmarks,
                &outline.nodes,
                position,
                Ghost(parts),
            )?;
            proof {
                lemma_placed_with_outline(whole, with_catalog, with_root, index.records@);
            }
            Ok(end)
        },
    }
}

/// The bytes of the whole file, within 64 bits.
fn measure_file(body_bytes: u64, largest: u32, catalog: PdfRef) -> (length: Result<u64, Error>)
    ensures
        ({
            let total = file_length(body_bytes as int, largest, catalog);
            length == (if total <= u64::MAX {
                Ok::<u64, Error>(total as u64)
            } else {
                Err(Error::InvalidInput { reason: "PDF arithmetic overflows 64 bits" })
            })
        }),
{
    let size: u64 = largest as u64 + 1;
    let mut xref_header: Vec<u8> = Vec::new();
    push_xref_header(&mut xref_header, size);
    let mut trailer: Vec<u8> = Vec::new();
    push_trailer(&mut trailer, size, catalog, body_bytes);
    assert(xref_header@.len() == xref_header_text(size).len());
    assert(trailer@.len() == trailer_text(size, catalog, body_bytes).len());
    let before_rows = checked_add(body_bytes, xref_header.len() as u64)?;
    let rows_and_trailer = checked_add(size * 20, trailer.len() as u64)?;
    checked_add(before_rows, rows_and_trailer)
}

/// Refuse a file that is too large.
fn check_size(final_size: u64, limits: &Limits, catalog: PdfRef, offset: u64) -> (checked: Result<
    (),
    Error,
>)
    ensures
        checked == outcome(size_failure(final_size as int, *limits, catalog, offset)),
{
    if final_size > MAX_CLASSIC_PDF_BYTES {
        return Err(
            pdf_limit(
                Some(catalog),
                offset,
                "classic PDF file bytes",
                MAX_CLASSIC_PDF_BYTES,
                final_size,
            ),
        );
    }
    if final_size > limits.max_output_bytes {
        return Err(
            pdf_limit(
                Some(catalog),
                offset,
                "output bytes",
                limits.max_output_bytes,
                final_size,
            ),
        );
    }
    Ok(())
}

/// Whether an error reports that memory was not available to a layout that
/// nothing before stood against: for its outline, or for the buffer at the end.
pub open spec fn layout_starved(index: Reconstruction, error: Error) -> bool {
    ||| outline_starved(index, error)
    ||| layout_failure(index) is None && allocator_refused(
        error,
        "PDF I/O buffer allocation",
        index.limits,
        index.record_bytes + index.limits.io_chunk_bytes,
    )
}

/// Whether a source offset is that of the complete index.
proof fn lemma_source_offset(whole: Reconstruction, records: Seq<Record>, reference: PdfRef)
    requires
        whole.well_formed(),
        outline_plan_failure(whole) is None,
        records == placed(parts_of(whole), all_records(whole)),
        position_of(whole.records@, reference.number) is Some,
    ensures
        indexed(records),
        source_offset(records, reference) == source_offset(whole.records@, reference),
{
    lemma_all_records(whole);
    lemma_position_extended(whole, reference);
    lemma_same_position(all_records(whole), records, reference.number);
}

impl<'a> Validated<'a> {
    /// Settle where every byte of the rebuilt file goes, and reserve the
    /// buffer that input and output share.
    pub fn lay_out(self) -> (laid: Result<(Layout<'a>, Vec<u8>), Error>)
        requires
            self.well_formed(),
        ensures
            match laid {
                Ok((layout, buffer)) => {
                    &&& layout_failure(self.index) is None
                    &&& layout.well_formed()
                    &&& layout.index@ == self.index
                    &&& buffer@.len() == 0
                },
                Err(error) => layout_failure(self.index) == Some(error) || layout_starved(
                    self.index,
                    error,
                ),
            },
    {
        let ghost whole = self.index;
        let ghost parts = parts_of(whole);
        let mut index = self.index;
        let outline = plan_outline(&mut index)?;
        proof {
            lemma_all_records(whole);
            crate::fragment::index::lemma_index_roots(whole);
        }
        let body_bytes: u64 = place_all(&mut index, &outline, Ghost(whole))?;
        proof {
            lemma_source_offset(whole, index.records@, whole.catalog);
            lemma_source_offset(whole, index.records@, whole.plan.pages_root);
        }
        let catalog = index.catalog;
        let largest: u32 = index.records[index.records.len() - 1].reference.number;
        assert(largest == largest_of(whole));
        let final_size: u64 = measure_file(body_bytes, largest, catalog)?;
        let offset = find_source_offset(&index.records, catalog);
        check_size(final_size, &index.limits, catalog, offset)?;
        let working_bytes = checked_add(index.record_bytes, index.limits.io_chunk_bytes as u64)?;
        let root_offset = find_source_offset(&index.records, index.plan.pages_root);
        check_pdf_allocation(
            &index.limits,
            working_bytes,
            Some(index.plan.pages_root),
            root_offset,
        )?;
        let mut buffer: Vec<u8> = Vec::new();
        let refused = index.limits.allocation_refused("PDF I/O buffer allocation", working_bytes);
        reserve_exact(&mut buffer, index.limits.io_chunk_bytes, refused)?;
        let synthetic_pages: bool = match object_index(&index.records, index.plan.pages_root) {
            Some(k) => index.records[k].range.length == 0,
            None => false,
        };
        proof {
            lemma_position_extended(whole, whole.plan.pages_root);
            lemma_same_position(
                all_records(whole),
                index.records@,
                whole.plan.pages_root.number,
            );
        }
        Ok(
            (
                Layout {
                    plan: index.plan,
                    bookmarks: index.bookmarks,
                    limits: index.limits,
                    catalog,
                    synthetic_pages,
                    records: index.records,
                    outline,
                    largest,
                    body_bytes,
                    final_size,
                    index: Ghost(whole),
                },
                buffer,
            ),
        )
    }
}

} // verus!

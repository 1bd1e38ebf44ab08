//! The object index of a reconstruction, built from the plan alone.

use vstd::prelude::*;
use vstd::layout::size_of;
use crate::fallible::{allocator_refused, reserve_exact};
use crate::fragment::record::{
    allocation_failure, at, check_pdf_allocation, checked_add, checked_reference, indexed,
    is_numbered, lemma_position, malformed, object_index, pdf_error, pdf_limit, position_of,
    record_of, reference_failure, synthetic_record, FragmentObject, FragmentPlan, Record,
};
use crate::sorting::{
    ascending, lemma_reordered, lemma_reordered_append, lemma_reordered_pair, lemma_reordered_places,
    lemma_reordered_twice, reordered, sort_by_key, ByNumber, ByOffset, SortKey,
};
use crate::types::{
    first_failure, outcome, Bookmark, Error, Limits, PdfErrorKind, PdfRef, MAX_PDF_OBJECTS,
};

verus! {

impl SortKey<Record> for ByOffset {
    open spec fn of(value: Record) -> int {
        value.range.offset as int
    }

    fn key(value: &Record) -> (key: u64) {
        value.range.offset
    }
}

impl SortKey<Record> for ByNumber {
    open spec fn of(value: Record) -> int {
        value.reference.number as int
    }

    fn key(value: &Record) -> (key: u64) {
        value.reference.number as u64
    }
}

impl SortKey<PdfRef> for ByNumber {
    open spec fn of(value: PdfRef) -> int {
        value.number as int
    }

    fn key(value: &PdfRef) -> (key: u64) {
        value.number as u64
    }
}

/// The first supplied object, which allocations of the whole index are charged
/// to.
pub open spec fn first_object(objects: Seq<FragmentObject>) -> Option<PdfRef> {
    if objects.len() == 0 {
        None
    } else {
        Some(objects[0].reference)
    }
}

/// Where the first supplied object starts.
pub open spec fn first_offset(objects: Seq<FragmentObject>) -> u64 {
    if objects.len() == 0 {
        0
    } else {
        objects[0].range.offset
    }
}

pub open spec fn first_page(pages: Seq<PdfRef>) -> Option<PdfRef> {
    if pages.len() == 0 {
        None
    } else {
        Some(pages[0])
    }
}

/// Where the first object with this reference starts, from position `from` on.
pub open spec fn object_offset(objects: Seq<FragmentObject>, reference: PdfRef, from: int) -> u64
    decreases objects.len() - from,
{
    if from >= objects.len() {
        0
    } else if objects[from].reference == reference {
        objects[from].range.offset
    } else {
        object_offset(objects, reference, from + 1)
    }
}

fn find_object_offset(objects: &[FragmentObject], reference: PdfRef) -> (offset: u64)
    ensures
        offset == object_offset(objects@, reference, 0),
{
    let mut next: usize = 0;
    while next < objects.len()
        invariant
            next <= objects@.len(),
            object_offset(objects@, reference, 0) == object_offset(
                objects@,
                reference,
                next as int,
            ),
        decreases objects@.len() - next,
    {
        if objects[next].reference == reference {
            return objects[next].range.offset;
        }
        next += 1;
    }
    0
}

/// Why the number of bookmarks is refused.
pub open spec fn bookmark_count_failure(count: nat, plan: FragmentPlan, limits: Limits) -> Option<
    Error,
> {
    let limit = limits.max_bookmarks as u64;
    if count > u32::MAX {
        Some(pdf_limit(None, 0, "bookmarks", limit, u64::MAX))
    } else if count > limits.max_bookmarks {
        Some(pdf_limit(None, 0, "bookmarks", limit, count as u64))
    } else if count != 0 && plan.catalog is Some {
        Some(
            pdf_error(
                plan.catalog,
                0,
                PdfErrorKind::UnsupportedFeature,
                "fragment outline import requires a synthetic Catalog",
            ),
        )
    } else {
        None
    }
}

/// Why the number of pages is refused.
pub open spec fn page_count_failure(plan: FragmentPlan, limits: Limits) -> Option<Error> {
    let count = plan.pages@.len();
    let first = first_page(plan.pages@);
    let limit = limits.max_pages as u64;
    if count > u32::MAX {
        Some(pdf_limit(first, first_offset(plan.objects@), "pages", limit, count as u64))
    } else if count > limits.max_pages {
        Some(
            pdf_limit(
                first,
                object_offset(plan.objects@, plan.pages@[0], 0),
                "pages",
                limit,
                count as u64,
            ),
        )
    } else if count == 0 {
        Some(malformed(None, 0, "fragment has no pages"))
    } else {
        None
    }
}

/// Why the roots that the plan names are refused.
pub open spec fn roots_failure(plan: FragmentPlan) -> Option<Error> {
    first_failure(
        reference_failure(plan.pages_root, 0),
        match plan.catalog {
            Some(catalog) => reference_failure(catalog, 0),
            None => None,
        },
    )
}

/// How many objects the rebuilt file may need: the supplied ones, two roots,
/// and an outline.
pub open spec fn requested_objects(plan: FragmentPlan, bookmarks: nat) -> int {
    plan.objects@.len() + 2 + if bookmarks == 0 {
        0
    } else {
        bookmarks as int + 1
    }
}

/// The bytes of an index of that many objects.
pub open spec fn index_bytes(plan: FragmentPlan, bookmarks: nat) -> int {
    requested_objects(plan, bookmarks) * size_of::<Record>()
}

/// Why an index of that many objects is refused.
pub open spec fn index_size_failure(plan: FragmentPlan, bookmarks: nat, limits: Limits) -> Option<
    Error,
> {
    let first = first_object(plan.objects@);
    let offset = first_offset(plan.objects@);
    let requested = requested_objects(plan, bookmarks);
    if requested > usize::MAX {
        Some(Error::InvalidInput { reason: "PDF object count overflows address space" })
    } else if requested > MAX_PDF_OBJECTS {
        Some(
            pdf_limit(
                first,
                offset,
                "PDF object count",
                MAX_PDF_OBJECTS as u64,
                requested as u64,
            ),
        )
    } else if index_bytes(plan, bookmarks) > usize::MAX {
        Some(Error::InvalidInput { reason: "PDF object index allocation overflows address space" })
    } else {
        allocation_failure(limits, index_bytes(plan, bookmarks), first, offset)
    }
}

/// Why a request is refused before any object is looked at.
pub open spec fn request_failure(
    plan: FragmentPlan,
    bookmarks: nat,
    limits: Limits,
    cancelled: bool,
) -> Option<Error> {
    first_failure(
        limits.failure(),
        first_failure(
            bookmark_count_failure(bookmarks, plan, limits),
            first_failure(
                page_count_failure(plan, limits),
                first_failure(
                    roots_failure(plan),
                    if cancelled {
                        Some(Error::Cancelled)
                    } else {
                        index_size_failure(plan, bookmarks, limits)
                    },
                ),
            ),
        ),
    )
}

/// Check a request before any object is looked at, and size its index.
fn check_request(
    plan: &FragmentPlan,
    bookmarks: usize,
    limits: &Limits,
    cancelled: bool,
) -> (checked: Result<(usize, u64), Error>)
    ensures
        match request_failure(*plan, bookmarks as nat, *limits, cancelled) {
            Some(failure) => checked == Err::<(usize, u64), Error>(failure),
            None => {
                &&& checked is Ok
                &&& checked->Ok_0.0 == requested_objects(*plan, bookmarks as nat)
                &&& checked->Ok_0.1 == index_bytes(*plan, bookmarks as nat)
            },
        },
{
    limits.validate()?;
    let most_bookmarks: u64 = limits.max_bookmarks as u64;
    if bookmarks as u64 > u32::MAX as u64 {
        return Err(pdf_limit(None, 0, "bookmarks", most_bookmarks, u64::MAX));
    }
    if bookmarks as u64 > most_bookmarks {
        return Err(pdf_limit(None, 0, "bookmarks", most_bookmarks, bookmarks as u64));
    }
    if bookmarks != 0 && plan.catalog.is_some() {
        return Err(
            pdf_error(
                plan.catalog,
                0,
                PdfErrorKind::UnsupportedFeature,
                "fragment outline import requires a synthetic Catalog",
            ),
        );
    }
    let mut first: Option<PdfRef> = None;
    let mut offset: u64 = 0;
    if plan.objects.len() > 0 {
        first = Some(plan.objects[0].reference);
        offset = plan.objects[0].range.offset;
    }
    let pages: u64 = plan.pages.len() as u64;
    if pages == 0 {
        return Err(malformed(None, 0, "fragment has no pages"));
    } else if pages > u32::MAX as u64 {
        return Err(
            pdf_limit(Some(plan.pages[0]), offset, "pages", limits.max_pages as u64, pages),
        );
    } else if pages > limits.max_pages as u64 {
        let at_page = find_object_offset(plan.objects, plan.pages[0]);
        return Err(
            pdf_limit(Some(plan.pages[0]), at_page, "pages", limits.max_pages as u64, pages),
        );
    }
    checked_reference(plan.pages_root, 0)?;
    if let Some(catalog) = plan.catalog {
        checked_reference(catalog, 0)?;
    }
    if cancelled {
        return Err(Error::Cancelled);
    }
    let overflow = Error::InvalidInput { reason: "PDF object count overflows address space" };
    let mut requested: usize = match plan.objects.len().checked_add(2) {
        Some(count) => count,
        None => {
            return Err(overflow);
        },
    };
    if bookmarks != 0 {
        let outline: usize = match bookmarks.checked_add(1) {
            Some(count) => count,
            None => {
                return Err(overflow);
            },
        };
        requested = match requested.checked_add(outline) {
            Some(count) => count,
            None => {
                return Err(overflow);
            },
        };
    }
    if requested > MAX_PDF_OBJECTS as usize {
        return Err(
            pdf_limit(
                first,
                offset,
                "PDF object count",
                MAX_PDF_OBJECTS as u64,
                requested as u64,
            ),
        );
    }
    let bytes: usize = match requested.checked_mul(core::mem::size_of::<Record>()) {
        Some(bytes) => bytes,
        None => {
            return Err(
                Error::InvalidInput {
                    reason: "PDF object index allocation overflows address space",
                },
            );
        },
    };
    check_pdf_allocation(limits, bytes as u64, first, offset)?;
    Ok((requested, bytes as u64))
}

/// The bytes of the first `count` spans.
pub open spec fn span_bytes(objects: Seq<FragmentObject>, count: int) -> int
    decreases count,
{
    if count <= 0 {
        0
    } else {
        span_bytes(objects, count - 1) + objects[count - 1].range.length
    }
}

/// Why object `i` of the plan is refused.
pub open spec fn object_failure(
    objects: Seq<FragmentObject>,
    i: int,
    source_size: u64,
    max_input_bytes: u64,
) -> Option<Error> {
    let object = objects[i];
    let offset = object.range.offset;
    let length = object.range.length;
    let total = span_bytes(objects, i + 1);
    if reference_failure(object.reference, offset) is Some {
        reference_failure(object.reference, offset)
    } else if length == 0 {
        Some(malformed(Some(object.reference), offset, "indirect object span is empty"))
    } else if offset + length > u64::MAX {
        Some(
            malformed(
                Some(object.reference),
                offset,
                "indirect object span overflows 64-bit offset",
            ),
        )
    } else if offset + length > source_size {
        Some(
            Error::TruncatedInput {
                offset,
                expected: length,
                available: if source_size >= offset {
                    (source_size - offset) as u64
                } else {
                    0
                },
            },
        )
    } else if total > u64::MAX {
        Some(pdf_limit(Some(object.reference), offset, "input bytes", max_input_bytes, u64::MAX))
    } else if total > max_input_bytes {
        Some(
            pdf_limit(Some(object.reference), offset, "input bytes", max_input_bytes, total as u64),
        )
    } else {
        None
    }
}

/// The first failure among the objects from position `from` on.
pub open spec fn objects_failure(
    objects: Seq<FragmentObject>,
    from: int,
    source_size: u64,
    max_input_bytes: u64,
) -> Option<Error>
    decreases objects.len() - from,
{
    if from >= objects.len() {
        None
    } else {
        first_failure(
            object_failure(objects, from, source_size, max_input_bytes),
            objects_failure(objects, from + 1, source_size, max_input_bytes),
        )
    }
}

/// Whether an object of the plan can be copied: it has a supported number and
/// lies inside the source.
pub open spec fn copyable(object: FragmentObject, source_size: u64) -> bool {
    &&& reference_failure(object.reference, object.range.offset) is None
    &&& object.range.length > 0
    &&& object.range.offset + object.range.length <= source_size
}

/// The records of the supplied objects, in plan order.
pub open spec fn records_of(objects: Seq<FragmentObject>) -> Seq<Record> {
    Seq::new(objects.len(), |i: int| record_of(objects[i]))
}

/// Check every object of the plan, and record them in plan order.
pub fn index_objects(
    objects: &[FragmentObject],
    source_size: u64,
    max_input_bytes: u64,
    buffer: Vec<Record>,
) -> (recorded: Result<Vec<Record>, Error>)
    requires
        buffer@.len() == 0,
    ensures
        match objects_failure(objects@, 0, source_size, max_input_bytes) {
            Some(failure) => recorded == Err::<Vec<Record>, Error>(failure),
            None => {
                &&& recorded is Ok
                &&& recorded->Ok_0@ == records_of(objects@)
                &&& forall|i: int|
                    0 <= i < objects@.len() ==> copyable(#[trigger] objects@[i], source_size)
                &&& span_bytes(objects@, objects@.len() as int) <= max_input_bytes
            },
        },
{
    let mut records: Vec<Record> = buffer;
    let mut total: u64 = 0;
    let mut next: usize = 0;
    while next < objects.len()
        invariant
            next <= objects@.len(),
            records@.len() == next,
            total == span_bytes(objects@, next as int),
            total <= max_input_bytes,
            objects_failure(objects@, 0, source_size, max_input_bytes) == objects_failure(
                objects@,
                next as int,
                source_size,
                max_input_bytes,
            ),
            forall|i: int| 0 <= i < next ==> #[trigger] records@[i] == record_of(objects@[i]),
            forall|i: int| 0 <= i < next ==> copyable(#[trigger] objects@[i], source_size),
        decreases objects@.len() - next,
    {
        let object = objects[next];
        let offset = object.range.offset;
        checked_reference(object.reference, offset)?;
        if object.range.length == 0 {
            return Err(
                malformed(Some(object.reference), offset, "indirect object span is empty"),
            );
        }
        let end: u64 = match object.range.end() {
            Some(end) => end,
            None => {
                return Err(
                    malformed(
                        Some(object.reference),
                        offset,
                        "indirect object span overflows 64-bit offset",
                    ),
                );
            },
        };
        if end > source_size {
            return Err(
                Error::TruncatedInput {
                    offset,
                    expected: object.range.length,
                    available: source_size.saturating_sub(offset),
                },
            );
        }
        total = match total.checked_add(object.range.length) {
            Some(total) => total,
            None => {
                return Err(
                    pdf_limit(
                        Some(object.reference),
                        offset,
                        "input bytes",
                        max_input_bytes,
                        u64::MAX,
                    ),
                );
            },
        };
        if total > max_input_bytes {
            return Err(
                pdf_limit(Some(object.reference), offset, "input bytes", max_input_bytes, total),
            );
        }
        records.push(Record::from_fragment(object));
        next += 1;
    }
    assert(records@ =~= records_of(objects@));
    Ok(records)
}

/// Whether record `k` starts inside record `j`.
pub open spec fn starts_inside(records: Seq<Record>, k: int, j: int) -> bool {
    &&& 0 <= k < records.len()
    &&& 0 <= j < records.len()
    &&& j != k
    &&& records[j].range.offset <= records[k].range.offset < records[j].range.offset
        + records[j].range.length
}

/// Whether record `k` is the first, in source order, to start inside another.
pub open spec fn first_overlap(records: Seq<Record>, k: int) -> bool {
    &&& exists|j: int| starts_inside(records, k, j)
    &&& forall|other: int, j: int|
        #[trigger] starts_inside(records, other, j) ==> records[k].range.offset
            <= records[other].range.offset
}

/// Whether an error reports the first overlap of the records.
pub open spec fn overlap_reported(records: Seq<Record>, error: Error) -> bool {
    exists|k: int| #[trigger]
        first_overlap(records, k) && error == pdf_error(
            Some(records[k].reference),
            records[k].range.offset,
            PdfErrorKind::AmbiguousRepair,
            "indirect object spans overlap",
        )
}

/// No two records share a byte.
pub open spec fn disjoint(records: Seq<Record>) -> bool {
    forall|k: int, j: int| !(#[trigger] starts_inside(records, k, j))
}

/// Whether records `j` and `k` have the same object number.
pub open spec fn same_number(records: Seq<Record>, j: int, k: int) -> bool {
    &&& 0 <= j < records.len()
    &&& 0 <= k < records.len()
    &&& j != k
    &&& records[j].reference.number == records[k].reference.number
}

/// Whether record `k` has the smallest object number that occurs twice.
pub open spec fn first_duplicate(records: Seq<Record>, k: int) -> bool {
    &&& exists|j: int| same_number(records, j, k)
    &&& forall|i: int, j: int| #[trigger]
        same_number(records, i, j) ==> records[k].reference.number <= records[i].reference.number
}

/// Whether an error reports the smallest duplicate number of the records.
pub open spec fn duplicate_reported(records: Seq<Record>, error: Error) -> bool {
    exists|k: int| #[trigger]
        first_duplicate(records, k) && error == pdf_error(
            Some(records[k].reference),
            records[k].range.offset,
            PdfErrorKind::AmbiguousRepair,
            "duplicate indirect object number",
        )
}

/// No two records have the same object number.
pub open spec fn distinct(records: Seq<Record>) -> bool {
    forall|j: int, k: int| !(#[trigger] same_number(records, j, k))
}

proof fn lemma_overlap_reported(before: Seq<Record>, after: Seq<Record>, p: int)
    requires
        reordered(before, after),
        ascending::<Record, ByOffset>(after),
        0 <= p < after.len() - 1,
        after[p].range.offset + after[p].range.length > after[p + 1].range.offset,
        forall|i: int, j: int|
            0 <= i < j <= p ==> (#[trigger] after[i]).range.offset + after[i].range.length <= (
            #[trigger] after[j]).range.offset,
        forall|i: int| 0 <= i < before.len() ==> (#[trigger] before[i]).range.length > 0,
    ensures
        overlap_reported(
            before,
            pdf_error(
                Some(after[p + 1].reference),
                after[p + 1].range.offset,
                PdfErrorKind::AmbiguousRepair,
                "indirect object spans overlap",
            ),
        ),
{
    let (k, j) = lemma_reordered_pair(before, after, p + 1, p);
    assert(starts_inside(before, k, j));
    assert forall|other: int, by: int| #[trigger]
        starts_inside(before, other, by) implies before[k].range.offset
        <= before[other].range.offset by {
        let (a, b) = lemma_reordered_places(before, after, other, by);
        if a <= p {
            // Everything up to `p` is free of overlaps.
            if b < a {
                assert(after[b].range.offset + after[b].range.length <= after[a].range.offset);
            } else if b <= p {
                assert(after[a].range.offset + after[a].range.length <= after[b].range.offset);
            } else {
                assert(after[p].range.offset <= after[b].range.offset);
                if a < p {
                    assert(after[a].range.offset + after[a].range.length
                        <= after[p].range.offset);
                }
                assert(after[p + 1].range.offset <= after[b].range.offset);
            }
        } else {
            assert(after[p + 1].range.offset <= after[a].range.offset);
        }
    }
    assert(first_overlap(before, k));
}

proof fn lemma_disjoint(before: Seq<Record>, after: Seq<Record>)
    requires
        reordered(before, after),
        forall|i: int, j: int|
            0 <= i < j < after.len() ==> (#[trigger] after[i]).range.offset
                + after[i].range.length <= (#[trigger] after[j]).range.offset,
        forall|i: int| 0 <= i < before.len() ==> (#[trigger] before[i]).range.length > 0,
    ensures
        disjoint(before),
{
    assert forall|k: int, j: int| !(#[trigger] starts_inside(before, k, j)) by {
        if starts_inside(before, k, j) {
            let (a, b) = lemma_reordered_places(before, after, k, j);
            if a < b {
                assert(after[a].range.offset + after[a].range.length <= after[b].range.offset);
            } else {
                assert(after[b].range.offset + after[b].range.length <= after[a].range.offset);
            }
        }
    }
}

/// Sort the records by offset, and refuse overlaps.
fn check_overlaps(records: &mut Vec<Record>) -> (checked: Result<(), Error>)
    requires
        forall|i: int|
            0 <= i < old(records)@.len() ==> {
                &&& (#[trigger] old(records)@[i]).range.length > 0
                &&& old(records)@[i].range.offset + old(records)@[i].range.length <= u64::MAX
            },
    ensures
        reordered(old(records)@, final(records)@),
        match checked {
            Ok(()) => disjoint(old(records)@),
            Err(error) => !disjoint(old(records)@) && overlap_reported(old(records)@, error),
        },
{
    let ghost before = records@;
    sort_by_key::<Record, ByOffset>(records);
    proof {
        lemma_reordered(before, records@);
        assert forall|i: int| 0 <= i < records@.len() implies {
            &&& (#[trigger] records@[i]).range.length > 0
            &&& records@[i].range.offset + records@[i].range.length <= u64::MAX
        } by {
            let k = choose|k: int| 0 <= k < before.len() && before[k] == records@[i];
            assert(before[k].range.length > 0);
        }
    }
    let mut next: usize = 1;
    while next < records.len()
        invariant
            1 <= next,
            before == old(records)@,
            reordered(before, records@),
            ascending::<Record, ByOffset>(records@),
            forall|i: int| 0 <= i < before.len() ==> (#[trigger] before[i]).range.length > 0,
            forall|i: int|
                0 <= i < records@.len() ==> {
                    &&& (#[trigger] records@[i]).range.length > 0
                    &&& records@[i].range.offset + records@[i].range.length <= u64::MAX
                },
            forall|i: int, j: int|
                0 <= i < j < next && j < records@.len() ==> (#[trigger] records@[i]).range.offset
                    + records@[i].range.length <= (#[trigger] records@[j]).range.offset,
        decreases records@.len() - next,
    {
        let previous = records[next - 1];
        let record = records[next];
        if previous.range.offset + previous.range.length > record.range.offset {
            let error = pdf_error(
                Some(record.reference),
                record.range.offset,
                PdfErrorKind::AmbiguousRepair,
                "indirect object spans overlap",
            );
            proof {
                lemma_overlap_reported(before, records@, next - 1);
                let k = choose|k: int| first_overlap(before, k);
                let j = choose|j: int| starts_inside(before, k, j);
                assert(starts_inside(before, k, j));
            }
            return Err(error);
        }
        next += 1;
    }
    proof {
        lemma_disjoint(before, records@);
    }
    Ok(())
}

proof fn lemma_duplicate_reported(before: Seq<Record>, after: Seq<Record>, p: int)
    requires
        reordered(before, after),
        ascending::<Record, ByNumber>(after),
        0 <= p < after.len() - 1,
        after[p].reference.number == after[p + 1].reference.number,
        forall|i: int, j: int|
            0 <= i < j <= p ==> (#[trigger] after[i]).reference.number < (
            #[trigger] after[j]).reference.number,
    ensures
        duplicate_reported(
            before,
            pdf_error(
                Some(after[p + 1].reference),
                after[p + 1].range.offset,
                PdfErrorKind::AmbiguousRepair,
                "duplicate indirect object number",
            ),
        ),
        !distinct(before),
{
    let (k, j) = lemma_reordered_pair(before, after, p + 1, p);
    assert(same_number(before, j, k));
    assert forall|other: int, by: int| #[trigger]
        same_number(before, other, by) implies before[k].reference.number
        <= before[other].reference.number by {
        let (a, b) = lemma_reordered_places(before, after, other, by);
        if a <= p && b <= p {
            if a < b {
                assert(after[a].reference.number < after[b].reference.number);
            } else {
                assert(after[b].reference.number < after[a].reference.number);
            }
        } else if a > p {
            assert(after[p + 1].reference.number <= after[a].reference.number);
        } else {
            assert(after[p + 1].reference.number <= after[b].reference.number);
        }
    }
    assert(first_duplicate(before, k));
}

/// Records in order of distinct numbers are an index.
proof fn lemma_indexed(before: Seq<Record>, after: Seq<Record>)
    requires
        reordered(before, after),
        ascending::<Record, ByNumber>(after),
        distinct(before),
    ensures
        indexed(after),
{
    assert forall|i: int, j: int| 0 <= i < j < after.len() implies (
    #[trigger] after[i]).reference.number < (#[trigger] after[j]).reference.number by {
        let (a, b) = lemma_reordered_pair(before, after, i, j);
        assert(!same_number(before, a, b));
    }
}

/// Sort the records by number, and refuse duplicates.
fn check_numbers(records: &mut Vec<Record>, Ghost(plan_order): Ghost<Seq<Record>>) -> (checked:
    Result<(), Error>)
    requires
        reordered(plan_order, old(records)@),
    ensures
        reordered(plan_order, final(records)@),
        match checked {
            Ok(()) => distinct(plan_order) && indexed(final(records)@),
            Err(error) => !distinct(plan_order) && duplicate_reported(plan_order, error),
        },
{
    let ghost before = records@;
    sort_by_key::<Record, ByNumber>(records);
    proof {
        lemma_reordered_twice(plan_order, before, records@);
    }
    let mut next: usize = 1;
    while next < records.len()
        invariant
            1 <= next,
            reordered(plan_order, records@),
            ascending::<Record, ByNumber>(records@),
            forall|i: int, j: int|
                0 <= i < j < next && j < records@.len() ==> (
                #[trigger] records@[i]).reference.number < (#[trigger] records@[j]).reference.number,
        decreases records@.len() - next,
    {
        let record = records[next];
        if records[next - 1].reference.number == record.reference.number {
            proof {
                lemma_duplicate_reported(plan_order, records@, next - 1);
            }
            return Err(
                pdf_error(
                    Some(record.reference),
                    record.range.offset,
                    PdfErrorKind::AmbiguousRepair,
                    "duplicate indirect object number",
                ),
            );
        }
        assert(records@[next - 1].reference.number < records@[next as int].reference.number);
        next += 1;
    }
    proof {
        assert forall|j: int, k: int| !(#[trigger] same_number(plan_order, j, k)) by {
            if same_number(plan_order, j, k) {
                let (a, b) = lemma_reordered_places(plan_order, records@, j, k);
                if a < b {
                    assert(records@[a].reference.number < records@[b].reference.number);
                } else {
                    assert(records@[b].reference.number < records@[a].reference.number);
                }
            }
        }
    }
    Ok(())
}

/// Whether the plan supplies an object with this number.
pub open spec fn supplied(objects: Seq<FragmentObject>, number: u32) -> bool {
    exists|i: int| 0 <= i < objects.len() && (#[trigger] objects[i]).reference.number == number
}

/// The first failure among the ordered pages from position `from` on.
pub open spec fn pages_failure(
    objects: Seq<FragmentObject>,
    pages: Seq<PdfRef>,
    from: int,
) -> Option<Error>
    decreases pages.len() - from,
{
    if from >= pages.len() {
        None
    } else if reference_failure(pages[from], 0) is Some {
        reference_failure(pages[from], 0)
    } else if !supplied(objects, pages[from].number) {
        Some(malformed(Some(pages[from]), 0, "ordered page object is missing"))
    } else {
        pages_failure(objects, pages, from + 1)
    }
}

/// Whether the records hold exactly the supplied objects.
pub open spec fn holds_objects(records: Seq<Record>, objects: Seq<FragmentObject>) -> bool {
    &&& indexed(records)
    &&& reordered(records_of(objects), records)
}

proof fn lemma_supplied(records: Seq<Record>, objects: Seq<FragmentObject>, number: u32)
    requires
        holds_objects(records, objects),
    ensures
        supplied(objects, number) <==> position_of(records, number) is Some,
{
    let listed = records_of(objects);
    lemma_reordered(listed, records);
    if supplied(objects, number) {
        let i = choose|i: int|
            0 <= i < objects.len() && (#[trigger] objects[i]).reference.number == number;
        assert(records.contains(listed[i]));
        let p = choose|p: int| 0 <= p < records.len() && records[p] == listed[i];
        assert(is_numbered(records, p, number));
    }
    if position_of(records, number) is Some {
        let p = choose|p: int| is_numbered(records, p, number);
        assert(listed.contains(records[p]));
        let i = choose|i: int| 0 <= i < listed.len() && listed[i] == records[p];
        assert(objects[i].reference.number == number);
    }
}

/// Check that every ordered page is a supplied object.
fn check_pages(pages: &[PdfRef], records: &[Record], Ghost(objects): Ghost<Seq<FragmentObject>>)
    -> (checked: Result<(), Error>)
    requires
        holds_objects(records@, objects),
    ensures
        checked == outcome(pages_failure(objects, pages@, 0)),
        checked is Ok ==> forall|i: int|
            0 <= i < pages@.len() ==> reference_failure(#[trigger] pages@[i], 0) is None
                && position_of(records@, pages@[i].number) is Some,
{
    let mut next: usize = 0;
    while next < pages.len()
        invariant
            next <= pages@.len(),
            holds_objects(records@, objects),
            pages_failure(objects, pages@, 0) == pages_failure(objects, pages@, next as int),
            forall|i: int|
                0 <= i < next ==> reference_failure(#[trigger] pages@[i], 0) is None
                    && position_of(records@, pages@[i].number) is Some,
        decreases pages@.len() - next,
    {
        let page = pages[next];
        checked_reference(page, 0)?;
        proof {
            lemma_supplied(records@, objects, page.number);
        }
        if object_index(records, page).is_none() {
            return Err(malformed(Some(page), 0, "ordered page object is missing"));
        }
        next += 1;
    }
    Ok(())
}

/// The bytes of an index of the ordered pages.
pub open spec fn page_bytes(pages: Seq<PdfRef>) -> int {
    (pages.len() * size_of::<PdfRef>()) as int
}

/// Why an index of the ordered pages is refused.
pub open spec fn page_index_failure(plan: FragmentPlan, bookmarks: nat, limits: Limits) -> Option<
    Error,
> {
    if page_bytes(plan.pages@) > usize::MAX {
        Some(Error::InvalidInput { reason: "PDF page index allocation overflows address space" })
    } else {
        allocation_failure(
            limits,
            index_bytes(plan, bookmarks) + page_bytes(plan.pages@),
            first_page(plan.pages@),
            first_offset(plan.objects@),
        )
    }
}

/// Whether pages `j` and `k` are the same object.
pub open spec fn same_page(pages: Seq<PdfRef>, j: int, k: int) -> bool {
    &&& 0 <= j < pages.len()
    &&& 0 <= k < pages.len()
    &&& j != k
    &&& pages[j].number == pages[k].number
}

/// Whether page `k` has the smallest number that is listed twice.
pub open spec fn first_repeat(pages: Seq<PdfRef>, k: int) -> bool {
    &&& exists|j: int| same_page(pages, j, k)
    &&& forall|i: int, j: int| #[trigger]
        same_page(pages, i, j) ==> pages[k].number <= pages[i].number
}

/// Whether an error reports the smallest page that is listed twice.
pub open spec fn repeat_reported(pages: Seq<PdfRef>, error: Error) -> bool {
    exists|k: int| #[trigger]
        first_repeat(pages, k) && error == pdf_error(
            Some(pages[k]),
            0,
            PdfErrorKind::AmbiguousRepair,
            "ordered page object is repeated",
        )
}

/// No page is listed twice.
pub open spec fn listed_once(pages: Seq<PdfRef>) -> bool {
    forall|j: int, k: int| !(#[trigger] same_page(pages, j, k))
}

/// Whether `sorted` is the pages in strictly increasing order of number.
pub open spec fn is_page_index(sorted: Seq<PdfRef>, pages: Seq<PdfRef>) -> bool {
    &&& reordered(pages, sorted)
    &&& forall|i: int, j: int|
        0 <= i < j < sorted.len() ==> (#[trigger] sorted[i]).number < (#[trigger] sorted[j]).number
}

/// Sort the ordered pages by number, and refuse repeats.
pub fn index_pages(pages: &[PdfRef], buffer: Vec<PdfRef>) -> (sorted: Result<Vec<PdfRef>, Error>)
    requires
        buffer@.len() == 0,
    ensures
        match sorted {
            Ok(sorted) => listed_once(pages@) && is_page_index(sorted@, pages@),
            Err(error) => !listed_once(pages@) && repeat_reported(pages@, error),
        },
{
    let mut sorted: Vec<PdfRef> = buffer;
    sorted.extend_from_slice(pages);
    assert(sorted@ =~= pages@);
    sort_by_key::<PdfRef, ByNumber>(&mut sorted);
    let mut next: usize = 1;
    while next < sorted.len()
        invariant
            1 <= next,
            reordered(pages@, sorted@),
            ascending::<PdfRef, ByNumber>(sorted@),
            forall|i: int, j: int|
                0 <= i < j < next && j < sorted@.len() ==> (#[trigger] sorted@[i]).number < (
                #[trigger] sorted@[j]).number,
        decreases sorted@.len() - next,
    {
        let page = sorted[next];
        if sorted[next - 1].number == page.number {
            proof {
                let p = next - 1;
                let (k, j) = lemma_reordered_pair(pages@, sorted@, p + 1, p);
                assert(same_page(pages@, j, k));
                assert forall|other: int, by: int| #[trigger]
                    same_page(pages@, other, by) implies pages@[k].number
                    <= pages@[other].number by {
                    let (a, b) = lemma_reordered_places(pages@, sorted@, other, by);
                    if a <= p && b <= p {
                        if a < b {
                            assert(sorted@[a].number < sorted@[b].number);
                        } else {
                            assert(sorted@[b].number < sorted@[a].number);
                        }
                    } else if a > p {
                        assert(sorted@[p + 1].number <= sorted@[a].number);
                    } else {
                        assert(sorted@[p + 1].number <= sorted@[b].number);
                    }
                }
                assert(first_repeat(pages@, k));
            }
            return Err(
                pdf_error(
                    Some(page),
                    0,
                    PdfErrorKind::AmbiguousRepair,
                    "ordered page object is repeated",
                ),
            );
        }
        assert(sorted@[next - 1].number < sorted@[next as int].number);
        next += 1;
    }
    proof {
        assert forall|j: int, k: int| !(#[trigger] same_page(pages@, j, k)) by {
            if same_page(pages@, j, k) {
                let (a, b) = lemma_reordered_places(pages@, sorted@, j, k);
                if a < b {
                    assert(sorted@[a].number < sorted@[b].number);
                } else {
                    assert(sorted@[b].number < sorted@[a].number);
                }
            }
        }
    }
    Ok(sorted)
}

/// The largest number among the first `count` objects and the root.
pub open spec fn largest_number(objects: Seq<FragmentObject>, root: u32, count: int) -> u32
    decreases count,
{
    if count <= 0 {
        root
    } else {
        let largest = largest_number(objects, root, count - 1);
        if objects[count - 1].reference.number > largest {
            objects[count - 1].reference.number
        } else {
            largest
        }
    }
}

/// The catalog of the rebuilt file: the selected one, or one numbered after
/// every other object.
pub open spec fn catalog_of(plan: FragmentPlan) -> PdfRef {
    match plan.catalog {
        Some(catalog) => catalog,
        None => PdfRef {
            number: (largest_number(
                plan.objects@,
                plan.pages_root.number,
                plan.objects@.len() as int,
            ) + 1) as u32,
            generation: 0,
        },
    }
}

/// Why there is no catalog.
pub open spec fn catalog_failure(plan: FragmentPlan) -> Option<Error> {
    match plan.catalog {
        Some(catalog) => if supplied(plan.objects@, catalog.number) {
            None
        } else {
            Some(malformed(Some(catalog), 0, "catalog object is missing"))
        },
        None => reference_failure(catalog_of(plan), 0),
    }
}

proof fn lemma_largest(objects: Seq<FragmentObject>, root: u32, count: int)
    requires
        0 <= count <= objects.len(),
    ensures
        largest_number(objects, root, count) >= root,
        forall|i: int|
            0 <= i < count ==> (#[trigger] objects[i]).reference.number <= largest_number(
                objects,
                root,
                count,
            ),
        largest_number(objects, root, count) == root || exists|i: int|
            0 <= i < count && (#[trigger] objects[i]).reference.number == largest_number(
                objects,
                root,
                count,
            ),
    decreases count,
{
    if count > 0 {
        lemma_largest(objects, root, count - 1);
        assert(objects[count - 1].reference.number <= largest_number(objects, root, count));
        if objects[count - 1].reference.number <= largest_number(objects, root, count - 1)
            && largest_number(objects, root, count - 1) != root {
            let i = choose|i: int|
                0 <= i < count - 1 && (#[trigger] objects[i]).reference.number == largest_number(
                    objects,
                    root,
                    count - 1,
                );
            assert(objects[i].reference.number == largest_number(objects, root, count));
        }
    }
}

/// The last record has the largest supplied number.
proof fn lemma_last_is_largest(records: Seq<Record>, objects: Seq<FragmentObject>, root: u32)
    requires
        holds_objects(records, objects),
    ensures
        records.len() == objects.len(),
        largest_number(objects, root, objects.len() as int) == (if records.len() > 0
            && records.last().reference.number > root {
            records.last().reference.number
        } else {
            root
        }),
{
    let listed = records_of(objects);
    lemma_reordered(listed, records);
    lemma_largest(objects, root, objects.len() as int);
    let largest = largest_number(objects, root, objects.len() as int);
    if records.len() > 0 {
        assert(listed.contains(records.last()));
        let i = choose|i: int| 0 <= i < listed.len() && listed[i] == records.last();
        assert(objects[i].reference.number <= largest);
        if largest != root {
            let k = choose|k: int|
                0 <= k < objects.len() && (#[trigger] objects[k]).reference.number == largest;
            assert(records.contains(listed[k]));
            let p = choose|p: int| 0 <= p < records.len() && records[p] == listed[k];
            if p < records.len() - 1 {
                assert(records[p].reference.number < records[records.len()
                    - 1].reference.number);
            }
        }
    }
}

/// Choose the catalog of the rebuilt file.
fn choose_catalog(plan: &FragmentPlan, records: &[Record]) -> (chosen: Result<PdfRef, Error>)
    requires
        holds_objects(records@, plan.objects@),
        reference_failure(plan.pages_root, 0) is None,
        forall|i: int|
            0 <= i < records@.len() ==> (#[trigger] records@[i]).reference.number
                <= MAX_PDF_OBJECTS,
    ensures
        chosen == (match catalog_failure(*plan) {
            Some(failure) => Err::<PdfRef, Error>(failure),
            None => Ok(catalog_of(*plan)),
        }),
{
    match plan.catalog {
        Some(reference) => {
            proof {
                lemma_supplied(records@, plan.objects@, reference.number);
            }
            if object_index(records, reference).is_none() {
                return Err(malformed(Some(reference), 0, "catalog object is missing"));
            }
            Ok(reference)
        },
        None => {
            proof {
                lemma_last_is_largest(records@, plan.objects@, plan.pages_root.number);
            }
            let mut largest: u32 = plan.pages_root.number;
            if records.len() > 0 {
                let last: u32 = records[records.len() - 1].reference.number;
                if last > largest {
                    largest = last;
                }
            }
            let reference = PdfRef { number: largest + 1, generation: 0 };
            checked_reference(reference, 0)?;
            Ok(reference)
        },
    }
}

/// The objects that the reconstruction writes itself as roots.
pub open spec fn synthetic_roots(plan: FragmentPlan) -> Seq<Record> {
    (if supplied(plan.objects@, plan.pages_root.number) {
        Seq::empty()
    } else {
        seq![synthetic_record(plan.pages_root)]
    }) + (if plan.catalog is Some {
        Seq::empty()
    } else {
        seq![synthetic_record(catalog_of(plan))]
    })
}

/// Whether the records are the supplied objects and the synthesized roots in
/// order of object number.
pub open spec fn is_full_index(records: Seq<Record>, plan: FragmentPlan) -> bool {
    &&& indexed(records)
    &&& reordered(records_of(plan.objects@) + synthetic_roots(plan), records)
}

proof fn lemma_roots_distinct(plan: FragmentPlan, records: Seq<Record>)
    requires
        holds_objects(records, plan.objects@),
        catalog_failure(plan) is None,
        plan.pages_root.number <= MAX_PDF_OBJECTS,
        forall|i: int|
            0 <= i < records.len() ==> (#[trigger] records[i]).reference.number <= MAX_PDF_OBJECTS,
    ensures
        distinct(records + synthetic_roots(plan)),
{
    let all = records + synthetic_roots(plan);
    let n = records.len();
    lemma_last_is_largest(records, plan.objects@, plan.pages_root.number);
    lemma_supplied(records, plan.objects@, plan.pages_root.number);
    let largest = largest_number(
        plan.objects@,
        plan.pages_root.number,
        plan.objects@.len() as int,
    );
    lemma_largest(plan.objects@, plan.pages_root.number, plan.objects@.len() as int);
    assert forall|i: int| 0 <= i < n implies (#[trigger] records[i]).reference.number
        <= largest by {
        if i < n - 1 {
            assert(records[i].reference.number < records[n - 1].reference.number);
        }
    }
    assert(largest <= MAX_PDF_OBJECTS);
    assert forall|j: int, k: int| !(#[trigger] same_number(all, j, k)) by {
        if same_number(all, j, k) {
            if j < n && k < n {
                if j < k {
                    assert(records[j].reference.number < records[k].reference.number);
                } else {
                    assert(records[k].reference.number < records[j].reference.number);
                }
            } else if j < n {
                assert(records[j].reference.number <= largest);
                if all[k].reference.number == plan.pages_root.number {
                    assert(is_numbered(records, j, plan.pages_root.number));
                }
            } else if k < n {
                assert(records[k].reference.number <= largest);
                if all[j].reference.number == plan.pages_root.number {
                    assert(is_numbered(records, k, plan.pages_root.number));
                }
            }
        }
    }
}

/// Add the roots that were not supplied, in order of object number.
fn add_roots(plan: &FragmentPlan, records: &mut Vec<Record>, catalog: PdfRef)
    requires
        holds_objects(old(records)@, plan.objects@),
        catalog_failure(*plan) is None,
        catalog == catalog_of(*plan),
        plan.pages_root.number <= MAX_PDF_OBJECTS,
        forall|i: int|
            0 <= i < old(records)@.len() ==> (#[trigger] old(records)@[i]).reference.number
                <= MAX_PDF_OBJECTS,
    ensures
        is_full_index(final(records)@, *plan),
{
    let ghost before = records@;
    let ghost roots = synthetic_roots(*plan);
    proof {
        lemma_roots_distinct(*plan, before);
        lemma_reordered_append(records_of(plan.objects@), before, roots);
        lemma_supplied(before, plan.objects@, plan.pages_root.number);
    }
    if object_index(records, plan.pages_root).is_none() {
        records.push(Record::synthetic(plan.pages_root));
    }
    if plan.catalog.is_none() {
        records.push(Record::synthetic(catalog));
    }
    assert(records@ =~= before + roots);
    sort_by_key::<Record, ByNumber>(records);
    proof {
        lemma_indexed(before + roots, records@);
        lemma_reordered_twice(records_of(plan.objects@) + roots, before + roots, records@);
    }
}

/// A reconstruction whose plan has been accepted, before its objects have been
/// inspected.
pub struct Reconstruction<'a> {
    pub plan: FragmentPlan<'a>,
    pub bookmarks: &'a [Bookmark],
    pub limits: Limits,
    pub source_size: u64,
    pub records: Vec<Record>,
    pub sorted_pages: Vec<PdfRef>,
    pub catalog: PdfRef,
    pub record_bytes: u64,
    pub page_index_bytes: u64,
}

/// Whether nothing in a plan stands against reconstruction.
pub open spec fn plan_accepted(
    plan: FragmentPlan,
    bookmarks: nat,
    limits: Limits,
    source_size: u64,
    cancelled: bool,
) -> bool {
    let listed = records_of(plan.objects@);
    &&& request_failure(plan, bookmarks, limits, cancelled) is None
    &&& objects_failure(plan.objects@, 0, source_size, limits.max_input_bytes) is None
    &&& disjoint(listed)
    &&& distinct(listed)
    &&& pages_failure(plan.objects@, plan.pages@, 0) is None
    &&& page_index_failure(plan, bookmarks, limits) is None
    &&& listed_once(plan.pages@)
    &&& catalog_failure(plan) is None
}

/// Whether an error is the first thing that stands against a plan.
pub open spec fn plan_refused(
    plan: FragmentPlan,
    bookmarks: nat,
    limits: Limits,
    source_size: u64,
    cancelled: bool,
    error: Error,
) -> bool {
    let listed = records_of(plan.objects@);
    let request = request_failure(plan, bookmarks, limits, cancelled);
    let objects = objects_failure(plan.objects@, 0, source_size, limits.max_input_bytes);
    let pages = pages_failure(plan.objects@, plan.pages@, 0);
    let page_index = page_index_failure(plan, bookmarks, limits);
    if request is Some {
        error == request->0
    } else {
        ||| allocator_refused(
            error,
            "PDF object index allocation",
            limits,
            index_bytes(plan, bookmarks),
        )
        ||| if objects is Some {
            error == objects->0
        } else if !disjoint(listed) {
            overlap_reported(listed, error)
        } else if !distinct(listed) {
            duplicate_reported(listed, error)
        } else if pages is Some {
            error == pages->0
        } else if page_index is Some {
            error == page_index->0
        } else {
            ||| allocator_refused(
                error,
                "PDF page index allocation",
                limits,
                page_bytes(plan.pages@),
            )
            ||| if !listed_once(plan.pages@) {
                repeat_reported(plan.pages@, error)
            } else {
                catalog_failure(plan) == Some(error)
            }
        }
    }
}

impl<'a> Reconstruction<'a> {
    /// Whether the plan was accepted and its index is complete.
    pub open spec fn well_formed(self) -> bool {
        &&& plan_accepted(self.plan, self.bookmarks@.len(), self.limits, self.source_size, false)
        &&& is_full_index(self.records@, self.plan)
        &&& is_page_index(self.sorted_pages@, self.plan.pages@)
        &&& self.catalog == catalog_of(self.plan)
        &&& self.record_bytes == index_bytes(self.plan, self.bookmarks@.len())
        &&& self.page_index_bytes == page_bytes(self.plan.pages@)
    }
}

/// What a supplied object's record holds, when the objects were accepted.
proof fn lemma_objects_copyable(
    objects: Seq<FragmentObject>,
    from: int,
    i: int,
    source_size: u64,
    max_input_bytes: u64,
)
    requires
        0 <= from <= i < objects.len(),
        objects_failure(objects, from, source_size, max_input_bytes) is None,
    ensures
        copyable(objects[i], source_size),
    decreases i - from,
{
    if from < i {
        lemma_objects_copyable(objects, from + 1, i, source_size, max_input_bytes);
    }
}

/// What every record of a complete index holds.
pub proof fn lemma_index_records(index: Reconstruction)
    requires
        index.well_formed(),
    ensures
        indexed(index.records@),
        0 < index.records@.len() <= MAX_PDF_OBJECTS,
        forall|k: int|
            0 <= k < index.records@.len() ==> {
                let record = #[trigger] index.records@[k];
                &&& 1 <= record.reference.number <= MAX_PDF_OBJECTS
                &&& record.reference.generation == 0
                &&& record.output_offset == 0
                &&& record.range.offset + record.range.length <= index.source_size
                &&& record.range.length == 0 ==> {
                    ||| record.reference == index.plan.pages_root && !supplied(
                        index.plan.objects@,
                        index.plan.pages_root.number,
                    )
                    ||| record.reference == index.catalog && index.plan.catalog is None
                }
            },
{
    let plan = index.plan;
    let listed = records_of(plan.objects@) + synthetic_roots(plan);
    let roots = synthetic_roots(plan);
    lemma_reordered(listed, index.records@);
    assert(catalog_failure(plan) is None);
    assert forall|k: int| 0 <= k < index.records@.len() implies {
        let record = #[trigger] index.records@[k];
        &&& 1 <= record.reference.number <= MAX_PDF_OBJECTS
        &&& record.reference.generation == 0
        &&& record.output_offset == 0
        &&& record.range.offset + record.range.length <= index.source_size
        &&& record.range.length == 0 ==> {
            ||| record.reference == plan.pages_root && !supplied(
                plan.objects@,
                plan.pages_root.number,
            )
            ||| record.reference == index.catalog && plan.catalog is None
        }
    } by {
        assert(listed.contains(index.records@[k]));
        let i = choose|i: int| 0 <= i < listed.len() && listed[i] == index.records@[k];
        if i < plan.objects@.len() {
            lemma_objects_copyable(
                plan.objects@,
                0,
                i,
                index.source_size,
                index.limits.max_input_bytes,
            );
        }
    }
    if index.records@.len() == 0 {
        assert(supplied(plan.objects@, plan.pages@[0].number));
        let i = choose|i: int|
            0 <= i < plan.objects@.len() && (#[trigger] plan.objects@[i]).reference.number
                == plan.pages@[0].number;
        assert(listed.len() > 0);
    }
}

proof fn lemma_same_records(one: Seq<Record>, other: Seq<Record>, count: int)
    requires
        indexed(one),
        indexed(other),
        one.len() == other.len(),
        forall|i: int| 0 <= i < one.len() ==> other.contains(#[trigger] one[i]),
        forall|i: int| 0 <= i < other.len() ==> one.contains(#[trigger] other[i]),
        0 <= count <= one.len(),
    ensures
        forall|i: int| 0 <= i < count ==> one[i] == other[i],
    decreases count,
{
    if count > 0 {
        let k = count - 1;
        lemma_same_records(one, other, k);
        assert(other.contains(one[k]));
        let p = choose|p: int| 0 <= p < other.len() && other[p] == one[k];
        assert(p >= k) by {
            if p < k {
                assert(one[p] == other[p]);
            }
        }
        assert(one.contains(other[k]));
        let q = choose|q: int| 0 <= q < one.len() && one[q] == other[k];
        assert(q >= k) by {
            if q < k {
                assert(one[q] == other[q]);
            }
        }
    }
}

/// The index holds what the plan says, whatever the limits are.
pub proof fn lemma_index_of_plan(one: Reconstruction, other: Reconstruction)
    requires
        one.well_formed(),
        other.well_formed(),
        one.plan == other.plan,
    ensures
        one.records@ == other.records@,
        one.catalog == other.catalog,
{
    let listed = records_of(one.plan.objects@) + synthetic_roots(one.plan);
    lemma_reordered(listed, one.records@);
    lemma_reordered(listed, other.records@);
    assert forall|i: int| 0 <= i < one.records@.len() implies other.records@.contains(
        #[trigger] one.records@[i],
    ) by {
        assert(listed.contains(one.records@[i]));
    }
    assert forall|i: int| 0 <= i < other.records@.len() implies one.records@.contains(
        #[trigger] other.records@[i],
    ) by {
        assert(listed.contains(other.records@[i]));
    }
    lemma_same_records(one.records@, other.records@, one.records@.len() as int);
    assert(one.records@ =~= other.records@);
}

/// A catalog that the plan does not name is numbered just after all objects and
/// the page tree root.
pub proof fn lemma_new_catalog(index: Reconstruction)
    requires
        index.well_formed(),
        index.plan.catalog is None,
    ensures
        index.catalog.generation == 0,
        index.plan.pages_root.number < index.catalog.number,
        forall|i: int|
            0 <= i < index.plan.objects@.len() ==> (
            #[trigger] index.plan.objects@[i]).reference.number < index.catalog.number,
        index.catalog.number == index.plan.pages_root.number + 1 || exists|i: int|
            0 <= i < index.plan.objects@.len() && (
            #[trigger] index.plan.objects@[i]).reference.number + 1 == index.catalog.number,
{
    let objects = index.plan.objects@;
    let root = index.plan.pages_root.number;
    lemma_largest(objects, root, objects.len() as int);
    lemma_index_records(index);
    let largest = largest_number(objects, root, objects.len() as int);
    assert(largest <= MAX_PDF_OBJECTS) by {
        if largest != root {
            let i = choose|i: int|
                0 <= i < objects.len() && (#[trigger] objects[i]).reference.number == largest;
            lemma_objects_copyable(objects, 0, i, index.source_size, index.limits.max_input_bytes);
        }
    }
    assert(index.catalog.number == largest + 1);
}

/// Where the roots stand in a complete index.
pub proof fn lemma_index_roots(index: Reconstruction)
    requires
        index.well_formed(),
    ensures
        position_of(index.records@, index.plan.pages_root.number) matches Some(i) && {
            &&& 0 <= i < index.records@.len()
            &&& index.records@[i].reference == index.plan.pages_root
            &&& index.records@[i].range.length == 0 <==> !supplied(
                index.plan.objects@,
                index.plan.pages_root.number,
            )
        },
        position_of(index.records@, index.catalog.number) matches Some(i) && {
            &&& 0 <= i < index.records@.len()
            &&& index.records@[i].reference == index.catalog
            &&& index.records@[i].range.length == 0 <==> index.plan.catalog is None
        },
        index.plan.catalog is None ==> index.catalog.number != index.plan.pages_root.number,
{
    let plan = index.plan;
    let records = index.records@;
    let objects = plan.objects@;
    let roots = synthetic_roots(plan);
    let listed = records_of(objects) + roots;
    lemma_reordered(listed, records);
    lemma_index_records(index);
    lemma_largest(objects, plan.pages_root.number, objects.len() as int);
    lemma_root_listed(index, plan.pages_root);
    lemma_root_listed(index, index.catalog);
}

proof fn lemma_root_listed(index: Reconstruction, root: PdfRef)
    requires
        index.well_formed(),
        root == index.plan.pages_root || root == index.catalog,
    ensures
        position_of(index.records@, root.number) matches Some(i) && {
            &&& 0 <= i < index.records@.len()
            &&& index.records@[i].reference == root
            &&& index.records@[i].range.length == 0 <==> !supplied(
                index.plan.objects@,
                root.number,
            )
        },
        root == index.catalog && index.plan.catalog is None ==> !supplied(
            index.plan.objects@,
            root.number,
        ) && root.number != index.plan.pages_root.number,
        root == index.catalog && index.plan.catalog is Some ==> supplied(
            index.plan.objects@,
            root.number,
        ),
{
    let plan = index.plan;
    let records = index.records@;
    let objects = plan.objects@;
    let roots = synthetic_roots(plan);
    let listed = records_of(objects) + roots;
    lemma_reordered(listed, records);
    lemma_index_records(index);
    lemma_largest(objects, plan.pages_root.number, objects.len() as int);
    let largest = largest_number(objects, plan.pages_root.number, objects.len() as int);
    if plan.catalog is None && root == index.catalog {
        assert(largest <= MAX_PDF_OBJECTS) by {
            if largest != plan.pages_root.number {
                let i = choose|i: int|
                    0 <= i < objects.len() && (#[trigger] objects[i]).reference.number == largest;
                lemma_objects_copyable(
                    objects,
                    0,
                    i,
                    index.source_size,
                    index.limits.max_input_bytes,
                );
            }
        }
        assert(root.number == largest + 1);
        assert(!supplied(objects, root.number));
    }
    if supplied(objects, root.number) {
        let i = choose|i: int|
            0 <= i < objects.len() && (#[trigger] objects[i]).reference.number == root.number;
        assert(listed[i] == record_of(objects[i]));
        assert(records.contains(listed[i]));
        let p = choose|p: int| 0 <= p < records.len() && records[p] == listed[i];
        lemma_position(records, p);
        lemma_objects_copyable(objects, 0, i, index.source_size, index.limits.max_input_bytes);
        assert(root.generation == 0);
    } else {
        let synthetic = synthetic_record(root);
        assert(roots.contains(synthetic)) by {
            if root == plan.pages_root {
                assert(roots[0] == synthetic);
            } else {
                assert(roots[roots.len() - 1] == synthetic);
            }
        }
        let r = choose|r: int| 0 <= r < roots.len() && roots[r] == synthetic;
        assert(listed[objects.len() + r] == synthetic);
        assert(records.contains(listed[objects.len() + r]));
        let p = choose|p: int| 0 <= p < records.len() && records[p] == synthetic;
        lemma_position(records, p);
    }
}

/// Begin to reconstruct PDF fragments, and to write an outline in the same PDF
/// revision.
///
/// Bookmark entries are depth-first and name zero-based positions in
/// `plan.pages`. Existing fragment Catalog objects cannot be updated with a
/// new outline.
pub fn reconstruct_fragment_with_bookmarks<'a>(
    plan: &FragmentPlan<'a>,
    bookmarks: &'a [Bookmark],
    limits: &Limits,
    source_size: u64,
    cancelled: bool,
) -> (begun: Result<Reconstruction<'a>, Error>)
    ensures
        match begun {
            Ok(reconstruction) => {
                &&& plan_accepted(*plan, bookmarks@.len(), *limits, source_size, cancelled)
                &&& reconstruction.well_formed()
                &&& reconstruction.plan == *plan
                &&& reconstruction.bookmarks == bookmarks
                &&& reconstruction.limits == *limits
                &&& reconstruction.source_size == source_size
            },
            Err(error) => plan_refused(
                *plan,
                bookmarks@.len(),
                *limits,
                source_size,
                cancelled,
                error,
            ),
        },
{
    let (requested, record_bytes) = check_request(plan, bookmarks.len(), limits, cancelled)?;
    let mut buffer: Vec<Record> = Vec::new();
    let refused = limits.allocation_refused("PDF object index allocation", record_bytes);
    reserve_exact(&mut buffer, requested, refused)?;
    let mut records = index_objects(plan.objects, source_size, limits.max_input_bytes, buffer)?;
    let ghost listed = records_of(plan.objects@);
    proof {
        assert forall|i: int| 0 <= i < listed.len() implies {
            &&& (#[trigger] listed[i]).range.length > 0
            &&& listed[i].range.offset + listed[i].range.length <= u64::MAX
            &&& listed[i].reference.number <= MAX_PDF_OBJECTS
        } by {
            assert(copyable(plan.objects@[i], source_size));
        }
    }
    check_overlaps(&mut records)?;
    check_numbers(&mut records, Ghost(listed))?;
    proof {
        lemma_reordered(listed, records@);
        assert forall|i: int| 0 <= i < records@.len() implies (
        #[trigger] records@[i]).reference.number <= MAX_PDF_OBJECTS by {
            let k = choose|k: int| 0 <= k < listed.len() && listed[k] == records@[i];
            assert(listed[k].reference.number <= MAX_PDF_OBJECTS);
        }
    }
    check_pages(plan.pages, &records, Ghost(plan.objects@))?;
    let page_index_bytes: usize = match plan.pages.len().checked_mul(
        core::mem::size_of::<PdfRef>(),
    ) {
        Some(bytes) => bytes,
        None => {
            return Err(
                Error::InvalidInput { reason: "PDF page index allocation overflows address space" },
            );
        },
    };
    let needed = checked_add(record_bytes, page_index_bytes as u64)?;
    let offset: u64 = if plan.objects.len() > 0 {
        plan.objects[0].range.offset
    } else {
        0
    };
    check_pdf_allocation(limits, needed, Some(plan.pages[0]), offset)?;
    let mut buffer: Vec<PdfRef> = Vec::new();
    let refused = limits.allocation_refused("PDF page index allocation", page_index_bytes as u64);
    reserve_exact(&mut buffer, plan.pages.len(), refused)?;
    let sorted_pages = index_pages(plan.pages, buffer)?;
    let catalog = choose_catalog(plan, &records)?;
    add_roots(plan, &mut records, catalog);
    Ok(
        Reconstruction {
            plan: *plan,
            bookmarks,
            limits: *limits,
            source_size,
            records,
            sorted_pages,
            catalog,
            record_bytes,
            page_index_bytes: page_index_bytes as u64,
        },
    )
}

/// Begin to reconstruct one PDF from indexed indirect objects and explicit
/// page order, without an outline.
pub fn reconstruct_fragment<'a>(
    plan: &FragmentPlan<'a>,
    limits: &Limits,
    source_size: u64,
    cancelled: bool,
) -> (begun: Result<Reconstruction<'a>, Error>)
    ensures
        match begun {
            Ok(reconstruction) => {
                &&& plan_accepted(*plan, 0, *limits, source_size, cancelled)
                &&& reconstruction.well_formed()
                &&& reconstruction.plan == *plan
                &&& reconstruction.bookmarks@.len() == 0
                &&& reconstruction.limits == *limits
                &&& reconstruction.source_size == source_size
            },
            Err(error) => plan_refused(*plan, 0, *limits, source_size, cancelled, error),
        },
{
    reconstruct_fragment_with_bookmarks(plan, &[], limits, source_size, cancelled)
}

} // verus!

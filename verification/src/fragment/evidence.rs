//! What inspecting objects retains, and the memory it may take.

use vstd::prelude::*;
use vstd::layout::size_of;
use crate::fragment::contents::{ContentEvidence, ContentEvidenceKind};
use crate::fragment::file_words::law_outline_is_numbered_last;
use crate::fragment::index::{lemma_index_records, Reconstruction};
use crate::fragment::inspection::{FragmentInspection, FragmentKind};
use crate::fragment::layout::{
    file_length, fixed_length, largest_of, layout_failure, measure_items, objects_length,
    outline_plan_failure, parts_of, Parts,
};
use crate::fragment::outline::{outline_failure, OutlineNode};
use crate::fragment::page_tree::{walk_memory_failure, WalkStep};
use crate::fragment::record::Record;
use crate::fragment::structure::{
    all_evidence_bytes, destinations_after, evidence_of, kids_bytes, kind_index_failure,
    next_supplied, scalar_index_failure,
};
use crate::fragment::texts::{header_text, item_text};
use crate::fragment::written::{law_bookmarks_are_refused_for_cause, may_follow};
use crate::text::title_hex;
use crate::types::{Error, Limits, PdfRef};

verus! {

/// Inspecting an object retains the contents of a page and the references of an
/// array as they were read, under the object's number, and nothing else. A
/// destination counts once.
pub proof fn law_evidence_is_what_was_read(
    record: Record,
    inspection: FragmentInspection,
    destinations: u32,
)
    ensures
        ({
            let evidence = evidence_of(record, inspection);
            let pages: int = if inspection.contents is Some {
                1
            } else {
                0
            };
            let arrays: int = if inspection.scalar_reference_array is Some {
                1
            } else {
                0
            };
            &&& evidence.len() == pages + arrays
            &&& inspection.contents matches Some(references) ==> {
                &&& evidence[0].reference == record.reference
                &&& evidence[0].references == references
                &&& evidence[0].kind matches ContentEvidenceKind::Page { direct_array }
                    && direct_array == inspection.contents_is_direct_array
            }
            &&& inspection.scalar_reference_array matches Some(references) ==> {
                &&& evidence.last().reference == record.reference
                &&& evidence.last().references == references
                &&& evidence.last().kind is ScalarArray
            }
            &&& destinations_after(inspection, destinations) == destinations + (
            if inspection.destination is Some {
                1int
            } else {
                0
            })
        }),
{
}

/// What is retained is charged: one item, and each of its references, or each of
/// a node's children.
pub proof fn law_evidence_is_charged(record: Record, inspection: FragmentInspection)
    ensures
        ({
            let contents: int = match inspection.contents {
                Some(references) => (size_of::<ContentEvidence>() + references@.len()
                    * size_of::<PdfRef>()) as int,
                None => 0,
            };
            let array: int = match inspection.scalar_reference_array {
                Some(references) => (size_of::<ContentEvidence>() + references@.len()
                    * size_of::<PdfRef>()) as int,
                None => 0,
            };
            &&& all_evidence_bytes(record, inspection) == contents + array
            &&& inspection.kind matches FragmentKind::Pages { kids, .. } ==> kids_bytes(
                inspection.kind,
            ) == kids@.len() * size_of::<PdfRef>()
            &&& !(inspection.kind is Pages) ==> kids_bytes(inspection.kind) == 0
        }),
{
}

/// Inspection goes on with the first object that has bytes in the source, and
/// passes over those that are written anew.
pub proof fn law_supplied_objects_are_inspected(records: Seq<Record>, from: int)
    requires
        0 <= from <= records.len(),
    ensures
        ({
            let next = next_supplied(records, from);
            &&& from <= next <= records.len()
            &&& forall|k: int| from <= k < next ==> (#[trigger] records[k]).range.length == 0
            &&& next < records.len() ==> records[next].range.length > 0
        }),
    decreases records.len() - from,
{
    if from < records.len() && records[from].range.length == 0 {
        law_supplied_objects_are_inspected(records, from + 1);
    }
}

/// The indexes of an inspection are made exactly where they fit the memory beside
/// what is held already: a number, a kind and a mark for each object.
pub proof fn law_indexes_are_refused_for_cause(index: Reconstruction)
    requires
        index.records@.len() * size_of::<Option<u64>>() <= usize::MAX,
        index.records@.len() * size_of::<Option<FragmentKind>>() <= usize::MAX,
    ensures
        ({
            let count = index.records@.len();
            let held = index.record_bytes + index.page_index_bytes + count * size_of::<
                Option<u64>,
            >();
            &&& scalar_index_failure(index) is None <==> held <= index.limits.max_allocation_bytes
            &&& kind_index_failure(index) is None <==> held + count * size_of::<
                Option<FragmentKind>,
            >() + count <= index.limits.max_allocation_bytes
        }),
{
}

/// A page tree is walked exactly where a mark for each object, and two links for
/// each and one more, fit the memory.
pub proof fn law_walks_are_refused_for_cause(
    count: nat,
    root: PdfRef,
    offset: u64,
    retained_bytes: u64,
    limits: Limits,
)
    requires
        2 * count + 1 <= usize::MAX,
        (2 * count + 1) * size_of::<WalkStep>() <= usize::MAX,
    ensures
        walk_memory_failure(count, root, offset, retained_bytes, limits) is None <==> retained_bytes
            + count + (2 * count + 1) * size_of::<WalkStep>() <= limits.max_allocation_bytes,
{
    assert(0 <= (2 * count + 1) * size_of::<WalkStep>()) by (nonlinear_arith);
}

/// Items whose bytes can be counted are measured.
proof fn lemma_items_measured(parts: Parts, from: int, length: int)
    requires
        0 <= from,
        0 <= length,
    ensures
        length + parts.items_text(from).len() <= u64::MAX ==> measure_items(parts, from, length)
            == Ok::<int, Error>(length + parts.items_text(from).len() as int),
        measure_items(parts, from, length) is Ok ==> length + parts.items_text(from).len()
            <= u64::MAX,
    decreases parts.titles.len() - from,
{
    if from < parts.titles.len() {
        let title = parts.titles[from].title@;
        let item = item_text(parts.nodes()[from], title);
        assert(title_hex(title).len() <= item.len()) by {
            reveal(item_text);
        }
        lemma_items_measured(parts, from + 1, length + item.len() as int);
    }
}

/// A file whose outline can be built is rebuilt exactly where its bytes stay
/// within the limit and ten digits count them, and a chunk fits the memory beside
/// the index.
pub proof fn law_files_are_refused_for_cause(index: Reconstruction)
    requires
        index.well_formed(),
        outline_plan_failure(index) is None,
    ensures
        ({
            let parts = parts_of(index);
            let body = header_text().len() + objects_length(index.records@, 0)
                + parts.pages_text().len() + parts.catalog_text().len() + parts.root_text().len()
                + parts.items_text(0).len();
            let bytes = file_length(body, largest_of(index), index.catalog);
            layout_failure(index) is None <==> {
                &&& bytes <= index.limits.max_output_bytes
                &&& bytes <= 9_999_999_999
                &&& index.record_bytes + index.limits.io_chunk_bytes
                    <= index.limits.max_allocation_bytes
            }
        }),
{
    let parts = parts_of(index);
    let before = fixed_length(parts, index.records@);
    lemma_copies_counted(index.records@, 0);
    lemma_items_measured(parts, 0, before);
}

proof fn lemma_copies_counted(records: Seq<Record>, from: int)
    ensures
        objects_length(records, from) >= 0,
    decreases records.len() - from,
{
    if from < records.len() {
        lemma_copies_counted(records, from + 1);
    }
}

/// An outline is built, as far as memory decides, exactly where its items fit
/// beside the indexes and a chunk.
pub proof fn law_outlines_are_refused_for_cause(index: Reconstruction)
    requires
        index.well_formed(),
        index.bookmarks@.len() * size_of::<OutlineNode>() <= usize::MAX,
        outline_failure(
            index.bookmarks@,
            index.plan.pages@,
            parts_of(index).outline_root,
        ) is None,
    ensures
        outline_plan_failure(index) is None <==> index.record_bytes + index.page_index_bytes
            + index.limits.io_chunk_bytes + index.bookmarks@.len() * size_of::<OutlineNode>()
            <= index.limits.max_allocation_bytes,
{
    law_bookmarks_are_refused_for_cause(
        index.bookmarks@,
        index.plan.pages@,
        parts_of(index).outline_root,
    );
    law_outline_is_numbered_last(index, index.records@.len() - 1);
    assert(may_follow(
        index.bookmarks@,
        index.plan.pages@.len(),
        parts_of(index).outline_root,
        0,
    ));
    lemma_index_records(index);
}

} // verus!

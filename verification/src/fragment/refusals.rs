//! What a reconstruction is refused for, and what it is not.

use vstd::prelude::*;
use vstd::layout::size_of;
use crate::fragment::contents::{
    array_of, contents_failure, is_stream, item_failure, targets_failure, ContentEvidence,
    ContentEvidenceKind,
};
use crate::fragment::index::{
    catalog_of, disjoint, distinct, index_bytes, listed_once, object_failure, objects_failure,
    pages_failure, plan_accepted, records_of, same_number, same_page, span_bytes, starts_inside,
    supplied, Reconstruction,
};
use crate::fragment::inspection::{FragmentInspection, FragmentKind};
use crate::fragment::record::{
    is_numbered, lemma_position, indexed, position_of, FragmentObject, FragmentPlan, Record,
};
use crate::fragment::structure::{
    catalog_objects, early_failure, flat_failure, flat_object_failure, flat_pages_failure,
    page_objects, references_failure, root_failure, shape_failure, unselected_failure,
};
use crate::types::{Limits, PdfRef};

verus! {

/// Whether a reference is within the supported numbers.
pub open spec fn is_usable(reference: PdfRef) -> bool {
    0 < reference.number <= 8_388_607 && reference.generation == 0
}

/// Whether an object of a plan lies in the source.
pub open spec fn is_in_source(object: FragmentObject, source_size: u64) -> bool {
    &&& is_usable(object.reference)
    &&& object.range.length > 0
    &&& object.range.offset + object.range.length <= source_size
}

proof fn lemma_spans_grow(objects: Seq<FragmentObject>, fewer: int, count: int)
    requires
        0 <= fewer <= count,
    ensures
        0 <= span_bytes(objects, fewer) <= span_bytes(objects, count),
    decreases count,
{
    if count > 0 {
        if fewer < count {
            lemma_spans_grow(objects, fewer, count - 1);
        } else {
            lemma_spans_grow(objects, count - 1, count - 1);
        }
    }
}

/// The objects of a plan are accepted exactly where each has a supported number
/// and lies in the source, and all together are no more than may be read.
proof fn lemma_objects_accepted(
    objects: Seq<FragmentObject>,
    from: int,
    source_size: u64,
    max_input_bytes: u64,
)
    requires
        0 <= from <= objects.len(),
        from == 0 || span_bytes(objects, from) <= max_input_bytes,
    ensures
        objects_failure(objects, from, source_size, max_input_bytes) is None <==> {
            &&& forall|i: int|
                from <= i < objects.len() ==> is_in_source(#[trigger] objects[i], source_size)
            &&& from < objects.len() ==> span_bytes(objects, objects.len() as int)
                <= max_input_bytes
        },
    decreases objects.len() - from,
{
    if from < objects.len() {
        lemma_spans_grow(objects, from + 1, objects.len() as int);
        let here = object_failure(objects, from, source_size, max_input_bytes);
        assert(here is None <==> is_in_source(objects[from], source_size) && span_bytes(
            objects,
            from + 1,
        ) <= max_input_bytes);
        if here is None {
            lemma_objects_accepted(objects, from + 1, source_size, max_input_bytes);
        }
        if forall|i: int|
            from <= i < objects.len() ==> is_in_source(#[trigger] objects[i], source_size) {
            assert(is_in_source(objects[from], source_size));
        }
    }
}

proof fn lemma_pages_accepted(objects: Seq<FragmentObject>, pages: Seq<PdfRef>, from: int)
    requires
        0 <= from <= pages.len(),
    ensures
        pages_failure(objects, pages, from) is None <==> forall|i: int|
            from <= i < pages.len() ==> is_usable(#[trigger] pages[i]) && supplied(
                objects,
                pages[i].number,
            ),
    decreases pages.len() - from,
{
    if from < pages.len() {
        lemma_pages_accepted(objects, pages, from + 1);
        if forall|i: int|
            from <= i < pages.len() ==> is_usable(#[trigger] pages[i]) && supplied(
                objects,
                pages[i].number,
            ) {
            assert(is_usable(pages[from]));
        }
    }
}

/// Whether no two objects of a plan share a number or a byte.
pub open spec fn are_apart(objects: Seq<FragmentObject>) -> bool {
    forall|j: int, k: int|
        0 <= j < k < objects.len() ==> {
            let one = #[trigger] objects[j];
            let other = #[trigger] objects[k];
            &&& one.reference.number != other.reference.number
            &&& one.range.offset + one.range.length <= other.range.offset || other.range.offset
                + other.range.length <= one.range.offset
        }
}

proof fn lemma_apart(objects: Seq<FragmentObject>)
    requires
        forall|i: int| 0 <= i < objects.len() ==> (#[trigger] objects[i]).range.length > 0,
    ensures
        disjoint(records_of(objects)) && distinct(records_of(objects)) <==> are_apart(objects),
{
    let records = records_of(objects);
    if disjoint(records) && distinct(records) {
        assert forall|j: int, k: int| 0 <= j < k < objects.len() implies {
            let one = #[trigger] objects[j];
            let other = #[trigger] objects[k];
            &&& one.reference.number != other.reference.number
            &&& one.range.offset + one.range.length <= other.range.offset || other.range.offset
                + other.range.length <= one.range.offset
        } by {
            assert(!starts_inside(records, j, k));
            assert(!starts_inside(records, k, j));
            assert(!same_number(records, j, k));
        }
    }
    if are_apart(objects) {
        assert forall|k: int, j: int| !(#[trigger] starts_inside(records, k, j)) by {
            if starts_inside(records, k, j) {
                assert(objects[j].range.length > 0 && objects[k].range.length > 0);
                if j < k {
                    assert(objects[j].reference.number != objects[k].reference.number);
                } else {
                    assert(objects[k].reference.number != objects[j].reference.number);
                }
            }
        }
        assert forall|j: int, k: int| !(#[trigger] same_number(records, j, k)) by {
            if same_number(records, j, k) {
                if j < k {
                    assert(objects[j].reference.number != objects[k].reference.number);
                } else {
                    assert(objects[k].reference.number != objects[j].reference.number);
                }
            }
        }
    }
}

/// Whether no page is listed twice.
pub open spec fn are_listed_once(pages: Seq<PdfRef>) -> bool {
    forall|j: int, k: int|
        0 <= j < k < pages.len() ==> (#[trigger] pages[j]).number != (#[trigger] pages[k]).number
}

proof fn lemma_listed_once(pages: Seq<PdfRef>)
    ensures
        listed_once(pages) <==> are_listed_once(pages),
{
    if listed_once(pages) {
        assert forall|j: int, k: int| 0 <= j < k < pages.len() implies (
        #[trigger] pages[j]).number != (#[trigger] pages[k]).number by {
            assert(!same_page(pages, j, k));
        }
    }
    if are_listed_once(pages) {
        assert forall|j: int, k: int| !(#[trigger] same_page(pages, j, k)) by {
            if same_page(pages, j, k) {
                if j < k {
                    assert(pages[j].number != pages[k].number);
                } else {
                    assert(pages[k].number != pages[j].number);
                }
            }
        }
    }
}

/// The memory that an index of a plan takes: a record for every object that the
/// file may have, and a reference for every page.
pub open spec fn plan_memory(plan: FragmentPlan, bookmarks: nat) -> int {
    let outline: int = if bookmarks == 0 {
        0
    } else {
        bookmarks as int + 1
    };
    (plan.objects@.len() + 2 + outline) * size_of::<Record>() + plan.pages@.len()
        * size_of::<PdfRef>()
}

/// A plan is accepted exactly where it asks for no more than the limits allow,
/// its objects lie in the source apart from each other, every page is one of them
/// and listed once, and its roots have supported numbers; bookmarks need a
/// catalog that is written anew.
pub proof fn law_plans_are_refused_for_cause(
    plan: FragmentPlan,
    bookmarks: nat,
    limits: Limits,
    source_size: u64,
)
    requires
        plan_memory(plan, bookmarks) <= usize::MAX,
    ensures
        plan_accepted(plan, bookmarks, limits, source_size, false) <==> {
            let objects = plan.objects@;
            let pages = plan.pages@;
            let outline: int = if bookmarks == 0 {
                0
            } else {
                bookmarks as int + 1
            };
            &&& 0 < limits.io_chunk_bytes <= limits.max_allocation_bytes
            &&& bookmarks <= limits.max_bookmarks
            &&& bookmarks > 0 ==> plan.catalog is None
            &&& 0 < pages.len() <= limits.max_pages
            &&& is_usable(plan.pages_root)
            &&& plan.catalog matches Some(catalog) ==> is_usable(catalog) && exists|i: int|
                0 <= i < objects.len() && (#[trigger] objects[i]).reference.number
                    == catalog.number
            &&& plan.catalog is None ==> is_usable(catalog_of(plan))
            &&& objects.len() + 2 + outline <= 8_388_607
            &&& plan_memory(plan, bookmarks) <= limits.max_allocation_bytes
            &&& forall|i: int|
                0 <= i < objects.len() ==> is_in_source(#[trigger] objects[i], source_size)
            &&& span_bytes(objects, objects.len() as int) <= limits.max_input_bytes
            &&& are_apart(objects)
            &&& forall|k: int|
                0 <= k < pages.len() ==> is_usable(#[trigger] pages[k]) && exists|i: int|
                    0 <= i < objects.len() && (#[trigger] objects[i]).reference.number
                        == pages[k].number
            &&& are_listed_once(pages)
        },
{
    let objects = plan.objects@;
    let pages = plan.pages@;
    lemma_objects_accepted(objects, 0, source_size, limits.max_input_bytes);
    lemma_pages_accepted(objects, pages, 0);
    lemma_listed_once(pages);
    lemma_spans_grow(objects, 0, objects.len() as int);
    let records = index_bytes(plan, bookmarks);
    assert(plan_memory(plan, bookmarks) == records + pages.len() * size_of::<PdfRef>());
    assert(pages.len() * size_of::<PdfRef>() >= 0) by (nonlinear_arith);
    assert(records >= 0) by (nonlinear_arith)
        requires
            records == (objects.len() + 2 + (if bookmarks == 0 {
                0
            } else {
                bookmarks as int + 1
            })) * size_of::<Record>(),
    ;
    if objects_failure(objects, 0, source_size, limits.max_input_bytes) is None {
        assert forall|i: int| 0 <= i < objects.len() implies (
        #[trigger] objects[i]).range.length > 0 by {
            assert(is_in_source(objects[i], source_size));
        }
        lemma_apart(objects);
    }
    assert forall|number: u32| supplied(objects, number) <==> exists|i: int|
        0 <= i < objects.len() && (#[trigger] objects[i]).reference.number == number by {}
}

/// Whether an object of the index has the number of a reference.
pub open spec fn is_indexed(records: Seq<Record>, reference: PdfRef) -> bool {
    exists|i: int|
        0 <= i < records.len() && (#[trigger] records[i]).reference.number == reference.number
}

proof fn lemma_is_indexed(records: Seq<Record>, reference: PdfRef)
    ensures
        position_of(records, reference.number) is Some <==> is_indexed(records, reference),
{
    if is_indexed(records, reference) {
        let i = choose|i: int|
            0 <= i < records.len() && (#[trigger] records[i]).reference.number == reference.number;
        assert(is_numbered(records, i, reference.number));
    }
    if position_of(records, reference.number) is Some {
        let i = choose|i: int| is_numbered(records, i, reference.number);
        assert(records[i].reference.number == reference.number);
    }
}

proof fn lemma_references_accepted(
    records: Seq<Record>,
    record: Record,
    references: Seq<PdfRef>,
    from: int,
)
    requires
        0 <= from <= references.len(),
    ensures
        references_failure(records, record, references, from) is None <==> forall|k: int|
            from <= k < references.len() ==> is_usable(#[trigger] references[k]) && is_indexed(
                records,
                references[k],
            ),
    decreases references.len() - from,
{
    if from < references.len() {
        lemma_references_accepted(records, record, references, from + 1);
        lemma_is_indexed(records, references[from]);
        if forall|k: int|
            from <= k < references.len() ==> is_usable(#[trigger] references[k]) && is_indexed(
                records,
                references[k],
            ) {
            assert(is_usable(references[from]));
        }
    }
}

/// An inspected object is accepted exactly where it is the object of its record,
/// every reference in it names an object of the index, an outline destination in
/// it is one of the ordered pages and no more than may be, and its child links
/// fit the memory.
pub proof fn law_inspections_are_refused_for_cause(
    index: Reconstruction,
    record: Record,
    inspection: FragmentInspection,
    destinations: u32,
    retained_bytes: u64,
)
    requires
        destinations < u32::MAX,
        inspection.kind matches FragmentKind::Pages { kids, .. } ==> kids@.len()
            * size_of::<PdfRef>() <= usize::MAX,
    ensures
        early_failure(index, record, inspection, destinations, retained_bytes) is None <==> {
            &&& inspection.reference == record.reference
            &&& inspection.max_referenced_object <= 8_388_607
            &&& forall|k: int|
                0 <= k < inspection.references@.len() ==> is_usable(
                    #[trigger] inspection.references@[k],
                ) && is_indexed(index.records@, inspection.references@[k])
            &&& inspection.destination matches Some(page) ==> is_usable(page)
                && index.plan.pages@.contains(page) && destinations + 1
                <= index.limits.max_bookmarks
            &&& inspection.kind matches FragmentKind::Pages { kids, .. } ==> retained_bytes
                + kids@.len() * size_of::<PdfRef>() <= index.limits.max_allocation_bytes
        },
{
    lemma_references_accepted(index.records@, record, inspection.references@, 0);
}

proof fn lemma_targets_accepted(
    records: Seq<Record>,
    streams: Seq<bool>,
    targets: Seq<PdfRef>,
    from: int,
    page: PdfRef,
    offset: u64,
)
    requires
        0 <= from,
        forall|k: int|
            from <= k < targets.len() ==> is_stream(records, streams, #[trigger] targets[k]),
    ensures
        targets_failure(records, streams, targets, from, page, offset) is None,
    decreases targets.len() - from,
{
    if from < targets.len() {
        assert(is_stream(records, streams, targets[from]));
        lemma_targets_accepted(records, streams, targets, from + 1, page, offset);
    }
}

/// Whether the contents of a page are streams: each member of a direct array, or
/// the one target, or each member of every array that the one target is.
pub open spec fn has_streams(
    records: Seq<Record>,
    streams: Seq<bool>,
    evidence: Seq<ContentEvidence>,
    item: ContentEvidence,
) -> bool {
    item.kind matches ContentEvidenceKind::Page { direct_array } ==> {
        &&& position_of(records, item.reference.number) is Some
        &&& if direct_array {
            forall|k: int|
                0 <= k < item.references@.len() ==> is_stream(
                    records,
                    streams,
                    #[trigger] item.references@[k],
                )
        } else {
            let target = item.references@[0];
            &&& item.references@.len() > 0
            &&& position_of(records, target.number) is Some
            &&& is_stream(records, streams, target) || {
                &&& exists|a: int| is_array(evidence, a, target.number)
                &&& forall|a: int, k: int|
                    is_array(evidence, a, target.number) && 0 <= k < evidence[a].references@.len()
                        ==> is_stream(records, streams, #[trigger] evidence[a].references@[k])
            }
        }
    }
}

/// Whether an item of evidence is the array of references of a number.
pub open spec fn is_array(evidence: Seq<ContentEvidence>, a: int, number: u32) -> bool {
    &&& 0 <= a < evidence.len()
    &&& evidence[a].kind == ContentEvidenceKind::ScalarArray
    &&& evidence[a].reference.number == number
}

proof fn lemma_array_is(evidence: Seq<ContentEvidence>, number: u32, from: int)
    requires
        0 <= from,
    ensures
        match array_of(evidence, number, from) {
            Some(a) => from <= a && is_array(evidence, a, number),
            None => forall|a: int| from <= a ==> !#[trigger] is_array(evidence, a, number),
        },
    decreases evidence.len() - from,
{
    if from < evidence.len() {
        lemma_array_is(evidence, number, from + 1);
        if array_of(evidence, number, from) is None {
            assert forall|a: int| from <= a implies !#[trigger] is_array(evidence, a, number) by {
                if a > from {
                    assert(from + 1 <= a);
                }
            }
        }
    }
}

/// Contents that are streams are accepted.
pub proof fn law_contents_are_accepted(
    records: Seq<Record>,
    streams: Seq<bool>,
    evidence: Seq<ContentEvidence>,
    from: int,
)
    requires
        0 <= from,
        forall|i: int|
            from <= i < evidence.len() ==> has_streams(
                records,
                streams,
                evidence,
                #[trigger] evidence[i],
            ),
    ensures
        contents_failure(records, streams, evidence, from) is None,
    decreases evidence.len() - from,
{
    if from < evidence.len() {
        let item = evidence[from];
        assert(has_streams(records, streams, evidence, item));
        if let ContentEvidenceKind::Page { direct_array } = item.kind {
            let offset = records[position_of(
                records,
                item.reference.number,
            )->0].range.offset;
            if direct_array {
                lemma_targets_accepted(
                    records,
                    streams,
                    item.references@,
                    0,
                    item.reference,
                    offset,
                );
            } else if !is_stream(records, streams, item.references@[0]) {
                let number = item.references@[0].number;
                lemma_array_is(evidence, number, 0);
                let a = array_of(evidence, number, 0)->0;
                let known = choose|a: int| is_array(evidence, a, number);
                assert(is_array(evidence, known, number));
                assert forall|k: int| 0 <= k < evidence[a].references@.len() implies is_stream(
                    records,
                    streams,
                    #[trigger] evidence[a].references@[k],
                ) by {}
                lemma_targets_accepted(
                    records,
                    streams,
                    evidence[a].references@,
                    0,
                    item.reference,
                    offset,
                );
            }
        }
        assert(item_failure(records, streams, evidence, item) is None);
        law_contents_are_accepted(records, streams, evidence, from + 1);
    }
}

/// Whether an object is a page.
pub open spec fn is_page(kind: Option<FragmentKind>) -> bool {
    kind matches Some(FragmentKind::Page { .. })
}

/// Whether an object is a catalog.
pub open spec fn is_catalog(kind: Option<FragmentKind>) -> bool {
    kind matches Some(FragmentKind::Catalog { .. })
}

proof fn lemma_counted(kinds: Seq<Option<FragmentKind>>, count: int)
    requires
        0 <= count <= kinds.len(),
    ensures
        page_objects(kinds, count) == kinds.take(count).filter(
            |kind: Option<FragmentKind>| is_page(kind),
        ).len(),
        catalog_objects(kinds, count) == kinds.take(count).filter(
            |kind: Option<FragmentKind>| is_catalog(kind),
        ).len(),
    decreases count,
{
    reveal(Seq::filter);
    if count > 0 {
        lemma_counted(kinds, count - 1);
        assert(kinds.take(count).drop_last() =~= kinds.take(count - 1));
        assert(kinds.take(count).last() == kinds[count - 1]);
    }
}

proof fn lemma_all_selected(
    plan: FragmentPlan,
    records: Seq<Record>,
    kinds: Seq<Option<FragmentKind>>,
    from: int,
)
    requires
        0 <= from <= kinds.len(),
    ensures
        unselected_failure(plan, records, kinds, from) is None <==> forall|i: int|
            from <= i < kinds.len() && is_catalog(#[trigger] kinds[i]) ==> plan.catalog == Some(
                records[i].reference,
            ),
    decreases kinds.len() - from,
{
    if from < kinds.len() {
        lemma_all_selected(plan, records, kinds, from + 1);
        if forall|i: int|
            from <= i < kinds.len() && is_catalog(#[trigger] kinds[i]) ==> plan.catalog == Some(
                records[i].reference,
            ) {
            assert(is_catalog(kinds[from]) ==> plan.catalog == Some(records[from].reference));
        }
    }
}

/// The objects have the shape of the plan exactly where as many of them are pages
/// as the plan lists, the only catalog is the one that the plan selects, and it
/// leads to the page tree that the plan selects.
pub proof fn law_shapes_are_refused_for_cause(
    index: Reconstruction,
    kinds: Seq<Option<FragmentKind>>,
)
    requires
        kinds.len() == index.records@.len(),
        indexed(index.records@),
        index.plan.catalog matches Some(catalog) ==> is_indexed(index.records@, catalog),
    ensures
        shape_failure(index, kinds) is None <==> {
            let plan = index.plan;
            let records = index.records@;
            let pages = kinds.filter(|kind: Option<FragmentKind>| is_page(kind));
            let catalogs = kinds.filter(|kind: Option<FragmentKind>| is_catalog(kind));
            &&& pages.len() == plan.pages@.len()
            &&& forall|i: int|
                0 <= i < kinds.len() && is_catalog(#[trigger] kinds[i]) ==> plan.catalog == Some(
                    records[i].reference,
                )
            &&& match plan.catalog {
                None => catalogs.len() == 0,
                Some(catalog) => catalogs.len() == 1 && forall|i: int|
                    0 <= i < records.len() && (#[trigger] records[i]).reference.number
                        == catalog.number ==> (kinds[i] matches Some(
                        FragmentKind::Catalog { pages },
                    ) && pages == plan.pages_root),
            }
        },
{
    let records = index.records@;
    lemma_all_selected(index.plan, records, kinds, 0);
    lemma_counted(kinds, kinds.len() as int);
    assert(kinds.take(kinds.len() as int) =~= kinds);
    if let Some(catalog) = index.plan.catalog {
        lemma_is_indexed(records, catalog);
        let i = position_of(records, catalog.number)->0;
        assert(is_numbered(records, i, catalog.number));
        assert forall|k: int| 0 <= k < records.len() && (#[trigger] records[k]).reference.number
            == catalog.number implies k == i by {
            lemma_position(records, k);
        }
    }
}

proof fn lemma_flat_accepted(
    plan: FragmentPlan,
    records: Seq<Record>,
    kinds: Seq<Option<FragmentKind>>,
    from: int,
)
    requires
        0 <= from <= kinds.len(),
    ensures
        flat_failure(plan, records, kinds, from) is None <==> forall|i: int|
            from <= i < kinds.len() ==> is_flat(plan, #[trigger] kinds[i]),
    decreases kinds.len() - from,
{
    if from < kinds.len() {
        lemma_flat_accepted(plan, records, kinds, from + 1);
        assert(flat_object_failure(plan, records[from], kinds[from]) is None <==> is_flat(
            plan,
            kinds[from],
        ));
        if forall|i: int| from <= i < kinds.len() ==> is_flat(plan, #[trigger] kinds[i]) {
            assert(is_flat(plan, kinds[from]));
        }
    }
}

/// Whether an object fits directly below a page tree root that is written anew:
/// a page names that root and has a media box of its own, and no other node of a
/// page tree is there.
pub open spec fn is_flat(plan: FragmentPlan, kind: Option<FragmentKind>) -> bool {
    match kind {
        Some(FragmentKind::Page { parent, has_media_box }) => parent == plan.pages_root
            && has_media_box,
        Some(FragmentKind::Pages { .. }) => false,
        _ => true,
    }
}

proof fn lemma_flat_pages(
    records: Seq<Record>,
    kinds: Seq<Option<FragmentKind>>,
    pages: Seq<PdfRef>,
    from: int,
)
    requires
        0 <= from <= pages.len(),
    ensures
        flat_pages_failure(records, kinds, pages, from) is None <==> forall|k: int|
            from <= k < pages.len() ==> position_of(records, (#[trigger] pages[k]).number)
                is Some && is_page(kinds[position_of(records, pages[k].number)->0]),
    decreases pages.len() - from,
{
    if from < pages.len() {
        lemma_flat_pages(records, kinds, pages, from + 1);
        if forall|k: int|
            from <= k < pages.len() ==> position_of(records, (#[trigger] pages[k]).number)
                is Some && is_page(kinds[position_of(records, pages[k].number)->0]) {
            assert(position_of(records, pages[from].number) is Some);
        }
    }
}

/// A page tree root is written anew exactly where every page object names it and
/// has a media box, there is no other node, and every ordered page is a page
/// object.
pub proof fn law_missing_roots_are_refused_for_cause(
    index: Reconstruction,
    kinds: Seq<Option<FragmentKind>>,
    retained_bytes: int,
    root: int,
)
    requires
        indexed(index.records@),
        0 <= root < index.records@.len(),
        index.records@[root].reference.number == index.plan.pages_root.number,
        index.records@[root].range.length == 0,
    ensures
        root_failure(index, kinds, retained_bytes) is None <==> {
            let records = index.records@;
            &&& forall|i: int| 0 <= i < kinds.len() ==> is_flat(index.plan, #[trigger] kinds[i])
            &&& forall|k: int|
                0 <= k < index.plan.pages@.len() ==> exists|i: int|
                    0 <= i < records.len() && (#[trigger] records[i]).reference.number == (
                    #[trigger] index.plan.pages@[k]).number && is_page(kinds[i])
        },
{
    let records = index.records@;
    let pages = index.plan.pages@;
    lemma_position(records, root);
    lemma_flat_accepted(index.plan, records, kinds, 0);
    lemma_flat_pages(records, kinds, pages, 0);
    assert forall|k: int| 0 <= k < pages.len() implies (position_of(
        records,
        (#[trigger] pages[k]).number,
    ) is Some && is_page(kinds[position_of(records, pages[k].number)->0]) <==> exists|i: int|
        0 <= i < records.len() && (#[trigger] records[i]).reference.number == pages[k].number
            && is_page(kinds[i])) by {
        if exists|i: int|
            0 <= i < records.len() && (#[trigger] records[i]).reference.number == pages[k].number
                && is_page(kinds[i]) {
            let i = choose|i: int|
                0 <= i < records.len() && (#[trigger] records[i]).reference.number
                    == pages[k].number && is_page(kinds[i]);
            lemma_position(records, i);
        }
        if position_of(records, pages[k].number) is Some {
            let i = choose|i: int| is_numbered(records, i, pages[k].number);
            assert(is_numbered(records, i, pages[k].number));
            lemma_position(records, i);
            assert(records[i].reference.number == pages[k].number);
        }
    }
}

} // verus!

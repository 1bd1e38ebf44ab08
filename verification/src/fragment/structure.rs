//! Validation of the inspected objects against the plan.
//!
//! Objects are inspected outside, one at a time and in order of object number.
//! Every inspection is handed in here, and nothing may be written before the
//! last one has been accepted.

use vstd::prelude::*;
use vstd::layout::size_of;
use crate::fallible::{allocator_refused, reserve_exact};
use crate::fragment::contents::{
    cache_failure, cache_refused, contents_failure, evidence_bytes, evidence_in_order,
    retain_content_evidence, retain_failure, validate_fragment_contents, ContentEvidence,
    ContentEvidenceKind,
};
use crate::fragment::index::{
    first_object, first_offset, is_page_index, records_of, synthetic_roots, Reconstruction,
};
use crate::fragment::inspection::{FragmentInspection, FragmentKind};
use crate::fragment::page_tree::{
    page_tree_failure, root_offset, validate_existing_page_tree, walk_memory_failure, walk_starved,
    Forest,
};
use crate::fragment::record::{
    allocation_failure, check_pdf_allocation, checked_add, checked_reference, indexed, malformed,
    object_index, pdf_error, pdf_limit, position_of, reference_failure, FragmentPlan, Record,
};
use crate::sorting::lemma_reordered;
use crate::types::{first_failure, outcome, Error, Limits, PdfErrorKind, PdfRef, MAX_PDF_OBJECTS};

verus! {

/// The bytes of the index of integer objects.
pub open spec fn scalar_index_bytes(count: nat) -> int {
    (count * size_of::<Option<u64>>()) as int
}

/// Why an index of integer objects is refused.
pub open spec fn scalar_index_failure(index: Reconstruction) -> Option<Error> {
    let bytes = scalar_index_bytes(index.records@.len());
    if bytes > usize::MAX {
        Some(Error::InvalidInput { reason: "PDF scalar index allocation overflows address space" })
    } else {
        allocation_failure(
            index.limits,
            index.record_bytes + index.page_index_bytes + bytes,
            first_object(index.plan.objects@),
            first_offset(index.plan.objects@),
        )
    }
}

/// A reconstruction whose integer objects are being read, so that stream
/// lengths can be resolved.
pub struct ScalarCheck<'a> {
    pub index: Reconstruction<'a>,
    pub scalars: Vec<Option<u64>>,
    pub scalar_bytes: u64,
}

/// How many records there are, and that they are indexed.
proof fn lemma_index_size(index: Reconstruction)
    requires
        index.well_formed(),
    ensures
        indexed(index.records@),
        index.records@.len() <= MAX_PDF_OBJECTS,
{
    lemma_reordered(
        records_of(index.plan.objects@) + synthetic_roots(index.plan),
        index.records@,
    );
}

/// Begin to validate the structure of the supplied objects.
pub fn validate_fragment_structure<'a>(index: Reconstruction<'a>) -> (begun: Result<
    ScalarCheck<'a>,
    Error,
>)
    requires
        index.well_formed(),
    ensures
        match begun {
            Ok(check) => {
                &&& scalar_index_failure(index) is None
                &&& check.index == index
                &&& check.scalars@.len() == 0
                &&& check.scalar_bytes == scalar_index_bytes(index.records@.len())
                &&& check.well_formed()
            },
            Err(error) => match scalar_index_failure(index) {
                Some(failure) => error == failure,
                None => index.records@.len() > 0 && allocator_refused(
                    error,
                    "PDF scalar index allocation",
                    index.limits,
                    scalar_index_bytes(index.records@.len()),
                ),
            },
        },
{
    let bytes: usize = match index.records.len().checked_mul(core::mem::size_of::<Option<u64>>()) {
        Some(bytes) => bytes,
        None => {
            return Err(
                Error::InvalidInput {
                    reason: "PDF scalar index allocation overflows address space",
                },
            );
        },
    };
    let mut first: Option<PdfRef> = None;
    let mut offset: u64 = 0;
    if index.plan.objects.len() > 0 {
        first = Some(index.plan.objects[0].reference);
        offset = index.plan.objects[0].range.offset;
    }
    let indexes = checked_add(index.record_bytes, index.page_index_bytes)?;
    let needed = checked_add(indexes, bytes as u64)?;
    check_pdf_allocation(&index.limits, needed, first, offset)?;
    let mut scalars: Vec<Option<u64>> = Vec::new();
    let refused = index.limits.allocation_refused("PDF scalar index allocation", bytes as u64);
    reserve_exact(&mut scalars, index.records.len(), refused)?;
    Ok(ScalarCheck { index, scalars, scalar_bytes: bytes as u64 })
}

/// The next record at or after `from` that has source bytes, or the end.
pub open spec fn next_supplied(records: Seq<Record>, from: int) -> int
    decreases records.len() - from,
{
    if from >= records.len() || records[from].range.length != 0 {
        from
    } else {
        next_supplied(records, from + 1)
    }
}

impl<'a> ScalarCheck<'a> {
    pub open spec fn well_formed(self) -> bool {
        &&& self.index.well_formed()
        &&& self.scalars@.len() <= self.index.records@.len()
        &&& self.scalar_bytes == scalar_index_bytes(self.index.records@.len())
        &&& scalar_index_failure(self.index) is None
    }

    /// The next object to read as an integer. Synthesized objects are not.
    pub fn next(&mut self) -> (next: Option<Record>)
        requires
            old(self).well_formed(),
        ensures
            final(self).well_formed(),
            final(self).index == old(self).index,
            ({
                let from = old(self).scalars@.len() as int;
                let upto = next_supplied(old(self).index.records@, from);
                &&& final(self).scalars@ == old(self).scalars@ + Seq::new(
                    (upto - from) as nat,
                    |i: int| None::<u64>,
                )
                &&& match next {
                    Some(record) => upto < old(self).index.records@.len() && record
                        == old(self).index.records@[upto] && record.range.length > 0,
                    None => upto == old(self).index.records@.len(),
                }
            }),
    {
        let ghost from = self.scalars@.len() as int;
        let ghost before = self.scalars@;
        let ghost records = self.index.records@;
        while self.scalars.len() < self.index.records.len()
            invariant
                self.well_formed(),
                self.index == old(self).index,
                records == self.index.records@,
                from == before.len() <= self.scalars@.len() <= records.len(),
                next_supplied(records, from) == next_supplied(records, self.scalars@.len() as int),
                self.scalars@ == before + Seq::new(
                    (self.scalars@.len() - from) as nat,
                    |i: int| None::<u64>,
                ),
                from == old(self).scalars@.len(),
                before == old(self).scalars@,
            decreases records.len() - self.scalars@.len(),
        {
            let record = self.index.records[self.scalars.len()];
            if record.range.length != 0 {
                return Some(record);
            }
            self.scalars.push(None);
            assert(self.scalars@ =~= before + Seq::new(
                (self.scalars@.len() - from) as nat,
                |i: int| None::<u64>,
            ));
        }
        None
    }

    /// Take what reading the next object gave: its integer, if it is one.
    pub fn accept(&mut self, scalar: Option<u64>)
        requires
            old(self).well_formed(),
            old(self).scalars@.len() < old(self).index.records@.len(),
        ensures
            final(self).well_formed(),
            final(self).index == old(self).index,
            final(self).scalars@ == old(self).scalars@.push(scalar),
    {
        self.scalars.push(scalar);
    }
}

/// The bytes of the index of object kinds.
pub open spec fn kind_index_bytes(count: nat) -> int {
    (count * size_of::<Option<FragmentKind>>()) as int
}

/// The bytes that validation retains before any object is inspected.
pub open spec fn structure_base_bytes(index: Reconstruction) -> int {
    index.record_bytes + index.page_index_bytes + scalar_index_bytes(index.records@.len())
        + kind_index_bytes(index.records@.len()) + index.records@.len()
}

/// Why an index of object kinds is refused.
pub open spec fn kind_index_failure(index: Reconstruction) -> Option<Error> {
    if kind_index_bytes(index.records@.len()) > usize::MAX {
        Some(
            Error::InvalidInput { reason: "PDF structure index allocation overflows address space" },
        )
    } else {
        allocation_failure(
            index.limits,
            structure_base_bytes(index),
            first_object(index.plan.objects@),
            first_offset(index.plan.objects@),
        )
    }
}

/// A reconstruction whose objects are being inspected.
pub struct StructureCheck<'a> {
    pub index: Reconstruction<'a>,
    pub scalars: Vec<Option<u64>>,
    pub scalar_bytes: u64,
    pub kinds: Vec<Option<FragmentKind>>,
    pub stream_flags: Vec<bool>,
    pub evidence: Vec<ContentEvidence>,
    pub destinations: u32,
    pub retained_bytes: u64,
    /// The references of each object so far.
    pub references: Ghost<Seq<Seq<PdfRef>>>,
    /// The outline destinations so far.
    pub named: Ghost<Seq<PdfRef>>,
}

impl<'a> ScalarCheck<'a> {
    /// Go on to inspect the objects once every integer has been read.
    pub fn into_objects(self) -> (begun: Result<StructureCheck<'a>, Error>)
        requires
            self.well_formed(),
            self.scalars@.len() == self.index.records@.len(),
        ensures
            match begun {
                Ok(check) => {
                    &&& kind_index_failure(self.index) is None
                    &&& check.well_formed()
                    &&& check.index == self.index
                    &&& check.scalars@ == self.scalars@
                    &&& check.kinds@.len() == 0
                    &&& check.evidence@.len() == 0
                    &&& check.destinations == 0
                    &&& check.retained_bytes == structure_base_bytes(self.index)
                },
                Err(error) => match kind_index_failure(self.index) {
                    Some(failure) => error == failure,
                    None => allocator_refused(
                        error,
                        "PDF structure index allocation",
                        self.index.limits,
                        kind_index_bytes(self.index.records@.len()),
                    ) || allocator_refused(
                        error,
                        "PDF stream index allocation",
                        self.index.limits,
                        self.index.records@.len() as int,
                    ),
                },
            },
    {
        let index = self.index;
        let count: usize = index.records.len();
        let kind_bytes: usize = match count.checked_mul(
            core::mem::size_of::<Option<FragmentKind>>(),
        ) {
            Some(bytes) => bytes,
            None => {
                return Err(
                    Error::InvalidInput {
                        reason: "PDF structure index allocation overflows address space",
                    },
                );
            },
        };
        let stream_bytes: u64 = count as u64;
        let mut first: Option<PdfRef> = None;
        let mut offset: u64 = 0;
        if index.plan.objects.len() > 0 {
            first = Some(index.plan.objects[0].reference);
            offset = index.plan.objects[0].range.offset;
        }
        let indexes = checked_add(index.record_bytes, index.page_index_bytes)?;
        let with_scalars = checked_add(indexes, self.scalar_bytes)?;
        let with_kinds = checked_add(with_scalars, kind_bytes as u64)?;
        let retained_bytes = checked_add(with_kinds, stream_bytes)?;
        check_pdf_allocation(&index.limits, retained_bytes, first, offset)?;
        let mut kinds: Vec<Option<FragmentKind>> = Vec::new();
        let refused = index.limits.allocation_refused(
            "PDF structure index allocation",
            kind_bytes as u64,
        );
        reserve_exact(&mut kinds, count, refused)?;
        let mut stream_flags: Vec<bool> = Vec::new();
        let refused = index.limits.allocation_refused("PDF stream index allocation", stream_bytes);
        reserve_exact(&mut stream_flags, count, refused)?;
        Ok(
            StructureCheck {
                index,
                scalars: self.scalars,
                scalar_bytes: self.scalar_bytes,
                kinds,
                stream_flags,
                evidence: Vec::new(),
                destinations: 0,
                retained_bytes,
                references: Ghost(Seq::empty()),
                named: Ghost(Seq::empty()),
            },
        )
    }
}

/// The first failure among an object's references from position `from` on.
pub open spec fn references_failure(
    records: Seq<Record>,
    record: Record,
    references: Seq<PdfRef>,
    from: int,
) -> Option<Error>
    decreases references.len() - from,
{
    if from >= references.len() {
        None
    } else if reference_failure(references[from], record.range.offset) is Some {
        reference_failure(references[from], record.range.offset)
    } else if position_of(records, references[from].number) is None {
        Some(
            malformed(
                Some(record.reference),
                record.range.offset,
                "indirect reference targets a missing object",
            ),
        )
    } else {
        references_failure(records, record, references, from + 1)
    }
}

/// Why an outline destination is refused after `destinations` others.
pub open spec fn destination_failure(
    pages: Seq<PdfRef>,
    record: Record,
    destination: PdfRef,
    destinations: u32,
    limits: Limits,
) -> Option<Error> {
    let offset = record.range.offset;
    if reference_failure(destination, offset) is Some {
        reference_failure(destination, offset)
    } else if !pages.contains(destination) {
        Some(
            malformed(
                Some(record.reference),
                offset,
                "outline destination does not target an ordered Page object",
            ),
        )
    } else if destinations == u32::MAX {
        Some(Error::InvalidInput { reason: "PDF outline destination count overflows 32 bits" })
    } else if destinations + 1 > limits.max_bookmarks {
        Some(
            pdf_limit(
                Some(record.reference),
                offset,
                "bookmarks",
                limits.max_bookmarks as u64,
                (destinations + 1) as u64,
            ),
        )
    } else {
        None
    }
}

/// The bytes of a node's child links.
pub open spec fn kids_bytes(kind: FragmentKind) -> int {
    match kind {
        FragmentKind::Pages { kids, .. } => (kids@.len() * size_of::<PdfRef>()) as int,
        _ => 0,
    }
}

/// The evidence of page contents in one inspection.
pub open spec fn evidence_of(record: Record, inspection: FragmentInspection) -> Seq<
    ContentEvidence,
> {
    (match inspection.contents {
        Some(references) => seq![contents_evidence(record, inspection, references)],
        None => Seq::empty(),
    }) + (match inspection.scalar_reference_array {
        Some(references) => seq![array_evidence(record, references)],
        None => Seq::empty(),
    })
}

pub open spec fn contents_evidence(
    record: Record,
    inspection: FragmentInspection,
    references: Vec<PdfRef>,
) -> ContentEvidence {
    ContentEvidence {
        reference: record.reference,
        kind: ContentEvidenceKind::Page { direct_array: inspection.contents_is_direct_array },
        references,
    }
}

pub open spec fn array_evidence(record: Record, references: Vec<PdfRef>) -> ContentEvidence {
    ContentEvidence {
        reference: record.reference,
        kind: ContentEvidenceKind::ScalarArray,
        references,
    }
}

/// The bytes that all the evidence of one inspection is charged.
pub open spec fn all_evidence_bytes(record: Record, inspection: FragmentInspection) -> int {
    (match inspection.contents {
        Some(references) => evidence_bytes(contents_evidence(record, inspection, references)),
        None => 0,
    }) + (match inspection.scalar_reference_array {
        Some(references) => evidence_bytes(array_evidence(record, references)),
        None => 0,
    })
}

/// The bytes that are retained once a node's child links are.
pub open spec fn with_kids(inspection: FragmentInspection, retained_bytes: u64) -> int {
    retained_bytes + kids_bytes(inspection.kind)
}

/// Why a node's child links may not be retained beside `retained_bytes`.
pub open spec fn kids_failure(
    record: Record,
    inspection: FragmentInspection,
    retained_bytes: u64,
    limits: Limits,
) -> Option<Error> {
    if kids_bytes(inspection.kind) > usize::MAX {
        Some(Error::InvalidInput { reason: "PDF page-tree child allocation overflows 64 bits" })
    } else if inspection.kind is Pages {
        allocation_failure(
            limits,
            with_kids(inspection, retained_bytes),
            Some(record.reference),
            record.range.offset,
        )
    } else {
        None
    }
}

/// Why the evidence of a page's contents may not be retained.
pub open spec fn page_evidence_failure(
    record: Record,
    inspection: FragmentInspection,
    retained_bytes: u64,
    limits: Limits,
) -> Option<Error> {
    match inspection.contents {
        Some(references) => retain_failure(
            contents_evidence(record, inspection, references),
            with_kids(inspection, retained_bytes) as u64,
            record.range.offset,
            limits,
        ),
        None => None,
    }
}

/// The bytes that are retained once the evidence of a page's contents is.
pub open spec fn with_page_evidence(
    record: Record,
    inspection: FragmentInspection,
    retained_bytes: u64,
) -> int {
    with_kids(inspection, retained_bytes) + match inspection.contents {
        Some(references) => evidence_bytes(contents_evidence(record, inspection, references)),
        None => 0,
    }
}

/// Why the evidence of an array of references may not be retained.
pub open spec fn array_evidence_failure(
    record: Record,
    inspection: FragmentInspection,
    retained_bytes: u64,
    limits: Limits,
) -> Option<Error> {
    match inspection.scalar_reference_array {
        Some(references) => retain_failure(
            array_evidence(record, references),
            with_page_evidence(record, inspection, retained_bytes) as u64,
            record.range.offset,
            limits,
        ),
        None => None,
    }
}

/// Why an inspected object is refused before any evidence of it is retained.
pub open spec fn early_failure(
    index: Reconstruction,
    record: Record,
    inspection: FragmentInspection,
    destinations: u32,
    retained_bytes: u64,
) -> Option<Error> {
    if inspection.reference != record.reference {
        Some(
            malformed(
                Some(record.reference),
                record.range.offset,
                "inspected object identity differs from the supplied span",
            ),
        )
    } else if inspection.max_referenced_object > MAX_PDF_OBJECTS {
        Some(
            pdf_error(
                Some(record.reference),
                record.range.offset,
                PdfErrorKind::UnsupportedFeature,
                "indirect reference exceeds the supported PDF profile",
            ),
        )
    } else {
        first_failure(
            references_failure(index.records@, record, inspection.references@, 0),
            first_failure(
                match inspection.destination {
                    Some(destination) => destination_failure(
                        index.plan.pages@,
                        record,
                        destination,
                        destinations,
                        index.limits,
                    ),
                    None => None,
                },
                kids_failure(record, inspection, retained_bytes, index.limits),
            ),
        )
    }
}

/// Why an inspected object is refused.
pub open spec fn inspection_failure(
    index: Reconstruction,
    record: Record,
    inspection: FragmentInspection,
    destinations: u32,
    retained_bytes: u64,
) -> Option<Error> {
    first_failure(
        early_failure(index, record, inspection, destinations, retained_bytes),
        first_failure(
            page_evidence_failure(record, inspection, retained_bytes, index.limits),
            array_evidence_failure(record, inspection, retained_bytes, index.limits),
        ),
    )
}

/// Whether an error reports that memory for evidence of an object, which is
/// otherwise in order so far, was not available.
pub open spec fn evidence_starved(
    index: Reconstruction,
    record: Record,
    inspection: FragmentInspection,
    destinations: u32,
    retained_bytes: u64,
    error: Error,
) -> bool {
    ||| {
        &&& inspection.contents is Some
        &&& early_failure(index, record, inspection, destinations, retained_bytes) is None
        &&& page_evidence_failure(record, inspection, retained_bytes, index.limits) is None
        &&& allocator_refused(
            error,
            "PDF content evidence allocation",
            index.limits,
            with_page_evidence(record, inspection, retained_bytes),
        )
    }
    ||| {
        &&& inspection.scalar_reference_array is Some
        &&& inspection_failure(index, record, inspection, destinations, retained_bytes) is None
        &&& allocator_refused(
            error,
            "PDF content evidence allocation",
            index.limits,
            with_kids(inspection, retained_bytes) + all_evidence_bytes(record, inspection),
        )
    }
}

/// Whether a reference names an object of the index.
pub open spec fn resolves(records: Seq<Record>, reference: PdfRef) -> bool {
    &&& reference.generation == 0
    &&& 1 <= reference.number <= MAX_PDF_OBJECTS
    &&& position_of(records, reference.number) is Some
}

/// Whether every reference of every object names an object of the index.
pub open spec fn all_resolve(records: Seq<Record>, references: Seq<Seq<PdfRef>>) -> bool {
    forall|i: int, k: int|
        0 <= i < references.len() && 0 <= k < references[i].len() ==> resolves(
            records,
            #[trigger] references[i][k],
        )
}

/// Whether every outline destination is an ordered page, and there are no more
/// than the limits allow.
pub open spec fn destinations_in_order(index: Reconstruction, named: Seq<PdfRef>) -> bool {
    &&& named.len() <= index.limits.max_bookmarks
    &&& forall|k: int| 0 <= k < named.len() ==> index.plan.pages@.contains(#[trigger] named[k])
}

proof fn lemma_references_resolve(
    records: Seq<Record>,
    record: Record,
    references: Seq<PdfRef>,
    from: int,
)
    requires
        0 <= from,
        references_failure(records, record, references, from) is None,
    ensures
        forall|k: int| from <= k < references.len() ==> resolves(records, #[trigger] references[k]),
    decreases references.len() - from,
{
    if from < references.len() {
        lemma_references_resolve(records, record, references, from + 1);
    }
}

/// Check every reference of an object.
fn check_references(records: &[Record], record: Record, references: &Vec<PdfRef>) -> (checked:
    Result<(), Error>)
    requires
        indexed(records@),
    ensures
        checked == outcome(references_failure(records@, record, references@, 0)),
{
    let mut next: usize = 0;
    while next < references.len()
        invariant
            next <= references@.len(),
            indexed(records@),
            references_failure(records@, record, references@, 0) == references_failure(
                records@,
                record,
                references@,
                next as int,
            ),
        decreases references@.len() - next,
    {
        checked_reference(references[next], record.range.offset)?;
        if object_index(records, references[next]).is_none() {
            return Err(
                malformed(
                    Some(record.reference),
                    record.range.offset,
                    "indirect reference targets a missing object",
                ),
            );
        }
        next += 1;
    }
    Ok(())
}

/// Whether a reference is one of the ordered pages.
fn is_ordered_page(sorted: &[PdfRef], Ghost(pages): Ghost<Seq<PdfRef>>, page: PdfRef) -> (found:
    bool)
    requires
        is_page_index(sorted@, pages),
    ensures
        found == pages.contains(page),
{
    let mut low: usize = 0;
    let mut high: usize = sorted.len();
    proof {
        lemma_reordered(pages, sorted@);
    }
    while low < high
        invariant
            low <= high <= sorted@.len(),
            is_page_index(sorted@, pages),
            forall|i: int| 0 <= i < low ==> (#[trigger] sorted@[i]).number < page.number,
            forall|i: int|
                high <= i < sorted@.len() ==> (#[trigger] sorted@[i]).number > page.number,
            forall|i: int| 0 <= i < sorted@.len() ==> pages.contains(#[trigger] sorted@[i]),
            forall|k: int| 0 <= k < pages.len() ==> sorted@.contains(#[trigger] pages[k]),
        decreases high - low,
    {
        let middle: usize = low + (high - low) / 2;
        let candidate = sorted[middle];
        if candidate.number == page.number {
            if candidate.generation == page.generation {
                assert(pages.contains(sorted@[middle as int]));
                return true;
            }
            proof {
                if pages.contains(page) {
                    let k = choose|k: int| 0 <= k < pages.len() && pages[k] == page;
                    assert(sorted@.contains(pages[k]));
                    let p = choose|p: int| 0 <= p < sorted@.len() && sorted@[p] == page;
                    if p < middle {
                        assert(sorted@[p].number < sorted@[middle as int].number);
                    } else if p > middle {
                        assert(sorted@[middle as int].number < sorted@[p].number);
                    }
                }
            }
            return false;
        }
        if candidate.number < page.number {
            low = middle + 1;
        } else {
            high = middle;
        }
    }
    proof {
        if pages.contains(page) {
            let k = choose|k: int| 0 <= k < pages.len() && pages[k] == page;
            assert(sorted@.contains(pages[k]));
            let p = choose|p: int| 0 <= p < sorted@.len() && sorted@[p] == page;
            assert(sorted@[p].number != page.number);
        }
    }
    false
}

impl<'a> StructureCheck<'a> {
    pub open spec fn well_formed(self) -> bool {
        let records = self.index.records@;
        &&& self.index.well_formed()
        &&& scalar_index_failure(self.index) is None
        &&& self.scalars@.len() == records.len()
        &&& self.scalar_bytes == scalar_index_bytes(records.len())
        &&& self.scalar_bytes <= self.retained_bytes
        &&& self.kinds@.len() <= records.len()
        &&& self.stream_flags@.len() == self.kinds@.len()
        &&& evidence_in_order(self.evidence@)
        &&& self.references@.len() == self.kinds@.len()
        &&& all_resolve(records, self.references@)
        &&& self.named@.len() == self.destinations
        &&& destinations_in_order(self.index, self.named@)
        &&& forall|e: int|
            0 <= e < self.evidence@.len() ==> exists|i: int|
                0 <= i < self.kinds@.len() && (#[trigger] self.evidence@[e]).reference
                    == #[trigger] records[i].reference
    }

    /// The integer that an object holds, for a stream's length.
    pub fn resolve_length(&self, reference: PdfRef) -> (length: Option<u64>)
        requires
            self.well_formed(),
        ensures
            length == (match position_of(self.index.records@, reference.number) {
                Some(i) => if self.index.records@[i].reference == reference {
                    self.scalars@[i]
                } else {
                    None
                },
                None => None,
            }),
    {
        match object_index(&self.index.records, reference) {
            Some(i) => if self.index.records[i].reference == reference {
                self.scalars[i]
            } else {
                None
            },
            None => None,
        }
    }

    /// The next object to inspect. Synthesized objects are not inspected.
    pub fn next_object(&mut self) -> (next: Option<Record>)
        requires
            old(self).well_formed(),
        ensures
            final(self).well_formed(),
            final(self).index == old(self).index,
            final(self).scalars == old(self).scalars,
            final(self).evidence == old(self).evidence,
            final(self).destinations == old(self).destinations,
            final(self).retained_bytes == old(self).retained_bytes,
            final(self).named == old(self).named,
            ({
                let from = old(self).kinds@.len() as int;
                let upto = next_supplied(old(self).index.records@, from);
                &&& final(self).kinds@ == old(self).kinds@ + Seq::new(
                    (upto - from) as nat,
                    |i: int| None::<FragmentKind>,
                )
                &&& final(self).stream_flags@ == old(self).stream_flags@ + Seq::new(
                    (upto - from) as nat,
                    |i: int| false,
                )
                &&& final(self).references@ == old(self).references@ + Seq::new(
                    (upto - from) as nat,
                    |i: int| Seq::<PdfRef>::empty(),
                )
                &&& match next {
                    Some(record) => upto < old(self).index.records@.len() && record
                        == old(self).index.records@[upto] && record.range.length > 0,
                    None => upto == old(self).index.records@.len(),
                }
            }),
    {
        let ghost from = self.kinds@.len() as int;
        let ghost before = self.kinds@;
        let ghost flags = self.stream_flags@;
        let ghost links = self.references@;
        let ghost records = self.index.records@;
        while self.kinds.len() < self.index.records.len()
            invariant
                self.well_formed(),
                self.index == old(self).index,
                self.scalars == old(self).scalars,
                self.evidence == old(self).evidence,
                self.destinations == old(self).destinations,
                self.retained_bytes == old(self).retained_bytes,
                self.named == old(self).named,
                records == self.index.records@,
                from == before.len() == flags.len() == links.len(),
                self.references@ == links + Seq::new(
                    (self.kinds@.len() - from) as nat,
                    |i: int| Seq::<PdfRef>::empty(),
                ),
                links == old(self).references@,
                from <= self.kinds@.len() <= records.len(),
                next_supplied(records, from) == next_supplied(records, self.kinds@.len() as int),
                self.kinds@ == before + Seq::new(
                    (self.kinds@.len() - from) as nat,
                    |i: int| None::<FragmentKind>,
                ),
                self.stream_flags@ == flags + Seq::new(
                    (self.kinds@.len() - from) as nat,
                    |i: int| false,
                ),
                from == old(self).kinds@.len(),
                before == old(self).kinds@,
                flags == old(self).stream_flags@,
            decreases records.len() - self.kinds@.len(),
        {
            let record = self.index.records[self.kinds.len()];
            if record.range.length != 0 {
                return Some(record);
            }
            self.kinds.push(None);
            self.stream_flags.push(false);
            self.references = Ghost(self.references@.push(Seq::empty()));
            assert(self.references@ =~= links + Seq::new(
                (self.kinds@.len() - from) as nat,
                |i: int| Seq::<PdfRef>::empty(),
            ));
            assert(self.kinds@ =~= before + Seq::new(
                (self.kinds@.len() - from) as nat,
                |i: int| None::<FragmentKind>,
            ));
            assert(self.stream_flags@ =~= flags + Seq::new(
                (self.kinds@.len() - from) as nat,
                |i: int| false,
            ));
        }
        None
    }
}

/// How many destinations there are after one more object.
pub open spec fn destinations_after(inspection: FragmentInspection, destinations: u32) -> int {
    destinations + if inspection.destination is Some {
        1int
    } else {
        0
    }
}

impl<'a> StructureCheck<'a> {
    /// Take the inspection of the next object.
    pub fn accept_object(&mut self, inspection: FragmentInspection) -> (accepted: Result<(), Error>)
        requires
            old(self).well_formed(),
            old(self).kinds@.len() < old(self).index.records@.len(),
        ensures
            final(self).index == old(self).index,
            ({
                let record = old(self).index.records@[old(self).kinds@.len() as int];
                let failure = inspection_failure(
                    old(self).index,
                    record,
                    inspection,
                    old(self).destinations,
                    old(self).retained_bytes,
                );
                match accepted {
                    Ok(()) => {
                        &&& failure is None
                        &&& final(self).well_formed()
                        &&& final(self).scalars == old(self).scalars
                        &&& final(self).kinds@ == old(self).kinds@.push(Some(inspection.kind))
                        &&& final(self).stream_flags@ == old(self).stream_flags@.push(
                            inspection.is_stream,
                        )
                        &&& final(self).evidence@ == old(self).evidence@ + evidence_of(
                            record,
                            inspection,
                        )
                        &&& final(self).destinations == destinations_after(
                            inspection,
                            old(self).destinations,
                        )
                        &&& final(self).retained_bytes == old(self).retained_bytes + kids_bytes(
                            inspection.kind,
                        ) + all_evidence_bytes(record, inspection)
                        &&& final(self).references@ == old(self).references@.push(
                            inspection.references@,
                        )
                        &&& final(self).named@ == (match inspection.destination {
                            Some(destination) => old(self).named@.push(destination),
                            None => old(self).named@,
                        })
                    },
                    Err(error) => failure == Some(error) || evidence_starved(
                        old(self).index,
                        record,
                        inspection,
                        old(self).destinations,
                        old(self).retained_bytes,
                        error,
                    ),
                }
            }),
    {
        let record = self.index.records[self.kinds.len()];
        let offset = record.range.offset;
        let ghost whole = inspection;
        let ghost before = self.evidence@;
        let FragmentInspection {
            reference,
            max_referenced_object,
            references,
            destination,
            kind,
            contents,
            contents_is_direct_array,
            scalar_reference_array,
            is_stream,
        } = inspection;
        if reference != record.reference {
            return Err(
                malformed(
                    Some(record.reference),
                    offset,
                    "inspected object identity differs from the supplied span",
                ),
            );
        }
        if max_referenced_object > MAX_PDF_OBJECTS {
            return Err(
                pdf_error(
                    Some(record.reference),
                    offset,
                    PdfErrorKind::UnsupportedFeature,
                    "indirect reference exceeds the supported PDF profile",
                ),
            );
        }
        check_references(&self.index.records, record, &references)?;
        if let Some(destination) = destination {
            checked_reference(destination, offset)?;
            if !is_ordered_page(
                &self.index.sorted_pages,
                Ghost(self.index.plan.pages@),
                destination,
            ) {
                return Err(
                    malformed(
                        Some(record.reference),
                        offset,
                        "outline destination does not target an ordered Page object",
                    ),
                );
            }
            if self.destinations == u32::MAX {
                return Err(
                    Error::InvalidInput {
                        reason: "PDF outline destination count overflows 32 bits",
                    },
                );
            }
            self.destinations += 1;
            if self.destinations > self.index.limits.max_bookmarks {
                return Err(
                    pdf_limit(
                        Some(record.reference),
                        offset,
                        "bookmarks",
                        self.index.limits.max_bookmarks as u64,
                        self.destinations as u64,
                    ),
                );
            }
        }
        if let FragmentKind::Pages { kids, .. } = &kind {
            let bytes: usize = match kids.len().checked_mul(core::mem::size_of::<PdfRef>()) {
                Some(bytes) => bytes,
                None => {
                    return Err(
                        Error::InvalidInput {
                            reason: "PDF page-tree child allocation overflows 64 bits",
                        },
                    );
                },
            };
            self.retained_bytes = checked_add(self.retained_bytes, bytes as u64)?;
            check_pdf_allocation(
                &self.index.limits,
                self.retained_bytes,
                Some(record.reference),
                offset,
            )?;
        }
        let limits = self.index.limits;
        if let Some(references) = contents {
            let item = ContentEvidence {
                reference: record.reference,
                kind: ContentEvidenceKind::Page { direct_array: contents_is_direct_array },
                references,
            };
            retain_content_evidence(
                &mut self.evidence,
                &mut self.retained_bytes,
                item,
                offset,
                &limits,
            )?;
        }
        if let Some(references) = scalar_reference_array {
            let item = ContentEvidence {
                reference: record.reference,
                kind: ContentEvidenceKind::ScalarArray,
                references,
            };
            retain_content_evidence(
                &mut self.evidence,
                &mut self.retained_bytes,
                item,
                offset,
                &limits,
            )?;
        }
        self.stream_flags.push(is_stream);
        self.kinds.push(Some(kind));
        self.references = Ghost(self.references@.push(whole.references@));
        self.named = Ghost(
            match whole.destination {
                Some(destination) => self.named@.push(destination),
                None => self.named@,
            },
        );
        proof {
            lemma_references_resolve(self.index.records@, record, whole.references@, 0);
            assert(self.evidence@ =~= before + evidence_of(record, whole));
            let records = self.index.records@;
            let last = self.kinds@.len() - 1;
            assert(records[last] == record);
            assert forall|e: int| 0 <= e < self.evidence@.len() implies exists|i: int|
                0 <= i < self.kinds@.len() && (#[trigger] self.evidence@[e]).reference
                    == #[trigger] records[i].reference by {
                if e < before.len() {
                    assert(self.evidence@[e] == before[e]);
                    let i = choose|i: int|
                        0 <= i < last && before[e].reference == #[trigger] records[i].reference;
                    assert(records[i].reference == self.evidence@[e].reference);
                } else {
                    assert(records[last].reference == self.evidence@[e].reference);
                }
            }
            assert forall|i: int, j: int| 0 <= i <= j < self.evidence@.len() implies (
            #[trigger] self.evidence@[i]).reference.number <= (
            #[trigger] self.evidence@[j]).reference.number by {
                if j < before.len() {
                    assert(before[i].reference.number <= before[j].reference.number);
                } else if i < before.len() {
                    let k = choose|k: int|
                        0 <= k < last && before[i].reference == #[trigger] records[k].reference;
                    assert(records[k].reference.number < records[last].reference.number);
                }
            }
        }
        Ok(())
    }
}

/// How many of the first `count` objects are pages.
pub open spec fn page_objects(kinds: Seq<Option<FragmentKind>>, count: int) -> int
    decreases count,
{
    if count <= 0 {
        0
    } else {
        page_objects(kinds, count - 1) + if kinds[count - 1] matches Some(FragmentKind::Page { .. }) {
            1int
        } else {
            0
        }
    }
}

/// How many of the first `count` objects are catalogs.
pub open spec fn catalog_objects(kinds: Seq<Option<FragmentKind>>, count: int) -> int
    decreases count,
{
    if count <= 0 {
        0
    } else {
        catalog_objects(kinds, count - 1) + if kinds[count - 1] matches Some(
            FragmentKind::Catalog { .. },
        ) {
            1int
        } else {
            0
        }
    }
}

/// The first catalog from position `from` on that the plan did not select.
pub open spec fn unselected_failure(
    plan: FragmentPlan,
    records: Seq<Record>,
    kinds: Seq<Option<FragmentKind>>,
    from: int,
) -> Option<Error>
    decreases kinds.len() - from,
{
    if from >= kinds.len() {
        None
    } else if kinds[from] matches Some(FragmentKind::Catalog { .. }) && Some(
        records[from].reference,
    ) != plan.catalog {
        Some(
            pdf_error(
                Some(records[from].reference),
                records[from].range.offset,
                PdfErrorKind::AmbiguousRepair,
                "unselected catalog object is present",
            ),
        )
    } else {
        unselected_failure(plan, records, kinds, from + 1)
    }
}

/// Why the numbers of pages and catalogs do not match the plan.
pub open spec fn counts_failure(plan: FragmentPlan, kinds: Seq<Option<FragmentKind>>) -> Option<
    Error,
> {
    let catalogs = catalog_objects(kinds, kinds.len() as int);
    if page_objects(kinds, kinds.len() as int) != plan.pages@.len() {
        Some(
            pdf_error(
                None,
                0,
                PdfErrorKind::AmbiguousRepair,
                "supplied page objects do not match explicit page order",
            ),
        )
    } else if plan.catalog is Some && catalogs != 1 || plan.catalog is None && catalogs != 0 {
        Some(malformed(plan.catalog, 0, "catalog object has the wrong type"))
    } else {
        None
    }
}

/// Why the selected catalog does not lead to the selected page tree.
pub open spec fn catalog_link_failure(
    plan: FragmentPlan,
    records: Seq<Record>,
    kinds: Seq<Option<FragmentKind>>,
) -> Option<Error> {
    match plan.catalog {
        None => None,
        Some(catalog) => match position_of(records, catalog.number) {
            None => Some(malformed(Some(catalog), 0, "catalog object is missing")),
            Some(i) => match kinds[i] {
                Some(FragmentKind::Catalog { pages }) if pages == plan.pages_root => None,
                _ => Some(
                    malformed(
                        Some(catalog),
                        records[i].range.offset,
                        "catalog does not reference the selected page tree",
                    ),
                ),
            },
        },
    }
}

/// Why the objects from position `from` on do not fit below a synthesized
/// root.
pub open spec fn flat_failure(
    plan: FragmentPlan,
    records: Seq<Record>,
    kinds: Seq<Option<FragmentKind>>,
    from: int,
) -> Option<Error>
    decreases kinds.len() - from,
{
    if from >= kinds.len() {
        None
    } else {
        first_failure(
            flat_object_failure(plan, records[from], kinds[from]),
            flat_failure(plan, records, kinds, from + 1),
        )
    }
}

/// Why one object does not fit below a synthesized root.
pub open spec fn flat_object_failure(
    plan: FragmentPlan,
    record: Record,
    kind: Option<FragmentKind>,
) -> Option<Error> {
    let offset = record.range.offset;
    match kind {
        Some(FragmentKind::Page { parent, has_media_box }) => if parent != plan.pages_root {
            Some(
                pdf_error(
                    Some(record.reference),
                    offset,
                    PdfErrorKind::AmbiguousRepair,
                    "page parent differs from the missing root",
                ),
            )
        } else if !has_media_box {
            Some(
                malformed(
                    Some(record.reference),
                    offset,
                    "Page has no MediaBox and the synthesized root cannot provide one",
                ),
            )
        } else {
            None
        },
        Some(FragmentKind::Pages { .. }) => Some(
            pdf_error(
                Some(record.reference),
                offset,
                PdfErrorKind::AmbiguousRepair,
                "missing page root cannot be synthesized around nested Pages nodes",
            ),
        ),
        _ => None,
    }
}

/// Why the ordered pages from position `from` on are not page objects.
pub open spec fn flat_pages_failure(
    records: Seq<Record>,
    kinds: Seq<Option<FragmentKind>>,
    pages: Seq<PdfRef>,
    from: int,
) -> Option<Error>
    decreases pages.len() - from,
{
    if from >= pages.len() {
        None
    } else {
        match position_of(records, pages[from].number) {
            None => Some(malformed(Some(pages[from]), 0, "ordered page object is missing")),
            Some(i) => if kinds[i] matches Some(FragmentKind::Page { .. }) {
                flat_pages_failure(records, kinds, pages, from + 1)
            } else {
                Some(
                    malformed(
                        Some(pages[from]),
                        records[i].range.offset,
                        "ordered page reference is not a Page object",
                    ),
                )
            },
        }
    }
}

/// Why the objects do not form the document that the plan describes, memory
/// aside.
pub open spec fn shape_failure(
    index: Reconstruction,
    kinds: Seq<Option<FragmentKind>>,
) -> Option<Error> {
    first_failure(
        unselected_failure(index.plan, index.records@, kinds, 0),
        first_failure(
            counts_failure(index.plan, kinds),
            catalog_link_failure(index.plan, index.records@, kinds),
        ),
    )
}

/// Why the page tree is refused. A root that was not supplied is synthesized
/// above all pages; one that was must already be the root of a page tree.
pub open spec fn root_failure(
    index: Reconstruction,
    kinds: Seq<Option<FragmentKind>>,
    retained_bytes: int,
) -> Option<Error> {
    let plan = index.plan;
    let records = index.records@;
    match position_of(records, plan.pages_root.number) {
        None => Some(
            malformed(
                Some(plan.pages_root),
                0,
                "page tree root is missing from the repair index",
            ),
        ),
        Some(root) => if records[root].range.length == 0 {
            first_failure(
                flat_failure(plan, records, kinds, 0),
                flat_pages_failure(records, kinds, plan.pages@, 0),
            )
        } else {
            first_failure(
                walk_memory_failure(
                    records.len(),
                    plan.pages_root,
                    root_offset(records, plan.pages_root),
                    retained_bytes as u64,
                    index.limits,
                ),
                page_tree_failure(forest_of(index, kinds), plan.pages_root),
            )
        },
    }
}

/// The inspected objects as a forest of page-tree nodes.
pub open spec fn forest_of(index: Reconstruction, kinds: Seq<Option<FragmentKind>>) -> Forest {
    Forest {
        records: index.records@,
        kinds,
        pages: index.plan.pages@,
        max_pages: index.limits.max_pages,
    }
}

/// Why the inspected objects are refused as a whole.
pub open spec fn structure_failure(check: StructureCheck) -> Option<Error> {
    let records = check.index.records@;
    first_failure(
        cache_failure(records, check.evidence@, check.retained_bytes, check.index.limits),
        first_failure(
            contents_failure(records, check.stream_flags@, check.evidence@, 0),
            first_failure(
                shape_failure(check.index, check.kinds@),
                root_failure(
                    check.index,
                    check.kinds@,
                    check.retained_bytes - check.scalar_bytes,
                ),
            ),
        ),
    )
}

/// Whether an error reports that memory was not available to a check of the
/// whole that every earlier check had passed.
pub open spec fn structure_starved(check: StructureCheck, error: Error) -> bool {
    let records = check.index.records@;
    let limits = check.index.limits;
    let root = check.index.plan.pages_root;
    &&& cache_failure(records, check.evidence@, check.retained_bytes, limits) is None
    &&& {
        ||| check.evidence@.len() > 0 && cache_refused(error, check.evidence@, limits)
        ||| {
            &&& contents_failure(records, check.stream_flags@, check.evidence@, 0) is None
            &&& shape_failure(check.index, check.kinds@) is None
            &&& position_of(records, root.number) matches Some(i) && records[i].range.length > 0
            &&& walk_starved(
                records.len(),
                root,
                root_offset(records, root),
                (check.retained_bytes - check.scalar_bytes) as u64,
                limits,
                error,
            )
        }
    }
}

/// A reconstruction whose objects have been found to be what the plan says.
pub struct Validated<'a> {
    pub index: Reconstruction<'a>,
    pub kinds: Ghost<Seq<Option<FragmentKind>>>,
    pub stream_flags: Ghost<Seq<bool>>,
    pub evidence: Ghost<Seq<ContentEvidence>>,
    pub references: Ghost<Seq<Seq<PdfRef>>>,
    pub named: Ghost<Seq<PdfRef>>,
}

impl<'a> Validated<'a> {
    /// Whether every check of the structure has passed.
    pub open spec fn well_formed(self) -> bool {
        &&& self.index.well_formed()
        &&& self.kinds@.len() == self.index.records@.len()
        &&& contents_failure(self.index.records@, self.stream_flags@, self.evidence@, 0) is None
        &&& shape_failure(self.index, self.kinds@) is None
        &&& self.references@.len() == self.kinds@.len()
        &&& all_resolve(self.index.records@, self.references@)
        &&& destinations_in_order(self.index, self.named@)
        &&& exists|retained: int| #[trigger] root_failure(self.index, self.kinds@, retained) is None
    }
}

/// Count the pages and catalogs, and refuse a catalog that was not selected.
fn check_shape(index: &Reconstruction, kinds: &[Option<FragmentKind>]) -> (checked: Result<
    (),
    Error,
>)
    requires
        index.well_formed(),
        kinds@.len() == index.records@.len(),
    ensures
        checked == outcome(shape_failure(*index, kinds@)),
{
    proof {
        lemma_index_size(*index);
    }
    let mut pages: u32 = 0;
    let mut catalogs: u32 = 0;
    let mut next: usize = 0;
    while next < kinds.len()
        invariant
            next <= kinds@.len(),
            kinds@.len() == index.records@.len(),
            kinds@.len() <= MAX_PDF_OBJECTS,
            pages == page_objects(kinds@, next as int),
            catalogs == catalog_objects(kinds@, next as int),
            pages <= next,
            catalogs <= next,
            unselected_failure(index.plan, index.records@, kinds@, 0) == unselected_failure(
                index.plan,
                index.records@,
                kinds@,
                next as int,
            ),
        decreases kinds@.len() - next,
    {
        match &kinds[next] {
            Some(FragmentKind::Page { .. }) => {
                pages += 1;
            },
            Some(FragmentKind::Catalog { .. }) => {
                catalogs += 1;
                let reference = index.records[next].reference;
                let selected: bool = match index.plan.catalog {
                    Some(catalog) => catalog == reference,
                    None => false,
                };
                if !selected {
                    return Err(
                        pdf_error(
                            Some(reference),
                            index.records[next].range.offset,
                            PdfErrorKind::AmbiguousRepair,
                            "unselected catalog object is present",
                        ),
                    );
                }
            },
            _ => {},
        }
        next += 1;
    }
    if pages as u64 != index.plan.pages.len() as u64 {
        return Err(
            pdf_error(
                None,
                0,
                PdfErrorKind::AmbiguousRepair,
                "supplied page objects do not match explicit page order",
            ),
        );
    }
    match index.plan.catalog {
        Some(catalog) => {
            if catalogs != 1 {
                return Err(malformed(index.plan.catalog, 0, "catalog object has the wrong type"));
            }
            let position = match object_index(&index.records, catalog) {
                Some(position) => position,
                None => {
                    return Err(malformed(Some(catalog), 0, "catalog object is missing"));
                },
            };
            let linked: bool = match &kinds[position] {
                Some(FragmentKind::Catalog { pages }) => *pages == index.plan.pages_root,
                _ => false,
            };
            if !linked {
                return Err(
                    malformed(
                        Some(catalog),
                        index.records[position].range.offset,
                        "catalog does not reference the selected page tree",
                    ),
                );
            }
        },
        None => {
            if catalogs != 0 {
                return Err(malformed(index.plan.catalog, 0, "catalog object has the wrong type"));
            }
        },
    }
    Ok(())
}

/// Check that every page fits below a root that is yet to be written.
fn check_flat(index: &Reconstruction, kinds: &[Option<FragmentKind>]) -> (checked: Result<
    (),
    Error,
>)
    requires
        index.well_formed(),
        kinds@.len() == index.records@.len(),
    ensures
        checked == outcome(
            first_failure(
                flat_failure(index.plan, index.records@, kinds@, 0),
                flat_pages_failure(index.records@, kinds@, index.plan.pages@, 0),
            ),
        ),
{
    proof {
        lemma_index_size(*index);
    }
    let root = index.plan.pages_root;
    let mut next: usize = 0;
    while next < kinds.len()
        invariant
            next <= kinds@.len(),
            kinds@.len() == index.records@.len(),
            root == index.plan.pages_root,
            flat_failure(index.plan, index.records@, kinds@, 0) == flat_failure(
                index.plan,
                index.records@,
                kinds@,
                next as int,
            ),
        decreases kinds@.len() - next,
    {
        let record = index.records[next];
        match &kinds[next] {
            Some(FragmentKind::Page { parent, has_media_box }) => {
                if *parent != root {
                    return Err(
                        pdf_error(
                            Some(record.reference),
                            record.range.offset,
                            PdfErrorKind::AmbiguousRepair,
                            "page parent differs from the missing root",
                        ),
                    );
                }
                if !*has_media_box {
                    return Err(
                        malformed(
                            Some(record.reference),
                            record.range.offset,
                            "Page has no MediaBox and the synthesized root cannot provide one",
                        ),
                    );
                }
            },
            Some(FragmentKind::Pages { .. }) => {
                return Err(
                    pdf_error(
                        Some(record.reference),
                        record.range.offset,
                        PdfErrorKind::AmbiguousRepair,
                        "missing page root cannot be synthesized around nested Pages nodes",
                    ),
                );
            },
            _ => {},
        }
        next += 1;
    }
    let pages = index.plan.pages;
    let mut next: usize = 0;
    while next < pages.len()
        invariant
            next <= pages@.len(),
            pages == index.plan.pages,
            flat_failure(index.plan, index.records@, kinds@, 0) is None,
            indexed(index.records@),
            kinds@.len() == index.records@.len(),
            flat_pages_failure(index.records@, kinds@, pages@, 0) == flat_pages_failure(
                index.records@,
                kinds@,
                pages@,
                next as int,
            ),
        decreases pages@.len() - next,
    {
        let position = match object_index(&index.records, pages[next]) {
            Some(position) => position,
            None => {
                return Err(malformed(Some(pages[next]), 0, "ordered page object is missing"));
            },
        };
        let is_page: bool = match &kinds[position] {
            Some(FragmentKind::Page { .. }) => true,
            _ => false,
        };
        if !is_page {
            return Err(
                malformed(
                    Some(pages[next]),
                    index.records[position].range.offset,
                    "ordered page reference is not a Page object",
                ),
            );
        }
        next += 1;
    }
    Ok(())
}

impl<'a> StructureCheck<'a> {
    /// Check the objects as a whole once every one has been inspected.
    pub fn finish(self) -> (finished: Result<Validated<'a>, Error>)
        requires
            self.well_formed(),
            self.kinds@.len() == self.index.records@.len(),
        ensures
            match finished {
                Ok(validated) => {
                    &&& structure_failure(self) is None
                    &&& validated.well_formed()
                    &&& validated.index == self.index
                    &&& validated.kinds@ == self.kinds@
                    &&& validated.stream_flags@ == self.stream_flags@
                    &&& validated.evidence@ == self.evidence@
                    &&& validated.references == self.references
                    &&& validated.named == self.named
                },
                Err(error) => structure_failure(self) == Some(error) || structure_starved(
                    self,
                    error,
                ),
            },
    {
        proof {
            lemma_index_size(self.index);
        }
        let ghost kinds = self.kinds@;
        let ghost stream_flags = self.stream_flags@;
        let ghost evidence = self.evidence@;
        validate_fragment_contents(
            &self.index.records,
            &self.stream_flags,
            &self.evidence,
            self.retained_bytes,
            &self.index.limits,
        )?;
        let retained: u64 = self.retained_bytes - self.scalar_bytes;
        check_shape(&self.index, &self.kinds)?;
        let root = match object_index(&self.index.records, self.index.plan.pages_root) {
            Some(root) => root,
            None => {
                return Err(
                    malformed(
                        Some(self.index.plan.pages_root),
                        0,
                        "page tree root is missing from the repair index",
                    ),
                );
            },
        };
        if self.index.records[root].range.length == 0 {
            check_flat(&self.index, &self.kinds)?;
        } else {
            validate_existing_page_tree(
                &self.index.plan,
                &self.index.records,
                &self.kinds,
                retained,
                &self.index.limits,
            )?;
        }
        assert(root_failure(self.index, kinds, retained as int) is None);
        Ok(
            Validated {
                index: self.index,
                kinds: Ghost(kinds),
                stream_flags: Ghost(stream_flags),
                evidence: Ghost(evidence),
                references: self.references,
                named: self.named,
            },
        )
    }
}

} // verus!

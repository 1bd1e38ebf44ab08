//! The streams that page contents lead to.

use vstd::prelude::*;
use vstd::layout::size_of;
use crate::fallible::{allocator_refused, reserve_exact};
use crate::fragment::record::{
    allocation_failure, check_pdf_allocation, checked_add, indexed, malformed, object_index,
    position_of, Record,
};
use crate::types::{first_failure, outcome, Error, Limits, PdfRef};

verus! {

/// Where a list of content references was found.
#[derive(Clone, Copy, Debug, PartialEq, Eq, Structural)]
pub enum ContentEvidenceKind {
    /// In a Page's `/Contents`.
    Page { direct_array: bool },
    /// In an object that is an array of references.
    ScalarArray,
}

/// The references of one object that page contents may lead through.
#[derive(Debug)]
pub struct ContentEvidence {
    pub reference: PdfRef,
    pub kind: ContentEvidenceKind,
    pub references: Vec<PdfRef>,
}

/// The evidence is in order of object number.
pub open spec fn evidence_in_order(evidence: Seq<ContentEvidence>) -> bool {
    forall|i: int, j: int|
        0 <= i <= j < evidence.len() ==> (#[trigger] evidence[i]).reference.number <= (
        #[trigger] evidence[j]).reference.number
}

/// The bytes that retaining an item is charged.
pub open spec fn evidence_bytes(item: ContentEvidence) -> int {
    (size_of::<ContentEvidence>() + item.references@.len() * size_of::<PdfRef>()) as int
}

/// Why an item may not be retained beside `retained_bytes`.
pub open spec fn retain_failure(
    item: ContentEvidence,
    retained_bytes: u64,
    offset: u64,
    limits: Limits,
) -> Option<Error> {
    if item.references@.len() * size_of::<PdfRef>() > usize::MAX {
        Some(Error::InvalidInput { reason: "PDF content reference allocation overflows 64 bits" })
    } else {
        allocation_failure(
            limits,
            retained_bytes + evidence_bytes(item),
            Some(item.reference),
            offset,
        )
    }
}

/// Retain an item of evidence, and charge it.
pub fn retain_content_evidence(
    evidence: &mut Vec<ContentEvidence>,
    retained_bytes: &mut u64,
    item: ContentEvidence,
    offset: u64,
    limits: &Limits,
) -> (retained: Result<(), Error>)
    ensures
        match retained {
            Ok(()) => {
                &&& retain_failure(item, *old(retained_bytes), offset, *limits) is None
                &&& final(evidence)@ == old(evidence)@.push(item)
                &&& *final(retained_bytes) == *old(retained_bytes) + evidence_bytes(item)
            },
            Err(error) => {
                &&& final(evidence)@ == old(evidence)@
                &&& match retain_failure(item, *old(retained_bytes), offset, *limits) {
                    Some(failure) => error == failure,
                    None => allocator_refused(
                        error,
                        "PDF content evidence allocation",
                        *limits,
                        *old(retained_bytes) + evidence_bytes(item),
                    ),
                }
            },
        },
{
    let reference_bytes: usize = match item.references.len().checked_mul(
        core::mem::size_of::<PdfRef>(),
    ) {
        Some(bytes) => bytes,
        None => {
            return Err(
                Error::InvalidInput { reason: "PDF content reference allocation overflows 64 bits" },
            );
        },
    };
    let item_bytes = checked_add(
        core::mem::size_of::<ContentEvidence>() as u64,
        reference_bytes as u64,
    )?;
    *retained_bytes = checked_add(*retained_bytes, item_bytes)?;
    check_pdf_allocation(limits, *retained_bytes, Some(item.reference), offset)?;
    let refused = limits.allocation_refused("PDF content evidence allocation", *retained_bytes);
    reserve_exact(evidence, 1, refused)?;
    evidence.push(item);
    Ok(())
}

/// Why `target` is not a content stream of the page.
pub open spec fn target_failure(
    records: Seq<Record>,
    streams: Seq<bool>,
    target: PdfRef,
    page: PdfRef,
    page_offset: u64,
) -> Option<Error> {
    match position_of(records, target.number) {
        None => Some(malformed(Some(page), page_offset, "Page Contents targets a missing object")),
        Some(index) => if streams[index] {
            None
        } else {
            Some(
                malformed(
                    Some(page),
                    page_offset,
                    "Page Contents array contains a non-stream object",
                ),
            )
        },
    }
}

/// Check that `target` is a content stream of the page.
pub fn require_content_stream(
    records: &[Record],
    stream_flags: &[bool],
    target: PdfRef,
    page: PdfRef,
    page_offset: u64,
) -> (required: Result<(), Error>)
    requires
        indexed(records@),
        stream_flags@.len() == records@.len(),
    ensures
        required == outcome(target_failure(records@, stream_flags@, target, page, page_offset)),
{
    match object_index(records, target) {
        None => Err(malformed(Some(page), page_offset, "Page Contents targets a missing object")),
        Some(index) => if stream_flags[index] {
            Ok(())
        } else {
            Err(
                malformed(
                    Some(page),
                    page_offset,
                    "Page Contents array contains a non-stream object",
                ),
            )
        },
    }
}

/// The first failure among the targets from position `from` on.
pub open spec fn targets_failure(
    records: Seq<Record>,
    streams: Seq<bool>,
    targets: Seq<PdfRef>,
    from: int,
    page: PdfRef,
    page_offset: u64,
) -> Option<Error>
    decreases targets.len() - from,
{
    if from >= targets.len() {
        None
    } else {
        first_failure(
            target_failure(records, streams, targets[from], page, page_offset),
            targets_failure(records, streams, targets, from + 1, page, page_offset),
        )
    }
}

/// Check that every target is a content stream of the page.
fn require_content_streams(
    records: &[Record],
    stream_flags: &[bool],
    targets: &Vec<PdfRef>,
    page: PdfRef,
    page_offset: u64,
) -> (required: Result<(), Error>)
    requires
        indexed(records@),
        stream_flags@.len() == records@.len(),
    ensures
        required == outcome(
            targets_failure(records@, stream_flags@, targets@, 0, page, page_offset),
        ),
{
    let mut next: usize = 0;
    while next < targets.len()
        invariant
            next <= targets@.len(),
            indexed(records@),
            stream_flags@.len() == records@.len(),
            targets_failure(records@, stream_flags@, targets@, 0, page, page_offset)
                == targets_failure(
                records@,
                stream_flags@,
                targets@,
                next as int,
                page,
                page_offset,
            ),
        decreases targets@.len() - next,
    {
        require_content_stream(records, stream_flags, targets[next], page, page_offset)?;
        next += 1;
    }
    Ok(())
}

/// Whether an array of streams is one does not depend on the page that asks.
proof fn lemma_targets_for_any_page(
    records: Seq<Record>,
    streams: Seq<bool>,
    targets: Seq<PdfRef>,
    from: int,
    page: PdfRef,
    page_offset: u64,
    other: PdfRef,
    other_offset: u64,
)
    requires
        targets_failure(records, streams, targets, from, page, page_offset) is None,
    ensures
        targets_failure(records, streams, targets, from, other, other_offset) is None,
    decreases targets.len() - from,
{
    if from < targets.len() {
        lemma_targets_for_any_page(
            records,
            streams,
            targets,
            from + 1,
            page,
            page_offset,
            other,
            other_offset,
        );
    }
}

/// The first array of references, from position `from` on, with this object
/// number.
pub open spec fn array_of(evidence: Seq<ContentEvidence>, number: u32, from: int) -> Option<int>
    decreases evidence.len() - from,
{
    if from >= evidence.len() {
        None
    } else if evidence[from].reference.number == number
        && evidence[from].kind == ContentEvidenceKind::ScalarArray {
        Some(from)
    } else {
        array_of(evidence, number, from + 1)
    }
}

proof fn lemma_array_skips(evidence: Seq<ContentEvidence>, number: u32, from: int, to: int)
    requires
        0 <= from <= to <= evidence.len(),
        forall|i: int|
            from <= i < to ==> (#[trigger] evidence[i]).reference.number != number
                || evidence[i].kind != ContentEvidenceKind::ScalarArray,
    ensures
        array_of(evidence, number, from) == array_of(evidence, number, to),
    decreases to - from,
{
    if from < to {
        assert(evidence[from].reference.number != number || evidence[from].kind
            != ContentEvidenceKind::ScalarArray);
        lemma_array_skips(evidence, number, from + 1, to);
    }
}

/// Find an array of references by its object number.
fn find_array(evidence: &[ContentEvidence], number: u32) -> (found: Option<usize>)
    requires
        evidence_in_order(evidence@),
    ensures
        match array_of(evidence@, number, 0) {
            Some(index) => found == Some(index as usize) && 0 <= index < evidence@.len(),
            None => found is None,
        },
{
    let mut low: usize = 0;
    let mut high: usize = evidence.len();
    while low < high
        invariant
            low <= high <= evidence@.len(),
            evidence_in_order(evidence@),
            forall|i: int| 0 <= i < low ==> (#[trigger] evidence@[i]).reference.number < number,
            forall|i: int|
                high <= i < evidence@.len() ==> (#[trigger] evidence@[i]).reference.number
                    >= number,
        decreases high - low,
    {
        let middle: usize = low + (high - low) / 2;
        if evidence[middle].reference.number < number {
            low = middle + 1;
        } else {
            high = middle;
        }
    }
    proof {
        lemma_array_skips(evidence@, number, 0, low as int);
    }
    while low < evidence.len() && evidence[low].reference.number == number
        invariant
            low <= evidence@.len(),
            evidence_in_order(evidence@),
            array_of(evidence@, number, 0) == array_of(evidence@, number, low as int),
            forall|i: int|
                low <= i < evidence@.len() ==> (#[trigger] evidence@[i]).reference.number
                    >= number,
        decreases evidence@.len() - low,
    {
        if evidence[low].kind == ContentEvidenceKind::ScalarArray {
            return Some(low);
        }
        low += 1;
    }
    proof {
        if low < evidence@.len() {
            assert(evidence@[low as int].reference.number > number);
        }
        lemma_array_skips(evidence@, number, low as int, evidence@.len() as int);
    }
    None
}

/// Why the contents that one item of evidence describes are not streams.
pub open spec fn item_failure(
    records: Seq<Record>,
    streams: Seq<bool>,
    evidence: Seq<ContentEvidence>,
    item: ContentEvidence,
) -> Option<Error> {
    match item.kind {
        ContentEvidenceKind::ScalarArray => None,
        ContentEvidenceKind::Page { direct_array } => {
            match position_of(records, item.reference.number) {
                None => Some(
                    Error::InvalidInput {
                        reason: "validated Page content evidence is absent from the object index",
                    },
                ),
                Some(page_index) => {
                    let offset = records[page_index].range.offset;
                    if direct_array {
                        targets_failure(
                            records,
                            streams,
                            item.references@,
                            0,
                            item.reference,
                            offset,
                        )
                    } else {
                        single_target_failure(records, streams, evidence, item, offset)
                    }
                },
            }
        },
    }
}

/// Why the single target of a page's contents is neither a stream nor an array
/// of streams.
pub open spec fn single_target_failure(
    records: Seq<Record>,
    streams: Seq<bool>,
    evidence: Seq<ContentEvidence>,
    item: ContentEvidence,
    offset: u64,
) -> Option<Error> {
    let page = Some(item.reference);
    if item.references@.len() == 0 {
        Some(malformed(page, offset, "Page Contents lacks an indirect target"))
    } else {
        let target = item.references@[0];
        match position_of(records, target.number) {
            None => Some(malformed(page, offset, "Page Contents targets a missing object")),
            Some(target_index) => if streams[target_index] {
                None
            } else {
                match array_of(evidence, target.number, 0) {
                    None => Some(
                        malformed(
                            page,
                            offset,
                            "Page Contents target is neither a stream nor a stream reference array",
                        ),
                    ),
                    Some(array_index) => targets_failure(
                        records,
                        streams,
                        evidence[array_index].references@,
                        0,
                        item.reference,
                        offset,
                    ),
                }
            },
        }
    }
}

/// The first failure among the items of evidence from position `from` on.
pub open spec fn contents_failure(
    records: Seq<Record>,
    streams: Seq<bool>,
    evidence: Seq<ContentEvidence>,
    from: int,
) -> Option<Error>
    decreases evidence.len() - from,
{
    if from >= evidence.len() {
        None
    } else {
        first_failure(
            item_failure(records, streams, evidence, evidence[from]),
            contents_failure(records, streams, evidence, from + 1),
        )
    }
}

/// Whether every array marked as validated holds streams only.
spec fn marks_hold(
    records: Seq<Record>,
    streams: Seq<bool>,
    evidence: Seq<ContentEvidence>,
    validated: Seq<bool>,
) -> bool {
    &&& validated.len() == evidence.len()
    &&& forall|i: int, page: PdfRef, offset: u64|
        #![trigger targets_failure(records, streams, evidence[i].references@, 0, page, offset)]
        0 <= i < evidence.len() && validated[i] ==> targets_failure(
            records,
            streams,
            evidence[i].references@,
            0,
            page,
            offset,
        ) is None
}

/// Check the single target of one page's contents, marking an array that holds
/// streams only.
fn check_single_target(
    records: &[Record],
    stream_flags: &[bool],
    evidence: &[ContentEvidence],
    position: usize,
    offset: u64,
    validated: &mut Vec<bool>,
) -> (checked: Result<(), Error>)
    requires
        indexed(records@),
        stream_flags@.len() == records@.len(),
        evidence_in_order(evidence@),
        position < evidence@.len(),
        marks_hold(records@, stream_flags@, evidence@, old(validated)@),
    ensures
        checked == outcome(
            single_target_failure(
                records@,
                stream_flags@,
                evidence@,
                evidence@[position as int],
                offset,
            ),
        ),
        marks_hold(records@, stream_flags@, evidence@, final(validated)@),
{
    let item = &evidence[position];
    let page = Some(item.reference);
    if item.references.len() == 0 {
        return Err(malformed(page, offset, "Page Contents lacks an indirect target"));
    }
    let target = item.references[0];
    let target_index = match object_index(records, target) {
        Some(index) => index,
        None => {
            return Err(malformed(page, offset, "Page Contents targets a missing object"));
        },
    };
    if stream_flags[target_index] {
        return Ok(());
    }
    let array_index = match find_array(evidence, target.number) {
        Some(index) => index,
        None => {
            return Err(
                malformed(
                    page,
                    offset,
                    "Page Contents target is neither a stream nor a stream reference array",
                ),
            );
        },
    };
    if !validated[array_index] {
        let array = &evidence[array_index];
        require_content_streams(records, stream_flags, &array.references, item.reference, offset)?;
        validated.set(array_index, true);
        proof {
            assert forall|i: int, other: PdfRef, other_offset: u64|
                #![trigger targets_failure(records@, stream_flags@, evidence@[i].references@, 0, other, other_offset)]
                0 <= i < evidence@.len() && validated@[i] implies targets_failure(
                records@,
                stream_flags@,
                evidence@[i].references@,
                0,
                other,
                other_offset,
            ) is None by {
                if i == array_index {
                    lemma_targets_for_any_page(
                        records@,
                        stream_flags@,
                        evidence@[i].references@,
                        0,
                        item.reference,
                        offset,
                        other,
                        other_offset,
                    );
                }
            }
        }
    }
    Ok(())
}

/// Check that every page's contents are streams, with a buffer of marks that
/// holds nothing yet.
pub fn check_contents(
    records: &[Record],
    stream_flags: &[bool],
    evidence: &[ContentEvidence],
    mark_buffer: Vec<bool>,
) -> (checked: Result<(), Error>)
    requires
        indexed(records@),
        stream_flags@.len() == records@.len(),
        evidence_in_order(evidence@),
        mark_buffer@.len() == 0,
    ensures
        checked == outcome(contents_failure(records@, stream_flags@, evidence@, 0)),
{
    let mut validated: Vec<bool> = mark_buffer;
    while validated.len() < evidence.len()
        invariant
            validated@.len() <= evidence@.len(),
            forall|i: int| 0 <= i < validated@.len() ==> !(#[trigger] validated@[i]),
        decreases evidence@.len() - validated@.len(),
    {
        validated.push(false);
    }
    let mut next: usize = 0;
    while next < evidence.len()
        invariant
            next <= evidence@.len(),
            indexed(records@),
            stream_flags@.len() == records@.len(),
            evidence_in_order(evidence@),
            marks_hold(records@, stream_flags@, evidence@, validated@),
            contents_failure(records@, stream_flags@, evidence@, 0) == contents_failure(
                records@,
                stream_flags@,
                evidence@,
                next as int,
            ),
        decreases evidence@.len() - next,
    {
        let item = &evidence[next];
        if let ContentEvidenceKind::Page { direct_array } = item.kind {
            let page_index = match object_index(records, item.reference) {
                Some(index) => index,
                None => {
                    return Err(
                        Error::InvalidInput {
                            reason: "validated Page content evidence is absent from the object index",
                        },
                    );
                },
            };
            let offset = records[page_index].range.offset;
            if direct_array {
                require_content_streams(
                    records,
                    stream_flags,
                    &item.references,
                    item.reference,
                    offset,
                )?;
            } else {
                check_single_target(
                    records,
                    stream_flags,
                    evidence,
                    next,
                    offset,
                    &mut validated,
                )?;
            }
        }
        next += 1;
    }
    Ok(())
}

/// The object that an allocation for the evidence is charged to.
pub open spec fn first_evidence(evidence: Seq<ContentEvidence>) -> Option<PdfRef> {
    if evidence.len() == 0 {
        None
    } else {
        Some(evidence[0].reference)
    }
}

/// Where that object starts, if it is in the index.
pub open spec fn first_evidence_offset(
    records: Seq<Record>,
    evidence: Seq<ContentEvidence>,
) -> u64 {
    if evidence.len() == 0 {
        0
    } else {
        match position_of(records, evidence[0].reference.number) {
            Some(index) => records[index].range.offset,
            None => 0,
        }
    }
}

/// Why the marks of a check of `evidence` may not be allocated.
pub open spec fn cache_failure(
    records: Seq<Record>,
    evidence: Seq<ContentEvidence>,
    retained_bytes: u64,
    limits: Limits,
) -> Option<Error> {
    allocation_failure(
        limits,
        retained_bytes + evidence.len(),
        first_evidence(evidence),
        first_evidence_offset(records, evidence),
    )
}

/// Whether an error reports that the marks of a check were not available.
pub open spec fn cache_refused(
    error: Error,
    evidence: Seq<ContentEvidence>,
    limits: Limits,
) -> bool {
    allocator_refused(
        error,
        "PDF content-array validation index allocation",
        limits,
        evidence.len() as int,
    )
}

/// Check that every page's contents lead to streams.
pub fn validate_fragment_contents(
    records: &[Record],
    stream_flags: &[bool],
    evidence: &[ContentEvidence],
    retained_bytes: u64,
    limits: &Limits,
) -> (validated: Result<(), Error>)
    requires
        indexed(records@),
        stream_flags@.len() == records@.len(),
        evidence_in_order(evidence@),
    ensures
        match cache_failure(records@, evidence@, retained_bytes, *limits) {
            Some(failure) => validated == Err::<(), Error>(failure),
            None => {
                ||| validated == outcome(contents_failure(records@, stream_flags@, evidence@, 0))
                ||| evidence@.len() > 0 && (validated matches Err(error) && cache_refused(
                    error,
                    evidence@,
                    *limits,
                ))
            },
        },
{
    let mut first: Option<PdfRef> = None;
    let mut offset: u64 = 0;
    if evidence.len() > 0 {
        first = Some(evidence[0].reference);
        if let Some(index) = object_index(records, evidence[0].reference) {
            offset = records[index].range.offset;
        }
    }
    let cache_bytes: u64 = evidence.len() as u64;
    let needed = checked_add(retained_bytes, cache_bytes)?;
    check_pdf_allocation(limits, needed, first, offset)?;
    let mut marks: Vec<bool> = Vec::new();
    let refused = limits.allocation_refused(
        "PDF content-array validation index allocation",
        cache_bytes,
    );
    reserve_exact(&mut marks, evidence.len(), refused)?;
    check_contents(records, stream_flags, evidence, marks)
}

/// Whether a reference names a stream.
pub open spec fn is_stream(records: Seq<Record>, streams: Seq<bool>, target: PdfRef) -> bool {
    position_of(records, target.number) matches Some(index) && streams[index]
}

/// Whether a page's contents are streams, directly or through one array.
pub open spec fn leads_to_streams(
    records: Seq<Record>,
    streams: Seq<bool>,
    evidence: Seq<ContentEvidence>,
    item: ContentEvidence,
) -> bool {
    item.kind matches ContentEvidenceKind::Page { direct_array } ==> {
        ||| direct_array && forall|k: int|
            0 <= k < item.references@.len() ==> is_stream(
                records,
                streams,
                #[trigger] item.references@[k],
            )
        ||| !direct_array && item.references@.len() > 0 && is_stream(
            records,
            streams,
            item.references@[0],
        )
        ||| !direct_array && item.references@.len() > 0 && exists|a: int|
            #![trigger evidence[a]]
            0 <= a < evidence.len() && evidence[a].kind == ContentEvidenceKind::ScalarArray
                && evidence[a].reference.number == item.references@[0].number && forall|k: int|
                0 <= k < evidence[a].references@.len() ==> is_stream(
                    records,
                    streams,
                    #[trigger] evidence[a].references@[k],
                )
    }
}

proof fn lemma_all_streams(
    records: Seq<Record>,
    streams: Seq<bool>,
    targets: Seq<PdfRef>,
    from: int,
    page: PdfRef,
    page_offset: u64,
)
    requires
        0 <= from,
        targets_failure(records, streams, targets, from, page, page_offset) is None,
    ensures
        forall|k: int|
            from <= k < targets.len() ==> is_stream(records, streams, #[trigger] targets[k]),
    decreases targets.len() - from,
{
    if from < targets.len() {
        lemma_all_streams(records, streams, targets, from + 1, page, page_offset);
    }
}

proof fn lemma_array_found(evidence: Seq<ContentEvidence>, number: u32, from: int)
    requires
        0 <= from,
        array_of(evidence, number, from) is Some,
    ensures
        from <= array_of(evidence, number, from)->0 < evidence.len(),
        evidence[array_of(evidence, number, from)->0].reference.number == number,
        evidence[array_of(evidence, number, from)->0].kind == ContentEvidenceKind::ScalarArray,
    decreases evidence.len() - from,
{
    if from < evidence.len() && !(evidence[from].reference.number == number && evidence[from].kind
        == ContentEvidenceKind::ScalarArray) {
        lemma_array_found(evidence, number, from + 1);
    }
}

/// Accepted contents are streams: every page's `/Contents` is an array of
/// streams, one stream, or one reference to an array of streams.
pub proof fn law_accepted_contents(
    records: Seq<Record>,
    streams: Seq<bool>,
    evidence: Seq<ContentEvidence>,
    from: int,
)
    requires
        0 <= from,
        contents_failure(records, streams, evidence, from) is None,
    ensures
        forall|i: int|
            from <= i < evidence.len() ==> leads_to_streams(
                records,
                streams,
                evidence,
                #[trigger] evidence[i],
            ),
    decreases evidence.len() - from,
{
    if from < evidence.len() {
        law_accepted_contents(records, streams, evidence, from + 1);
        let item = evidence[from];
        if let ContentEvidenceKind::Page { direct_array } = item.kind {
            let offset = records[position_of(
                records,
                item.reference.number,
            )->0].range.offset;
            if direct_array {
                lemma_all_streams(records, streams, item.references@, 0, item.reference, offset);
            } else if !is_stream(records, streams, item.references@[0]) {
                let number = item.references@[0].number;
                lemma_array_found(evidence, number, 0);
                lemma_all_streams(
                    records,
                    streams,
                    evidence[array_of(evidence, number, 0)->0].references@,
                    0,
                    item.reference,
                    offset,
                );
            }
            assert(leads_to_streams(records, streams, evidence, item));
        }
    }
}

} // verus!

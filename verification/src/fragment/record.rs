//! The plan of a reconstruction, its object index, and its errors.

use vstd::prelude::*;
use crate::types::{outcome, Error, Limits, PdfErrorKind, PdfRange, PdfRef, MAX_PDF_OBJECTS};

verus! {

/// The complete byte range of one generation-zero indirect object, from its
/// `<number> 0 obj` header through its `endobj` keyword.
#[derive(Clone, Copy, Debug, PartialEq, Eq, Structural)]
pub struct FragmentObject {
    pub reference: PdfRef,
    pub range: PdfRange,
}

/// An explicit plan for rebuilding a classic-xref PDF.
///
/// `pages` is document order. When `pages_root` has no supplied object, every
/// page must refer directly to this missing parent; a single `/Pages` node is
/// synthesized. A missing catalog is synthesized at the next available object
/// number. Existing root objects are retained only when their references are
/// consistent with this plan.
#[derive(Clone, Copy, Debug)]
pub struct FragmentPlan<'a> {
    pub objects: &'a [FragmentObject],
    pub pages: &'a [PdfRef],
    pub pages_root: PdfRef,
    pub catalog: Option<PdfRef>,
}

/// One object of the rebuilt file. A synthesized object has an empty range.
#[derive(Clone, Copy, Debug, PartialEq, Eq, Structural)]
pub struct Record {
    pub reference: PdfRef,
    pub range: PdfRange,
    pub output_offset: u64,
}

impl Record {
    /// The record of a supplied object, not yet placed in the output.
    pub fn from_fragment(fragment: FragmentObject) -> (record: Self)
        ensures
            record == record_of(fragment),
    {
        Record { reference: fragment.reference, range: fragment.range, output_offset: 0 }
    }

    /// The record of an object that the reconstruction writes itself.
    pub fn synthetic(reference: PdfRef) -> (record: Self)
        ensures
            record == synthetic_record(reference),
    {
        Record { reference, range: PdfRange { offset: 0, length: 0 }, output_offset: 0 }
    }
}

pub open spec fn record_of(fragment: FragmentObject) -> Record {
    Record { reference: fragment.reference, range: fragment.range, output_offset: 0 }
}

pub open spec fn synthetic_record(reference: PdfRef) -> Record {
    Record { reference, range: PdfRange { offset: 0, length: 0 }, output_offset: 0 }
}

/// The object that an error names.
pub open spec fn named(reference: Option<PdfRef>) -> Option<(u32, u16)> {
    match reference {
        Some(reference) => Some((reference.number, reference.generation)),
        None => None,
    }
}

fn name_of(reference: Option<PdfRef>) -> (object: Option<(u32, u16)>)
    ensures
        object == named(reference),
{
    match reference {
        Some(reference) => Some((reference.number, reference.generation)),
        None => None,
    }
}

/// An error about the structure of one object.
#[verifier::allow_in_spec]
pub fn pdf_error(
    reference: Option<PdfRef>,
    offset: u64,
    kind: PdfErrorKind,
    reason: &'static str,
) -> Error
    returns
        (Error::Pdf { offset, object: named(reference), kind, reason }),
{
    Error::Pdf { offset, object: name_of(reference), kind, reason }
}

/// An error about malformed structure.
#[verifier::allow_in_spec]
pub fn malformed(reference: Option<PdfRef>, offset: u64, reason: &'static str) -> Error
    returns
        (Error::Pdf {
            offset,
            object: named(reference),
            kind: PdfErrorKind::Malformed,
            reason,
        }),
{
    pdf_error(reference, offset, PdfErrorKind::Malformed, reason)
}

/// An error about a limit that one object passes.
#[verifier::allow_in_spec]
pub fn pdf_limit(
    reference: Option<PdfRef>,
    offset: u64,
    resource: &'static str,
    limit: u64,
    attempted: u64,
) -> Error
    returns
        (Error::PdfLimitExceeded { offset, object: named(reference), resource, limit, attempted }),
{
    Error::PdfLimitExceeded { offset, object: name_of(reference), resource, limit, attempted }
}

/// Why `bytes` may not be allocated on behalf of an object.
pub open spec fn allocation_failure(
    limits: Limits,
    bytes: int,
    reference: Option<PdfRef>,
    offset: u64,
) -> Option<Error> {
    if bytes > u64::MAX {
        Some(Error::InvalidInput { reason: "PDF arithmetic overflows 64 bits" })
    } else if bytes > limits.max_allocation_bytes {
        Some(
            pdf_limit(
                reference,
                offset,
                "PDF allocation bytes",
                limits.max_allocation_bytes,
                bytes as u64,
            ),
        )
    } else {
        None
    }
}

/// Admit an allocation within the limits.
pub fn check_pdf_allocation(
    limits: &Limits,
    bytes: u64,
    reference: Option<PdfRef>,
    offset: u64,
) -> (checked: Result<(), Error>)
    ensures
        checked == outcome(allocation_failure(*limits, bytes as int, reference, offset)),
{
    if bytes > limits.max_allocation_bytes {
        return Err(
            pdf_limit(
                reference,
                offset,
                "PDF allocation bytes",
                limits.max_allocation_bytes,
                bytes,
            ),
        );
    }
    Ok(())
}

/// Add two byte counts within 64 bits.
pub fn checked_add(left: u64, right: u64) -> (sum: Result<u64, Error>)
    ensures
        sum == (if left + right <= u64::MAX {
            Ok::<u64, Error>((left + right) as u64)
        } else {
            Err(Error::InvalidInput { reason: "PDF arithmetic overflows 64 bits" })
        }),
{
    match left.checked_add(right) {
        Some(sum) => Ok(sum),
        None => Err(Error::InvalidInput { reason: "PDF arithmetic overflows 64 bits" }),
    }
}

/// Why a reference lies outside the supported profile.
pub open spec fn reference_failure(reference: PdfRef, offset: u64) -> Option<Error> {
    if reference.number == 0 {
        Some(malformed(Some(reference), offset, "object zero cannot be referenced"))
    } else if reference.number > MAX_PDF_OBJECTS {
        Some(
            pdf_limit(
                Some(reference),
                offset,
                "PDF object number",
                MAX_PDF_OBJECTS as u64,
                reference.number as u64,
            ),
        )
    } else if reference.generation != 0 {
        Some(
            pdf_error(
                Some(reference),
                offset,
                PdfErrorKind::UnsupportedFeature,
                "fragment reconstruction supports generation-zero objects only",
            ),
        )
    } else {
        None
    }
}

/// Admit a generation-zero reference within the object profile.
pub fn checked_reference(reference: PdfRef, offset: u64) -> (checked: Result<(), Error>)
    ensures
        checked == outcome(reference_failure(reference, offset)),
{
    if reference.number == 0 {
        return Err(malformed(Some(reference), offset, "object zero cannot be referenced"));
    }
    if reference.number > MAX_PDF_OBJECTS {
        return Err(
            pdf_limit(
                Some(reference),
                offset,
                "PDF object number",
                MAX_PDF_OBJECTS as u64,
                reference.number as u64,
            ),
        );
    }
    if reference.generation != 0 {
        return Err(
            pdf_error(
                Some(reference),
                offset,
                PdfErrorKind::UnsupportedFeature,
                "fragment reconstruction supports generation-zero objects only",
            ),
        );
    }
    Ok(())
}

/// The records are in strictly increasing order of object number.
pub open spec fn indexed(records: Seq<Record>) -> bool {
    forall|i: int, j: int|
        0 <= i < j < records.len() ==> (#[trigger] records[i]).reference.number < (
        #[trigger] records[j]).reference.number
}

pub open spec fn is_numbered(records: Seq<Record>, i: int, number: u32) -> bool {
    0 <= i < records.len() && records[i].reference.number == number
}

/// Where the object of a number stands in the index.
pub open spec fn position_of(records: Seq<Record>, number: u32) -> Option<int> {
    if exists|i: int| is_numbered(records, i, number) {
        Some(choose|i: int| is_numbered(records, i, number))
    } else {
        None
    }
}

/// An executable index as a mathematical one.
pub open spec fn at(index: Option<usize>) -> Option<int> {
    match index {
        Some(index) => Some(index as int),
        None => None,
    }
}

pub proof fn lemma_position(records: Seq<Record>, i: int)
    requires
        indexed(records),
        0 <= i < records.len(),
    ensures
        position_of(records, records[i].reference.number) == Some(i),
{
    let number = records[i].reference.number;
    assert(is_numbered(records, i, number));
    let found = choose|j: int| is_numbered(records, j, number);
    if found < i {
        assert(records[found].reference.number < records[i].reference.number);
    } else if found > i {
        assert(records[i].reference.number < records[found].reference.number);
    }
}

/// Find an object in the index by its number.
pub fn object_index(records: &[Record], reference: PdfRef) -> (found: Option<usize>)
    requires
        indexed(records@),
    ensures
        at(found) == position_of(records@, reference.number),
        found matches Some(i) ==> i < records@.len() && records@[i as int].reference.number
            == reference.number,
{
    let mut low: usize = 0;
    let mut high: usize = records.len();
    while low < high
        invariant
            low <= high <= records@.len(),
            indexed(records@),
            forall|i: int|
                0 <= i < low ==> (#[trigger] records@[i]).reference.number < reference.number,
            forall|i: int|
                high <= i < records@.len() ==> (#[trigger] records@[i]).reference.number
                    > reference.number,
        decreases high - low,
    {
        let middle: usize = low + (high - low) / 2;
        let number = records[middle].reference.number;
        if number == reference.number {
            proof {
                lemma_position(records@, middle as int);
            }
            return Some(middle);
        }
        if number < reference.number {
            low = middle + 1;
        } else {
            high = middle;
        }
    }
    assert forall|i: int| !is_numbered(records@, i, reference.number) by {
        if 0 <= i < records@.len() {
            assert(records@[i].reference.number != reference.number);
        }
    }
    None
}

} // verus!

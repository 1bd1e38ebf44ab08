//! Values shared by every part of the library.

use vstd::prelude::*;

verus! {

/// The largest object number the supported PDF profile allows.
pub const MAX_PDF_OBJECTS: u32 = 8_388_607;

/// The largest integer a PDF number may hold.
pub const MAX_PDF_INTEGER: u64 = 2_147_483_647;

/// The largest byte offset that fits the ten digits of a classic xref row.
pub const MAX_CLASSIC_PDF_BYTES: u64 = 9_999_999_999;

/// An indirect object's number and generation.
#[derive(Clone, Copy, Debug, PartialEq, Eq, Structural)]
pub struct PdfRef {
    pub number: u32,
    pub generation: u16,
}

/// A span of bytes in a random-access input.
#[derive(Clone, Copy, Debug, PartialEq, Eq, Structural)]
pub struct PdfRange {
    pub offset: u64,
    pub length: u64,
}

impl PdfRange {
    /// The first offset after the span, when 64 bits can hold it.
    pub fn end(self) -> (end: Option<u64>)
        ensures
            end == (if self.offset + self.length <= u64::MAX {
                Some((self.offset + self.length) as u64)
            } else {
                None::<u64>
            }),
    {
        self.offset.checked_add(self.length)
    }
}

/// One outline entry in depth-first document order.
#[derive(Debug)]
pub struct Bookmark {
    pub depth: u32,
    pub title: String,
    pub page_index: u32,
}

/// What a finished conversion read and wrote.
#[derive(Clone, Copy, Debug, PartialEq, Eq, Structural)]
pub struct ConversionReport {
    pub input_bytes_read: u64,
    pub output_bytes_written: u64,
    pub pages_converted: u32,
    pub bookmarks_written: u32,
}

/// Why an inspected PDF structure was refused.
#[derive(Clone, Copy, Debug, PartialEq, Eq, Structural)]
pub enum PdfErrorKind {
    Malformed,
    UnsupportedFeature,
    AmbiguousRepair,
}

/// Every failure the library itself can report.
#[derive(Clone, Copy, Debug, PartialEq, Eq)]
pub enum Error {
    InvalidInput { reason: &'static str },
    LimitExceeded { resource: &'static str, limit: u64, attempted: u64 },
    TruncatedInput { offset: u64, expected: u64, available: u64 },
    Pdf {
        offset: u64,
        object: Option<(u32, u16)>,
        kind: PdfErrorKind,
        reason: &'static str,
    },
    PdfLimitExceeded {
        offset: u64,
        object: Option<(u32, u16)>,
        resource: &'static str,
        limit: u64,
        attempted: u64,
    },
    Cancelled,
}

/// The resource ceilings of one conversion.
#[derive(Clone, Copy, Debug, PartialEq, Eq, Structural)]
pub struct Limits {
    pub max_input_bytes: u64,
    pub max_output_bytes: u64,
    pub max_pages: u32,
    pub max_bookmarks: u32,
    pub max_allocation_bytes: u64,
    pub io_chunk_bytes: usize,
}

impl Default for Limits {
    fn default() -> (limits: Self)
        ensures
            limits.valid(),
            limits.max_input_bytes == 4_294_967_296,
            limits.max_output_bytes == 4_294_967_296,
            limits.max_pages == 100_000,
            limits.max_bookmarks == 100_000,
            limits.max_allocation_bytes == 67_108_864,
            limits.io_chunk_bytes == 65_536,
    {
        Limits {
            max_input_bytes: 4_294_967_296,
            max_output_bytes: 4_294_967_296,
            max_pages: 100_000,
            max_bookmarks: 100_000,
            max_allocation_bytes: 67_108_864,
            io_chunk_bytes: 65_536,
        }
    }
}

/// `attempted` units of `resource` against a ceiling of `limit`.
pub open spec fn over_limit(resource: &'static str, limit: u64, attempted: int) -> Option<Error> {
    if attempted > limit {
        Some(Error::LimitExceeded { resource, limit, attempted: attempted as u64 })
    } else {
        None
    }
}

/// `Ok` exactly when there is no `failure`.
pub open spec fn outcome(failure: Option<Error>) -> Result<(), Error> {
    match failure {
        None => Ok(()),
        Some(error) => Err(error),
    }
}

/// The first of two checks that fails.
pub open spec fn first_failure(first: Option<Error>, second: Option<Error>) -> Option<Error> {
    match first {
        Some(error) => Some(error),
        None => second,
    }
}

impl Limits {
    /// Whether an I/O chunk holds at least one byte and may be allocated.
    pub open spec fn valid(self) -> bool {
        0 < self.io_chunk_bytes <= self.max_allocation_bytes
    }

    /// Why no input or output can make progress under these limits.
    pub open spec fn failure(self) -> Option<Error> {
        if self.io_chunk_bytes == 0 {
            Some(Error::InvalidInput { reason: "I/O chunk must hold at least one byte" })
        } else if self.io_chunk_bytes > self.max_allocation_bytes {
            Some(Error::InvalidInput { reason: "I/O chunk exceeds the allocation limit" })
        } else {
            None
        }
    }

    /// Refuse limits under which no input or output can make progress.
    pub fn validate(&self) -> (checked: Result<(), Error>)
        ensures
            checked == outcome(self.failure()),
            checked is Ok <==> self.valid(),
            checked is Ok <==> 0 < self.io_chunk_bytes && self.io_chunk_bytes
                <= self.max_allocation_bytes,
    {
        if self.io_chunk_bytes == 0 {
            return Err(Error::InvalidInput { reason: "I/O chunk must hold at least one byte" });
        }
        if self.io_chunk_bytes as u64 > self.max_allocation_bytes {
            return Err(Error::InvalidInput { reason: "I/O chunk exceeds the allocation limit" });
        }
        Ok(())
    }

    /// Admit at most `max_pages` pages.
    pub fn check_pages(&self, attempted: u32) -> (checked: Result<(), Error>)
        ensures
            checked == outcome(over_limit("pages", self.max_pages as u64, attempted as int)),
            checked is Ok <==> attempted <= self.max_pages,
    {
        check_limit("pages", self.max_pages as u64, attempted as u64)
    }

    /// Admit at most `max_bookmarks` bookmarks.
    pub fn check_bookmarks(&self, attempted: u32) -> (checked: Result<(), Error>)
        ensures
            checked == outcome(
                over_limit("bookmarks", self.max_bookmarks as u64, attempted as int),
            ),
            checked is Ok <==> attempted <= self.max_bookmarks,
    {
        check_limit("bookmarks", self.max_bookmarks as u64, attempted as u64)
    }

    /// Admit an input of at most `max_input_bytes` bytes.
    pub fn check_input_size(&self, attempted: u64) -> (checked: Result<(), Error>)
        ensures
            checked == outcome(over_limit("input bytes", self.max_input_bytes, attempted as int)),
            checked is Ok <==> attempted <= self.max_input_bytes,
    {
        check_limit("input bytes", self.max_input_bytes, attempted)
    }

    /// Admit an allocation of at most `max_allocation_bytes` bytes.
    pub fn check_allocation(&self, attempted: u64) -> (checked: Result<(), Error>)
        ensures
            checked == outcome(
                over_limit("allocation bytes", self.max_allocation_bytes, attempted as int),
            ),
            checked is Ok <==> attempted <= self.max_allocation_bytes,
    {
        check_limit("allocation bytes", self.max_allocation_bytes, attempted)
    }

    /// The error for memory that was within the limits but not available.
    pub fn allocation_refused(&self, resource: &'static str, attempted: u64) -> (error: Error)
        ensures
            error == (Error::LimitExceeded {
                resource,
                limit: self.max_allocation_bytes,
                attempted,
            }),
    {
        Error::LimitExceeded { resource, limit: self.max_allocation_bytes, attempted }
    }
}

/// Admit at most `limit` units of `resource`.
pub fn check_limit(resource: &'static str, limit: u64, attempted: u64) -> (checked: Result<
    (),
    Error,
>)
    ensures
        checked == outcome(over_limit(resource, limit, attempted as int)),
        checked is Ok <==> attempted <= limit,
        checked matches Err(error) ==> error == (Error::LimitExceeded {
            resource,
            limit,
            attempted,
        }),
{
    if attempted > limit {
        return Err(Error::LimitExceeded { resource, limit, attempted });
    }
    Ok(())
}

/// Whether an error says that the output may hold no more bytes, after which
/// nothing more is written.
pub open spec fn is_output_limit(error: Error) -> bool {
    error matches Error::LimitExceeded { resource, .. } && resource == "output bytes"
}

} // verus!

//! Counting the bytes that a source hands over.

use vstd::prelude::*;
use crate::types::Error;

verus! {

/// Why a read is not counted: the source claims more bytes than it was asked
/// for, or the count has no room for them.
pub open spec fn read_failure(
    total: u64,
    requested: usize,
    read: usize,
    overread: &'static str,
    overflow: &'static str,
) -> Option<Error> {
    if read > requested {
        Some(Error::InvalidInput { reason: overread })
    } else if total + read > u64::MAX {
        Some(Error::InvalidInput { reason: overflow })
    } else {
        None
    }
}

/// Count one read, and return the new total.
pub fn count_read(
    total: u64,
    requested: usize,
    read: usize,
    overread: &'static str,
    overflow: &'static str,
) -> (counted: Result<u64, Error>)
    ensures
        match read_failure(total, requested, read, overread, overflow) {
            Some(failure) => counted == Err::<u64, Error>(failure),
            None => counted == Ok::<u64, Error>((total + read) as u64),
        },
        counted is Ok <==> read <= requested && total + read <= u64::MAX,
        counted matches Ok(sum) ==> sum == total + read,
{
    if read > requested {
        return Err(Error::InvalidInput { reason: overread });
    }
    match total.checked_add(read as u64) {
        Some(counted) => Ok(counted),
        None => Err(Error::InvalidInput { reason: overflow }),
    }
}

/// Count one read of a PDF, and return the new total.
pub fn count_pdf_read(total: u64, requested: usize, read: usize) -> (counted: Result<u64, Error>)
    ensures
        match read_failure(
            total,
            requested,
            read,
            "PDF source reported more bytes than requested",
            "PDF input byte count overflows",
        ) {
            Some(failure) => counted == Err::<u64, Error>(failure),
            None => counted == Ok::<u64, Error>((total + read) as u64),
        },
        counted is Ok <==> read <= requested && total + read <= u64::MAX,
        counted matches Ok(sum) ==> sum == total + read,
{
    count_read(
        total,
        requested,
        read,
        "PDF source reported more bytes than requested",
        "PDF input byte count overflows",
    )
}

} // verus!

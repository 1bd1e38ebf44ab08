//! Reservations that a caller's ceilings bound and the allocator may refuse.

use std::collections::TryReserveError;
use vstd::prelude::*;
use vstd::layout::size_of;
use crate::types::{over_limit, Error, Limits};

verus! {

/// Calls `Vec::try_reserve_exact`. The contents never change. A request for
/// nothing is granted, since a vector has room for what it holds. A request that
/// no capacity can satisfy is refused: after one that is granted, the capacity
/// is at least the sum of the length and what was asked for. Whether any other
/// request is granted depends on the machine, so nothing is said of it.
#[verifier::external_body]
fn try_reserve_exact<T>(values: &mut Vec<T>, additional: usize) -> (granted: Result<
    (),
    TryReserveError,
>)
    ensures
        final(values)@ == old(values)@,
        additional == 0 ==> granted is Ok,
        old(values)@.len() + additional > usize::MAX ==> granted is Err,
{
    values.try_reserve_exact(additional)
}

/// Calls `Vec::capacity`: at least the length, and otherwise the allocator's
/// choice.
#[verifier::external_body]
pub(crate) fn capacity<T>(values: &Vec<T>) -> (capacity: usize)
    ensures
        capacity >= values@.len(),
{
    values.capacity()
}

/// Calls `String::capacity`: at least the length in bytes, so at least one
/// byte for each character, and otherwise the allocator's choice.
#[verifier::external_body]
pub(crate) fn string_capacity(text: &String) -> (capacity: usize)
    ensures
        capacity >= text@.len(),
{
    text.capacity()
}

/// Reserve room for `additional` more items, or report `refused`. A request for
/// nothing succeeds, and one that exceeds the address space is refused; any other
/// request is up to the allocator.
pub fn reserve_exact<T>(values: &mut Vec<T>, additional: usize, refused: Error) -> (reserved:
    Result<(), Error>)
    ensures
        final(values)@ == old(values)@,
        reserved is Ok || reserved == Err::<(), Error>(refused),
        additional == 0 ==> reserved is Ok,
        old(values)@.len() + additional > usize::MAX ==> reserved == Err::<(), Error>(refused),
{
    match try_reserve_exact(values, additional) {
        Ok(()) => Ok(()),
        Err(_) => Err(refused),
    }
}

/// Whether `error` reports that `bytes` of memory, which the limits allow, were
/// not available.
pub open spec fn allocator_refused(
    error: Error,
    resource: &'static str,
    limits: Limits,
    bytes: int,
) -> bool {
    error == (Error::LimitExceeded {
        resource,
        limit: limits.max_allocation_bytes,
        attempted: bytes as u64,
    })
}

/// The bytes one item is charged for, at least one.
pub open spec fn element_bytes<T>() -> int {
    if size_of::<T>() == 0 {
        1
    } else {
        size_of::<T>() as int
    }
}

/// Why a list of `len` items may not grow by one.
pub open spec fn growth_failure<T>(
    len: nat,
    maximum_items: u64,
    limits: Limits,
    resource: &'static str,
) -> Option<Error> {
    if len + 1 > usize::MAX {
        Some(Error::InvalidInput { reason: "PDF index count overflows address space" })
    } else if len + 1 > maximum_items {
        over_limit(resource, maximum_items, len as int + 1)
    } else if (len + 1) * element_bytes::<T>() > u64::MAX {
        Some(Error::InvalidInput { reason: "PDF index allocation overflows 64 bits" })
    } else {
        over_limit(
            "allocation bytes",
            limits.max_allocation_bytes,
            (len + 1) * element_bytes::<T>(),
        )
    }
}

/// `value` moved into `low..=high`.
pub open spec fn clamp(value: int, low: int, high: int) -> int {
    if value < low {
        low
    } else if value > high {
        high
    } else {
        value
    }
}

/// The bytes that a list of `len` items asks for when it is full and grows by
/// one: it doubles, within its ceilings.
pub open spec fn growth_bytes<T>(len: nat, maximum_items: u64, limits: Limits) -> int {
    let affordable = limits.max_allocation_bytes as int / element_bytes::<T>();
    let most = if maximum_items <= affordable {
        maximum_items as int
    } else {
        affordable
    };
    clamp(
        if len == 0 {
            2
        } else {
            2 * len as int
        },
        len as int + 1,
        if most <= usize::MAX {
            most
        } else {
            usize::MAX as int
        },
    ) * element_bytes::<T>()
}

/// The capacity to request for `needed` items: double what there is, but never
/// more than either ceiling and never less than what is needed.
pub fn growth_target(
    needed: usize,
    capacity: usize,
    maximum_items: usize,
    affordable_items: usize,
) -> (target: usize)
    requires
        needed <= maximum_items,
        needed <= affordable_items,
    ensures
        target == clamp(
            if capacity == 0 {
                2
            } else {
                2 * capacity
            },
            needed as int,
            if maximum_items <= affordable_items {
                maximum_items as int
            } else {
                affordable_items as int
            },
        ),
        needed <= target <= maximum_items,
        target <= affordable_items,
        0 < capacity && needed <= 2 * capacity <= maximum_items && 2 * capacity
            <= affordable_items ==> target == 2 * capacity,
{
    let held: usize = if capacity == 0 {
        1
    } else {
        capacity
    };
    let doubled: usize = if held > usize::MAX / 2 {
        usize::MAX
    } else {
        held * 2
    };
    let mut target: usize = if doubled > needed {
        doubled
    } else {
        needed
    };
    if target > maximum_items {
        target = maximum_items;
    }
    if target > affordable_items {
        target = affordable_items;
    }
    target
}

/// Make room for one more item of a list whose length and bytes are capped.
pub fn reserve_bounded<T>(
    values: &mut Vec<T>,
    maximum_items: u64,
    limits: &Limits,
    resource: &'static str,
) -> (reserved: Result<(), Error>)
    ensures
        final(values)@ == old(values)@,
        match growth_failure::<T>(old(values)@.len(), maximum_items, *limits, resource) {
            Some(failure) => reserved == Err::<(), Error>(failure),
            None => reserved matches Err(error) ==> allocator_refused(
                error,
                resource,
                *limits,
                growth_bytes::<T>(old(values)@.len(), maximum_items, *limits),
            ),
        },
{
    let needed: usize = match values.len().checked_add(1) {
        Some(needed) => needed,
        None => {
            return Err(Error::InvalidInput { reason: "PDF index count overflows address space" });
        },
    };
    let needed_u64: u64 = needed as u64;
    if needed_u64 > maximum_items {
        return Err(
            Error::LimitExceeded { resource, limit: maximum_items, attempted: needed_u64 },
        );
    }
    let size: usize = core::mem::size_of::<T>();
    let element: u64 = if size == 0 {
        1
    } else {
        size as u64
    };
    let needed_bytes: u64 = match needed_u64.checked_mul(element) {
        Some(bytes) => bytes,
        None => {
            return Err(Error::InvalidInput { reason: "PDF index allocation overflows 64 bits" });
        },
    };
    limits.check_allocation(needed_bytes)?;
    let held = capacity(values);
    if needed <= held {
        return Ok(());
    }
    let affordable: u64 = limits.max_allocation_bytes / element;
    proof {
        assert(needed_u64 <= affordable) by (nonlinear_arith)
            requires
                needed_u64 * element <= limits.max_allocation_bytes,
                affordable == limits.max_allocation_bytes / element,
                element > 0,
        ;
    }
    let maximum: usize = if maximum_items > usize::MAX as u64 {
        usize::MAX
    } else {
        maximum_items as usize
    };
    let by_bytes: usize = if affordable > usize::MAX as u64 {
        usize::MAX
    } else {
        affordable as usize
    };
    let target = growth_target(needed, held, maximum, by_bytes);
    assert(held == values@.len());
    proof {
        assert(target * element <= limits.max_allocation_bytes) by (nonlinear_arith)
            requires
                target <= affordable,
                affordable == limits.max_allocation_bytes / element,
                element > 0,
        ;
        assert(target * element >= 0) by (nonlinear_arith)
            requires
                target >= 0,
                element > 0,
        ;
    }
    let requested_bytes: u64 = target as u64 * element;
    let refused = limits.allocation_refused(resource, requested_bytes);
    let additional: usize = target - values.len();
    reserve_exact(values, additional, refused)
}

} // verus!

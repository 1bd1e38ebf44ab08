//! Corrections made to a PDF while it is copied.

use vstd::prelude::*;
use crate::text::{CR, LF, SPACE};
use crate::types::Error;

verus! {

/// A span of inactive bytes that is blanked, with what it was inspected as.
#[derive(Debug)]
pub struct GapPatch {
    pub offset: u64,
    pub original: Vec<u8>,
}

/// The corrections of one copy, and how many have been made. Offsets are from
/// the start of the copied PDF.
#[derive(Debug)]
pub struct CopyPatches<'a> {
    /// Carriage returns after `stream` that become line feeds.
    pub separators: &'a [u64],
    pub gaps: &'a [GapPatch],
    pub next_separator: usize,
    pub next_gap: usize,
}

/// Why the next separator cannot be corrected in `bytes`, which stand at
/// `done`.
pub open spec fn separator_failure(bytes: Seq<u8>, done: u64, separator: u64) -> Option<Error> {
    if separator < done {
        Some(Error::InvalidInput { reason: "PDF stream separator patches are not sorted" })
    } else if bytes[separator - done] != CR {
        Some(Error::InvalidInput { reason: "PDF stream separator changed after inspection" })
    } else {
        None
    }
}

/// The bytes with the separators from `next` on corrected, and the first one
/// that lies beyond them.
pub open spec fn correct_separators(
    bytes: Seq<u8>,
    done: u64,
    separators: Seq<u64>,
    next: int,
) -> Result<(Seq<u8>, int), Error>
    decreases separators.len() - next,
{
    if next >= separators.len() || separators[next] >= done + bytes.len() {
        Ok((bytes, next))
    } else {
        match separator_failure(bytes, done, separators[next]) {
            Some(error) => Err(error),
            None => correct_separators(
                bytes.update(separators[next] - done, LF),
                done,
                separators,
                next + 1,
            ),
        }
    }
}

pub open spec fn smaller(left: int, right: int) -> int {
    if left <= right {
        left
    } else {
        right
    }
}

pub open spec fn larger(left: int, right: int) -> int {
    if left >= right {
        left
    } else {
        right
    }
}

/// The positions that a gap shares with `count` bytes that stand at `done`.
pub open spec fn in_gap(gap: GapPatch, position: int) -> bool {
    gap.offset <= position < gap.offset + gap.original@.len()
}

/// Whether the bytes that a gap covers are what they were inspected as.
pub open spec fn gap_unchanged(bytes: Seq<u8>, done: u64, gap: GapPatch) -> bool {
    forall|i: int|
        0 <= i < bytes.len() && in_gap(gap, done + i) ==> #[trigger] bytes[i] == gap.original@[done
            + i - gap.offset]
}

/// The bytes with a gap blanked.
pub open spec fn blank_gap(bytes: Seq<u8>, done: u64, gap: GapPatch) -> Seq<u8> {
    Seq::new(
        bytes.len(),
        |i: int|
            if in_gap(gap, done + i) {
                SPACE
            } else {
                bytes[i]
            },
    )
}

/// The bytes with the gaps from `next` on blanked, and the first one that
/// reaches beyond them.
pub open spec fn blank_gaps(bytes: Seq<u8>, done: u64, gaps: Seq<GapPatch>, next: int) -> Result<
    (Seq<u8>, int),
    Error,
>
    decreases gaps.len() - next,
{
    if next >= gaps.len() {
        Ok((bytes, next))
    } else {
        let gap = gaps[next];
        let end = done + bytes.len();
        if gap.offset + gap.original@.len() > u64::MAX {
            Err(Error::InvalidInput { reason: "PDF orphan gap patch overflows" })
        } else if gap.offset >= end {
            Ok((bytes, next))
        } else if !gap_unchanged(bytes, done, gap) {
            Err(Error::InvalidInput { reason: "PDF orphan gap changed after inspection" })
        } else if gap.offset + gap.original@.len() > end {
            Ok((blank_gap(bytes, done, gap), next))
        } else {
            blank_gaps(blank_gap(bytes, done, gap), done, gaps, next + 1)
        }
    }
}

/// Check that a gap's bytes are unchanged, and blank them.
fn apply_gap(bytes: &mut [u8], done: u64, gap: &GapPatch) -> (applied: bool)
    requires
        done + old(bytes)@.len() <= u64::MAX,
        gap.offset + gap.original@.len() <= u64::MAX,
    ensures
        applied == gap_unchanged(old(bytes)@, done, *gap),
        applied ==> final(bytes)@ == blank_gap(old(bytes)@, done, *gap),
        final(bytes)@.len() == old(bytes)@.len(),
{
    let count: usize = bytes.len();
    let end: u64 = done + count as u64;
    let length: usize = gap.original.len();
    let gap_end: u64 = gap.offset + length as u64;
    let from: u64 = if gap.offset > done {
        gap.offset
    } else {
        done
    };
    let to: u64 = if gap_end < end {
        gap_end
    } else {
        end
    };
    let mut position: u64 = from;
    while position < to
        invariant
            bytes@ == old(bytes)@,
            count == bytes@.len(),
            done + count <= u64::MAX,
            gap.offset + gap.original@.len() <= u64::MAX,
            end == done + count,
            length == gap.original@.len(),
            gap_end == gap.offset + length,
            from == larger(gap.offset as int, done as int),
            to == smaller(gap_end as int, end as int),
            from <= position,
            position <= to || position == from,
            forall|i: int|
                from - done <= i < position - done ==> #[trigger] bytes@[i] == gap.original@[done + i
                    - gap.offset],
        decreases to - position,
    {
        let at: usize = (position - done) as usize;
        if bytes[at] != gap.original[(position - gap.offset) as usize] {
            proof {
                assert(in_gap(*gap, done + at as int));
                assert(bytes@[at as int] != gap.original@[done + at - gap.offset]);
            }
            return false;
        }
        position += 1;
    }
    assert(gap_unchanged(bytes@, done, *gap)) by {
        assert forall|i: int| 0 <= i < bytes@.len() && in_gap(*gap, done + i) implies #[trigger] bytes@[i]
            == gap.original@[done + i - gap.offset] by {
            assert(from - done <= i < to - done);
        }
    }
    let ghost before = bytes@;
    let mut position: u64 = from;
    while position < to
        invariant
            before == old(bytes)@,
            count == bytes@.len() == before.len(),
            done + count <= u64::MAX,
            end == done + count,
            length == gap.original@.len(),
            gap_end == gap.offset + length,
            from == larger(gap.offset as int, done as int),
            to == smaller(gap_end as int, end as int),
            from <= position,
            position <= to || position == from,
            forall|i: int|
                0 <= i < count ==> #[trigger] bytes@[i] == (if from - done <= i < position - done {
                    SPACE
                } else {
                    before[i]
                }),
        decreases to - position,
    {
        bytes[(position - done) as usize] = SPACE;
        position += 1;
    }
    assert(bytes@ =~= blank_gap(before, done, *gap));
    true
}

impl<'a> CopyPatches<'a> {
    /// The corrections of a copy that has not started.
    pub fn new(separators: &'a [u64], gaps: &'a [GapPatch]) -> (patches: Self)
        ensures
            patches.separators == separators,
            patches.gaps == gaps,
            patches.next_separator == 0,
            patches.next_gap == 0,
    {
        CopyPatches { separators, gaps, next_separator: 0, next_gap: 0 }
    }

    /// The corrected bytes and the corrections that are left.
    pub open spec fn corrected(self, bytes: Seq<u8>, done: u64) -> Result<
        (Seq<u8>, int, int),
        Error,
    > {
        match correct_separators(bytes, done, self.separators@, self.next_separator as int) {
            Err(error) => Err(error),
            Ok((bytes, next_separator)) => match blank_gaps(
                bytes,
                done,
                self.gaps@,
                self.next_gap as int,
            ) {
                Err(error) => Err(error),
                Ok((bytes, next_gap)) => Ok((bytes, next_separator, next_gap)),
            },
        }
    }

    pub open spec fn well_formed(self) -> bool {
        self.next_separator <= self.separators@.len() && self.next_gap <= self.gaps@.len()
    }

    /// Correct the bytes of a copy that stand at `done`.
    pub fn apply(&mut self, bytes: &mut [u8], done: u64) -> (applied: Result<(), Error>)
        requires
            old(self).well_formed(),
            done + old(bytes)@.len() <= u64::MAX,
        ensures
            final(self).well_formed(),
            final(self).separators == old(self).separators,
            final(self).gaps == old(self).gaps,
            final(bytes)@.len() == old(bytes)@.len(),
            match old(self).corrected(old(bytes)@, done) {
                Ok((corrected, next_separator, next_gap)) => {
                    &&& applied is Ok
                    &&& final(bytes)@ == corrected
                    &&& final(self).next_separator == next_separator
                    &&& final(self).next_gap == next_gap
                },
                Err(error) => applied == Err::<(), Error>(error),
            },
    {
        let count: usize = bytes.len();
        let end: u64 = done + count as u64;
        let ghost whole = old(self).corrected(bytes@, done);
        while self.next_separator < self.separators.len()
            && self.separators[self.next_separator] < end
            invariant
                self.well_formed(),
                self.separators == old(self).separators,
                self.gaps == old(self).gaps,
                self.next_gap == old(self).next_gap,
                count == bytes@.len() == old(bytes)@.len(),
                end == done + count,
                self.corrected(bytes@, done) == whole,
                whole == old(self).corrected(old(bytes)@, done),
            decreases self.separators@.len() - self.next_separator,
        {
            let separator: u64 = self.separators[self.next_separator];
            if separator < done {
                return Err(
                    Error::InvalidInput { reason: "PDF stream separator patches are not sorted" },
                );
            }
            let within: usize = (separator - done) as usize;
            if bytes[within] != CR {
                return Err(
                    Error::InvalidInput { reason: "PDF stream separator changed after inspection" },
                );
            }
            bytes[within] = LF;
            self.next_separator += 1;
        }
        let ghost corrected = bytes@;
        assert(correct_separators(
            corrected,
            done,
            self.separators@,
            self.next_separator as int,
        ) == Ok::<(Seq<u8>, int), Error>((corrected, self.next_separator as int)));
        let ghost gaps_whole = blank_gaps(corrected, done, self.gaps@, self.next_gap as int);
        while self.next_gap < self.gaps.len()
            invariant
                self.well_formed(),
                self.separators == old(self).separators,
                self.gaps == old(self).gaps,
                count == bytes@.len() == old(bytes)@.len(),
                end == done + count,
                blank_gaps(bytes@, done, self.gaps@, self.next_gap as int) == gaps_whole,
                whole == old(self).corrected(old(bytes)@, done),
                whole == (match gaps_whole {
                    Err(error) => Err::<(Seq<u8>, int, int), Error>(error),
                    Ok((after, next_gap)) => Ok((after, self.next_separator as int, next_gap)),
                }),
            decreases self.gaps@.len() - self.next_gap,
        {
            let gap = &self.gaps[self.next_gap];
            let gap_end: u64 = match gap.offset.checked_add(gap.original.len() as u64) {
                Some(gap_end) => gap_end,
                None => {
                    return Err(Error::InvalidInput { reason: "PDF orphan gap patch overflows" });
                },
            };
            if gap.offset >= end {
                return Ok(());
            }
            if !apply_gap(bytes, done, gap) {
                return Err(
                    Error::InvalidInput { reason: "PDF orphan gap changed after inspection" },
                );
            }
            if gap_end > end {
                return Ok(());
            }
            self.next_gap += 1;
        }
        Ok(())
    }

    /// Check, after the last byte, that every correction was made.
    pub fn check_consumed(&self) -> (checked: Result<(), Error>)
        ensures
            checked == (if self.next_separator != self.separators@.len() {
                Err::<(), Error>(
                    Error::InvalidInput {
                        reason: "PDF stream separator patch exceeds copied prefix",
                    },
                )
            } else if self.next_gap != self.gaps@.len() {
                Err(Error::InvalidInput { reason: "PDF orphan gap patch exceeds copied prefix" })
            } else {
                Ok(())
            }),
    {
        if self.next_separator != self.separators.len() {
            return Err(
                Error::InvalidInput { reason: "PDF stream separator patch exceeds copied prefix" },
            );
        }
        if self.next_gap != self.gaps.len() {
            return Err(
                Error::InvalidInput { reason: "PDF orphan gap patch exceeds copied prefix" },
            );
        }
        Ok(())
    }
}

} // verus!

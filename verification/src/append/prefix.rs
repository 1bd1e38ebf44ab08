//! Copying the PDF that an update is appended to.

use vstd::prelude::*;
use crate::append::appender::PdfOutlineAppender;
use crate::append::index::PdfIndex;
use crate::append::patches::{
    blank_gap, blank_gaps, correct_separators, in_gap, CopyPatches, GapPatch,
};
use crate::append::writer::AppendWriter;
use crate::fallible::{allocator_refused, reserve_exact};
use crate::text::{LF, SPACE};
use crate::types::{Error, Limits};

verus! {

/// The object that an error about a whole PDF names.
pub open spec fn catalog_object(index: PdfIndex) -> Option<(u32, u16)> {
    Some((index.catalog.number, index.catalog.generation))
}

/// Why a PDF cannot be copied.
pub open spec fn copy_failure(index: PdfIndex, limits: Limits, source_size: u64) -> Option<Error> {
    let range = index.range;
    if limits.failure() is Some {
        limits.failure()
    } else if range.length > limits.max_input_bytes {
        Some(
            Error::PdfLimitExceeded {
                offset: range.offset,
                object: catalog_object(index),
                resource: "input bytes",
                limit: limits.max_input_bytes,
                attempted: range.length,
            },
        )
    } else if range.offset + range.length > u64::MAX {
        Some(Error::InvalidInput { reason: "PDF source range end overflows" })
    } else if range.offset + range.length > source_size || index.logical_end > range.length {
        Some(Error::InvalidInput { reason: "PDF index range exceeds source" })
    } else if index.logical_end > limits.max_output_bytes {
        Some(
            Error::PdfLimitExceeded {
                offset: if range.offset + index.xref_offset > u64::MAX {
                    u64::MAX
                } else {
                    (range.offset + index.xref_offset) as u64
                },
                object: catalog_object(index),
                resource: "output bytes",
                limit: limits.max_output_bytes,
                attempted: index.logical_end,
            },
        )
    } else {
        None
    }
}

/// How many bytes are copied at a time.
pub open spec fn copy_chunk(index: PdfIndex, limits: Limits) -> int {
    if index.logical_end < limits.io_chunk_bytes {
        index.logical_end as int
    } else {
        limits.io_chunk_bytes as int
    }
}

/// A PDF that is being copied before anything is appended.
pub struct PrefixCopy<'a> {
    pub writer: AppendWriter,
    pub index: &'a PdfIndex,
    pub limits: Limits,
    pub patches: CopyPatches<'a>,
    pub chunk: usize,
    pub done: u64,
    pub source: Ghost<Seq<u8>>,
}

/// Whether the corrections of a PDF stand in order and apart.
pub open spec fn patches_in_order(index: PdfIndex) -> bool {
    let separators = index.stream_separator_patches@;
    let gaps = index.gap_patches@;
    &&& forall|i: int, j: int|
        0 <= i < j < separators.len() ==> (#[trigger] separators[i]) < (#[trigger] separators[j])
    &&& forall|i: int, j: int|
        0 <= i < j < gaps.len() ==> (#[trigger] gaps[i]).offset + gaps[i].original@.len() <= (
        #[trigger] gaps[j]).offset
}

/// A byte of the PDF as it is copied: blanked in a gap, a line feed for a
/// separator, and itself otherwise.
pub open spec fn copied_byte(index: PdfIndex, position: int, byte: u8) -> u8 {
    if exists|k: int|
        0 <= k < index.gap_patches@.len() && in_gap(#[trigger] index.gap_patches@[k], position) {
        SPACE
    } else if exists|k: int|
        0 <= k < index.stream_separator_patches@.len() && (
        #[trigger] index.stream_separator_patches@[k]) == position {
        LF
    } else {
        byte
    }
}

/// The first bytes of a PDF as they are copied.
pub open spec fn copied(index: PdfIndex, source: Seq<u8>) -> Seq<u8> {
    Seq::new(source.len(), |p: int| copied_byte(index, p, source[p]))
}

impl<'a> PrefixCopy<'a> {
    pub open spec fn well_formed(self) -> bool {
        &&& self.writer.well_formed()
        &&& self.writer.limits == self.limits
        &&& self.writer.update_hash is None
        &&& self.writer.entries@.len() == 0
        &&& !self.writer.open
        &&& self.patches.well_formed()
        &&& self.patches.separators@ == self.index.stream_separator_patches@
        &&& self.patches.gaps@ == self.index.gap_patches@
        &&& self.limits.valid()
        &&& self.chunk == copy_chunk(*self.index, self.limits)
        &&& self.done <= self.index.logical_end
        &&& self.done == self.writer.written@.len()
        &&& self.done == self.source@.len()
        &&& self.index.range.offset + self.index.logical_end <= u64::MAX
        &&& self.index.logical_end <= self.limits.max_output_bytes
        &&& patches_in_order(*self.index) ==> self.in_step()
    }

    /// Whether everything up to here has been corrected, and nothing beyond.
    pub open spec fn in_step(self) -> bool {
        &&& self.writer.written@ == copied(*self.index, self.source@)
        &&& separators_in_step(
            self.patches.separators@,
            self.patches.next_separator as int,
            self.done as int,
        )
        &&& gaps_in_step(self.patches.gaps@, self.patches.next_gap as int, self.done as int)
    }
}

pub open spec fn separators_in_step(separators: Seq<u64>, next: int, done: int) -> bool {
    forall|k: int|
        0 <= k < separators.len() ==> ((#[trigger] separators[k]) < done <==> k < next)
}

pub open spec fn gaps_in_step(gaps: Seq<GapPatch>, next: int, done: int) -> bool {
    forall|k: int|
        #![trigger gaps[k]]
        0 <= k < gaps.len() ==> {
            &&& k < next ==> gaps[k].offset + gaps[k].original@.len() <= done
            &&& k >= next ==> gaps[k].offset >= done || gaps[k].offset + gaps[k].original@.len()
                > done
        }
}

/// What correcting separators does to bytes.
proof fn lemma_separators(bytes: Seq<u8>, done: u64, separators: Seq<u64>, next: int)
    requires
        0 <= next <= separators.len(),
        correct_separators(bytes, done, separators, next) is Ok,
    ensures
        ({
            let (after, left) = correct_separators(bytes, done, separators, next)->Ok_0;
            &&& after.len() == bytes.len()
            &&& next <= left <= separators.len()
            &&& left < separators.len() ==> separators[left] >= done + bytes.len()
            &&& forall|k: int|
                next <= k < left ==> done <= #[trigger] separators[k] < done + bytes.len()
            &&& forall|i: int|
                #![trigger after[i]]
                0 <= i < bytes.len() ==> after[i] == (if exists|k: int|
                    next <= k < left && (#[trigger] separators[k]) == done + i {
                    LF
                } else {
                    bytes[i]
                })
        }),
    decreases separators.len() - next,
{
    if next < separators.len() && separators[next] < done + bytes.len() {
        let changed = bytes.update(separators[next] - done, LF);
        lemma_separators(changed, done, separators, next + 1);
        let (after, left) = correct_separators(bytes, done, separators, next)->Ok_0;
        assert forall|i: int|
            #![trigger after[i]]
            0 <= i < bytes.len() implies after[i] == (if exists|k: int|
            next <= k < left && (#[trigger] separators[k]) == done + i {
            LF
        } else {
            bytes[i]
        }) by {
            if exists|k: int| next <= k < left && (#[trigger] separators[k]) == done + i {
                let k = choose|k: int| next <= k < left && (#[trigger] separators[k]) == done + i;
                if k == next {
                    assert(changed[i] == LF);
                } else {
                    assert(next + 1 <= k < left && separators[k] == done + i);
                }
            } else {
                assert(separators[next] != done + i);
                assert(changed[i] == bytes[i]);
            }
        }
    }
}

/// What blanking gaps does to bytes.
proof fn lemma_gaps(bytes: Seq<u8>, done: u64, gaps: Seq<GapPatch>, next: int)
    requires
        0 <= next <= gaps.len(),
        blank_gaps(bytes, done, gaps, next) is Ok,
    ensures
        ({
            let (after, left) = blank_gaps(bytes, done, gaps, next)->Ok_0;
            let end = done + bytes.len();
            &&& after.len() == bytes.len()
            &&& next <= left <= gaps.len()
            &&& left < gaps.len() ==> gaps[left].offset >= end || gaps[left].offset
                + gaps[left].original@.len() > end
            &&& forall|k: int|
                next <= k < left ==> (#[trigger] gaps[k]).offset + gaps[k].original@.len() <= end
            &&& forall|i: int|
                #![trigger after[i]]
                0 <= i < bytes.len() ==> after[i] == (if exists|k: int|
                    next <= k <= left && k < gaps.len() && in_gap(#[trigger] gaps[k], done + i) {
                    SPACE
                } else {
                    bytes[i]
                })
        }),
    decreases gaps.len() - next,
{
    let (after, left) = blank_gaps(bytes, done, gaps, next)->Ok_0;
    let end = done + bytes.len();
    if next < gaps.len() {
        let gap = gaps[next];
        if gap.offset >= end {
            assert(after == bytes && left == next);
        } else {
            let blanked = blank_gap(bytes, done, gap);
            if gap.offset + gap.original@.len() > end {
                assert forall|i: int|
                    #![trigger after[i]]
                    0 <= i < bytes.len() implies after[i] == (if exists|k: int|
                    next <= k <= left && k < gaps.len() && in_gap(#[trigger] gaps[k], done + i) {
                    SPACE
                } else {
                    bytes[i]
                }) by {
                    if in_gap(gap, done + i) {
                        assert(in_gap(gaps[next], done + i));
                    }
                }
            } else {
                lemma_gaps(blanked, done, gaps, next + 1);
                assert forall|i: int|
                    #![trigger after[i]]
                    0 <= i < bytes.len() implies after[i] == (if exists|k: int|
                    next <= k <= left && k < gaps.len() && in_gap(#[trigger] gaps[k], done + i) {
                    SPACE
                } else {
                    bytes[i]
                }) by {
                    if exists|k: int|
                        next <= k <= left && k < gaps.len() && in_gap(
                            #[trigger] gaps[k],
                            done + i,
                        ) {
                        let k = choose|k: int|
                            next <= k <= left && k < gaps.len() && in_gap(
                                #[trigger] gaps[k],
                                done + i,
                            );
                        if k == next {
                            assert(blanked[i] == SPACE);
                        } else {
                            assert(next + 1 <= k <= left && in_gap(gaps[k], done + i));
                        }
                    } else {
                        assert(!in_gap(gaps[next], done + i));
                        assert(blanked[i] == bytes[i]);
                    }
                }
            }
        }
    }
}

/// Correcting one chunk of a PDF makes the bytes that the whole copy has
/// there, whatever the chunks are.
proof fn lemma_chunk_corrected(index: PdfIndex, patches: CopyPatches, bytes: Seq<u8>, done: u64)
    requires
        patches_in_order(index),
        patches.well_formed(),
        patches.separators@ == index.stream_separator_patches@,
        patches.gaps@ == index.gap_patches@,
        separators_in_step(patches.separators@, patches.next_separator as int, done as int),
        gaps_in_step(patches.gaps@, patches.next_gap as int, done as int),
        patches.corrected(bytes, done) is Ok,
    ensures
        ({
            let (after, next_separator, next_gap) = patches.corrected(bytes, done)->Ok_0;
            let end = done + bytes.len();
            &&& after == Seq::new(bytes.len(), |i: int| copied_byte(index, done + i, bytes[i]))
            &&& separators_in_step(patches.separators@, next_separator, end)
            &&& gaps_in_step(patches.gaps@, next_gap, end)
        }),
{
    let separators = patches.separators@;
    let gaps = patches.gaps@;
    let end = done + bytes.len();
    let first_separator = patches.next_separator as int;
    let first_gap = patches.next_gap as int;
    lemma_separators(bytes, done, separators, first_separator);
    let (fed, next_separator) = correct_separators(bytes, done, separators, first_separator)->Ok_0;
    lemma_gaps(fed, done, gaps, first_gap);
    let (after, next_gap) = blank_gaps(fed, done, gaps, first_gap)->Ok_0;
    assert forall|k: int| 0 <= k < separators.len() implies ((#[trigger] separators[k]) < end
        <==> k < next_separator) by {
        if k >= next_separator && next_separator < separators.len() && k > next_separator {
            assert(separators[next_separator] < separators[k]);
        }
    }
    assert forall|k: int|
        #![trigger gaps[k]]
        0 <= k < gaps.len() implies {
        &&& k < next_gap ==> gaps[k].offset + gaps[k].original@.len() <= end
        &&& k >= next_gap ==> gaps[k].offset >= end || gaps[k].offset + gaps[k].original@.len()
            > end
    } by {
        if k > next_gap {
            assert(gaps[next_gap].offset + gaps[next_gap].original@.len() <= gaps[k].offset);
        }
    }
    assert forall|i: int| 0 <= i < bytes.len() implies after[i] == copied_byte(
        index,
        done + i,
        bytes[i],
    ) by {
        let position = done + i;
        if exists|k: int| 0 <= k < gaps.len() && in_gap(#[trigger] gaps[k], position) {
            let k = choose|k: int| 0 <= k < gaps.len() && in_gap(#[trigger] gaps[k], position);
            assert(first_gap <= k);
            if k > next_gap {
                assert(gaps[next_gap].offset + gaps[next_gap].original@.len() <= gaps[k].offset);
            }
            assert(first_gap <= k <= next_gap && in_gap(gaps[k], position));
        } else if exists|k: int| 0 <= k < separators.len() && (#[trigger] separators[k])
            == position {
            let k = choose|k: int|
                0 <= k < separators.len() && (#[trigger] separators[k]) == position;
            assert(first_separator <= k < next_separator && separators[k] == done + i);
            assert(fed[i] == LF);
        }
    }
    assert(after =~= Seq::new(bytes.len(), |i: int| copied_byte(index, done + i, bytes[i])));
}

impl<'a> PdfOutlineAppender<'a> {
    /// Begin to copy an inspected PDF, and reserve the buffer it is copied with.
    pub fn begin(index: &'a PdfIndex, limits: &Limits, source_size: u64) -> (begun: Result<
        (PrefixCopy<'a>, Vec<u8>),
        Error,
    >)
        ensures
            match begun {
                Ok((copy, buffer)) => {
                    &&& copy_failure(*index, *limits, source_size) is None
                    &&& copy.well_formed()
                    &&& copy.index == index
                    &&& copy.limits == *limits
                    &&& copy.done == 0
                    &&& copy.writer.taken() == 0
                    &&& !copy.writer.poisoned
                    &&& buffer@.len() == 0
                    &&& index.range.offset + index.logical_end <= source_size
                },
                Err(error) => match copy_failure(*index, *limits, source_size) {
                    Some(failure) => error == failure,
                    None => allocator_refused(
                        error,
                        "PDF copy buffer allocation",
                        *limits,
                        copy_chunk(*index, *limits),
                    ),
                },
            },
    {
        limits.validate()?;
        let range = index.range;
        let object: Option<(u32, u16)> = Some((index.catalog.number, index.catalog.generation));
        if range.length > limits.max_input_bytes {
            return Err(
                Error::PdfLimitExceeded {
                    offset: range.offset,
                    object,
                    resource: "input bytes",
                    limit: limits.max_input_bytes,
                    attempted: range.length,
                },
            );
        }
        let end: u64 = match range.end() {
            Some(end) => end,
            None => {
                return Err(Error::InvalidInput { reason: "PDF source range end overflows" });
            },
        };
        if end > source_size || index.logical_end > range.length {
            return Err(Error::InvalidInput { reason: "PDF index range exceeds source" });
        }
        if index.logical_end > limits.max_output_bytes {
            return Err(
                Error::PdfLimitExceeded {
                    offset: range.offset.saturating_add(index.xref_offset),
                    object,
                    resource: "output bytes",
                    limit: limits.max_output_bytes,
                    attempted: index.logical_end,
                },
            );
        }
        let chunk: usize = if index.logical_end < limits.io_chunk_bytes as u64 {
            index.logical_end as usize
        } else {
            limits.io_chunk_bytes
        };
        limits.check_allocation(chunk as u64)?;
        let mut buffer: Vec<u8> = Vec::new();
        let refused = limits.allocation_refused("PDF copy buffer allocation", chunk as u64);
        reserve_exact(&mut buffer, chunk, refused)?;
        let copy = PrefixCopy {
            writer: AppendWriter::new(limits),
            index,
            limits: *limits,
            patches: CopyPatches::new(&index.stream_separator_patches, &index.gap_patches),
            chunk,
            done: 0,
            source: Ghost(Seq::empty()),
        };
        assert(copy.writer.written@ =~= copied(*index, copy.source@));
        Ok((copy, buffer))
    }
}

impl<'a> PrefixCopy<'a> {
    /// The next source bytes to hand over, until everything is copied.
    pub fn next(&self) -> (next: Option<(u64, usize)>)
        requires
            self.well_formed(),
        ensures
            match next {
                Some((offset, count)) => {
                    &&& self.done < self.index.logical_end
                    &&& offset == self.index.range.offset + self.done
                    &&& 0 < count <= self.limits.io_chunk_bytes
                    &&& self.done + count <= self.index.logical_end
                    &&& self.done + count < self.index.logical_end ==> count
                        == self.limits.io_chunk_bytes
                },
                None => self.done == self.index.logical_end,
            },
    {
        if self.done == self.index.logical_end {
            return None;
        }
        let left: u64 = self.index.logical_end - self.done;
        let count: usize = if left < self.chunk as u64 {
            left as usize
        } else {
            self.chunk
        };
        Some((self.index.range.offset + self.done, count))
    }

    /// Correct the next source bytes in place, and queue them.
    pub fn accept(&mut self, bytes: &mut [u8]) -> (accepted: Result<(), Error>)
        requires
            old(self).well_formed(),
            old(self).done + old(bytes)@.len() <= old(self).index.logical_end,
        ensures
            final(bytes)@.len() == old(bytes)@.len(),
            match accepted {
                Ok(()) => {
                    &&& final(self).well_formed()
                    &&& final(self).index == old(self).index
                    &&& final(self).limits == old(self).limits
                    &&& final(self).done == old(self).done + old(bytes)@.len()
                    &&& final(self).source@ == old(self).source@ + old(bytes)@
                    &&& forall|input: Seq<u8>|
                        old(self).has_read(input) && old(self).offers(input, old(bytes)@)
                            ==> #[trigger] final(self).has_read(input)
                    &&& old(self).patches.corrected(old(bytes)@, old(self).done) matches Ok(
                        (corrected, _, _),
                    ) && final(bytes)@ == corrected && final(self).writer.written@
                        == old(self).writer.written@ + corrected
                    &&& final(self).writer.taken() == old(self).writer.taken()
                    &&& !final(self).writer.poisoned
                    &&& old(self).writer.write_failure(old(bytes)@.len()) is None
                },
                Err(error) => {
                    &&& final(self).writer.written@ == old(self).writer.written@
                    &&& final(self).writer.pending@ == old(self).writer.pending@
                    &&& final(self).done == old(self).done
                    &&& final(self).source == old(self).source
                    &&& match old(self).patches.corrected(old(bytes)@, old(self).done) {
                        Err(failure) => error == failure && final(self).writer == old(self).writer,
                        Ok(_) => {
                            &&& old(self).writer.write_failure(old(bytes)@.len()) == Some(error)
                            &&& old(self).writer.stopped_by(final(self).writer, error)
                        },
                    }
                },
            },
    {
        let ghost before = *self;
        let ghost given = bytes@;
        self.patches.apply(bytes, self.done)?;
        self.writer.write_raw(bytes)?;
        let ghost whole = before.source@ + given;
        proof {
            if patches_in_order(*self.index) {
                lemma_chunk_corrected(*self.index, before.patches, given, before.done);
                assert(self.writer.written@ =~= copied(*self.index, whole));
            }
        }
        self.done = self.done + bytes.len() as u64;
        self.source = Ghost(whole);
        proof {
            assert forall|input: Seq<u8>|
                before.has_read(input) && before.offers(
                    input,
                    given,
                ) implies #[trigger] self.has_read(input) by {
                let start = self.index.range.offset as int;
                assert(whole =~= input.subrange(start, start + self.done));
            }
        }
        Ok(())
    }
}

impl<'a> PrefixCopy<'a> {
    /// Whether what was handed over so far is the start of the PDF in an input.
    pub open spec fn has_read(self, input: Seq<u8>) -> bool {
        let start = self.index.range.offset as int;
        &&& start + self.done <= input.len()
        &&& self.source@ == input.subrange(start, start + self.done)
    }

    /// Whether bytes are those of an input that come next.
    pub open spec fn offers(self, input: Seq<u8>, bytes: Seq<u8>) -> bool {
        let next = self.index.range.offset + self.done;
        &&& next + bytes.len() <= input.len()
        &&& bytes == input.subrange(next, next + bytes.len())
    }
}

/// What is copied depends on the bytes of the PDF alone: not on what stands
/// before or after it in its input, nor on where it stands, nor on the size of
/// the chunks.
pub proof fn law_copy_depends_on_the_range_alone(
    one: PrefixCopy,
    other: PrefixCopy,
    input: Seq<u8>,
    container: Seq<u8>,
)
    requires
        one.well_formed(),
        other.well_formed(),
        patches_in_order(*one.index),
        one.index.stream_separator_patches@ == other.index.stream_separator_patches@,
        one.index.gap_patches@ == other.index.gap_patches@,
        one.done == other.done,
        one.has_read(input),
        other.has_read(container),
        input.subrange(
            one.index.range.offset as int,
            one.index.range.offset + one.done,
        ) == container.subrange(
            other.index.range.offset as int,
            other.index.range.offset + other.done,
        ),
    ensures
        one.writer.written@ == other.writer.written@,
{
    assert(patches_in_order(*other.index));
    assert(copied(*one.index, one.source@) =~= copied(*other.index, other.source@));
}

/// A PDF that stands inside a larger input is copied as if it stood alone,
/// whatever comes before and after it.
pub proof fn law_container_bytes_are_not_copied(
    copy: PrefixCopy,
    prefix: Seq<u8>,
    pdf: Seq<u8>,
    suffix: Seq<u8>,
)
    requires
        copy.well_formed(),
        patches_in_order(*copy.index),
        copy.index.range.offset == prefix.len(),
        copy.index.logical_end == pdf.len(),
        copy.done == copy.index.logical_end,
        copy.has_read(prefix + pdf + suffix),
    ensures
        copy.writer.written@ == copied(*copy.index, pdf),
{
    let start = prefix.len() as int;
    assert((prefix + pdf + suffix).subrange(start, start + pdf.len()) =~= pdf);
}

/// A PDF without corrections is copied byte for byte.
pub proof fn law_clean_copy_is_identical(index: PdfIndex, source: Seq<u8>)
    requires
        index.stream_separator_patches@.len() == 0,
        index.gap_patches@.len() == 0,
    ensures
        copied(index, source) == source,
{
    assert(copied(index, source) =~= source);
}

/// A copy changes separators and gaps and nothing else, and keeps the length.
pub proof fn law_copy_changes_patches_only(index: PdfIndex, source: Seq<u8>, position: int)
    requires
        0 <= position < source.len(),
        copied(index, source)[position] != source[position],
    ensures
        copied(index, source).len() == source.len(),
        (exists|k: int|
            0 <= k < index.gap_patches@.len() && in_gap(#[trigger] index.gap_patches@[k], position))
            || (exists|k: int|
            0 <= k < index.stream_separator_patches@.len() && (
            #[trigger] index.stream_separator_patches@[k]) == position),
{
}

} // verus!

//! What copying an inspected PDF corrects.

use vstd::prelude::*;
use crate::append::index::PdfIndex;
use crate::append::patches::{
    blank_gap, blank_gaps, correct_separators, gap_unchanged, in_gap, separator_failure,
    CopyPatches, GapPatch,
};
use crate::append::prefix::copied;

verus! {

/// Every byte of a copy is a blank inside a gap, a line feed at a separator, and
/// else the byte of the PDF.
pub proof fn law_copies_are_corrected(index: PdfIndex, pdf: Seq<u8>, p: int)
    requires
        0 <= p < pdf.len(),
    ensures
        ({
            let byte = copied(index, pdf)[p];
            let blanked = exists|k: int|
                0 <= k < index.gap_patches@.len() && (#[trigger] index.gap_patches@[k]).offset <= p
                    < index.gap_patches@[k].offset + index.gap_patches@[k].original@.len();
            let parted = exists|k: int|
                0 <= k < index.stream_separator_patches@.len() && (
                #[trigger] index.stream_separator_patches@[k]) == p;
            &&& copied(index, pdf).len() == pdf.len()
            &&& blanked ==> byte == 32
            &&& !blanked && parted ==> byte == 10
            &&& !blanked && !parted ==> byte == pdf[p]
        }),
{
    if exists|k: int|
        0 <= k < index.gap_patches@.len() && (#[trigger] index.gap_patches@[k]).offset <= p
            < index.gap_patches@[k].offset + index.gap_patches@[k].original@.len() {
        let k = choose|k: int|
            0 <= k < index.gap_patches@.len() && (#[trigger] index.gap_patches@[k]).offset <= p
                < index.gap_patches@[k].offset + index.gap_patches@[k].original@.len();
        assert(in_gap(index.gap_patches@[k], p));
    }
    if exists|k: int|
        0 <= k < index.gap_patches@.len() && in_gap(#[trigger] index.gap_patches@[k], p) {
        let k = choose|k: int|
            0 <= k < index.gap_patches@.len() && in_gap(#[trigger] index.gap_patches@[k], p);
        assert(index.gap_patches@[k].offset <= p);
    }
}

/// Whether the carriage returns of the separators from `next` on are still there,
/// as far as the bytes reach.
pub open spec fn separators_stand(
    bytes: Seq<u8>,
    done: u64,
    separators: Seq<u64>,
    next: int,
) -> bool {
    forall|k: int|
        next <= k < separators.len() && (#[trigger] separators[k]) < done + bytes.len()
            ==> separators[k] >= done && bytes[separators[k] - done] == 13
}

proof fn lemma_separators_accepted(bytes: Seq<u8>, done: u64, separators: Seq<u64>, next: int)
    requires
        0 <= next <= separators.len(),
        forall|i: int, j: int|
            0 <= i < j < separators.len() ==> (#[trigger] separators[i]) < (
            #[trigger] separators[j]),
    ensures
        separators_stand(bytes, done, separators, next) <==> correct_separators(
            bytes,
            done,
            separators,
            next,
        ) is Ok,
        correct_separators(bytes, done, separators, next) matches Ok((after, _)) ==> {
            &&& after.len() == bytes.len()
            &&& forall|i: int|
                #![trigger after[i]]
                0 <= i < bytes.len() ==> after[i] == (if exists|k: int|
                    next <= k < separators.len() && (#[trigger] separators[k]) == done + i {
                    10u8
                } else {
                    bytes[i]
                })
        },
    decreases separators.len() - next,
{
    if next < separators.len() && separators[next] < done + bytes.len() {
        let here = separators[next];
        if separator_failure(bytes, done, here) is None {
            let after = bytes.update(here - done, 10u8);
            lemma_separators_accepted(after, done, separators, next + 1);
            if separators_stand(bytes, done, separators, next) {
                assert forall|k: int| next + 1 <= k < separators.len() && (
                #[trigger] separators[k]) < done + after.len() implies separators[k] >= done
                    && after[separators[k] - done] == 13 by {
                    assert(separators[next] < separators[k]);
                }
            }
            if separators_stand(after, done, separators, next + 1) {
                assert forall|k: int| next <= k < separators.len() && (
                #[trigger] separators[k]) < done + bytes.len() implies separators[k] >= done
                    && bytes[separators[k] - done] == 13 by {
                    if k > next {
                        assert(separators[next] < separators[k]);
                        assert(after[separators[k] - done] == 13);
                    }
                }
            }
            if let Ok((result, _)) = correct_separators(bytes, done, separators, next) {
                assert forall|i: int|
                    #![trigger result[i]]
                    0 <= i < bytes.len() implies result[i] == (if exists|k: int|
                    next <= k < separators.len() && (#[trigger] separators[k]) == done + i {
                    10u8
                } else {
                    bytes[i]
                }) by {
                    if i == here - done {
                        assert(separators[next] == done + i);
                    } else {
                        assert((exists|k: int|
                            next <= k < separators.len() && (#[trigger] separators[k]) == done + i)
                            <==> (exists|k: int|
                            next + 1 <= k < separators.len() && (#[trigger] separators[k]) == done
                                + i));
                    }
                }
            }
        } else {
            assert(!(separators[next] >= done && bytes[separators[next] - done] == 13));
        }
    } else {
        if next < separators.len() {
            assert forall|k: int| next <= k < separators.len() implies (
            #[trigger] separators[k]) >= done + bytes.len() by {
                if k > next {
                    assert(separators[next] < separators[k]);
                }
            }
        }
    }
}

/// Whether the gaps from `next` on still hold what was inspected, as far as the
/// bytes reach.
pub open spec fn gaps_stand(bytes: Seq<u8>, done: u64, gaps: Seq<GapPatch>, next: int) -> bool {
    forall|k: int, i: int|
        next <= k < gaps.len() && 0 <= i < bytes.len() && (#[trigger] gaps[k]).offset <= done + i
            < gaps[k].offset + gaps[k].original@.len() ==> (#[trigger] bytes[i])
            == gaps[k].original@[done + i - gaps[k].offset]
}

proof fn lemma_gaps_accepted(bytes: Seq<u8>, done: u64, gaps: Seq<GapPatch>, next: int)
    requires
        0 <= next <= gaps.len(),
        forall|i: int, j: int|
            0 <= i < j < gaps.len() ==> (#[trigger] gaps[i]).offset + gaps[i].original@.len() <= (
            #[trigger] gaps[j]).offset,
        forall|k: int|
            0 <= k < gaps.len() ==> (#[trigger] gaps[k]).offset + gaps[k].original@.len()
                <= u64::MAX,
        gaps_stand(bytes, done, gaps, next),
    ensures
        blank_gaps(bytes, done, gaps, next) is Ok,
    decreases gaps.len() - next,
{
    if next < gaps.len() {
        let gap = gaps[next];
        let end = done + bytes.len();
        if gap.offset < end {
            assert(gap_unchanged(bytes, done, gap)) by {
                assert forall|i: int|
                    0 <= i < bytes.len() && in_gap(gap, done + i) implies #[trigger] bytes[i]
                    == gap.original@[done + i - gap.offset] by {
                    assert(gaps[next].offset <= done + i);
                }
            }
            if gap.offset + gap.original@.len() <= end {
                let after = blank_gap(bytes, done, gap);
                assert(gaps_stand(after, done, gaps, next + 1)) by {
                    assert forall|k: int, i: int|
                        next + 1 <= k < gaps.len() && 0 <= i < after.len() && (
                        #[trigger] gaps[k]).offset <= done + i < gaps[k].offset
                            + gaps[k].original@.len() implies (#[trigger] after[i])
                        == gaps[k].original@[done + i - gaps[k].offset] by {
                        assert(gaps[next].offset + gaps[next].original@.len() <= gaps[k].offset);
                        assert(after[i] == bytes[i]);
                    }
                }
                lemma_gaps_accepted(after, done, gaps, next + 1);
            }
        }
    }
}

/// Bytes that are as they were inspected are corrected and not refused, however
/// they are cut: every separator among them is a carriage return, every gap holds
/// what it did, and no separator lies in a gap.
pub proof fn law_unchanged_bytes_are_accepted(
    patches: CopyPatches,
    bytes: Seq<u8>,
    done: u64,
)
    requires
        patches.well_formed(),
        forall|i: int, j: int|
            0 <= i < j < patches.separators@.len() ==> (#[trigger] patches.separators@[i]) < (
            #[trigger] patches.separators@[j]),
        forall|i: int, j: int|
            0 <= i < j < patches.gaps@.len() ==> (#[trigger] patches.gaps@[i]).offset
                + patches.gaps@[i].original@.len() <= (#[trigger] patches.gaps@[j]).offset,
        forall|k: int|
            0 <= k < patches.gaps@.len() ==> (#[trigger] patches.gaps@[k]).offset
                + patches.gaps@[k].original@.len() <= u64::MAX,
        forall|s: int, k: int|
            0 <= s < patches.separators@.len() && 0 <= k < patches.gaps@.len() ==> !((
            #[trigger] patches.gaps@[k]).offset <= (#[trigger] patches.separators@[s])
                < patches.gaps@[k].offset + patches.gaps@[k].original@.len()),
        separators_stand(bytes, done, patches.separators@, patches.next_separator as int),
        gaps_stand(bytes, done, patches.gaps@, patches.next_gap as int),
    ensures
        patches.corrected(bytes, done) is Ok,
{
    let separators = patches.separators@;
    let gaps = patches.gaps@;
    let next = patches.next_separator as int;
    lemma_separators_accepted(bytes, done, separators, next);
    let after = correct_separators(bytes, done, separators, next)->Ok_0.0;
    assert(gaps_stand(after, done, gaps, patches.next_gap as int)) by {
        assert forall|k: int, i: int|
            patches.next_gap <= k < gaps.len() && 0 <= i < after.len() && (
            #[trigger] gaps[k]).offset <= done + i < gaps[k].offset + gaps[k].original@.len() implies (
        #[trigger] after[i]) == gaps[k].original@[done + i - gaps[k].offset] by {
            assert(bytes[i] == gaps[k].original@[done + i - gaps[k].offset]);
            if exists|s: int| next <= s < separators.len() && (#[trigger] separators[s]) == done
                + i {
                let s = choose|s: int|
                    next <= s < separators.len() && (#[trigger] separators[s]) == done + i;
                assert(!(gaps[k].offset <= separators[s] < gaps[k].offset
                    + gaps[k].original@.len()));
            }
        }
    }
    lemma_gaps_accepted(after, done, gaps, patches.next_gap as int);
}

/// A separator that is no carriage return any more is refused.
pub proof fn law_changed_separators_are_refused(
    patches: CopyPatches,
    bytes: Seq<u8>,
    done: u64,
    k: int,
)
    requires
        patches.well_formed(),
        forall|i: int, j: int|
            0 <= i < j < patches.separators@.len() ==> (#[trigger] patches.separators@[i]) < (
            #[trigger] patches.separators@[j]),
        patches.next_separator <= k < patches.separators@.len(),
        patches.separators@[k] < done + bytes.len(),
        patches.separators@[k] < done || bytes[patches.separators@[k] - done] != 13,
    ensures
        patches.corrected(bytes, done) is Err,
{
    let separators = patches.separators@;
    lemma_separators_accepted(bytes, done, separators, patches.next_separator as int);
    assert(!separators_stand(bytes, done, separators, patches.next_separator as int)) by {
        assert(separators[k] < done + bytes.len());
    }
}

} // verus!

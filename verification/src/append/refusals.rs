//! When copying and appending are refused.

use vstd::prelude::*;
use vstd::layout::size_of;
use crate::append::appender::stack_growth;
use crate::append::index::PdfIndex;
use crate::append::prefix::copy_failure;
use crate::append::update::{
    entry_text, first_id, in_order, run_text, starts_run, table_failure, table_text, trailer_head,
    trailer_tail, update_head_text, update_start_failure, update_text, update_write_failure,
};
use crate::append::writer::{
    appended_bytes, entry_growth, object_failure, object_header_text, object_pieces,
    pieces_failure, AppendWriter, WriterState, XrefEntry,
};
use crate::append::trailer_id::fnv128_of;
use crate::fragment::file_words::law_rows_read_back;
use crate::pieces::{joined, lemma_joined_append};
use crate::text::{spelled, LF};
use crate::outline::OpenOutline;
use crate::types::{Error, Limits, PdfRef};

verus! {

/// A PDF is copied exactly where a chunk can be read, the PDF lies in its source,
/// and neither its input nor its output passes the limits.
pub proof fn law_copies_are_refused_for_cause(index: PdfIndex, limits: Limits, source_size: u64)
    ensures
        copy_failure(index, limits, source_size) is None <==> {
            &&& 0 < limits.io_chunk_bytes
            &&& limits.io_chunk_bytes <= limits.max_allocation_bytes
            &&& index.range.length <= limits.max_input_bytes
            &&& index.range.offset + index.range.length <= source_size
            &&& index.logical_end <= index.range.length
            &&& index.logical_end <= limits.max_output_bytes
        },
{
}

/// Whether an output may hold so many bytes: ten digits count them where an xref
/// update follows.
pub open spec fn may_hold(limits: Limits, hashing: bool, bytes: int) -> bool {
    &&& bytes <= limits.max_output_bytes
    &&& hashing ==> bytes <= 9_999_999_999
}

/// Pieces are accepted exactly where all of them fit.
proof fn lemma_pieces_fit(
    limits: Limits,
    hashing: bool,
    position: int,
    pieces: Seq<Seq<u8>>,
    from: int,
)
    requires
        0 <= from < pieces.len(),
        0 <= position,
    ensures
        pieces_failure(limits, hashing, position, pieces, from) is None <==> may_hold(
            limits,
            hashing,
            position + joined(pieces, from).len() as int,
        ),
    decreases pieces.len() - from,
{
    let after = position + pieces[from].len() as int;
    assert(joined(pieces, from) == pieces[from] + joined(pieces, from + 1));
    if from + 1 < pieces.len() {
        lemma_pieces_fit(limits, hashing, after, pieces, from + 1);
    } else {
        assert(pieces_failure(limits, hashing, after, pieces, from + 1) is None);
        assert(joined(pieces, from + 1).len() == 0);
    }
}

/// An object is written exactly where all of it fits.
pub proof fn law_objects_are_refused_for_cause(
    state: WriterState,
    reference: PdfRef,
    body: Seq<Seq<u8>>,
)
    requires
        0 <= state.position,
    ensures
        object_failure(state, reference, body) is None <==> {
            let bytes = state.position + appended_bytes(
                (crate::append::writer::Appended { reference, body }),
            ).len();
            &&& bytes <= state.limits.max_output_bytes
            &&& state.hashing ==> bytes <= 9_999_999_999
        },
{
    let pieces = object_pieces(reference, body);
    let start = seq![seq![LF], object_header_text(reference)];
    let end = seq![spelled("\nendobj\n")];
    lemma_joined_append(start + body, end, 0);
    lemma_joined_append(start, body, 0);
    assert(joined(start, 2) =~= Seq::<u8>::empty());
    assert(joined(start, 1) =~= object_header_text(reference));
    assert(joined(start, 0) =~= seq![LF] + object_header_text(reference));
    assert(joined(end, 1) =~= Seq::<u8>::empty());
    assert(joined(end, 0) =~= spelled("\nendobj\n"));
    lemma_pieces_fit(state.limits, state.hashing, state.position, pieces, 0);
}

/// Rows are accepted exactly where all of them fit and have ten digits for their
/// offsets.
proof fn lemma_table_fits(limits: Limits, position: int, entries: Seq<XrefEntry>, i: int)
    requires
        0 <= i < entries.len(),
        0 <= position,
    ensures
        table_failure(limits, true, position, entries, i) is None <==> {
            &&& forall|k: int|
                i <= k < entries.len() ==> (#[trigger] entries[k]).offset <= 9_999_999_999
            &&& may_hold(limits, true, position + table_text(entries, i).len() as int)
        },
    decreases entries.len() - i,
{
    let header: int = if starts_run(entries, i) {
        run_text(entries, i).len() as int
    } else {
        0
    };
    let after = position + header + 20;
    if entries[i].offset <= 9_999_999_999 {
        law_rows_read_back(entries[i].offset, entries[i].reference.generation, 110);
        assert(entry_text(entries[i]).len() == 20);
        assert(table_text(entries, i).len() == header + 20 + table_text(entries, i + 1).len());
        if i + 1 < entries.len() {
            lemma_table_fits(limits, after, entries, i + 1);
        }
        assert((forall|k: int|
            i <= k < entries.len() ==> (#[trigger] entries[k]).offset <= 9_999_999_999) <==> (
        forall|k: int|
            i + 1 <= k < entries.len() ==> (#[trigger] entries[k]).offset <= 9_999_999_999));
    }
}

/// A full list of object offsets doubles, from room for at least eight, exactly
/// where that fits the memory; one with room left stays.
pub proof fn law_offset_lists_double(len: nat, limits: Limits, target: int)
    requires
        2 * len <= usize::MAX,
        len < usize::MAX,
    ensures
        ({
            let fits = target * size_of::<XrefEntry>() <= limits.max_allocation_bytes;
            &&& forall|capacity: nat|
                len < capacity ==> #[trigger] entry_growth(len, capacity, limits) == Ok::<
                    Option<int>,
                    Error,
                >(None)
            &&& len >= 4 ==> (entry_growth(len, len, limits) == Ok::<Option<int>, Error>(
                Some(target),
            ) <==> target == 2 * len && fits)
            &&& len < 4 ==> (entry_growth(len, len, limits) == Ok::<Option<int>, Error>(
                Some(target),
            ) <==> target == 8 && fits)
        }),
{
}

/// A full stack of open entries doubles, but not past the bookmarks that may be,
/// exactly where that fits the memory; one with room left stays.
pub proof fn law_entry_stacks_double(len: nat, limits: Limits, target: int)
    requires
        len + 1 <= limits.max_bookmarks,
    ensures
        ({
            let fits = target * size_of::<OpenOutline>() <= limits.max_allocation_bytes;
            let grown = Ok::<Option<int>, Error>(Some(target));
            &&& forall|capacity: nat|
                len < capacity ==> #[trigger] stack_growth(len, capacity, limits) == Ok::<
                    Option<int>,
                    Error,
                >(None)
            &&& len == 0 && limits.max_bookmarks >= 2 ==> (stack_growth(len, len, limits) == grown
                <==> target == 2 && fits)
            &&& len > 0 && 2 * len <= limits.max_bookmarks ==> (stack_growth(len, len, limits)
                == grown <==> target == 2 * len && fits)
            &&& 2 * len > limits.max_bookmarks ==> (stack_growth(len, len, limits) == grown
                <==> target == limits.max_bookmarks && fits)
        }),
{
}

/// An update can begin exactly where no object is open, the output is sound and
/// short enough, no object is defined twice, and an ID can be understood.
pub proof fn law_updates_begin_unless_for_cause(writer: AppendWriter, index: PdfIndex)
    ensures
        update_start_failure(writer, index) is None <==> {
            &&& !writer.open
            &&& !writer.poisoned
            &&& writer.position <= 9_999_999_999
            &&& forall|i: int, j: int|
                0 <= i < j < writer.entries@.len() ==> (
                #[trigger] writer.entries@[i]).reference.number != (
                #[trigger] writer.entries@[j]).reference.number
            &&& index.range.offset + index.xref_offset <= u64::MAX
            &&& index.trailer_id is Some ==> first_id(index) is Some
        },
{
}

/// An update that can begin is written exactly where it lists an object, every
/// number has a successor and every offset ten digits, and all of it fits.
#[verifier::spinoff_prover]
#[verifier::rlimit(40)]
pub proof fn law_updates_are_refused_for_cause(
    limits: Limits,
    hash: u128,
    position: u64,
    index: PdfIndex,
    entries: Seq<XrefEntry>,
)
    requires
        in_order(entries),
    ensures
        update_write_failure(limits, Some(hash), position, index, entries) is None <==> {
            let bytes = position + update_text(Some(hash), position, index, entries).len();
            &&& entries.len() > 0
            &&& forall|k: int|
                0 <= k < entries.len() ==> (#[trigger] entries[k]).offset <= 9_999_999_999
            &&& forall|k: int|
                0 <= k < entries.len() ==> (#[trigger] entries[k]).reference.number < u32::MAX
            &&& bytes <= limits.max_output_bytes
            &&& bytes <= 9_999_999_999
        },
{
    reveal(update_head_text);
    let head = update_head_text(index, entries);
    let table = position + spelled("xref\n").len() as int;
    let trailer = table + table_text(entries, 0).len() as int;
    if entries.len() > 0 {
        lemma_table_fits(limits, table, entries, 0);
        lemma_pieces_fit(limits, true, trailer, trailer_head(index, entries), 0);
        let tail = trailer_tail(index, fnv128_of(hash, head), position);
        lemma_pieces_fit(limits, true, position + head.len() as int, tail, 0);
        assert((forall|k: int|
            0 <= k < entries.len() ==> (#[trigger] entries[k]).reference.number < u32::MAX) <==> (
        entries.last().reference.number < u32::MAX)) by {
            assert(entries.last() == entries[entries.len() - 1]);
            if entries.last().reference.number < u32::MAX {
                assert forall|k: int| 0 <= k < entries.len() implies (
                #[trigger] entries[k]).reference.number < u32::MAX by {
                    if k < entries.len() - 1 {
                        assert(entries[k].reference.number < entries[entries.len()
                            - 1].reference.number);
                    }
                }
            }
        }
    }
}

} // verus!

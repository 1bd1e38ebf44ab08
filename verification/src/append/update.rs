//! The xref update that ends an appended revision.

use vstd::prelude::*;
use crate::append::hash_changes::law_fnv128_tells_short_changes;
use crate::append::index::PdfIndex;
use crate::append::trailer_id::{
    first_id_span, first_id_string, fnv128_of, law_fnv128_in_pieces, unsupported_id,
};
use crate::append::writer::{
    accepted_text, hash_of, lemma_added_on, output_failed, piece_failure, pieces_failure,
    AppendWriter, XrefEntry,
};
use crate::fragment::texts::{xref_entry, xref_entry_text, IN_USE};
use crate::pieces::{joined, views};
use crate::sorting::{
    ascending, lemma_reordered_pair, lemma_reordered_places, reordered, sort_by_key, ByNumber,
};
use crate::text::{
    decimal, fixed_hex, hex_units, lemma_decimal_length_bound, lemma_fixed_decimal_length, lemma_fixed_hex_length,
    lemma_hex_tells_apart, lemma_hex_units_around, lemma_pow_16_32, lemma_pow_16_4, pdf_ref,
    pdf_ref_text, push_bytes, push_decimal, push_fixed_hex, push_text, spelled, ten_to, LF, SPACE,
};
use crate::types::{
    first_failure, outcome, over_limit, Error, Limits, PdfRef, MAX_CLASSIC_PDF_BYTES,
};

verus! {

/// Whether the entries are in strictly increasing order of object number.
pub open spec fn in_order(entries: Seq<XrefEntry>) -> bool {
    forall|i: int, j: int|
        0 <= i < j < entries.len() ==> (#[trigger] entries[i]).reference.number < (
        #[trigger] entries[j]).reference.number
}

/// Whether two entries have the same object number.
pub open spec fn defined_twice(entries: Seq<XrefEntry>) -> bool {
    exists|i: int, j: int|
        0 <= i < j < entries.len() && (#[trigger] entries[i]).reference.number == (
        #[trigger] entries[j]).reference.number
}

/// Whether an entry starts a run of consecutive numbers.
pub open spec fn starts_run(entries: Seq<XrefEntry>, i: int) -> bool {
    i == 0 || entries[i].reference.number != entries[i - 1].reference.number + 1
}

/// Where the run of consecutive numbers that holds an entry ends.
pub open spec fn run_end(entries: Seq<XrefEntry>, i: int) -> int
    decreases entries.len() - i,
{
    if i + 1 < entries.len() && entries[i + 1].reference.number == entries[i].reference.number
        + 1 {
        run_end(entries, i + 1)
    } else {
        i + 1
    }
}

/// The line before the run that starts at an entry.
#[verifier::opaque]
pub open spec fn run_text(entries: Seq<XrefEntry>, i: int) -> Seq<u8> {
    decimal(entries[i].reference.number as nat).push(SPACE) + decimal(
        (run_end(entries, i) - i) as nat,
    ).push(LF)
}

/// The xref row of an entry.
pub open spec fn entry_text(entry: XrefEntry) -> Seq<u8> {
    xref_entry_text(entry.offset, entry.reference.generation, IN_USE)
}

/// The runs and rows from entry `i` on.
pub open spec fn table_text(entries: Seq<XrefEntry>, i: int) -> Seq<u8>
    decreases entries.len() - i,
{
    if i >= entries.len() {
        Seq::empty()
    } else {
        (if starts_run(entries, i) {
            run_text(entries, i)
        } else {
            Seq::empty()
        }) + entry_text(entries[i]) + table_text(entries, i + 1)
    }
}

/// The first failure among the runs and rows from entry `i` on.
pub open spec fn table_failure(
    limits: Limits,
    hashing: bool,
    position: int,
    entries: Seq<XrefEntry>,
    i: int,
) -> Option<Error>
    decreases entries.len() - i,
{
    if i >= entries.len() {
        None
    } else {
        let header = if starts_run(entries, i) {
            run_text(entries, i).len()
        } else {
            0
        };
        let after = position + header;
        first_failure(
            if starts_run(entries, i) {
                piece_failure(limits, hashing, position, header)
            } else {
                None
            },
            if entries[i].offset > MAX_CLASSIC_PDF_BYTES {
                over_limit(
                    "classic PDF object offset",
                    MAX_CLASSIC_PDF_BYTES,
                    entries[i].offset as int,
                )
            } else {
                first_failure(
                    piece_failure(limits, hashing, after, 20),
                    table_failure(limits, hashing, after + 20, entries, i + 1),
                )
            },
        )
    }
}

/// How the trailer of an update begins.
#[verifier::opaque]
pub open spec fn update_trailer_text(size: u32, catalog: PdfRef, previous: u64) -> Seq<u8> {
    spelled("trailer\n<< /Size ") + decimal(size as nat) + spelled(" /Root ") + pdf_ref_text(
        catalog,
    ) + spelled(" /Prev ") + decimal(previous as nat)
}

pub open spec fn info_pieces(info: Option<PdfRef>) -> Seq<Seq<u8>> {
    match info {
        Some(info) => seq![spelled(" /Info ") + pdf_ref_text(info)],
        None => Seq::empty(),
    }
}

/// The first ID, unchanged, and a second one that marks this revision.
pub open spec fn id_pieces(first: Option<Seq<u8>>, hash: u128) -> Seq<Seq<u8>> {
    match first {
        Some(first) => seq![
            spelled(" /ID ["),
            first,
            spelled(" <") + fixed_hex(hash as nat, 32) + spelled(">]"),
        ],
        None => Seq::empty(),
    }
}

/// How an update ends.
#[verifier::opaque]
pub open spec fn update_end_text(xref_offset: u64) -> Seq<u8> {
    spelled(" >>\nstartxref\n") + decimal(xref_offset as nat) + spelled("\n%%EOF\n")
}

/// The first string of the document's ID, if it has one.
pub open spec fn first_id(index: PdfIndex) -> Option<Seq<u8>> {
    match index.id_view() {
        Some(raw) => match first_id_span(raw) {
            Some((start, end)) => Some(raw.subrange(start, end)),
            None => None,
        },
        None => None,
    }
}

/// The size that the trailer declares.
pub open spec fn update_size(entries: Seq<XrefEntry>, trailer_size: u32) -> u32 {
    let needed = entries.last().reference.number + 1;
    if trailer_size >= needed {
        trailer_size
    } else {
        needed as u32
    }
}

/// The first two pieces of the trailer.
pub open spec fn trailer_head(index: PdfIndex, entries: Seq<XrefEntry>) -> Seq<Seq<u8>> {
    seq![
        update_trailer_text(
            update_size(entries, index.trailer_size),
            index.catalog,
            index.xref_offset,
        ),
    ] + info_pieces(index.trailer_info)
}

/// The update up to the ID.
#[verifier::opaque]
pub open spec fn update_head_text(index: PdfIndex, entries: Seq<XrefEntry>) -> Seq<u8> {
    spelled("xref\n") + table_text(entries, 0) + joined(trailer_head(index, entries), 0)
}

/// The last pieces of the trailer, when the hash so far is `hash`.
pub open spec fn trailer_tail(index: PdfIndex, hash: u128, xref_offset: u64) -> Seq<Seq<u8>> {
    id_pieces(first_id(index), hash) + seq![update_end_text(xref_offset)]
}

/// Why an update cannot begin.
pub open spec fn update_start_failure(writer: AppendWriter, index: PdfIndex) -> Option<Error> {
    if writer.open {
        Some(Error::InvalidInput { reason: "PDF append object remains open" })
    } else if writer.poisoned {
        Some(output_failed())
    } else if writer.position > MAX_CLASSIC_PDF_BYTES {
        over_limit("classic PDF file bytes", MAX_CLASSIC_PDF_BYTES, writer.position as int)
    } else if defined_twice(writer.entries@) {
        Some(Error::InvalidInput { reason: "PDF update defines an object twice" })
    } else if index.range.offset + index.xref_offset > u64::MAX {
        Some(Error::InvalidInput { reason: "PDF xref source offset overflows" })
    } else if index.id_view() is Some && first_id(index) is None {
        Some(unsupported_id((index.range.offset + index.xref_offset) as u64))
    } else {
        None
    }
}

/// The runs and rows from entry `i` on, up to the first that is refused.
pub open spec fn table_accepted(
    limits: Limits,
    hashing: bool,
    position: int,
    entries: Seq<XrefEntry>,
    i: int,
) -> Seq<u8>
    decreases entries.len() - i,
{
    if i >= entries.len() {
        Seq::empty()
    } else {
        let header = if starts_run(entries, i) {
            run_text(entries, i)
        } else {
            Seq::empty()
        };
        let after = position + header.len();
        if starts_run(entries, i) && piece_failure(limits, hashing, position, header.len())
            is Some {
            Seq::empty()
        } else if entries[i].offset > MAX_CLASSIC_PDF_BYTES || piece_failure(
            limits,
            hashing,
            after,
            20,
        ) is Some {
            header
        } else {
            header + entry_text(entries[i]) + table_accepted(
                limits,
                hashing,
                after + 20,
                entries,
                i + 1,
            )
        }
    }
}

/// What of an update up to the ID is written where it is refused.
pub open spec fn update_head_accepted(
    limits: Limits,
    hashing: bool,
    position: int,
    index: PdfIndex,
    entries: Seq<XrefEntry>,
) -> Seq<u8> {
    let word = spelled("xref\n");
    let table = position + word.len();
    let rows = table_text(entries, 0);
    if piece_failure(limits, hashing, position, word.len()) is Some {
        Seq::empty()
    } else if table_failure(limits, hashing, table, entries, 0) is Some {
        word + table_accepted(limits, hashing, table, entries, 0)
    } else if entries.len() == 0 || entries.last().reference.number == u32::MAX {
        word + rows
    } else {
        word + rows + accepted_text(
            limits,
            hashing,
            table + rows.len(),
            trailer_head(index, entries),
            0,
        )
    }
}

/// What of an update is written where it is refused: what precedes the piece
/// that is refused.
pub open spec fn update_accepted(
    limits: Limits,
    hash: Option<u128>,
    position: u64,
    index: PdfIndex,
    entries: Seq<XrefEntry>,
) -> Seq<u8> {
    let hashing = hash is Some;
    let head = update_head_text(index, entries);
    if update_head_failure(limits, hashing, position as int, index, entries) is Some {
        update_head_accepted(limits, hashing, position as int, index, entries)
    } else if first_id(index) is Some && !hashing {
        head
    } else {
        head + accepted_text(
            limits,
            hashing,
            position + head.len(),
            trailer_tail(index, hash_or_zero(hash_of(hash, head)), position),
            0,
        )
    }
}

/// Why an update cannot be written up to the ID.
pub open spec fn update_head_failure(
    limits: Limits,
    hashing: bool,
    position: int,
    index: PdfIndex,
    entries: Seq<XrefEntry>,
) -> Option<Error> {
    let table = position + spelled("xref\n").len();
    let trailer = table + table_text(entries, 0).len();
    first_failure(
        piece_failure(limits, hashing, position, spelled("xref\n").len()),
        first_failure(
            table_failure(limits, hashing, table, entries, 0),
            if entries.len() == 0 {
                Some(Error::InvalidInput { reason: "PDF update has no xref entries" })
            } else if entries.last().reference.number == u32::MAX {
                Some(Error::InvalidInput { reason: "PDF trailer Size overflows" })
            } else {
                pieces_failure(limits, hashing, trailer, trailer_head(index, entries), 0)
            },
        ),
    )
}

/// Why an update that can begin cannot be written.
pub open spec fn update_write_failure(
    limits: Limits,
    hash: Option<u128>,
    position: u64,
    index: PdfIndex,
    entries: Seq<XrefEntry>,
) -> Option<Error> {
    let hashing = hash is Some;
    let head = update_head_text(index, entries);
    first_failure(
        update_head_failure(limits, hashing, position as int, index, entries),
        if first_id(index) is Some && !hashing {
            Some(Error::InvalidInput { reason: "PDF update hash is missing" })
        } else {
            pieces_failure(
                limits,
                hashing,
                position + head.len(),
                trailer_tail(index, hash_or_zero(hash_of(hash, head)), position),
                0,
            )
        },
    )
}

pub open spec fn hash_or_zero(hash: Option<u128>) -> u128 {
    match hash {
        Some(hash) => hash,
        None => 0,
    }
}

/// The whole update.
pub open spec fn update_text(
    hash: Option<u128>,
    position: u64,
    index: PdfIndex,
    entries: Seq<XrefEntry>,
) -> Seq<u8> {
    let head = update_head_text(index, entries);
    head + joined(trailer_tail(index, hash_or_zero(hash_of(hash, head)), position), 0)
}

/// Sort the entries by number, unless two have the same.
fn order_entries(entries: &mut Vec<XrefEntry>) -> (ordered: bool)
    ensures
        reordered(old(entries)@, final(entries)@),
        ordered == !defined_twice(old(entries)@),
        ordered ==> in_order(final(entries)@),
{
    let ghost before = entries@;
    sort_by_key::<XrefEntry, ByNumber>(entries);
    let mut next: usize = 1;
    while next < entries.len()
        invariant
            1 <= next,
            before == old(entries)@,
            reordered(before, entries@),
            ascending::<XrefEntry, ByNumber>(entries@),
            forall|i: int, j: int|
                0 <= i < j < next && j < entries@.len() ==> (
                #[trigger] entries@[i]).reference.number < (#[trigger] entries@[j]).reference.number,
        decreases entries@.len() - next,
    {
        if entries[next - 1].reference.number == entries[next].reference.number {
            proof {
                let (a, b) = lemma_reordered_pair(before, entries@, next - 1, next as int);
                if a < b {
                    assert(before[a].reference.number == before[b].reference.number);
                } else {
                    assert(before[b].reference.number == before[a].reference.number);
                }
            }
            return false;
        }
        assert(entries@[next - 1].reference.number < entries@[next as int].reference.number);
        next += 1;
    }
    proof {
        if defined_twice(before) {
            let (i, j) = choose|i: int, j: int|
                0 <= i < j < before.len() && (#[trigger] before[i]).reference.number == (
                #[trigger] before[j]).reference.number;
            let (a, b) = lemma_reordered_places(before, entries@, i, j);
            if a < b {
                assert(entries@[a].reference.number < entries@[b].reference.number);
            } else {
                assert(entries@[b].reference.number < entries@[a].reference.number);
            }
        }
    }
    true
}

/// Where the run of consecutive numbers that holds an entry ends.
fn find_run_end(entries: &Vec<XrefEntry>, i: usize) -> (end: usize)
    requires
        in_order(entries@),
        i < entries@.len(),
    ensures
        end == run_end(entries@, i as int),
        i < end <= entries@.len(),
{
    let count: usize = entries.len();
    let mut end: usize = i + 1;
    while end < count && entries[end - 1].reference.number < entries[end].reference.number
        && entries[end].reference.number - entries[end - 1].reference.number == 1
        invariant
            i < end <= entries@.len(),
            count == entries@.len(),
            run_end(entries@, i as int) == run_end(entries@, end - 1),
        decreases entries@.len() - end,
    {
        end += 1;
    }
    proof {
        if end < entries@.len() {
            assert(in_order(entries@));
            assert(entries@[end - 1].reference.number < entries@[end as int].reference.number);
        }
    }
    end
}

/// The line before a run of `count` entries.
fn run_line(number: u32, count: usize) -> (line: Vec<u8>)
    ensures
        line@ == decimal(number as nat).push(SPACE) + decimal(count as nat).push(LF),
{
    let mut line: Vec<u8> = Vec::new();
    push_decimal(&mut line, number as u64);
    line.push(SPACE);
    push_decimal(&mut line, count as u64);
    line.push(LF);
    assert(line@ =~= decimal(number as nat).push(SPACE) + decimal(count as nat).push(LF));
    line
}

proof fn lemma_entry_length(entry: XrefEntry)
    ensures
        entry_text(entry).len() == 20,
{
    lemma_fixed_decimal_length(entry.offset as nat, 10);
    lemma_fixed_decimal_length(entry.reference.generation as nat, 5);
}

/// Writing once more extends what was written before.
proof fn lemma_extended_again(
    first: AppendWriter,
    second: AppendWriter,
    third: AppendWriter,
    bytes: Seq<u8>,
    more: Seq<u8>,
)
    requires
        first.extended_by(second, bytes),
        second.extended_by(third, more),
    ensures
        first.extended_by(third, bytes + more),
{
    match first.update_hash {
        Some(hash) => {
            law_fnv128_in_pieces(hash, bytes, more);
        },
        None => {},
    }
    assert(first.written@ + bytes + more =~= first.written@ + (bytes + more));
}

/// What was kept after more output is kept from the start.
proof fn lemma_still_kept(
    first: AppendWriter,
    second: AppendWriter,
    third: AppendWriter,
    bytes: Seq<u8>,
)
    requires
        first.extended_by(second, bytes),
        second.kept_by(third),
        first.limits == second.limits,
        first.poisoned ==> second.poisoned,
    ensures
        first.kept_by(third),
        third.written@ == first.written@ + bytes + second.added(third),
{
    lemma_added_on(first, second, third, bytes);
}

impl AppendWriter {
    /// Write the runs and rows of an update.
    #[verifier::rlimit(40)]
    fn write_table(&mut self, entries: &Vec<XrefEntry>) -> (wrote: Result<(), Error>)
        requires
            old(self).well_formed(),
            !old(self).poisoned,
            in_order(entries@),
        ensures
            wrote == outcome(
                table_failure(
                    old(self).limits,
                    old(self).update_hash is Some,
                    old(self).position as int,
                    entries@,
                    0,
                ),
            ),
            match wrote {
                Ok(()) => {
                    &&& old(self).extended_by(*final(self), table_text(entries@, 0))
                    &&& final(self).same_state(*old(self))
                },
                Err(error) => {
                    &&& old(self).stopped_by(*final(self), error)
                    &&& final(self).open == old(self).open
                    &&& final(self).written@ == old(self).written@ + table_accepted(
                        old(self).limits,
                        old(self).update_hash is Some,
                        old(self).position as int,
                        entries@,
                        0,
                    )
                },
            },
    {
        let ghost before = *self;
        let ghost limits = self.limits;
        let ghost hashing = self.update_hash is Some;
        let ghost mut done = Seq::<u8>::empty();
        let mut next: usize = 0;
        proof {
            assert(before.written@ + done =~= before.written@);
            assert(done + table_text(entries@, 0) =~= table_text(entries@, 0));
            let all = table_accepted(limits, hashing, before.position as int, entries@, 0);
            assert(done + all =~= all);
        }
        while next < entries.len()
            invariant
                next <= entries@.len(),
                in_order(entries@),
                before == *old(self),
                before.well_formed(),
                !before.poisoned,
                before.extended_by(*self, done),
                self.same_state(before),
                limits == before.limits,
                hashing == (before.update_hash is Some),
                done + table_text(entries@, next as int) == table_text(entries@, 0),
                table_failure(limits, hashing, before.position as int, entries@, 0)
                    == table_failure(
                    limits,
                    hashing,
                    self.position as int,
                    entries@,
                    next as int,
                ),
                table_accepted(limits, hashing, before.position as int, entries@, 0) == done
                    + table_accepted(
                    limits,
                    hashing,
                    self.position as int,
                    entries@,
                    next as int,
                ),
            decreases entries@.len() - next,
        {
            assert(done + Seq::<u8>::empty() =~= done);
            let entry = entries[next];
            let ghost start = *self;
            let ghost here = done;
            let ghost header = if starts_run(entries@, next as int) {
                run_text(entries@, next as int)
            } else {
                Seq::empty()
            };
            if next == 0 || entries[next - 1].reference.number == u32::MAX
                || entry.reference.number != entries[next - 1].reference.number + 1 {
                let end = find_run_end(entries, next);
                let line = run_line(entry.reference.number, end - next);
                assert(line@ == header) by {
                    reveal(run_text);
                }
                self.write_raw(&line)?;
            }
            proof {
                assert(start.written@ + Seq::<u8>::empty() =~= start.written@);
                assert(start.extended_by(*self, header));
                lemma_extended_again(before, start, *self, done, header);
                done = done + header;
                lemma_entry_length(entry);
            }
            if entry.offset > MAX_CLASSIC_PDF_BYTES {
                return Err(
                    Error::LimitExceeded {
                        resource: "classic PDF object offset",
                        limit: MAX_CLASSIC_PDF_BYTES,
                        attempted: entry.offset,
                    },
                );
            }
            let row = xref_entry(entry.offset, entry.reference.generation, IN_USE)?;
            let ghost middle = *self;
            self.write_raw(&row)?;
            proof {
                lemma_extended_again(before, middle, *self, done, row@);
                let others = table_text(entries@, next + 1);
                let left = table_accepted(
                    limits,
                    hashing,
                    self.position as int,
                    entries@,
                    next + 1,
                );
                assert(here + (header + entry_text(entry) + left) =~= done + row@ + left);
                assert(here + (header + entry_text(entry) + others) =~= done + row@ + others);
                done = done + row@;
            }
            next += 1;
        }
        assert(done + table_text(entries@, next as int) =~= done);
        Ok(())
    }
}

/// The first pieces of the trailer of an update.
fn head_pieces(index: &PdfIndex, size: u32) -> (pieces: Vec<Vec<u8>>)
    ensures
        views(pieces@) == seq![update_trailer_text(size, index.catalog, index.xref_offset)]
            + info_pieces(index.trailer_info),
{
    let mut pieces: Vec<Vec<u8>> = Vec::new();
    let mut text: Vec<u8> = Vec::new();
    push_text(&mut text, "trailer\n<< /Size ");
    push_decimal(&mut text, size as u64);
    push_text(&mut text, " /Root ");
    pdf_ref(&mut text, index.catalog);
    push_text(&mut text, " /Prev ");
    push_decimal(&mut text, index.xref_offset);
    proof {
        reveal(update_trailer_text);
    }
    assert(text@ =~= update_trailer_text(size, index.catalog, index.xref_offset));
    pieces.push(text);
    if let Some(info) = index.trailer_info {
        let mut text: Vec<u8> = Vec::new();
        push_text(&mut text, " /Info ");
        pdf_ref(&mut text, info);
        assert(text@ =~= spelled(" /Info ") + pdf_ref_text(info));
        pieces.push(text);
    }
    assert(views(pieces@) =~= seq![
        update_trailer_text(size, index.catalog, index.xref_offset),
    ] + info_pieces(index.trailer_info));
    pieces
}

/// The last pieces of the trailer of an update.
fn tail_pieces(first: Option<&[u8]>, hash: u128, xref_offset: u64) -> (pieces: Vec<Vec<u8>>)
    ensures
        views(pieces@) == id_pieces(
            match first {
                Some(first) => Some(first@),
                None => None,
            },
            hash,
        ) + seq![update_end_text(xref_offset)],
{
    let mut pieces: Vec<Vec<u8>> = Vec::new();
    let ghost mut expected = Seq::<Seq<u8>>::empty();
    if let Some(first) = first {
        let mut open: Vec<u8> = Vec::new();
        push_text(&mut open, " /ID [");
        assert(open@ =~= spelled(" /ID ["));
        pieces.push(open);
        let mut copied: Vec<u8> = Vec::new();
        push_bytes(&mut copied, first);
        assert(copied@ =~= first@);
        pieces.push(copied);
        let mut second: Vec<u8> = Vec::new();
        push_text(&mut second, " <");
        push_fixed_hex(&mut second, hash, 32);
        push_text(&mut second, ">]");
        assert(second@ =~= spelled(" <") + fixed_hex(hash as nat, 32) + spelled(">]"));
        pieces.push(second);
    }
    let mut end: Vec<u8> = Vec::new();
    push_text(&mut end, " >>\nstartxref\n");
    push_decimal(&mut end, xref_offset);
    push_text(&mut end, "\n%%EOF\n");
    proof {
        reveal(update_end_text);
    }
    assert(end@ =~= update_end_text(xref_offset));
    pieces.push(end);
    assert(views(pieces@) =~= id_pieces(
        match first {
            Some(first) => Some(first@),
            None => None,
        },
        hash,
    ) + seq![update_end_text(xref_offset)]);
    pieces
}

impl AppendWriter {
    /// The update that ends what has been written.
    pub open spec fn update_of(self, index: PdfIndex, entries: Seq<XrefEntry>) -> Seq<u8> {
        update_text(self.update_hash, self.position, index, entries)
    }

    /// Why that update cannot be written.
    pub open spec fn update_failure(self, index: PdfIndex, entries: Seq<XrefEntry>) -> Option<
        Error,
    > {
        update_write_failure(self.limits, self.update_hash, self.position, index, entries)
    }

    /// Whether an error refuses the update, and another state is this one with
    /// what precedes the piece that is refused.
    pub open spec fn update_refused(self, other: Self, index: PdfIndex, error: Error) -> bool {
        match update_start_failure(self, index) {
            Some(failure) => error == failure && other.written@ == self.written@,
            None => exists|entries: Seq<XrefEntry>|
                #![trigger self.update_failure(index, entries)]
                {
                    &&& reordered(self.entries@, entries)
                    &&& in_order(entries)
                    &&& self.update_failure(index, entries) == Some(error)
                    &&& other.written@ == self.written@ + update_accepted(
                        self.limits,
                        self.update_hash,
                        self.position,
                        index,
                        entries,
                    )
                },
        }
    }

    /// Check that an update can begin, and put its objects in order.
    fn start_update<'i>(&mut self, index: &'i PdfIndex) -> (started: Result<
        (Vec<XrefEntry>, Option<&'i [u8]>),
        Error,
    >)
        requires
            old(self).well_formed(),
        ensures
            match started {
                Ok((entries, first)) => {
                    &&& update_start_failure(*old(self), *index) is None
                    &&& in_order(entries@)
                    &&& reordered(old(self).entries@, entries@)
                    &&& final(self).entries@.len() == 0
                    &&& match first {
                        Some(first) => first_id(*index) == Some(first@),
                        None => first_id(*index) is None,
                    }
                },
                Err(error) => update_start_failure(*old(self), *index) == Some(error),
            },
            final(self).limits == old(self).limits,
            final(self).position == old(self).position,
            final(self).open == old(self).open,
            final(self).poisoned == old(self).poisoned,
            final(self).update_hash == old(self).update_hash,
            final(self).pending == old(self).pending,
            final(self).written == old(self).written,
    {
        if self.open {
            return Err(Error::InvalidInput { reason: "PDF append object remains open" });
        }
        self.ensure_healthy()?;
        if self.position > MAX_CLASSIC_PDF_BYTES {
            return Err(
                Error::LimitExceeded {
                    resource: "classic PDF file bytes",
                    limit: MAX_CLASSIC_PDF_BYTES,
                    attempted: self.position,
                },
            );
        }
        if !order_entries(&mut self.entries) {
            return Err(Error::InvalidInput { reason: "PDF update defines an object twice" });
        }
        let source_offset: u64 = match index.range.offset.checked_add(index.xref_offset) {
            Some(offset) => offset,
            None => {
                return Err(Error::InvalidInput { reason: "PDF xref source offset overflows" });
            },
        };
        let first: Option<&[u8]> = match &index.trailer_id {
            Some(raw) => Some(first_id_string(raw, source_offset)?),
            None => None,
        };
        let mut entries: Vec<XrefEntry> = Vec::new();
        core::mem::swap(&mut entries, &mut self.entries);
        Ok((entries, first))
    }

    /// Write an update up to the ID.
    fn write_update_head(&mut self, index: &PdfIndex, entries: &Vec<XrefEntry>) -> (wrote: Result<
        (),
        Error,
    >)
        requires
            old(self).well_formed(),
            !old(self).poisoned,
            in_order(entries@),
        ensures
            wrote == outcome(
                update_head_failure(
                    old(self).limits,
                    old(self).update_hash is Some,
                    old(self).position as int,
                    *index,
                    entries@,
                ),
            ),
            match wrote {
                Ok(()) => {
                    &&& old(self).extended_by(*final(self), update_head_text(*index, entries@))
                    &&& final(self).same_state(*old(self))
                },
                Err(error) => {
                    &&& old(self).stopped_by(*final(self), error)
                    &&& final(self).written@ == old(self).written@ + update_head_accepted(
                        old(self).limits,
                        old(self).update_hash is Some,
                        old(self).position as int,
                        *index,
                        entries@,
                    )
                },
            },
    {
        let ghost before = *self;
        let ghost sorted = entries@;
        let ghost word = spelled("xref\n");
        let ghost rows = table_text(sorted, 0);
        assert(before.written@ + Seq::<u8>::empty() =~= before.written@);
        self.write_raw("xref\n".as_bytes())?;
        let ghost one = *self;
        let wrote = self.write_table(entries);
        proof {
            if wrote is Err {
                let part = table_accepted(
                    one.limits,
                    one.update_hash is Some,
                    one.position as int,
                    sorted,
                    0,
                );
                assert(before.written@ + word + part =~= before.written@ + (word + part));
                lemma_still_kept(before, one, *self, word);
            }
        }
        wrote?;
        let ghost two = *self;
        proof {
            lemma_extended_again(before, one, two, word, rows);
            assert(two.written@ =~= before.written@ + (word + rows));
            lemma_still_kept(before, two, two, word + rows);
        }
        if entries.len() == 0 {
            return Err(Error::InvalidInput { reason: "PDF update has no xref entries" });
        }
        let highest: u32 = entries[entries.len() - 1].reference.number;
        if highest == u32::MAX {
            return Err(Error::InvalidInput { reason: "PDF trailer Size overflows" });
        }
        let size: u32 = if index.trailer_size > highest {
            index.trailer_size
        } else {
            highest + 1
        };
        let head = head_pieces(index, size);
        assert(views(head@) == trailer_head(*index, sorted));
        let wrote = self.write_pieces(&head);
        proof {
            match wrote {
                Ok(()) => {
                    let text = joined(trailer_head(*index, sorted), 0);
                    reveal(update_head_text);
                    lemma_extended_again(before, two, *self, word + rows, text);
                },
                Err(_) => {
                    lemma_still_kept(before, two, *self, word + rows);
                    let part = two.added(*self);
                    assert(before.written@ + (word + rows) + part =~= before.written@ + (word + rows
                        + part));
                },
            }
        }
        wrote?;
        Ok(())
    }

    /// Write the xref update of every appended object, and its trailer.
    pub fn finish_update(&mut self, index: &PdfIndex) -> (finished: Result<(), Error>)
        requires
            old(self).well_formed(),
        ensures
            match finished {
                Ok(()) => {
                    &&& update_start_failure(*old(self), *index) is None
                    &&& exists|entries: Seq<XrefEntry>|
                        #![trigger old(self).update_of(*index, entries)]
                        reordered(old(self).entries@, entries) && in_order(entries)
                            && old(self).update_failure(*index, entries) is None
                            && old(self).extended_by(
                            *final(self),
                            old(self).update_of(*index, entries),
                        )
                    &&& final(self).limits == old(self).limits
                    &&& !final(self).open
                    &&& !final(self).poisoned
                },
                Err(error) => {
                    &&& old(self).stopped_by(*final(self), error)
                    &&& old(self).update_refused(*final(self), *index, error)
                },
            },
    {
        let ghost before = *self;
        let (entries, first) = self.start_update(index)?;
        let ghost sorted = entries@;
        let ghost head = update_head_text(*index, sorted);
        let xref_offset: u64 = self.position;
        assert(before.update_failure(*index, sorted) == before.update_failure(*index, sorted));
        self.write_update_head(index, &entries)?;
        assert(before.extended_by(*self, head));
        let ghost headed = *self;
        let mut hash: u128 = 0;
        match self.update_hash {
            Some(value) => {
                hash = value;
            },
            None => {
                if first.is_some() {
                    return Err(Error::InvalidInput { reason: "PDF update hash is missing" });
                }
            },
        }
        let tail = tail_pieces(first, hash, xref_offset);
        assert(views(tail@) == trailer_tail(
            *index,
            hash_or_zero(before.hash_after(head)),
            before.position,
        ));
        let wrote = self.write_pieces(&tail);
        proof {
            match wrote {
                Ok(()) => {
                    lemma_extended_again(before, headed, *self, head, joined(views(tail@), 0));
                    assert(before.extended_by(*self, before.update_of(*index, sorted)));
                },
                Err(_) => {
                    lemma_still_kept(before, headed, *self, head);
                    let part = headed.added(*self);
                    assert(before.written@ + head + part =~= before.written@ + (head + part));
                },
            }
        }
        wrote?;
        Ok(())
    }

    /// Whether the output may be flushed as complete.
    pub fn finish_copy(&self, cancelled: bool) -> (ready: Result<(), Error>)
        ensures
            ready == outcome(
                if self.open {
                    Some(Error::InvalidInput { reason: "PDF append object remains open" })
                } else if self.poisoned {
                    Some(output_failed())
                } else if cancelled {
                    Some(Error::Cancelled)
                } else {
                    None
                },
            ),
    {
        if self.open {
            return Err(Error::InvalidInput { reason: "PDF append object remains open" });
        }
        self.ensure_healthy()?;
        if cancelled {
            return Err(Error::Cancelled);
        }
        Ok(())
    }
}

/// What an update takes is bounded by the entries that are held for it: a row of
/// twenty bytes for each, and at most a line before it.
pub proof fn law_update_table_is_bounded(entries: Seq<XrefEntry>, from: int)
    requires
        0 <= from <= entries.len() <= u64::MAX,
    ensures
        20 * (entries.len() - from) <= table_text(entries, from).len() <= 52 * (entries.len()
            - from),
    decreases entries.len() - from,
{
    if from < entries.len() {
        law_update_table_is_bounded(entries, from + 1);
        lemma_entry_length(entries[from]);
        lemma_run_end(entries, from);
        let number = entries[from].reference.number as nat;
        assert(number < ten_to(10)) by {
            reveal_with_fuel(ten_to, 11);
        }
        lemma_decimal_length_bound(number, 10);
        lemma_decimal_length_bound((run_end(entries, from) - from) as nat, 20);
        reveal(run_text);
    }
}

proof fn lemma_run_end(entries: Seq<XrefEntry>, i: int)
    requires
        0 <= i < entries.len(),
    ensures
        i < run_end(entries, i) <= entries.len(),
    decreases entries.len() - i,
{
    if i + 1 < entries.len() && entries[i + 1].reference.number == entries[i].reference.number
        + 1 {
        lemma_run_end(entries, i + 1);
    }
}

/// Two updates of one length whose objects differ in no more than five bytes in
/// a row, such as one character of one title, have different second IDs.
pub proof fn law_short_changes_change_the_second_id(
    index: PdfIndex,
    entries: Seq<XrefEntry>,
    hash: u128,
    before: Seq<u8>,
    one: Seq<u8>,
    other: Seq<u8>,
    after: Seq<u8>,
)
    requires
        one.len() == other.len(),
        one.len() <= 5,
        one != other,
        first_id(index) is Some,
    ensures
        ({
            let head = update_head_text(index, entries);
            let left = fnv128_of(hash, before + one + after + head);
            let right = fnv128_of(hash, before + other + after + head);
            id_pieces(first_id(index), left)[2] != id_pieces(first_id(index), right)[2]
        }),
{
    let head = update_head_text(index, entries);
    let left = fnv128_of(hash, before + one + after + head);
    let right = fnv128_of(hash, before + other + after + head);
    assert(before + one + after + head =~= before + one + (after + head));
    assert(before + other + after + head =~= before + other + (after + head));
    law_fnv128_tells_short_changes(hash, before, one, other, after + head);
    let open = spelled(" <");
    let digits = fixed_hex(left as nat, 32);
    let others = fixed_hex(right as nat, 32);
    lemma_fixed_hex_length(left as nat, 32);
    lemma_fixed_hex_length(right as nat, 32);
    let id = open + digits + spelled(">]");
    let second = open + others + spelled(">]");
    if id == second {
        let start = open.len() as int;
        assert(id.subrange(start, start + 32) =~= digits);
        assert(second.subrange(start, start + 32) =~= others);
        lemma_pow_16_32();
        lemma_hex_tells_apart(left as nat, right as nat, 32);
    }
}

/// Two updates that differ in one code unit of one title have different second
/// IDs.
pub proof fn law_title_changes_the_second_id(
    index: PdfIndex,
    entries: Seq<XrefEntry>,
    hash: u128,
    before: Seq<u8>,
    units: Seq<u16>,
    at: int,
    unit: u16,
    after: Seq<u8>,
)
    requires
        0 <= at < units.len(),
        units[at] != unit,
        first_id(index) is Some,
    ensures
        ({
            let head = update_head_text(index, entries);
            let changed = units.update(at, unit);
            let left = fnv128_of(hash, before + hex_units(units) + after + head);
            let right = fnv128_of(hash, before + hex_units(changed) + after + head);
            id_pieces(first_id(index), left)[2] != id_pieces(first_id(index), right)[2]
        }),
{
    let changed = units.update(at, unit);
    let first = hex_units(units.take(at));
    let last = hex_units(units.skip(at + 1));
    let one = fixed_hex(units[at] as nat, 4);
    let other = fixed_hex(unit as nat, 4);
    lemma_hex_units_around(units, at);
    lemma_hex_units_around(changed, at);
    assert(changed.take(at) =~= units.take(at));
    assert(changed.skip(at + 1) =~= units.skip(at + 1));
    lemma_fixed_hex_length(units[at] as nat, 4);
    lemma_fixed_hex_length(unit as nat, 4);
    if one == other {
        lemma_pow_16_4();
        lemma_hex_tells_apart(units[at] as nat, unit as nat, 4);
    }
    assert(before + (first + one + last) + after =~= (before + first) + one + (last + after));
    assert(before + (first + other + last) + after =~= (before + first) + other + (last + after));
    law_short_changes_change_the_second_id(
        index,
        entries,
        hash,
        before + first,
        one,
        other,
        last + after,
    );
}

} // verus!

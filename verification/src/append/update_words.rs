//! What the end of an appended revision says.

use vstd::prelude::*;
use crate::append::index::PdfIndex;
use crate::append::trailer_id::fnv128_of;
use crate::append::update::{
    entry_text, first_id, in_order, info_pieces, id_pieces, run_end, run_text, starts_run,
    table_text, trailer_head, update_end_text, update_head_text, update_size, update_text,
    update_trailer_text,
};
use crate::append::writer::{appended_bytes, appended_entries, appended_text, Appended, XrefEntry};
use crate::fragment::file_words::law_rows_read_back;
use crate::pieces::{joined, lemma_joined_append};
use crate::reading::{linked, referred};
use crate::text::{decimal, decimal_value, fixed_hex, pdf_ref_text, spelled, LF, SPACE};
use crate::types::PdfRef;

verus! {

proof fn lemma_space_and_line()
    ensures
        spelled(" ") == seq![SPACE],
        spelled("\n") == seq![LF],
{
    reveal_strlit(" ");
    reveal_strlit("\n");
    assert(vstd::string::is_ascii(" "));
    assert(vstd::string::is_ascii("\n"));
    crate::reading::lemma_ascii(" ");
    crate::reading::lemma_ascii("\n");
    assert(spelled(" ") =~= seq![SPACE]);
    assert(spelled("\n") =~= seq![LF]);
}

/// A run ends before the first number that does not follow.
proof fn lemma_run_end(entries: Seq<XrefEntry>, i: int, count: int)
    requires
        0 <= i,
        0 < count,
        i + count <= entries.len(),
        forall|k: int|
            0 <= k < count ==> (#[trigger] entries[i + k]).reference.number
                == entries[i].reference.number + k,
        i + count == entries.len() || entries[i + count].reference.number
            != entries[i].reference.number + count,
    ensures
        run_end(entries, i) == i + count,
    decreases count,
{
    assert(entries[i + 0].reference.number == entries[i].reference.number);
    if count > 1 {
        assert(entries[i + 1].reference.number == entries[i].reference.number + 1);
        assert forall|k: int| 0 <= k < count - 1 implies (
        #[trigger] entries[i + 1 + k]).reference.number == entries[i + 1].reference.number + k by {
            assert(entries[i + (k + 1)].reference.number == entries[i].reference.number + k + 1);
        }
        lemma_run_end(entries, i + 1, count - 1);
    }
}

/// Entries that start no run stand row by row.
proof fn lemma_rows(entries: Seq<XrefEntry>, from: int, count: int, k: int)
    requires
        0 <= from,
        0 <= count,
        from + count <= entries.len(),
        forall|j: int|
            from <= j < from + count ==> !starts_run(entries, j) && (
            #[trigger] entries[j]).offset <= 9_999_999_999,
        0 <= k <= count,
    ensures
        table_text(entries, from).len() >= 20 * count,
        table_text(entries, from).skip(20 * k) == table_text(entries, from + k),
    decreases k + count,
{
    let text = table_text(entries, from);
    if count == 0 {
        assert(text.skip(0) =~= text);
    } else {
        let rest = table_text(entries, from + 1);
        assert(!starts_run(entries, from) && entries[from].offset <= 9_999_999_999);
        law_rows_read_back(entries[from].offset, entries[from].reference.generation, 110);
        assert(text =~= entry_text(entries[from]) + rest);
        if k == 0 {
            lemma_rows(entries, from + 1, count - 1, 0);
            assert(text.skip(0) =~= text);
        } else {
            lemma_rows(entries, from + 1, count - 1, k - 1);
            assert(text.skip(20 * k) =~= rest.skip(20 * (k - 1)));
        }
    }
}

/// The xref table lists its objects in runs of numbers that follow each other. A
/// run begins with its first number and how many there are, and has one row for
/// each, in use, with its offset and generation. What follows is the table of the
/// other objects.
#[verifier::spinoff_prover]
#[verifier::rlimit(60)]
pub proof fn law_runs_list_their_objects(
    entries: Seq<XrefEntry>,
    i: int,
    count: int,
    k: int,
)
    requires
        in_order(entries),
        0 <= i,
        0 <= k < count,
        i + count <= entries.len(),
        forall|j: int|
            0 <= j < entries.len() ==> (#[trigger] entries[j]).offset <= 9_999_999_999,
        forall|j: int|
            0 <= j < count ==> (#[trigger] entries[i + j]).reference.number
                == entries[i].reference.number + j,
        i + count == entries.len() || entries[i + count].reference.number
            != entries[i].reference.number + count,
        i == 0 || entries[i - 1].reference.number + 1 != entries[i].reference.number,
    ensures
        ({
            let table = table_text(entries, i);
            let line = decimal(entries[i].reference.number as nat) + spelled(" ") + decimal(
                count as nat,
            ) + spelled("\n");
            let row = table.subrange(line.len() + 20 * k, line.len() + 20 * k + 20);
            &&& line.is_prefix_of(table)
            &&& table.len() >= line.len() + 20 * count
            &&& decimal_value(row.take(10)) == entries[i + k].offset
            &&& decimal_value(row.subrange(11, 16)) == entries[i + k].reference.generation
            &&& row[17] == 110
            &&& table.skip(line.len() + 20 * count) == table_text(entries, i + count)
        }),
{
    reveal(run_text);
    lemma_space_and_line();
    lemma_run_end(entries, i, count);
    assert(entries[i + 0].reference.number == entries[i].reference.number);
    let table = table_text(entries, i);
    let line = decimal(entries[i].reference.number as nat) + spelled(" ") + decimal(count as nat)
        + spelled("\n");
    assert(starts_run(entries, i));
    assert(run_text(entries, i) =~= line);
    let first = entry_text(entries[i]);
    let rest = table_text(entries, i + 1);
    assert(table =~= line + first + rest);
    assert(line =~= table.take(line.len() as int));
    law_rows_read_back(entries[i].offset, entries[i].reference.generation, 110);
    assert forall|j: int| i + 1 <= j < i + 1 + (count - 1) implies !starts_run(entries, j) && (
    #[trigger] entries[j]).offset <= 9_999_999_999 by {
        assert(entries[i + (j - i)].reference.number == entries[i].reference.number + (j - i));
        assert(entries[i + (j - 1 - i)].reference.number == entries[i].reference.number + (j - 1
            - i));
    }
    lemma_rows(entries, i + 1, count - 1, count - 1);
    assert(table.skip(line.len() + 20 * count) =~= rest.skip(20 * (count - 1)));
    let row = table.subrange(line.len() + 20 * k, line.len() + 20 * k + 20);
    if k == 0 {
        assert(row =~= first);
    } else {
        lemma_rows(entries, i + 1, count - 1, k - 1);
        let tail = table_text(entries, i + k);
        assert(!starts_run(entries, i + k) && entries[i + k].offset <= 9_999_999_999);
        assert(tail =~= entry_text(entries[i + k]) + table_text(entries, i + k + 1));
        law_rows_read_back(entries[i + k].offset, entries[i + k].reference.generation, 110);
        assert(rest.skip(20 * (k - 1)) == tail);
        assert(row =~= tail.take(20));
        assert(row =~= entry_text(entries[i + k]));
    }
}

proof fn lemma_reference(object: PdfRef)
    ensures
        pdf_ref_text(object) == referred(object),
{
    lemma_space_and_line();
    assert(pdf_ref_text(object) =~= referred(object));
}

/// An update is a table and a trailer. The trailer names the catalog, the xref
/// table before, and the information dictionary where there was one. Its size is
/// the least that is no less than before and above every number of the table. It
/// keeps the first ID, gives the hash of all that precedes as the second, and
/// says where the update starts.
#[verifier::spinoff_prover]
#[verifier::rlimit(60)]
pub proof fn law_update_continues_the_file(
    hash: u128,
    position: u64,
    index: PdfIndex,
    entries: Seq<XrefEntry>,
    size: u32,
)
    requires
        entries.len() > 0,
        in_order(entries),
        size >= index.trailer_size,
        forall|k: int| 0 <= k < entries.len() ==> (#[trigger] entries[k]).reference.number < size,
        size == index.trailer_size || exists|k: int|
            0 <= k < entries.len() && (#[trigger] entries[k]).reference.number + 1 == size,
    ensures
        ({
            let head = spelled("xref\n") + table_text(entries, 0) + spelled("trailer\n<< /Size ")
                + decimal(size as nat) + spelled(" /Root ") + referred(index.catalog) + spelled(
                " /Prev ",
            ) + decimal(index.xref_offset as nat) + linked(spelled(" /Info "), index.trailer_info);
            let id = match first_id(index) {
                Some(first) => spelled(" /ID [") + first + spelled(" <") + fixed_hex(
                    fnv128_of(hash, head) as nat,
                    32,
                ) + spelled(">]"),
                None => Seq::empty(),
            };
            update_text(Some(hash), position, index, entries) == head + id + spelled(
                " >>\nstartxref\n",
            ) + decimal(position as nat) + spelled("\n%%EOF\n")
        }),
{
    reveal(update_trailer_text);
    reveal(update_head_text);
    reveal(update_end_text);
    lemma_reference(index.catalog);
    let last = entries.last();
    assert(last == entries[entries.len() - 1]);
    assert(update_size(entries, index.trailer_size) == size) by {
        if size != index.trailer_size {
            let k = choose|k: int|
                0 <= k < entries.len() && (#[trigger] entries[k]).reference.number + 1 == size;
            if k < entries.len() - 1 {
                assert(entries[k].reference.number < entries[entries.len() - 1].reference.number);
            }
        }
    }
    let start = update_trailer_text(size, index.catalog, index.xref_offset);
    let info = info_pieces(index.trailer_info);
    lemma_joined_append(seq![start], info, 0);
    lemma_one_piece(start);
    match index.trailer_info {
        Some(info) => {
            lemma_reference(info);
            lemma_one_piece(spelled(" /Info ") + pdf_ref_text(info));
        },
        None => {
            assert(joined(info, 0) =~= Seq::<u8>::empty());
        },
    }
    let head = spelled("xref\n") + table_text(entries, 0) + spelled("trailer\n<< /Size ") + decimal(
        size as nat,
    ) + spelled(" /Root ") + referred(index.catalog) + spelled(" /Prev ") + decimal(
        index.xref_offset as nat,
    ) + linked(spelled(" /Info "), index.trailer_info);
    assert(joined(trailer_head(index, entries), 0) == start + joined(info, 0));
    assert(update_head_text(index, entries) =~= head);
    let second = fnv128_of(hash, head);
    let ids = id_pieces(first_id(index), second);
    let end = update_end_text(position);
    lemma_joined_append(ids, seq![end], 0);
    lemma_one_piece(end);
    match first_id(index) {
        Some(first) => {
            let marked = spelled(" <") + fixed_hex(second as nat, 32) + spelled(">]");
            lemma_three_pieces(spelled(" /ID ["), first, marked);
        },
        None => {
            assert(joined(ids, 0) =~= Seq::<u8>::empty());
        },
    }
    let id = match first_id(index) {
        Some(first) => spelled(" /ID [") + first + spelled(" <") + fixed_hex(second as nat, 32)
            + spelled(">]"),
        None => Seq::empty(),
    };
    assert(joined(ids, 0) =~= id);
    assert(update_text(Some(hash), position, index, entries) =~= head + id + spelled(
        " >>\nstartxref\n",
    ) + decimal(position as nat) + spelled("\n%%EOF\n"));
}

proof fn lemma_one_piece(piece: Seq<u8>)
    ensures
        joined(seq![piece], 0) == piece,
{
    let pieces = seq![piece];
    assert(joined(pieces, 1) =~= Seq::<u8>::empty());
    assert(joined(pieces, 0) =~= piece);
}

proof fn lemma_three_pieces(one: Seq<u8>, two: Seq<u8>, three: Seq<u8>)
    ensures
        joined(seq![one, two, three], 0) == one + two + three,
{
    let pieces = seq![one, two, three];
    assert(joined(pieces, 3) =~= Seq::<u8>::empty());
    assert(joined(pieces, 2) =~= three);
    assert(joined(pieces, 1) =~= two + three);
    assert(joined(pieces, 0) =~= one + two + three);
}

/// Every appended object stands between its number and its end, on lines of their
/// own, and its xref entry leads to that number.
#[verifier::spinoff_prover]
#[verifier::rlimit(40)]
pub proof fn law_entries_lead_to_objects(
    before: Seq<u8>,
    objects: Seq<Appended>,
    k: int,
)
    requires
        0 <= k < objects.len(),
        before.len() + appended_text(objects).len() <= u64::MAX,
    ensures
        ({
            let file = before + appended_text(objects);
            let entry = appended_entries(objects, before.len() as int)[k];
            let object = decimal(objects[k].reference.number as nat) + spelled(" ") + decimal(
                objects[k].reference.generation as nat,
            ) + spelled(" obj\n") + joined(objects[k].body, 0) + spelled("\nendobj\n");
            &&& appended_entries(objects, before.len() as int).len() == objects.len()
            &&& entry.reference == objects[k].reference
            &&& 0 < entry.offset
            &&& entry.offset + object.len() <= file.len()
            &&& file[entry.offset - 1] == 10
            &&& file.subrange(entry.offset as int, entry.offset + object.len()) == object
        }),
    decreases objects.len(),
{
    lemma_space_and_line();
    let earlier = objects.drop_last();
    let last = objects.last();
    let file = before + appended_text(objects);
    let object = decimal(objects[k].reference.number as nat) + spelled(" ") + decimal(
        objects[k].reference.generation as nat,
    ) + spelled(" obj\n") + joined(objects[k].body, 0) + spelled("\nendobj\n");
    let shorter = before + appended_text(earlier);
    assert(appended_text(objects) == appended_text(earlier) + appended_bytes(last));
    assert(file =~= shorter + appended_bytes(last));
    lemma_as_many(earlier, before.len() as int);
    if k == objects.len() - 1 {
        assert(appended_bytes(last) =~= seq![LF] + object);
        let at = shorter.len() as int + 1;
        assert(file.subrange(at, at + object.len()) =~= object);
    } else {
        law_entries_lead_to_objects(before, earlier, k);
        assert(earlier[k] == objects[k]);
        let entry = appended_entries(earlier, before.len() as int)[k];
        assert(file.subrange(entry.offset as int, entry.offset + object.len())
            =~= shorter.subrange(entry.offset as int, entry.offset + object.len()));
    }
}

/// Every appended object has an entry.
pub proof fn lemma_as_many(objects: Seq<Appended>, position: int)
    ensures
        appended_entries(objects, position).len() == objects.len(),
    decreases objects.len(),
{
    if objects.len() > 0 {
        lemma_as_many(objects.drop_last(), position);
    }
}

} // verus!

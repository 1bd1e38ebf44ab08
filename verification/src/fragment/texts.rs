//! The objects and tables that a reconstruction writes itself.

use vstd::prelude::*;
use crate::fragment::outline::OutlineNode;
use crate::fragment::record::{indexed, position_of, Record};
use crate::text::{
    decimal, fixed_decimal, lemma_fixed_decimal_length, lemma_hex_units_length, push_decimal,
    push_text, spelled, title_hex, utf16, utf16_char, LF, SPACE,
};
use crate::types::{Error, PdfRef, MAX_CLASSIC_PDF_BYTES};

verus! {

/// The first line of the file, and a comment that marks it as binary.
pub open spec fn header_text() -> Seq<u8> {
    spelled("%PDF-1.7\n%") + seq![0xE2u8, 0xE3u8, 0xCFu8, 0xD3u8, LF]
}

/// Append the file header.
pub fn push_header(out: &mut Vec<u8>)
    ensures
        final(out)@ == old(out)@ + header_text(),
{
    let ghost before = out@;
    push_text(out, "%PDF-1.7\n%");
    out.push(0xE2);
    out.push(0xE3);
    out.push(0xCF);
    out.push(0xD3);
    out.push(LF);
    assert(out@ =~= before + header_text());
}

/// `number 0 R`.
pub open spec fn reference_text(number: u32) -> Seq<u8> {
    decimal(number as nat) + spelled(" 0 R")
}

/// Append a reference.
pub fn push_reference(out: &mut Vec<u8>, number: u32)
    ensures
        final(out)@ == old(out)@ + reference_text(number),
{
    let ghost before = out@;
    push_decimal(out, number as u64);
    push_text(out, " 0 R");
    assert(out@ =~= before + reference_text(number));
}

/// How a synthesized page tree root begins.
#[verifier::opaque]
pub open spec fn pages_prefix_text(root: PdfRef, count: u32) -> Seq<u8> {
    decimal(root.number as nat) + spelled(" 0 obj\n<< /Type /Pages /Count ") + decimal(
        count as nat,
    ) + spelled(" /Kids [")
}

/// Append the beginning of a synthesized page tree root.
pub fn push_pages_prefix(out: &mut Vec<u8>, root: PdfRef, count: u32)
    ensures
        final(out)@ == old(out)@ + pages_prefix_text(root, count),
{
    let ghost before = out@;
    proof {
        reveal(pages_prefix_text);
    }
    push_decimal(out, root.number as u64);
    push_text(out, " 0 obj\n<< /Type /Pages /Count ");
    push_decimal(out, count as u64);
    push_text(out, " /Kids [");
    assert(out@ =~= before + pages_prefix_text(root, count));
}

/// One entry of the page list.
pub open spec fn page_reference_text(page: PdfRef) -> Seq<u8> {
    decimal(page.number as nat) + spelled(" 0 R ")
}

/// Append one entry of the page list.
pub fn page_reference(reference: PdfRef, out: &mut Vec<u8>)
    ensures
        final(out)@ == old(out)@ + page_reference_text(reference),
{
    let ghost before = out@;
    push_decimal(out, reference.number as u64);
    push_text(out, " 0 R ");
    assert(out@ =~= before + page_reference_text(reference));
}

/// The page list from page `from` on.
pub open spec fn page_list_text(pages: Seq<PdfRef>, from: int) -> Seq<u8>
    decreases pages.len() - from,
{
    if from >= pages.len() {
        Seq::empty()
    } else {
        page_reference_text(pages[from]) + page_list_text(pages, from + 1)
    }
}

/// How a synthesized page tree root ends.
pub open spec fn pages_suffix_text() -> Seq<u8> {
    spelled("] >>\nendobj\n")
}

/// A synthesized catalog.
#[verifier::opaque]
pub open spec fn catalog_text(catalog: PdfRef, root: PdfRef, outline: Option<PdfRef>) -> Seq<u8> {
    decimal(catalog.number as nat) + spelled(" 0 obj\n<< /Type /Catalog /Pages ")
        + reference_text(root.number) + (match outline {
        Some(outline) => spelled(" /Outlines ") + reference_text(outline.number),
        None => Seq::empty(),
    }) + spelled(" >>\nendobj\n")
}

/// Append a synthesized catalog.
pub fn push_catalog(out: &mut Vec<u8>, catalog: PdfRef, root: PdfRef, outline: Option<PdfRef>)
    ensures
        final(out)@ == old(out)@ + catalog_text(catalog, root, outline),
{
    let ghost before = out@;
    proof {
        reveal(catalog_text);
    }
    push_decimal(out, catalog.number as u64);
    push_text(out, " 0 obj\n<< /Type /Catalog /Pages ");
    push_reference(out, root.number);
    if let Some(outline) = outline {
        push_text(out, " /Outlines ");
        push_reference(out, outline.number);
    }
    push_text(out, " >>\nendobj\n");
    assert(out@ =~= before + catalog_text(catalog, root, outline));
}

/// The outline root.
#[verifier::opaque]
pub open spec fn outline_root_text(root: PdfRef, first: PdfRef, last: PdfRef, count: u32) -> Seq<
    u8,
> {
    decimal(root.number as nat) + spelled(" 0 obj\n<< /Type /Outlines /First ") + reference_text(
        first.number,
    ) + spelled(" /Last ") + reference_text(last.number) + spelled(" /Count ") + decimal(
        count as nat,
    ) + spelled(" >>\nendobj\n")
}

/// Append the outline root.
pub fn push_outline_root(out: &mut Vec<u8>, root: PdfRef, first: PdfRef, last: PdfRef, count: u32)
    ensures
        final(out)@ == old(out)@ + outline_root_text(root, first, last, count),
{
    let ghost before = out@;
    proof {
        reveal(outline_root_text);
    }
    push_decimal(out, root.number as u64);
    push_text(out, " 0 obj\n<< /Type /Outlines /First ");
    push_reference(out, first.number);
    push_text(out, " /Last ");
    push_reference(out, last.number);
    push_text(out, " /Count ");
    push_decimal(out, count as u64);
    push_text(out, " >>\nendobj\n");
    assert(out@ =~= before + outline_root_text(root, first, last, count));
}

/// How an outline item begins.
#[verifier::opaque]
pub open spec fn item_prefix_text(node: OutlineNode) -> Seq<u8> {
    decimal(node.reference.number as nat) + spelled(" 0 obj\n<< /Title <FEFF")
}

/// Append the beginning of an outline item.
pub fn outline_item_prefix(node: &OutlineNode, out: &mut Vec<u8>)
    ensures
        final(out)@ == old(out)@ + item_prefix_text(*node),
{
    let ghost before = out@;
    proof {
        reveal(item_prefix_text);
    }
    push_decimal(out, node.reference.number as u64);
    push_text(out, " 0 obj\n<< /Title <FEFF");
    assert(out@ =~= before + item_prefix_text(*node));
}

/// An optional link under a name.
pub open spec fn link_text(name: &str, link: Option<PdfRef>) -> Seq<u8> {
    match link {
        Some(link) => spelled(name) + reference_text(link.number),
        None => Seq::empty(),
    }
}

/// Append an optional link under a name.
pub fn push_link(out: &mut Vec<u8>, name: &str, link: Option<PdfRef>)
    ensures
        final(out)@ == old(out)@ + link_text(name, link),
{
    let ghost before = out@;
    if let Some(link) = link {
        push_text(out, name);
        push_reference(out, link.number);
    }
    assert(out@ =~= before + link_text(name, link));
}

/// Where an outline item belongs and what it opens.
pub open spec fn item_place_text(parent: PdfRef, page: PdfRef) -> Seq<u8> {
    spelled("> /Parent ") + reference_text(parent.number) + spelled(" /Dest [") + reference_text(
        page.number,
    ) + spelled(" /XYZ null null null]")
}

fn push_item_place(out: &mut Vec<u8>, parent: PdfRef, page: PdfRef)
    ensures
        final(out)@ == old(out)@ + item_place_text(parent, page),
{
    let ghost before = out@;
    push_text(out, "> /Parent ");
    push_reference(out, parent.number);
    push_text(out, " /Dest [");
    push_reference(out, page.number);
    push_text(out, " /XYZ null null null]");
    assert(out@ =~= before + item_place_text(parent, page));
}

/// The children of an outline item, if it has any.
pub open spec fn children_text(first: Option<PdfRef>, last: Option<PdfRef>, count: u32) -> Seq<
    u8,
> {
    match (first, last) {
        (Some(first), Some(last)) => spelled(" /First ") + reference_text(first.number) + spelled(
            " /Last ",
        ) + reference_text(last.number) + spelled(" /Count ") + decimal(count as nat),
        _ => Seq::empty(),
    }
}

/// Append the children of an outline item, if it has any.
pub fn push_children(out: &mut Vec<u8>, first: Option<PdfRef>, last: Option<PdfRef>, count: u32)
    ensures
        final(out)@ == old(out)@ + children_text(first, last, count),
{
    let ghost before = out@;
    if let (Some(first), Some(last)) = (first, last) {
        push_text(out, " /First ");
        push_reference(out, first.number);
        push_text(out, " /Last ");
        push_reference(out, last.number);
        push_text(out, " /Count ");
        push_decimal(out, count as u64);
    }
    assert(out@ =~= before + children_text(first, last, count));
}

/// How an outline item ends.
#[verifier::opaque]
pub open spec fn item_suffix_text(node: OutlineNode) -> Seq<u8> {
    item_place_text(node.parent, node.page) + link_text(" /Prev ", node.previous) + link_text(
        " /Next ",
        node.next,
    ) + children_text(node.first_child, node.last_child, node.descendants) + spelled(
        " >>\nendobj\n",
    )
}

/// Append the end of an outline item.
pub fn outline_item_suffix(node: &OutlineNode, out: &mut Vec<u8>)
    ensures
        final(out)@ == old(out)@ + item_suffix_text(*node),
{
    let ghost before = out@;
    proof {
        reveal(item_suffix_text);
    }
    push_item_place(out, node.parent, node.page);
    push_link(out, " /Prev ", node.previous);
    push_link(out, " /Next ", node.next);
    push_children(out, node.first_child, node.last_child, node.descendants);
    push_text(out, " >>\nendobj\n");
    assert(out@ =~= before + item_suffix_text(*node));
}

/// An outline item with its title.
#[verifier::opaque]
pub open spec fn item_text(node: OutlineNode, title: Seq<char>) -> Seq<u8> {
    item_prefix_text(node) + title_hex(title) + item_suffix_text(node)
}

/// How many hexadecimal digits a title takes, within 64 bits.
pub fn outline_title_hex_len(title: &str) -> (length: Result<u64, Error>)
    ensures
        length == (if title_hex(title@).len() <= u64::MAX {
            Ok::<u64, Error>(title_hex(title@).len() as u64)
        } else {
            Err(Error::InvalidInput { reason: "PDF outline title hex length overflows 64 bits" })
        }),
{
    broadcast use vstd::string::axiom_spec_iter;

    let mut length: Option<u64> = Some(0);
    assert(title@.take(0) =~= Seq::<char>::empty());
    for character in it: title.chars()
        invariant
            it.seq() == title@,
            match length {
                Some(length) => length == 4 * utf16(title@.take(it.index() as int)).len(),
                None => 4 * utf16(title@.take(it.index() as int)).len() > u64::MAX,
            },
    {
        let ghost seen = title@.take(it.index() + 1);
        assert(seen.drop_last() =~= title@.take(it.index() as int));
        assert(seen.last() == character);
        let digits: u64 = if (character as u32) < 0x1_0000 {
            4
        } else {
            8
        };
        length = match length {
            Some(length) => length.checked_add(digits),
            None => None,
        };
        assert(utf16(seen).len() == utf16(seen.drop_last()).len() + utf16_char(character).len());
    }
    proof {
        assert(title@.take(title@.len() as int) =~= title@);
        lemma_hex_units_length(utf16(title@));
    }
    match length {
        Some(length) => Ok(length),
        None => Err(
            Error::InvalidInput { reason: "PDF outline title hex length overflows 64 bits" },
        ),
    }
}

/// The status letter of an xref row for an object in use.
pub const IN_USE: u8 = 110;

/// The status letter of an xref row for a free object number.
pub const FREE: u8 = 102;

/// One xref row.
pub open spec fn xref_entry_text(offset: u64, generation: u16, status: u8) -> Seq<u8> {
    fixed_decimal(offset as nat, 10).push(SPACE) + fixed_decimal(generation as nat, 5).push(SPACE)
        + seq![status, SPACE, LF]
}

/// Write decimal digits with leading zeros over part of a row.
fn fill_digits(row: &mut [u8; 20], from: usize, width: usize, value: u64)
    requires
        from + width <= 20,
    ensures
        final(row)@ == old(row)@.take(from as int) + fixed_decimal(value as nat, width as nat)
            + old(row)@.skip(from + width),
    decreases width,
{
    let ghost before = row@;
    proof {
        lemma_fixed_decimal_length(value as nat, width as nat);
    }
    if width > 0 {
        row[from + width - 1] = 48 + (value % 10) as u8;
        let ghost marked = row@;
        fill_digits(row, from, width - 1, value / 10);
        proof {
            let high = fixed_decimal(value as nat / 10, (width - 1) as nat);
            assert(fixed_decimal(value as nat, width as nat) == high.push(
                crate::text::digit(value as nat % 10),
            ));
            assert(row@ =~= before.take(from as int) + high.push(
                crate::text::digit(value as nat % 10),
            ) + before.skip(from + width)) by {
                lemma_fixed_decimal_length(value as nat / 10, (width - 1) as nat);
            }
        }
    } else {
        assert(row@ =~= before.take(from as int) + fixed_decimal(value as nat, 0) + before.skip(
            from as int,
        ));
    }
}

/// The xref row of one object number.
pub fn xref_entry(offset: u64, generation: u16, status: u8) -> (row: Result<[u8; 20], Error>)
    ensures
        match row {
            Ok(row) => offset <= MAX_CLASSIC_PDF_BYTES && row@ == xref_entry_text(
                offset,
                generation,
                status,
            ),
            Err(error) => offset > MAX_CLASSIC_PDF_BYTES && error == (Error::LimitExceeded {
                resource: "classic PDF xref offset",
                limit: MAX_CLASSIC_PDF_BYTES,
                attempted: offset,
            }),
        },
{
    if offset > MAX_CLASSIC_PDF_BYTES {
        return Err(
            Error::LimitExceeded {
                resource: "classic PDF xref offset",
                limit: MAX_CLASSIC_PDF_BYTES,
                attempted: offset,
            },
        );
    }
    let mut row: [u8; 20] = [SPACE;20];
    fill_digits(&mut row, 0, 10, offset);
    fill_digits(&mut row, 11, 5, generation as u64);
    row[17] = status;
    row[19] = LF;
    proof {
        lemma_fixed_decimal_length(offset as nat, 10);
        lemma_fixed_decimal_length(generation as nat, 5);
        assert(row@ =~= xref_entry_text(offset, generation, status));
    }
    Ok(row)
}

/// Whether an object number is free: no record has it.
pub open spec fn is_free(records: Seq<Record>, number: int) -> bool {
    forall|i: int| 0 <= i < records.len() ==> (#[trigger] records[i]).reference.number != number
}

/// The first free number from `from` through `largest`, or zero.
pub open spec fn next_free(records: Seq<Record>, from: int, largest: u32) -> int
    decreases largest + 1 - from,
{
    if from > largest {
        0
    } else if is_free(records, from) {
        from
    } else {
        next_free(records, from + 1, largest)
    }
}

/// A free number is zero or in range.
pub proof fn lemma_next_free_bound(records: Seq<Record>, from: int, largest: u32)
    requires
        0 <= from,
    ensures
        0 <= next_free(records, from, largest) <= largest,
    decreases largest + 1 - from,
{
    if from <= largest && !is_free(records, from) {
        lemma_next_free_bound(records, from + 1, largest);
    }
}

/// Free numbers are linked in ascending order: each one leads to the smallest
/// free number after it, and the last one to zero.
pub proof fn law_free_numbers_are_linked(records: Seq<Record>, from: int, largest: u32)
    requires
        1 <= from,
    ensures
        ({
            let next = next_free(records, from, largest);
            &&& next == 0 ==> forall|n: int|
                from <= n <= largest ==> !(#[trigger] is_free(records, n))
            &&& next != 0 ==> from <= next <= largest && is_free(records, next) && forall|n: int|
                from <= n < next ==> !(#[trigger] is_free(records, n))
        }),
    decreases largest + 1 - from,
{
    if from <= largest && !is_free(records, from) {
        law_free_numbers_are_linked(records, from + 1, largest);
    }
}

/// The free number after `current`, or zero after the last one. Every record
/// before position `index` has a number up to `current`.
pub fn next_free_number(current: u32, largest: u32, records: &[Record], index: usize) -> (number:
    u32)
    requires
        indexed(records@),
        index <= records@.len(),
        largest < u32::MAX,
        forall|i: int|
            0 <= i < index ==> (#[trigger] records@[i]).reference.number <= current,
    ensures
        number == next_free(records@, current + 1, largest),
{
    if current >= largest {
        return 0;
    }
    let mut index: usize = index;
    let mut candidate: u32 = current + 1;
    while candidate <= largest
        invariant
            indexed(records@),
            index <= records@.len(),
            largest < u32::MAX,
            current < candidate,
            candidate <= largest + 1,
            forall|i: int|
                0 <= i < index ==> (#[trigger] records@[i]).reference.number < candidate,
            next_free(records@, current + 1, largest) == next_free(
                records@,
                candidate as int,
                largest,
            ),
        decreases largest + 1 - candidate,
    {
        while index < records.len() && records[index].reference.number < candidate
            invariant
                indexed(records@),
                index <= records@.len(),
                forall|i: int|
                    0 <= i < index ==> (#[trigger] records@[i]).reference.number < candidate,
            decreases records@.len() - index,
        {
            index += 1;
        }
        if index < records.len() && records[index].reference.number == candidate {
            assert(!is_free(records@, candidate as int)) by {
                assert(records@[index as int].reference.number == candidate);
            }
            candidate += 1;
        } else {
            assert(is_free(records@, candidate as int)) by {
                assert forall|i: int| 0 <= i < records@.len() implies (
                #[trigger] records@[i]).reference.number != candidate by {
                    if i > index {
                        assert(records@[index as int].reference.number
                            < records@[i].reference.number);
                    }
                }
            }
            return candidate;
        }
    }
    0
}

/// The xref row of an object number of the rebuilt file.
pub open spec fn row_text(records: Seq<Record>, number: int, largest: u32) -> Seq<u8> {
    match position_of(records, number as u32) {
        Some(i) if number != 0 => xref_entry_text(records[i].output_offset, 0, IN_USE),
        _ => xref_entry_text(
            next_free(records, number + 1, largest) as u64,
            if number == 0 {
                65_535
            } else {
                0
            },
            FREE,
        ),
    }
}

/// The xref rows from object number `from` through `largest`.
pub open spec fn rows_text(records: Seq<Record>, from: int, largest: u32) -> Seq<u8>
    decreases largest + 1 - from,
{
    if from > largest {
        Seq::empty()
    } else {
        row_text(records, from, largest) + rows_text(records, from + 1, largest)
    }
}

/// How the xref table begins.
#[verifier::opaque]
pub open spec fn xref_header_text(size: u64) -> Seq<u8> {
    spelled("xref\n0 ") + decimal(size as nat) + spelled("\n")
}

/// Append the beginning of the xref table.
pub fn push_xref_header(out: &mut Vec<u8>, size: u64)
    ensures
        final(out)@ == old(out)@ + xref_header_text(size),
{
    let ghost before = out@;
    proof {
        reveal(xref_header_text);
    }
    push_text(out, "xref\n0 ");
    push_decimal(out, size);
    push_text(out, "\n");
    assert(out@ =~= before + xref_header_text(size));
}

/// The trailer of the rebuilt file.
#[verifier::opaque]
pub open spec fn trailer_text(size: u64, catalog: PdfRef, xref_offset: u64) -> Seq<u8> {
    spelled("trailer\n<< /Size ") + decimal(size as nat) + spelled(" /Root ") + reference_text(
        catalog.number,
    ) + spelled(" >>\nstartxref\n") + decimal(xref_offset as nat) + spelled("\n%%EOF\n")
}

/// Append the trailer.
pub fn push_trailer(out: &mut Vec<u8>, size: u64, catalog: PdfRef, xref_offset: u64)
    ensures
        final(out)@ == old(out)@ + trailer_text(size, catalog, xref_offset),
{
    let ghost before = out@;
    proof {
        reveal(trailer_text);
    }
    push_text(out, "trailer\n<< /Size ");
    push_decimal(out, size);
    push_text(out, " /Root ");
    push_reference(out, catalog.number);
    push_text(out, " >>\nstartxref\n");
    push_decimal(out, xref_offset);
    push_text(out, "\n%%EOF\n");
    assert(out@ =~= before + trailer_text(size, catalog, xref_offset));
}

/// No part of a file is empty.
pub proof fn lemma_texts_are_not_empty()
    ensures
        header_text().len() > 0,
        pages_suffix_text().len() > 0,
        forall|root: PdfRef, count: u32| (#[trigger] pages_prefix_text(root, count)).len() > 0,
        forall|catalog: PdfRef, root: PdfRef, outline: Option<PdfRef>|
            (#[trigger] catalog_text(catalog, root, outline)).len() > 0,
        forall|root: PdfRef, first: PdfRef, last: PdfRef, count: u32|
            (#[trigger] outline_root_text(root, first, last, count)).len() > 0,
        forall|node: OutlineNode| (#[trigger] item_prefix_text(node)).len() > 0,
        forall|node: OutlineNode| (#[trigger] item_suffix_text(node)).len() > 0,
        forall|size: u64| (#[trigger] xref_header_text(size)).len() > 0,
        forall|size: u64, catalog: PdfRef, xref_offset: u64|
            (#[trigger] trailer_text(size, catalog, xref_offset)).len() > 0,
{
    reveal(pages_prefix_text);
    reveal(catalog_text);
    reveal(outline_root_text);
    reveal(item_prefix_text);
    reveal(item_suffix_text);
    reveal(xref_header_text);
    reveal(trailer_text);
    assert(forall|value: nat| (#[trigger] decimal(value)).len() > 0);
    reveal_strlit("] >>\nendobj\n");
    assert(vstd::string::is_ascii("] >>\nendobj\n"));
    vstd::string::is_ascii_spec_bytes("] >>\nendobj\n");
    reveal_strlit(" >>\nendobj\n");
    assert(vstd::string::is_ascii(" >>\nendobj\n"));
    vstd::string::is_ascii_spec_bytes(" >>\nendobj\n");
}

} // verus!

//! What the roots and the tables of a rebuilt file say.

use vstd::prelude::*;
use crate::fragment::index::{lemma_index_records, lemma_index_roots, supplied, Reconstruction};
use crate::fragment::layout::{parts_of, Layout, Parts};
use crate::fragment::output::{
    law_file_size, law_objects_are_where_rows_say, law_row_of_number, object_text,
};
use crate::fragment::record::{indexed, is_numbered, lemma_position, position_of, Record};
use crate::fragment::texts::{
    catalog_text, header_text, is_free, law_free_numbers_are_linked, lemma_next_free_bound,
    next_free, page_list_text, pages_prefix_text, trailer_text, xref_entry_text, xref_header_text,
};
use crate::reading::{
    lacks, lemma_ascii, lemma_both_lack, lemma_under, lemma_number_lacks, names, only_at, under,
};
use crate::text::{
    decimal, decimal_value, fixed_decimal, law_fixed_decimal_reads_back, spelled, ten_to,
};

verus! {

/// The words of a catalog.
proof fn lemma_catalog_words()
    ensures
        spelled(" 0 obj\n<< /Type /Catalog /Pages ").len() == 32,
        spelled(" 0 obj\n<< /Type /Catalog /Pages ")[0] == 32,
        lacks(spelled(" 0 obj\n<< /Type /Catalog /Pages "), 79),
        spelled(" 0 R").len() == 4,
        spelled(" 0 R")[0] == 32,
        lacks(spelled(" 0 R"), 79),
        spelled(" /Outlines ").len() == 11,
        spelled(" /Outlines ")[0] == 32,
        only_at(spelled(" /Outlines "), 2, 79),
        spelled(" >>\nendobj\n").len() == 11,
        spelled(" >>\nendobj\n")[0] == 32,
        lacks(spelled(" >>\nendobj\n"), 79),
{
    reveal(lacks);
    reveal(only_at);
    reveal_strlit(" 0 obj\n<< /Type /Catalog /Pages ");
    assert(vstd::string::is_ascii(" 0 obj\n<< /Type /Catalog /Pages "));
    lemma_ascii(" 0 obj\n<< /Type /Catalog /Pages ");
    reveal_strlit(" 0 R");
    assert(vstd::string::is_ascii(" 0 R"));
    lemma_ascii(" 0 R");
    reveal_strlit(" /Outlines ");
    assert(vstd::string::is_ascii(" /Outlines "));
    lemma_ascii(" /Outlines ");
    reveal_strlit(" >>\nendobj\n");
    assert(vstd::string::is_ascii(" >>\nendobj\n"));
    lemma_ascii(" >>\nendobj\n");
}

/// Where no object is supplied for the root of the page tree, one is written that
/// lists the pages in the order of the plan and counts them.
pub proof fn law_page_list_follows_the_plan(index: Reconstruction, i: int)
    requires
        index.well_formed(),
        0 <= i < index.plan.pages@.len(),
    ensures
        ({
            let plan = index.plan;
            let parts = parts_of(index);
            let text = parts.pages_text();
            let missing = forall|k: int|
                0 <= k < plan.objects@.len() ==> (#[trigger] plan.objects@[k]).reference.number
                    != plan.pages_root.number;
            &&& parts.synthetic_pages == missing
            &&& missing ==> text == decimal(plan.pages_root.number as nat) + spelled(
                " 0 obj\n<< /Type /Pages /Count ",
            ) + decimal(plan.pages@.len()) + spelled(" /Kids [") + page_list_text(plan.pages@, 0)
                + spelled("] >>\nendobj\n")
            &&& !missing ==> text.len() == 0
            &&& page_list_text(plan.pages@, i) == decimal(plan.pages@[i].number as nat) + spelled(
                " 0 R ",
            ) + page_list_text(plan.pages@, i + 1)
            &&& page_list_text(plan.pages@, plan.pages@.len() as int).len() == 0
        }),
{
    reveal(Parts::pages_text);
    reveal(pages_prefix_text);
    let plan = index.plan;
    let parts = parts_of(index);
    let missing = forall|k: int|
        0 <= k < plan.objects@.len() ==> (#[trigger] plan.objects@[k]).reference.number
            != plan.pages_root.number;
    assert(plan.pages@.len() as u32 == plan.pages@.len());
    if missing {
        assert(parts.pages_text() =~= decimal(plan.pages_root.number as nat) + spelled(
            " 0 obj\n<< /Type /Pages /Count ",
        ) + decimal(plan.pages@.len()) + spelled(" /Kids [") + page_list_text(plan.pages@, 0)
            + spelled("] >>\nendobj\n"));
    }
}

/// Where the plan names no catalog, one is written that names the page tree, and
/// the outline exactly where there are bookmarks.
pub proof fn law_catalog_names_its_roots(index: Reconstruction, n: nat)
    requires
        index.well_formed(),
    ensures
        ({
            let parts = parts_of(index);
            let text = parts.catalog_text();
            &&& index.plan.catalog matches Some(catalog) ==> index.catalog == catalog && text.len()
                == 0
            &&& index.plan.catalog is None ==> {
                &&& names(text, " /Outlines ", n) <==> index.bookmarks@.len() > 0 && n
                    == parts.outline_root.number
                &&& (decimal(index.catalog.number as nat) + spelled(
                    " 0 obj\n<< /Type /Catalog /Pages ",
                ) + decimal(index.plan.pages_root.number as nat) + spelled(" 0 R")).is_prefix_of(
                    text,
                )
                &&& index.plan.pages_root.number < index.catalog.number
                &&& forall|k: int|
                    0 <= k < index.plan.objects@.len() ==> (
                    #[trigger] index.plan.objects@[k]).reference.number < index.catalog.number
                &&& index.catalog.number == index.plan.pages_root.number + 1 || exists|k: int|
                    0 <= k < index.plan.objects@.len() && (
                    #[trigger] index.plan.objects@[k]).reference.number + 1
                        == index.catalog.number
            }
        }),
{
    reveal(Parts::catalog_text);
    reveal(catalog_text);
    lemma_catalog_words();
    lemma_index_roots(index);
    let parts = parts_of(index);
    let text = parts.catalog_text();
    if index.plan.catalog is None {
        let start = decimal(index.catalog.number as nat) + spelled(
            " 0 obj\n<< /Type /Catalog /Pages ",
        ) + decimal(index.plan.pages_root.number as nat) + spelled(" 0 R");
        let link = if index.bookmarks@.len() == 0 {
            None
        } else {
            Some(parts.outline_root.number as nat)
        };
        let key = spelled(" /Outlines ");
        let end = spelled(" 0 R");
        let last = spelled(" >>\nendobj\n");
        assert(text =~= start + under(key, link, end) + last);
        assert(start =~= text.take(start.len() as int));
        lemma_number_lacks(index.catalog.number as nat, 79);
        lemma_number_lacks(index.plan.pages_root.number as nat, 79);
        let a = decimal(index.catalog.number as nat);
        let b = spelled(" 0 obj\n<< /Type /Catalog /Pages ");
        let c = decimal(index.plan.pages_root.number as nat);
        lemma_both_lack(a, b, 79);
        lemma_both_lack(a + b, c, 79);
        lemma_both_lack(a + b + c, end, 79);
        lemma_under(start, key, link, end, last, 2, 79, n);
        crate::fragment::index::lemma_new_catalog(index);
    }
}

/// An xref row is read back: ten digits of an offset or a free number, five of a
/// generation, and its status.
pub proof fn law_rows_read_back(offset: u64, generation: u16, status: u8)
    requires
        offset <= 9_999_999_999,
    ensures
        ({
            let row = xref_entry_text(offset, generation, status);
            &&& row.len() == 20
            &&& decimal_value(row.take(10)) == offset
            &&& row[10] == 32
            &&& decimal_value(row.subrange(11, 16)) == generation
            &&& row[16] == 32
            &&& row[17] == status
            &&& row[18] == 32
            &&& row[19] == 10
        }),
{
    let row = xref_entry_text(offset, generation, status);
    assert(offset < ten_to(10)) by {
        reveal_with_fuel(ten_to, 11);
    }
    assert(generation < ten_to(5)) by {
        reveal_with_fuel(ten_to, 6);
    }
    law_fixed_decimal_reads_back(offset as nat, 10);
    law_fixed_decimal_reads_back(generation as nat, 5);
    assert(row.take(10) =~= fixed_decimal(offset as nat, 10));
    assert(row.subrange(11, 16) =~= fixed_decimal(generation as nat, 5));
}

/// The xref row of an object is in use and leads to the object: the bytes of the
/// source for one that was supplied.
pub proof fn law_rows_lead_to_objects(layout: Layout, source: Seq<u8>, k: int)
    requires
        layout.well_formed(),
        source.len() == layout.index@.source_size,
        0 <= k < layout.records@.len(),
        layout.records@[k].output_offset <= 9_999_999_999,
        0 < layout.records@[k].reference.number <= layout.largest,
        indexed(layout.records@),
    ensures
        ({
            let file = layout.file(source);
            let record = layout.records@[k];
            let start = layout.body_bytes + xref_header_text(layout.size()).len() + 20
                * record.reference.number;
            let row = file.subrange(start, start + 20);
            let offset = decimal_value(row.take(10)) as int;
            &&& row[17] == 110
            &&& decimal_value(row.subrange(11, 16)) == 0
            &&& record.range.length > 0 ==> file.subrange(
                offset,
                offset + record.range.length,
            ) == source.subrange(
                record.range.offset as int,
                record.range.offset + record.range.length,
            )
            &&& file.subrange(offset, offset + object_text(layout, source, k).len())
                == object_text(layout, source, k)
        }),
{
    let record = layout.records@[k];
    let number = record.reference.number;
    law_row_of_number(layout, source, number as int);
    lemma_position(layout.records@, k);
    law_rows_read_back(record.output_offset, 0, 110);
    law_objects_are_where_rows_say(layout, source, k);
    crate::fragment::output::lemma_layout_records(layout);
}

/// Whether no object of a file has a number.
pub open spec fn is_unused(records: Seq<Record>, number: int) -> bool {
    forall|k: int| 0 <= k < records.len() ==> (#[trigger] records[k]).reference.number != number
}

/// The xref row of a number without an object is free and leads to the next such
/// number, or to zero after the last.
pub proof fn law_free_rows_lead_on(layout: Layout, source: Seq<u8>, number: int)
    requires
        layout.well_formed(),
        source.len() == layout.index@.source_size,
        0 <= number <= layout.largest,
        is_unused(layout.records@, number),
    ensures
        ({
            let start = layout.body_bytes + xref_header_text(layout.size()).len() + 20 * number;
            let row = layout.file(source).subrange(start, start + 20);
            let next = decimal_value(row.take(10)) as int;
            &&& row[17] == 102
            &&& decimal_value(row.subrange(11, 16)) == (if number == 0 {
                65_535nat
            } else {
                0
            })
            &&& next == 0 ==> forall|n: int|
                number < n <= layout.largest ==> !(#[trigger] is_unused(layout.records@, n))
            &&& next != 0 ==> number < next <= layout.largest && is_unused(layout.records@, next)
                && forall|n: int|
                number < n < next ==> !(#[trigger] is_unused(layout.records@, n))
        }),
{
    let records = layout.records@;
    law_row_of_number(layout, source, number);
    assert(position_of(records, number as u32) is None) by {
        let low = number as u32;
        if exists|i: int| is_numbered(records, i, low) {
            let i = choose|i: int| is_numbered(records, i, low);
            assert(records[i].reference.number != number);
        }
    }
    law_free_numbers_are_linked(records, number + 1, layout.largest);
    let next = next_free(records, number + 1, layout.largest);
    lemma_next_free_bound(records, number + 1, layout.largest);
    law_rows_read_back(
        next as u64,
        if number == 0 {
            65_535
        } else {
            0
        },
        102,
    );
    assert forall|n: int| #[trigger] is_unused(records, n) == is_free(records, n) by {}
    assert(is_free(records, next) == is_unused(records, next));
    assert forall|n: int| number < n <= layout.largest && next == 0 implies !(
    #[trigger] is_unused(records, n)) by {
        assert(!is_free(records, n));
    }
    assert forall|n: int| number < n < next implies !(#[trigger] is_unused(records, n)) by {
        assert(!is_free(records, n));
    }
}

/// The outline of a rebuilt file is numbered after all other objects, its root
/// first.
pub proof fn law_outline_is_numbered_last(index: Reconstruction, k: int)
    requires
        index.well_formed(),
        0 <= k < index.records@.len(),
    ensures
        ({
            let root = parts_of(index).outline_root;
            &&& root.generation == 0
            &&& index.records@[k].reference.number < root.number
            &&& exists|i: int|
                0 <= i < index.records@.len() && (
                #[trigger] index.records@[i]).reference.number + 1 == root.number
        }),
{
    lemma_index_records(index);
    let last = index.records@.len() - 1;
    assert(index.records@[last].reference.number <= 8_388_607);
    if k < last {
        assert(index.records@[k].reference.number < index.records@[last].reference.number);
    }
    assert(index.records@[last].reference.number + 1 == parts_of(index).outline_root.number);
}

/// The trailer counts the rows, names the catalog, and says where the xref table
/// starts, and the table starts there.
pub proof fn law_trailer_finds_the_table(layout: Layout, source: Seq<u8>)
    requires
        layout.well_formed(),
        source.len() == layout.index@.source_size,
    ensures
        ({
            let file = layout.file(source);
            let rows = decimal((layout.largest + 1) as nat);
            let trailer = spelled("trailer\n<< /Size ") + rows + spelled(" /Root ") + decimal(
                layout.index@.catalog.number as nat,
            ) + spelled(" 0 R") + spelled(" >>\nstartxref\n") + decimal(layout.body_bytes as nat)
                + spelled("\n%%EOF\n");
            let table = spelled("xref\n0 ") + rows + spelled("\n");
            &&& layout.trailer() == trailer
            &&& file.len() >= trailer.len()
            &&& file.skip(file.len() - trailer.len()) == trailer
            &&& file.skip(layout.body_bytes as int).take(table.len() as int) == table
            &&& spelled("%PDF-1.7\n%").is_prefix_of(file)
        }),
{
    reveal(trailer_text);
    reveal(xref_header_text);
    law_file_size(layout, source);
    let file = layout.file(source);
    let rows = decimal((layout.largest + 1) as nat);
    let trailer = spelled("trailer\n<< /Size ") + rows + spelled(" /Root ") + decimal(
        layout.index@.catalog.number as nat,
    ) + spelled(" 0 R") + spelled(" >>\nstartxref\n") + decimal(layout.body_bytes as nat)
        + spelled("\n%%EOF\n");
    assert(layout.trailer() =~= trailer);
    let table = xref_header_text(layout.size());
    assert(table =~= spelled("xref\n0 ") + rows + spelled("\n"));
    let parts = layout.parts();
    let all = crate::fragment::texts::rows_text(layout.records@, 0, layout.largest);
    let copies = crate::fragment::layout::objects_text(layout.records@, source, 0);
    lemma_regrouped(
        header_text(),
        copies,
        parts.pages_text(),
        parts.catalog_text(),
        parts.root_text(),
        parts.items_text(0),
        layout.from_xref(),
    );
    let front = header_text() + copies + parts.pages_text() + parts.catalog_text()
        + parts.root_text() + parts.items_text(0);
    assert(file == front + layout.from_xref());
    lemma_table_at_end(front, table, all, trailer);
    assert(front.len() == layout.body_bytes);
    lemma_first_line(copies + parts.pages_text() + parts.catalog_text() + parts.root_text()
        + parts.items_text(0) + layout.from_xref());
    assert(file =~= header_text() + (copies + parts.pages_text() + parts.catalog_text()
        + parts.root_text() + parts.items_text(0) + layout.from_xref()));
}

proof fn lemma_regrouped(
    a: Seq<u8>,
    b: Seq<u8>,
    c: Seq<u8>,
    d: Seq<u8>,
    e: Seq<u8>,
    f: Seq<u8>,
    g: Seq<u8>,
)
    ensures
        a + (b + (c + (d + (e + (f + g))))) == a + b + c + d + e + f + g,
{
    assert(a + (b + (c + (d + (e + (f + g))))) =~= a + b + c + d + e + f + g);
}

proof fn lemma_table_at_end(front: Seq<u8>, table: Seq<u8>, rows: Seq<u8>, trailer: Seq<u8>)
    ensures
        ({
            let file = front + (table + (rows + trailer));
            &&& file.skip(file.len() - trailer.len()) == trailer
            &&& file.skip(front.len() as int).take(table.len() as int) == table
        }),
{
    let file = front + (table + (rows + trailer));
    assert(file.skip(file.len() - trailer.len()) =~= trailer);
    assert(file.skip(front.len() as int).take(table.len() as int) =~= table);
}

proof fn lemma_first_line(rest: Seq<u8>)
    ensures
        spelled("%PDF-1.7\n%").is_prefix_of(header_text() + rest),
{
    let first = spelled("%PDF-1.7\n%");
    assert(first =~= (header_text() + rest).take(first.len() as int));
}

} // verus!

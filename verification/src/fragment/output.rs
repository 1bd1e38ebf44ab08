//! Writing a rebuilt file, one bounded piece at a time.

use vstd::prelude::*;
use crate::fragment::index::lemma_index_of_plan;
use crate::fragment::layout::{
    all_records, catalog_start, copy_length, copy_text, fixed_length, measure_items, objects_length,
    objects_text, output_start, outline_start, pages_start, Layout, Parts,
};
use crate::fragment::record::{indexed, Record};
use crate::fragment::texts::{
    header_text, item_suffix_text, item_text, page_list_text, pages_suffix_text, row_text,
    rows_text, trailer_text, xref_entry_text, xref_header_text,
};
use crate::text::{hex_units, lemma_fixed_decimal_length, LF};
use crate::types::{ConversionReport, MAX_CLASSIC_PDF_BYTES, MAX_PDF_OBJECTS};

verus! {

/// How many code units of a title are written at a time.
pub const TITLE_CHUNK_UNITS: usize = 1024;

/// What is written next.
#[derive(Debug)]
#[allow(inconsistent_fields)]
pub enum Stage {
    Header,
    /// The rest of a supplied object, `done` bytes in.
    Copy { record: usize, done: u64 },
    LineEnd { record: usize },
    PagesPrefix,
    PageList { next: usize },
    PagesSuffix,
    Catalog,
    OutlineRoot,
    ItemPrefix { item: usize },
    ItemTitle { item: usize, units: Vec<u16>, done: usize },
    ItemSuffix { item: usize },
    XrefHeader,
    /// The xref rows from a number on, whose record is the next one in use.
    Rows { number: u32, record: usize },
    Trailer,
    Flush,
    Complete,
}

/// What the caller has to do.
#[derive(Clone, Copy, Debug, PartialEq, Eq, Structural)]
pub enum Action {
    /// Write the bytes in the buffer.
    Write,
    /// Read these source bytes, and write them.
    Copy { offset: u64, length: usize },
    /// Flush the output: every byte has been written.
    Flush,
}

impl<'a> Layout<'a> {
    /// The number of xref rows.
    pub open spec fn size(self) -> u64 {
        (self.largest + 1) as u64
    }

    pub open spec fn trailer(self) -> Seq<u8> {
        trailer_text(self.size(), self.catalog, self.body_bytes)
    }

    /// The file from the xref row of a number on.
    pub open spec fn from_row(self, number: int) -> Seq<u8> {
        rows_text(self.records@, number, self.largest) + self.trailer()
    }

    /// The file from the xref table on.
    pub open spec fn from_xref(self) -> Seq<u8> {
        xref_header_text(self.size()) + self.from_row(0)
    }

    /// The file from an outline item on.
    pub open spec fn from_item(self, item: int) -> Seq<u8> {
        self.parts().items_text(item) + self.from_xref()
    }

    /// The file from the outline on.
    pub open spec fn from_outline(self) -> Seq<u8> {
        self.parts().root_text() + self.from_item(0)
    }

    /// The file from the catalog on.
    pub open spec fn from_catalog(self) -> Seq<u8> {
        self.parts().catalog_text() + self.from_outline()
    }

    /// The file from the page tree root on.
    pub open spec fn from_pages(self) -> Seq<u8> {
        self.parts().pages_text() + self.from_catalog()
    }

    /// The file from the copy of a record on.
    pub open spec fn from_object(self, record: int, source: Seq<u8>) -> Seq<u8> {
        objects_text(self.records@, source, record) + self.from_pages()
    }

    /// The rebuilt file: the header, the supplied objects in order of object
    /// number, the synthesized objects, the xref table and the trailer.
    pub open spec fn file(self, source: Seq<u8>) -> Seq<u8> {
        header_text() + self.from_object(0, source)
    }

    /// What is reported of the file.
    pub open spec fn report(self, input_bytes_read: u64) -> ConversionReport {
        ConversionReport {
            input_bytes_read,
            output_bytes_written: self.final_size,
            pages_converted: self.plan.pages@.len() as u32,
            bookmarks_written: self.bookmarks@.len() as u32,
        }
    }

    /// What remains of the file at a stage.
    pub open spec fn rest(self, stage: Stage, source: Seq<u8>) -> Seq<u8> {
        match stage {
            Stage::Header => self.file(source),
            Stage::Copy { record, done } => {
                let range = self.records@[record as int].range;
                source.subrange(range.offset + done, range.offset + range.length).push(LF)
                    + self.from_object(record + 1, source)
            },
            Stage::LineEnd { record } => seq![LF] + self.from_object(record + 1, source),
            Stage::PagesPrefix => self.from_pages(),
            Stage::PageList { next } => page_list_text(self.plan.pages@, next as int)
                + pages_suffix_text() + self.from_catalog(),
            Stage::PagesSuffix => pages_suffix_text() + self.from_catalog(),
            Stage::Catalog => self.from_catalog(),
            Stage::OutlineRoot => self.from_outline(),
            Stage::ItemPrefix { item } => self.from_item(item as int),
            Stage::ItemTitle { item, units, done } => hex_units(units@.skip(done as int))
                + item_suffix_text(self.parts().nodes()[item as int]) + self.from_item(item + 1),
            Stage::ItemSuffix { item } => item_suffix_text(self.parts().nodes()[item as int])
                + self.from_item(item + 1),
            Stage::XrefHeader => self.from_xref(),
            Stage::Rows { number, .. } => self.from_row(number as int),
            Stage::Trailer => self.trailer(),
            Stage::Flush | Stage::Complete => Seq::empty(),
        }
    }

    /// Whether a stage is within the layout.
    pub open spec fn holds(self, stage: Stage) -> bool {
        let records = self.records@;
        match stage {
            Stage::Copy { record, done } => record < records.len() && done
                < records[record as int].range.length,
            Stage::LineEnd { record } => record < records.len(),
            Stage::PagesPrefix => self.synthetic_pages,
            Stage::PageList { next } => self.synthetic_pages && next < self.plan.pages@.len(),
            Stage::PagesSuffix => self.synthetic_pages,
            Stage::Catalog => self.plan.catalog is None,
            Stage::OutlineRoot => self.outline is Some,
            Stage::ItemPrefix { item } => self.outline is Some && item < self.bookmarks@.len(),
            Stage::ItemTitle { item, units, done } => self.outline is Some && item
                < self.bookmarks@.len() && done < units@.len(),
            Stage::ItemSuffix { item } => self.outline is Some && item < self.bookmarks@.len(),
            Stage::Rows { number, record } => number <= self.largest && record <= records.len()
                && forall|i: int|
                0 <= i < records.len() ==> ((#[trigger] records[i]).reference.number < number
                    <==> i < record),
            _ => true,
        }
    }
}

/// The stages of writing one laid-out file.
pub struct Output<'a> {
    pub layout: Layout<'a>,
    pub stage: Stage,
    pub written: u64,
}

impl<'a> Output<'a> {
    /// Whether what remains is the file without what has been written.
    pub open spec fn well_formed(self) -> bool {
        &&& self.layout.well_formed()
        &&& self.layout.holds(self.stage)
        &&& self.written <= self.layout.final_size
        &&& forall|source: Seq<u8>|
            source.len() == self.layout.index@.source_size ==> {
                &&& (#[trigger] self.layout.file(source)).len() == self.layout.final_size
                &&& self.layout.rest(self.stage, source) == self.layout.file(source).skip(
                    self.written as int,
                )
            }
    }
}

/// An xref row has twenty bytes.
pub proof fn lemma_row_length(records: Seq<Record>, number: int, largest: u32)
    ensures
        row_text(records, number, largest).len() == 20,
{
    lemma_fixed_decimal_length(0, 10);
    assert forall|offset: u64, generation: u16, status: u8| #[trigger]
        xref_entry_text(offset, generation, status).len() == 20 by {
        lemma_fixed_decimal_length(offset as nat, 10);
        lemma_fixed_decimal_length(generation as nat, 5);
    }
}

/// The table has one row for every number.
pub proof fn lemma_rows_length(records: Seq<Record>, from: int, largest: u32)
    requires
        0 <= from <= largest + 1,
    ensures
        rows_text(records, from, largest).len() == 20 * (largest + 1 - from),
    decreases largest + 1 - from,
{
    if from <= largest {
        lemma_row_length(records, from, largest);
        lemma_rows_length(records, from + 1, largest);
    }
}

/// The copies have as many bytes as were counted.
pub proof fn lemma_objects_text_length(records: Seq<Record>, source: Seq<u8>, from: int)
    requires
        0 <= from,
        forall|k: int|
            0 <= k < records.len() ==> (#[trigger] records[k]).range.offset
                + records[k].range.length <= source.len(),
    ensures
        objects_text(records, source, from).len() == objects_length(records, from),
    decreases records.len() - from,
{
    if from < records.len() {
        lemma_objects_text_length(records, source, from + 1);
        assert(records[from].range.offset + records[from].range.length <= source.len());
        assert(copy_text(records[from], source).len() == copy_length(records[from]));
    }
}

/// A counted body ends after its last outline item.
pub proof fn lemma_measured(parts: Parts, from: int, length: int)
    requires
        measure_items(parts, from, length) is Ok,
    ensures
        measure_items(parts, from, length)->Ok_0 == length + parts.items_text(from).len(),
    decreases parts.titles.len() - from,
{
    if from < parts.titles.len() {
        lemma_measured(
            parts,
            from + 1,
            length + item_text(parts.nodes()[from], parts.titles[from].title@).len(),
        );
    }
}

/// The same ranges are copied to the same number of bytes.
pub proof fn lemma_same_lengths(one: Seq<Record>, other: Seq<Record>, from: int)
    requires
        one.len() == other.len(),
        0 <= from,
        forall|k: int|
            0 <= k < one.len() ==> (#[trigger] one[k]).range == (#[trigger] other[k]).range,
    ensures
        objects_length(one, from) == objects_length(other, from),
    decreases one.len() - from,
{
    if from < one.len() {
        assert(one[from].range == other[from].range);
        lemma_same_lengths(one, other, from + 1);
    }
}

/// What the records of a layout hold.
pub proof fn lemma_layout_records(layout: Layout)
    requires
        layout.well_formed(),
    ensures
        indexed(layout.records@),
        layout.records@.len() > 0,
        layout.largest == layout.records@.last().reference.number,
        layout.largest <= MAX_PDF_OBJECTS,
        layout.final_size <= MAX_CLASSIC_PDF_BYTES,
        layout.final_size <= layout.limits.max_output_bytes,
        objects_length(layout.records@, 0) == objects_length(layout.index@.records@, 0),
        forall|k: int|
            0 <= k < layout.records@.len() ==> {
                &&& (#[trigger] layout.records@[k]).range.offset + layout.records@[k].range.length
                    <= layout.index@.source_size
                &&& layout.records@[k].reference.number >= 1
                &&& layout.records@[k].reference.generation == 0
            },
{
    let index = layout.index@;
    let all = all_records(index);
    crate::fragment::layout::lemma_all_records(index);
    crate::fragment::index::lemma_index_records(index);
    assert forall|i: int, j: int| 0 <= i < j < layout.records@.len() implies (
    #[trigger] layout.records@[i]).reference.number < (
    #[trigger] layout.records@[j]).reference.number by {
        assert(all[i].reference.number < all[j].reference.number);
    }
    lemma_same_lengths(all, layout.records@, 0);
    assert forall|k: int| 0 <= k < layout.records@.len() implies {
        &&& (#[trigger] layout.records@[k]).range.offset + layout.records@[k].range.length
            <= index.source_size
        &&& layout.records@[k].reference.number >= 1
        &&& layout.records@[k].reference.generation == 0
    } by {
        if k < index.records@.len() {
            assert(all[k] == index.records@[k]);
        } else {
            assert(all[k].range.length == 0);
        }
    }
}

/// The file has the size that was settled before writing.
pub proof fn law_file_size(layout: Layout, source: Seq<u8>)
    requires
        layout.well_formed(),
        source.len() == layout.index@.source_size,
    ensures
        layout.file(source).len() == layout.final_size,
        layout.from_xref().len() == layout.final_size - layout.body_bytes,
{
    let parts = layout.parts();
    lemma_layout_records(layout);
    lemma_rows_length(layout.records@, 0, layout.largest);
    lemma_objects_text_length(layout.records@, source, 0);
    lemma_measured(parts, 0, fixed_length(parts, layout.index@.records@));
}

/// The limits decide whether a file is rebuilt, and in how many pieces it is
/// written. They do not change a byte of it, nor what is reported of it.
pub proof fn law_limits_do_not_change_the_file(
    one: Layout,
    other: Layout,
    source: Seq<u8>,
    input_bytes_read: u64,
)
    requires
        one.well_formed(),
        other.well_formed(),
        one.plan == other.plan,
        one.bookmarks == other.bookmarks,
    ensures
        one.file(source) == other.file(source),
        one.report(input_bytes_read) == other.report(input_bytes_read),
{
    lemma_index_of_plan(one.index@, other.index@);
    assert(one.parts() == other.parts());
}

/// What follows each part of a sequence of seven parts.
proof fn lemma_tails(
    header: Seq<u8>,
    objects: Seq<u8>,
    pages: Seq<u8>,
    catalog: Seq<u8>,
    root: Seq<u8>,
    items: Seq<u8>,
    table: Seq<u8>,
    copied: int,
    listed: int,
)
    requires
        0 <= copied <= objects.len(),
        0 <= listed <= items.len(),
    ensures
        ({
            let from_items = items + table;
            let from_root = root + from_items;
            let from_catalog = catalog + from_root;
            let from_pages = pages + from_catalog;
            let file = header + (objects + from_pages);
            let first = header.len() as int;
            let second = first + objects.len();
            let third = second + pages.len();
            let fourth = third + catalog.len();
            let fifth = fourth + root.len();
            let sixth = fifth + items.len();
            &&& file.skip(first + copied) == objects.skip(copied) + from_pages
            &&& file.skip(second) == from_pages
            &&& file.skip(third) == from_catalog
            &&& file.skip(fourth) == from_root
            &&& file.skip(fifth + listed) == items.skip(listed) + table
            &&& file.skip(sixth) == table
            &&& file.len() == sixth + table.len()
        }),
{
    let from_items = items + table;
    let from_root = root + from_items;
    let from_catalog = catalog + from_root;
    let from_pages = pages + from_catalog;
    let file = header + (objects + from_pages);
    let first = header.len() as int;
    let second = first + objects.len();
    let third = second + pages.len();
    let fourth = third + catalog.len();
    let fifth = fourth + root.len();
    let sixth = fifth + items.len();
    assert(file.skip(first + copied) =~= objects.skip(copied) + from_pages);
    assert(file.skip(second) =~= from_pages);
    assert(file.skip(third) =~= from_catalog);
    assert(file.skip(fourth) =~= from_root);
    assert(file.skip(fifth + listed) =~= items.skip(listed) + table);
    assert(file.skip(sixth) =~= table);
}

/// A sequence that begins with a text at some place holds the text there.
proof fn lemma_begins_with(file: Seq<u8>, start: int, text: Seq<u8>, after: Seq<u8>)
    requires
        0 <= start <= file.len(),
        file.skip(start) == text + after,
    ensures
        start + text.len() + after.len() == file.len(),
        file.subrange(start, start + text.len()) == text,
{
    assert(file.skip(start).len() == file.len() - start);
    assert forall|i: int| 0 <= i < text.len() implies file[start + i] == text[i] by {
        assert(file.skip(start)[i] == (text + after)[i]);
        assert(file.skip(start)[i] == file[start + i]);
    }
    assert(file.subrange(start, start + text.len()) =~= text);
}

/// A copied object is the first of the copies from its record on.
proof fn lemma_copy_first(bytes: Seq<u8>, others: Seq<u8>, tail: Seq<u8>)
    ensures
        (bytes.push(LF) + others) + tail == bytes + (seq![LF] + (others + tail)),
{
    assert((bytes.push(LF) + others) + tail =~= bytes + (seq![LF] + (others + tail)));
}

proof fn lemma_regroup(first: Seq<u8>, second: Seq<u8>, third: Seq<u8>)
    ensures
        (first + second) + third == first + (second + third),
{
    assert((first + second) + third =~= first + (second + third));
}

/// The copies from record `k` on are the end of the copies.
proof fn lemma_objects_suffix(records: Seq<Record>, source: Seq<u8>, from: int, k: int)
    requires
        0 <= from <= k <= records.len(),
        forall|i: int|
            0 <= i < records.len() ==> (#[trigger] records[i]).range.offset
                + records[i].range.length <= source.len(),
    ensures
        0 <= objects_length(records, k) <= objects_length(records, from),
        objects_text(records, source, from).skip(
            objects_length(records, from) - objects_length(records, k),
        ) == objects_text(records, source, k),
    decreases k - from,
{
    lemma_objects_text_length(records, source, k);
    lemma_objects_text_length(records, source, from);
    if from == k {
        assert(objects_text(records, source, from).skip(0) =~= objects_text(records, source, k));
    } else {
        lemma_objects_suffix(records, source, from + 1, k);
        lemma_objects_text_length(records, source, from + 1);
        let first = copy_text(records[from], source);
        let others = objects_text(records, source, from + 1);
        let count = objects_length(records, from + 1) - objects_length(records, k);
        assert((first + others).skip(first.len() + count) =~= others.skip(count));
    }
}

/// The outline items from item `i` on are the end of the items.
proof fn lemma_items_suffix(parts: Parts, from: int, i: int)
    requires
        0 <= from <= i <= parts.titles.len(),
    ensures
        parts.items_text(i).len() <= parts.items_text(from).len(),
        parts.items_text(from).skip(
            parts.items_text(from).len() - parts.items_text(i).len(),
        ) == parts.items_text(i),
    decreases i - from,
{
    if from == i {
        assert(parts.items_text(from).skip(0) =~= parts.items_text(i));
    } else {
        lemma_items_suffix(parts, from + 1, i);
        let first = item_text(parts.nodes()[from], parts.titles[from].title@);
        let others = parts.items_text(from + 1);
        let count = others.len() - parts.items_text(i).len();
        assert((first + others).skip(first.len() + count) =~= others.skip(count));
    }
}

/// The bytes of the object of record `k`.
pub open spec fn object_text(layout: Layout, source: Seq<u8>, k: int) -> Seq<u8> {
    let parts = layout.parts();
    let record = layout.records@[k];
    let number = record.reference.number;
    if record.range.length != 0 {
        source.subrange(record.range.offset as int, record.range.offset + record.range.length)
    } else if parts.synthetic_pages && number == parts.pages_root.number {
        parts.pages_text()
    } else if parts.synthetic_catalog && number == parts.catalog.number {
        parts.catalog_text()
    } else if number == parts.outline_root.number {
        parts.root_text()
    } else {
        let item = number - parts.outline_root.number - 1;
        item_text(parts.nodes()[item], parts.titles[item].title@)
    }
}

/// What follows in the file from the object of record `k` on.
pub open spec fn from_record(layout: Layout, source: Seq<u8>, k: int) -> Seq<u8> {
    let parts = layout.parts();
    let record = layout.records@[k];
    let number = record.reference.number;
    if record.range.length != 0 {
        layout.from_object(k, source)
    } else if parts.synthetic_pages && number == parts.pages_root.number {
        layout.from_pages()
    } else if parts.synthetic_catalog && number == parts.catalog.number {
        layout.from_catalog()
    } else if number == parts.outline_root.number {
        layout.from_outline()
    } else {
        layout.from_item(number - parts.outline_root.number - 1)
    }
}

/// A record that is not copied and is no root belongs to the outline.
proof fn lemma_outline_number(layout: Layout, k: int)
    requires
        layout.well_formed(),
        0 <= k < layout.records@.len(),
        layout.records@[k].range.length == 0,
        !(layout.parts().synthetic_pages && layout.records@[k].reference.number
            == layout.parts().pages_root.number),
        !(layout.parts().synthetic_catalog && layout.records@[k].reference.number
            == layout.parts().catalog.number),
    ensures
        layout.parts().titles.len() > 0,
        layout.parts().outline_root.number <= layout.records@[k].reference.number
            <= layout.parts().outline_root.number + layout.parts().titles.len(),
{
    let index = layout.index@;
    crate::fragment::layout::lemma_all_records(index);
    crate::fragment::index::lemma_index_records(index);
    let all = all_records(index);
    if k < index.records@.len() {
        assert(all[k] == index.records@[k]);
    }
}

/// Where the parts of the file start, and what follows each.
proof fn lemma_file_tails(layout: Layout, source: Seq<u8>, copied: int, listed: int)
    requires
        layout.well_formed(),
        source.len() == layout.index@.source_size,
        0 <= copied <= objects_length(layout.records@, 0),
        0 <= listed <= layout.parts().items_text(0).len(),
    ensures
        ({
            let parts = layout.parts();
            let all = all_records(layout.index@);
            let file = layout.file(source);
            let header = header_text().len();
            &&& objects_length(all, 0) == objects_length(layout.records@, 0)
            &&& file.skip(header + copied) == objects_text(layout.records@, source, 0).skip(
                copied,
            ) + layout.from_pages()
            &&& file.skip(pages_start(all)) == layout.from_pages()
            &&& file.skip(catalog_start(parts, all)) == layout.from_catalog()
            &&& file.skip(outline_start(parts, all)) == layout.from_outline()
            &&& file.skip(outline_start(parts, all) + parts.root_text().len() + listed)
                == parts.items_text(0).skip(listed) + layout.from_xref()
            &&& file.skip(layout.body_bytes as int) == layout.from_xref()
            &&& file.len() == layout.final_size
            &&& layout.body_bytes == outline_start(parts, all) + parts.root_text().len()
                + parts.items_text(0).len()
            &&& layout.body_bytes <= layout.final_size
        }),
{
    let parts = layout.parts();
    let all = all_records(layout.index@);
    lemma_layout_records(layout);
    law_file_size(layout, source);
    lemma_same_lengths(all, layout.records@, 0);
    lemma_objects_text_length(layout.records@, source, 0);
    lemma_measured(parts, 0, fixed_length(parts, layout.index@.records@));
    lemma_tails(
        header_text(),
        objects_text(layout.records@, source, 0),
        parts.pages_text(),
        parts.catalog_text(),
        parts.root_text(),
        parts.items_text(0),
        layout.from_xref(),
        copied,
        listed,
    );
}

/// The file from the place of an object on is that object and what follows.
pub proof fn lemma_placed_at(layout: Layout, source: Seq<u8>, k: int)
    requires
        layout.well_formed(),
        source.len() == layout.index@.source_size,
        0 <= k < layout.records@.len(),
    ensures
        0 <= output_start(layout.parts(), all_records(layout.index@), k) <= layout.body_bytes,
        layout.records@[k].output_offset == output_start(
            layout.parts(),
            all_records(layout.index@),
            k,
        ),
        layout.file(source).skip(layout.records@[k].output_offset as int) == from_record(
            layout,
            source,
            k,
        ),
{
    let parts = layout.parts();
    let records = layout.records@;
    let all = all_records(layout.index@);
    let record = records[k];
    let number = record.reference.number;
    lemma_layout_records(layout);
    lemma_same_lengths(all, records, 0);
    lemma_same_lengths(all, records, k);
    if record.range.length != 0 {
        lemma_objects_suffix(records, source, 0, k);
        let copied = objects_length(records, 0) - objects_length(records, k);
        lemma_file_tails(layout, source, copied, 0);
    } else if parts.synthetic_pages && number == parts.pages_root.number {
        lemma_objects_suffix(records, source, 0, k);
        lemma_file_tails(layout, source, 0, 0);
    } else if parts.synthetic_catalog && number == parts.catalog.number {
        lemma_objects_suffix(records, source, 0, k);
        lemma_file_tails(layout, source, 0, 0);
    } else {
        lemma_objects_suffix(records, source, 0, k);
        lemma_outline_number(layout, k);
        if number == parts.outline_root.number {
            lemma_file_tails(layout, source, 0, 0);
        } else {
            let item = number - parts.outline_root.number - 1;
            lemma_items_suffix(parts, 0, item);
            let listed = parts.items_text(0).len() - parts.items_text(item).len();
            lemma_file_tails(layout, source, 0, listed);
        }
    }
}

/// What follows the object of record `k` in the file.
spec fn after_record(layout: Layout, source: Seq<u8>, k: int) -> Seq<u8> {
    let parts = layout.parts();
    let record = layout.records@[k];
    let number = record.reference.number;
    if record.range.length != 0 {
        seq![LF] + layout.from_object(k + 1, source)
    } else if parts.synthetic_pages && number == parts.pages_root.number {
        layout.from_catalog()
    } else if parts.synthetic_catalog && number == parts.catalog.number {
        layout.from_outline()
    } else if number == parts.outline_root.number {
        layout.from_item(0)
    } else {
        layout.from_item(number - parts.outline_root.number)
    }
}

proof fn lemma_record_split(layout: Layout, source: Seq<u8>, k: int)
    requires
        layout.well_formed(),
        source.len() == layout.index@.source_size,
        0 <= k < layout.records@.len(),
    ensures
        from_record(layout, source, k) == object_text(layout, source, k) + after_record(
            layout,
            source,
            k,
        ),
        after_record(layout, source, k).len() >= layout.from_xref().len(),
{
    let parts = layout.parts();
    let record = layout.records@[k];
    let number = record.reference.number;
    if record.range.length != 0 {
        lemma_copy_first(
            object_text(layout, source, k),
            objects_text(layout.records@, source, k + 1),
            layout.from_pages(),
        );
    } else if parts.synthetic_pages && number == parts.pages_root.number {
    } else if parts.synthetic_catalog && number == parts.catalog.number {
    } else {
        lemma_outline_number(layout, k);
        if number != parts.outline_root.number {
            let item = number - parts.outline_root.number - 1;
            lemma_regroup(
                item_text(parts.nodes()[item], parts.titles[item].title@),
                parts.items_text(item + 1),
                layout.from_xref(),
            );
        }
    }
}

/// Every object lies in the file where its xref row says.
pub proof fn law_objects_are_where_rows_say(layout: Layout, source: Seq<u8>, k: int)
    requires
        layout.well_formed(),
        source.len() == layout.index@.source_size,
        0 <= k < layout.records@.len(),
    ensures
        ({
            let start = layout.records@[k].output_offset as int;
            let text = object_text(layout, source, k);
            &&& start + text.len() <= layout.body_bytes
            &&& layout.file(source).subrange(start, start + text.len()) == text
        }),
{
    law_file_size(layout, source);
    lemma_placed_at(layout, source, k);
    lemma_record_split(layout, source, k);
    lemma_objects_suffix_bound(layout);
    lemma_file_tails(layout, source, 0, 0);
    lemma_begins_with(
        layout.file(source),
        layout.records@[k].output_offset as int,
        object_text(layout, source, k),
        after_record(layout, source, k),
    );
}

/// An object that was supplied is copied with a line end after it.
pub proof fn law_copies_end_their_line(layout: Layout, source: Seq<u8>, k: int)
    requires
        layout.well_formed(),
        source.len() == layout.index@.source_size,
        0 <= k < layout.records@.len(),
        layout.records@[k].range.length > 0,
    ensures
        ({
            let file = layout.file(source);
            let record = layout.records@[k];
            let end = record.output_offset + record.range.length;
            &&& end < file.len()
            &&& file[end] == 10
        }),
{
    law_objects_are_where_rows_say(layout, source, k);
    law_file_size(layout, source);
    lemma_placed_at(layout, source, k);
    lemma_record_split(layout, source, k);
    lemma_layout_records(layout);
    let file = layout.file(source);
    let record = layout.records@[k];
    let text = object_text(layout, source, k);
    let tail = file.skip(record.output_offset as int);
    assert(text.len() == record.range.length);
    assert(tail[text.len() as int] == LF);
    assert(tail[text.len() as int] == file[record.output_offset + record.range.length]);
}

proof fn lemma_objects_suffix_bound(layout: Layout)
    ensures
        objects_length(layout.records@, 0) >= 0,
{
    lemma_objects_length_from(layout.records@, 0);
}

proof fn lemma_objects_length_from(records: Seq<Record>, from: int)
    ensures
        objects_length(records, from) >= 0,
    decreases records.len() - from,
{
    if from < records.len() {
        lemma_objects_length_from(records, from + 1);
    }
}

/// The rows of the xref table stand in order of object number.
pub proof fn law_row_of_number(layout: Layout, source: Seq<u8>, number: int)
    requires
        layout.well_formed(),
        source.len() == layout.index@.source_size,
        0 <= number <= layout.largest,
    ensures
        ({
            let start = layout.body_bytes + xref_header_text(layout.size()).len() + 20 * number;
            layout.file(source).subrange(start, start + 20) == row_text(
                layout.records@,
                number,
                layout.largest,
            )
        }),
{
    let records = layout.records@;
    let largest = layout.largest;
    lemma_objects_suffix_bound(layout);
    lemma_file_tails(layout, source, 0, 0);
    lemma_rows_suffix(records, 0, number, largest);
    lemma_rows_length(records, 0, largest);
    lemma_rows_length(records, number, largest);
    lemma_row_length(records, number, largest);
    lemma_row_in_table(
        layout.file(source),
        layout.body_bytes as int,
        xref_header_text(layout.size()),
        rows_text(records, 0, largest),
        layout.trailer(),
        20 * number,
        row_text(records, number, largest),
        rows_text(records, number + 1, largest),
    );
}

proof fn lemma_row_in_table(
    file: Seq<u8>,
    start: int,
    header: Seq<u8>,
    rows: Seq<u8>,
    trailer: Seq<u8>,
    skipped: int,
    row: Seq<u8>,
    others: Seq<u8>,
)
    requires
        0 <= start <= file.len(),
        file.skip(start) == header + (rows + trailer),
        0 <= skipped <= rows.len(),
        rows.skip(skipped) == row + others,
        row.len() == 20,
    ensures
        file.subrange(start + header.len() + skipped, start + header.len() + skipped + 20) == row,
{
    let tail = file.skip(start);
    let at = header.len() + skipped;
    assert(tail.len() == header.len() + rows.len() + trailer.len());
    assert(rows.skip(skipped).len() == rows.len() - skipped);
    assert forall|i: int| 0 <= i < 20 implies file[start + at + i] == row[i] by {
        assert(tail[at + i] == file[start + at + i]);
        assert(tail[at + i] == (header + (rows + trailer))[at + i]);
        assert((header + (rows + trailer))[at + i] == (rows + trailer)[skipped + i]);
        assert(rows.skip(skipped)[i] == (row + others)[i]);
        assert(rows.skip(skipped)[i] == rows[skipped + i]);
    }
    assert(file.subrange(start + at, start + at + 20) =~= row);
}

proof fn lemma_rows_suffix(records: Seq<Record>, from: int, number: int, largest: u32)
    requires
        0 <= from <= number <= largest,
    ensures
        rows_text(records, from, largest).skip(20 * (number - from)) == rows_text(
            records,
            number,
            largest,
        ),
    decreases number - from,
{
    if from == number {
        assert(rows_text(records, from, largest).skip(0) =~= rows_text(records, number, largest));
    } else {
        lemma_rows_suffix(records, from + 1, number, largest);
        lemma_row_length(records, from, largest);
        lemma_rows_length(records, from + 1, largest);
        let first = row_text(records, from, largest);
        let others = rows_text(records, from + 1, largest);
        let count = 20 * (number - from - 1);
        assert((first + others).skip(first.len() + count) =~= others.skip(count));
    }
}

} // verus!

//! The pieces that a rebuilt file is written in.

use vstd::prelude::*;
use crate::fragment::layout::{objects_text, Layout, Parts};
use crate::fragment::output::{
    law_file_size, lemma_layout_records, lemma_placed_at, Action, Output, Stage, TITLE_CHUNK_UNITS,
};
use crate::fragment::record::{is_numbered, lemma_position};
use crate::fragment::texts::{
    item_prefix_text, item_suffix_text, item_text, lemma_next_free_bound,
    lemma_texts_are_not_empty, next_free_number, outline_item_prefix, outline_item_suffix,
    page_list_text, page_reference, page_reference_text, pages_suffix_text, push_catalog,
    push_header, push_outline_root, push_pages_prefix, push_trailer, push_xref_header, row_text,
    rows_text, xref_entry, FREE, IN_USE,
};
use crate::pieces::{joined, lemma_joined_append};
use crate::text::{
    decimal_digits, hex_units, lemma_hex_units_join, push_bytes, push_hex_units, push_text, spelled,
    title_units, LF,
};
use crate::types::{ConversionReport, Error, PdfRef, MAX_CLASSIC_PDF_BYTES, MAX_PDF_OBJECTS};

verus! {

/// Whether a stage stands where the rest of the file is `rest`.
pub open spec fn stands_at(layout: Layout, stage: Stage, rest: spec_fn(Seq<u8>) -> Seq<u8>) -> bool {
    &&& layout.holds(stage)
    &&& !(stage is Complete)
    &&& forall|source: Seq<u8>| #[trigger] layout.rest(stage, source) == rest(source)
}

impl<'a> Layout<'a> {
    /// The stage at an outline item, or after the last one.
    fn at_item(&self, item: usize) -> (stage: Stage)
        requires
            self.well_formed(),
            item <= self.bookmarks@.len(),
            self.outline is Some || item == self.bookmarks@.len(),
        ensures
            stands_at(*self, stage, |source: Seq<u8>| self.from_item(item as int)),
    {
        if item < self.bookmarks.len() {
            Stage::ItemPrefix { item }
        } else {
            assert(self.parts().items_text(item as int) =~= Seq::<u8>::empty());
            assert(self.from_item(item as int) =~= self.from_xref());
            Stage::XrefHeader
        }
    }

    /// The stage at the outline, if there is one.
    fn at_outline(&self) -> (stage: Stage)
        requires
            self.well_formed(),
        ensures
            stands_at(*self, stage, |source: Seq<u8>| self.from_outline()),
    {
        if self.outline.is_some() {
            Stage::OutlineRoot
        } else {
            proof {
                reveal(Parts::root_text);
                assert(self.from_outline() =~= self.from_item(0));
            }
            self.at_item(0)
        }
    }

    /// The stage at the catalog, if it is synthesized.
    fn at_catalog(&self) -> (stage: Stage)
        requires
            self.well_formed(),
        ensures
            stands_at(*self, stage, |source: Seq<u8>| self.from_catalog()),
    {
        if self.plan.catalog.is_none() {
            Stage::Catalog
        } else {
            proof {
                reveal(Parts::catalog_text);
                assert(self.from_catalog() =~= self.from_outline());
            }
            self.at_outline()
        }
    }

    /// The stage at the page tree root, if it is synthesized.
    fn at_pages(&self) -> (stage: Stage)
        requires
            self.well_formed(),
        ensures
            stands_at(*self, stage, |source: Seq<u8>| self.from_pages()),
    {
        if self.synthetic_pages {
            Stage::PagesPrefix
        } else {
            proof {
                reveal(Parts::pages_text);
                assert(self.from_pages() =~= self.from_catalog());
            }
            self.at_catalog()
        }
    }

    /// The stage at the first object to copy from a record on.
    fn at_object(&self, from: usize) -> (stage: Stage)
        requires
            self.well_formed(),
            from <= self.records@.len(),
        ensures
            stands_at(*self, stage, |source: Seq<u8>| self.from_object(from as int, source)),
    {
        let mut record: usize = from;
        while record < self.records.len() && self.records[record].range.length == 0
            invariant
                from <= record <= self.records@.len(),
                forall|source: Seq<u8>| #[trigger]
                    objects_text(self.records@, source, from as int) == objects_text(
                        self.records@,
                        source,
                        record as int,
                    ),
            decreases self.records@.len() - record,
        {
            assert forall|source: Seq<u8>| #[trigger]
                objects_text(self.records@, source, from as int) == objects_text(
                    self.records@,
                    source,
                    record + 1,
                ) by {
                assert(objects_text(self.records@, source, record as int) =~= objects_text(
                    self.records@,
                    source,
                    record + 1,
                ));
            }
            record += 1;
        }
        if record < self.records.len() {
            let stage = Stage::Copy { record, done: 0 };
            proof {
                assert forall|source: Seq<u8>| #[trigger]
                    self.rest(stage, source) == self.from_object(from as int, source) by {
                    assert(objects_text(self.records@, source, from as int) == objects_text(
                        self.records@,
                        source,
                        record as int,
                    ));
                    assert(self.rest(stage, source) =~= self.from_object(record as int, source));
                }
            }
            stage
        } else {
            proof {
                assert forall|source: Seq<u8>| #[trigger]
                    self.from_object(from as int, source) == self.from_pages() by {
                    assert(objects_text(self.records@, source, from as int) =~= Seq::<u8>::empty());
                    assert(self.from_object(from as int, source) =~= self.from_pages());
                }
            }
            self.at_pages()
        }
    }
}

/// Put page list entries into the buffer, from page `next` on: as many as fit
/// a chunk, but at least one. Returns the first page left out.
fn fill_page_list(pages: &[PdfRef], next: usize, chunk: usize, buffer: &mut Vec<u8>) -> (left: usize)
    requires
        next < pages@.len(),
        old(buffer)@.len() == 0,
    ensures
        next < left <= pages@.len(),
        page_list_text(pages@, next as int) == final(buffer)@ + page_list_text(
            pages@,
            left as int,
        ),
        final(buffer)@.len() <= chunk || left == next + 1,
        final(buffer)@.len() > 0,
{
    page_reference(pages[next], buffer);
    assert(buffer@ =~= page_reference_text(pages@[next as int]));
    let mut left: usize = next + 1;
    proof {
        reveal_strlit(" 0 R ");
        assert(vstd::string::is_ascii(" 0 R "));
        vstd::string::is_ascii_spec_bytes(" 0 R ");
    }
    while left < pages.len()
        invariant
            next < left <= pages@.len(),
            spelled(" 0 R ").len() == 5,
            page_list_text(pages@, next as int) == buffer@ + page_list_text(pages@, left as int),
            buffer@.len() <= chunk || left == next + 1,
            buffer@.len() > 0,
        decreases pages@.len() - left,
    {
        let length: usize = decimal_digits(pages[left].number as u64) as usize + 5;
        if length > chunk || buffer.len() > chunk - length {
            return left;
        }
        let ghost before = buffer@;
        page_reference(pages[left], buffer);
        assert(before + page_list_text(pages@, left as int) =~= buffer@ + page_list_text(
            pages@,
            left + 1,
        ));
        left += 1;
    }
    left
}

/// The place of every object fits an xref row.
proof fn lemma_offset_fits(layout: Layout, k: int)
    requires
        layout.well_formed(),
        0 <= k < layout.records@.len(),
    ensures
        layout.records@[k].output_offset <= MAX_CLASSIC_PDF_BYTES,
{
    let source = Seq::new(layout.index@.source_size as nat, |i: int| 0u8);
    lemma_placed_at(layout, source, k);
    lemma_layout_records(layout);
    law_file_size(layout, source);
}

impl<'a> Layout<'a> {
    /// Append the xref row of a number. Every record before position `record`
    /// has a smaller number. Returns the position of the next record.
    fn push_row(&self, number: u32, record: usize, buffer: &mut Vec<u8>) -> (next: Result<
        usize,
        Error,
    >)
        requires
            self.well_formed(),
            self.holds(Stage::Rows { number, record }),
        ensures
            next is Ok,
            final(buffer)@ == old(buffer)@ + row_text(self.records@, number as int, self.largest),
            next->Ok_0 <= self.records@.len(),
            forall|i: int|
                0 <= i < self.records@.len() ==> ((
                #[trigger] self.records@[i]).reference.number < number + 1 <==> i < next->Ok_0),
    {
        let ghost records = self.records@;
        proof {
            lemma_layout_records(*self);
            lemma_next_free_bound(records, number + 1, self.largest);
        }
        if record < self.records.len() && self.records[record].reference.number == number {
            proof {
                lemma_position(records, record as int);
                lemma_offset_fits(*self, record as int);
                assert forall|i: int| 0 <= i < records.len() implies ((
                #[trigger] records[i]).reference.number < number + 1 <==> i < record + 1) by {
                    if i > record {
                        assert(records[record as int].reference.number
                            < records[i].reference.number);
                    }
                }
            }
            let row = xref_entry(self.records[record].output_offset, 0, IN_USE)?;
            push_bytes(buffer, &row);
            Ok(record + 1)
        } else {
            proof {
                assert forall|i: int| !is_numbered(records, i, number) by {
                    if is_numbered(records, i, number) {
                        if i > record {
                            assert(records[record as int].reference.number
                                < records[i].reference.number);
                        }
                    }
                }
                assert forall|i: int| 0 <= i < records.len() implies ((
                #[trigger] records[i]).reference.number < number + 1 <==> i < record) by {
                    assert(!is_numbered(records, i, number));
                }
            }
            let free: u32 = next_free_number(number, self.largest, &self.records, record);
            let generation: u16 = if number == 0 {
                65_535
            } else {
                0
            };
            let row = xref_entry(free as u64, generation, FREE)?;
            push_bytes(buffer, &row);
            Ok(record)
        }
    }

    /// Put xref rows into the buffer, from a number on: as many as fit a chunk,
    /// but at least one. Returns the first number left out and its record.
    fn fill_rows(&self, number: u32, record: usize, buffer: &mut Vec<u8>) -> (left: Result<
        (u32, usize),
        Error,
    >)
        requires
            self.well_formed(),
            self.holds(Stage::Rows { number, record }),
            old(buffer)@.len() == 0,
        ensures
            left is Ok,
            number < left->Ok_0.0 <= self.largest + 1,
            rows_text(self.records@, number as int, self.largest) == final(buffer)@ + rows_text(
                self.records@,
                left->Ok_0.0 as int,
                self.largest,
            ),
            left->Ok_0.0 <= self.largest ==> self.holds(
                (Stage::Rows { number: left->Ok_0.0, record: left->Ok_0.1 }),
            ),
            final(buffer)@.len() <= self.limits.io_chunk_bytes || final(buffer)@.len() == 20,
            final(buffer)@.len() > 0,
    {
        let ghost records = self.records@;
        proof {
            lemma_layout_records(*self);
            crate::fragment::output::lemma_row_length(records, number as int, self.largest);
        }
        let mut record: usize = self.push_row(number, record, buffer)?;
        let mut left: u32 = number + 1;
        assert(buffer@ =~= row_text(records, number as int, self.largest));
        while left <= self.largest && buffer.len() < self.limits.io_chunk_bytes
            && self.limits.io_chunk_bytes - buffer.len() >= 20
            invariant
                self.well_formed(),
                records == self.records@,
                number < left <= self.largest + 1,
                self.largest <= MAX_PDF_OBJECTS,
                record <= records.len(),
                forall|i: int|
                    0 <= i < records.len() ==> ((#[trigger] records[i]).reference.number < left
                        <==> i < record),
                rows_text(records, number as int, self.largest) == buffer@ + rows_text(
                    records,
                    left as int,
                    self.largest,
                ),
                buffer@.len() <= self.limits.io_chunk_bytes || buffer@.len() == 20,
                buffer@.len() > 0,
            decreases self.largest + 1 - left,
        {
            let ghost before = buffer@;
            proof {
                crate::fragment::output::lemma_row_length(records, left as int, self.largest);
            }
            record = self.push_row(left, record, buffer)?;
            assert(before + rows_text(records, left as int, self.largest) =~= buffer@ + rows_text(
                records,
                left + 1,
                self.largest,
            ));
            left += 1;
        }
        Ok((left, record))
    }
}

/// Whether writing `bytes` at one stage leads to the next.
pub open spec fn leads_on(layout: Layout, stage: Stage, bytes: Seq<u8>, next: Stage) -> bool {
    &&& layout.holds(next)
    &&& !(next is Complete)
    &&& forall|source: Seq<u8>| #[trigger]
        layout.rest(stage, source) == bytes + layout.rest(next, source)
}

/// How many bytes a stage may write at once.
pub open spec fn is_bounded(layout: Layout, stage: Stage, length: nat) -> bool {
    match stage {
        Stage::PageList { .. } => length <= layout.limits.io_chunk_bytes || length <= 15,
        Stage::Rows { .. } => length <= layout.limits.io_chunk_bytes || length <= 20,
        Stage::ItemTitle { .. } => length <= 4 * TITLE_CHUNK_UNITS,
        Stage::LineEnd { .. } => length == 1,
        _ => true,
    }
}

proof fn lemma_leads_on(
    layout: Layout,
    stage: Stage,
    bytes: Seq<u8>,
    next: Stage,
    rest: spec_fn(Seq<u8>) -> Seq<u8>,
)
    requires
        stands_at(layout, next, rest),
        forall|source: Seq<u8>| #[trigger] layout.rest(stage, source) == bytes + rest(source),
    ensures
        leads_on(layout, stage, bytes, next),
{
    assert forall|source: Seq<u8>| #[trigger] layout.rest(stage, source) == bytes + layout.rest(
        next,
        source,
    ) by {
        assert(layout.rest(next, source) == rest(source));
    }
}

proof fn lemma_item_parts(
    prefix: Seq<u8>,
    hex: Seq<u8>,
    suffix: Seq<u8>,
    others: Seq<u8>,
    table: Seq<u8>,
)
    ensures
        (prefix + hex + suffix + others) + table == prefix + (hex + suffix + (others + table)),
{
    assert((prefix + hex + suffix + others) + table =~= prefix + (hex + suffix + (others
        + table)));
}

impl<'a> Layout<'a> {
    /// Put the beginning of an outline item into the buffer.
    fn begin_item(&self, item: usize, buffer: &mut Vec<u8>) -> (next: Stage)
        requires
            self.well_formed(),
            self.holds(Stage::ItemPrefix { item }),
            old(buffer)@.len() == 0,
        ensures
            leads_on(*self, (Stage::ItemPrefix { item }), final(buffer)@, next),
            final(buffer)@.len() > 0,
    {
        let ghost stage = Stage::ItemPrefix { item };
        proof {
            lemma_texts_are_not_empty();
        }
        let ghost node = self.parts().nodes()[item as int];
        let ghost title = self.bookmarks@[item as int].title@;
        if let Some(outline) = &self.outline {
            outline_item_prefix(&outline.nodes[item], buffer);
        }
        assert(buffer@ =~= item_prefix_text(node));
        let units = title_units(self.bookmarks[item].title.as_str());
        proof {
            reveal(item_text);
            let hex = hex_units(units@);
            let suffix = item_suffix_text(node);
            lemma_item_parts(
                item_prefix_text(node),
                hex,
                suffix,
                self.parts().items_text(item + 1),
                self.from_xref(),
            );
            assert(units@.skip(0) =~= units@);
            if units@.len() == 0 {
                assert(hex + suffix + self.from_item(item + 1) =~= suffix + self.from_item(
                    item + 1,
                ));
            }
        }
        if units.len() == 0 {
            Stage::ItemSuffix { item }
        } else {
            Stage::ItemTitle { item, units, done: 0 }
        }
    }

    /// Put the next digits of a title into the buffer.
    fn continue_title(
        &self,
        item: usize,
        units: Vec<u16>,
        done: usize,
        buffer: &mut Vec<u8>,
    ) -> (next: Stage)
        requires
            self.well_formed(),
            self.holds(Stage::ItemTitle { item, units, done }),
            old(buffer)@.len() == 0,
        ensures
            leads_on(*self, (Stage::ItemTitle { item, units, done }), final(buffer)@, next),
            0 < final(buffer)@.len() <= 4 * TITLE_CHUNK_UNITS,
    {
        let left: usize = units.len() - done;
        let count: usize = if left < TITLE_CHUNK_UNITS {
            left
        } else {
            TITLE_CHUNK_UNITS
        };
        let upto: usize = done + count;
        let ghost stage = Stage::ItemTitle { item, units, done };
        let chunk = &units[done..upto];
        push_hex_units(buffer, chunk);
        proof {
            let chunk = units@.subrange(done as int, upto as int);
            crate::text::lemma_hex_units_length(chunk);
            assert(buffer@ =~= hex_units(chunk));
            assert(units@.skip(done as int) =~= chunk + units@.skip(upto as int));
            lemma_hex_units_join(chunk, units@.skip(upto as int));
            let suffix = item_suffix_text(self.parts().nodes()[item as int]);
            let others = self.from_item(item + 1);
            let rest = hex_units(units@.skip(upto as int));
            assert(hex_units(units@.skip(done as int)) + suffix + others =~= buffer@ + (rest
                + suffix + others));
            if upto == units@.len() {
                assert(units@.skip(upto as int) =~= Seq::<u16>::empty());
                assert(rest + suffix + others =~= suffix + others);
            }
        }
        if upto == units.len() {
            Stage::ItemSuffix { item }
        } else {
            Stage::ItemTitle { item, units, done: upto }
        }
    }

    /// Put what a stage before the catalog writes into the buffer.
    fn fill_front(&self, stage: Stage, buffer: &mut Vec<u8>) -> (next: Result<Stage, Error>)
        requires
            self.well_formed(),
            self.holds(stage),
            stage is Header || stage is LineEnd || stage is PagesPrefix || stage is PageList || stage
                is PagesSuffix,
            old(buffer)@.len() == 0,
        ensures
            next is Ok,
            leads_on(*self, stage, final(buffer)@, next->Ok_0),
            final(buffer)@.len() > 0,
            is_bounded(*self, stage, final(buffer)@.len()),
    {
        let ghost before = stage;
        proof {
            lemma_texts_are_not_empty();
        }
        match stage {
            Stage::Header => {
                push_header(buffer);
                assert(buffer@ =~= crate::fragment::texts::header_text());
                let next = self.at_object(0);
                proof {
                    lemma_leads_on(
                        *self,
                        before,
                        buffer@,
                        next,
                        |source: Seq<u8>| self.from_object(0, source),
                    );
                }
                Ok(next)
            },
            Stage::LineEnd { record } => {
                buffer.push(LF);
                assert(buffer@ =~= seq![LF]);
                let next = self.at_object(record + 1);
                proof {
                    lemma_leads_on(
                        *self,
                        before,
                        buffer@,
                        next,
                        |source: Seq<u8>| self.from_object(record + 1, source),
                    );
                }
                Ok(next)
            },
            Stage::PagesPrefix => {
                push_pages_prefix(buffer, self.plan.pages_root, self.plan.pages.len() as u32);
                proof {
                    reveal(Parts::pages_text);
                    let next = Stage::PageList { next: 0 };
                    assert forall|source: Seq<u8>| #[trigger]
                        self.rest(before, source) == buffer@ + self.rest(next, source) by {
                        assert(self.rest(before, source) =~= buffer@ + self.rest(next, source));
                    }
                }
                Ok(Stage::PageList { next: 0 })
            },
            Stage::PageList { next } => {
                let left = fill_page_list(
                    self.plan.pages,
                    next,
                    self.limits.io_chunk_bytes,
                    buffer,
                );
                proof {
                    lemma_one_page_reference(self.plan.pages@, next as int, left as int, buffer@);
                    let suffix = pages_suffix_text();
                    let others = self.from_catalog();
                    let list = page_list_text(self.plan.pages@, left as int);
                    assert(buffer@ + list + suffix + others =~= buffer@ + (list + suffix
                        + others));
                    if left == self.plan.pages@.len() {
                        assert(list + suffix + others =~= suffix + others);
                    }
                }
                if left < self.plan.pages.len() {
                    Ok(Stage::PageList { next: left })
                } else {
                    Ok(Stage::PagesSuffix)
                }
            },
            _ => {
                push_text(buffer, "] >>\nendobj\n");
                assert(buffer@ =~= pages_suffix_text());
                let next = self.at_catalog();
                proof {
                    lemma_leads_on(
                        *self,
                        before,
                        buffer@,
                        next,
                        |source: Seq<u8>| self.from_catalog(),
                    );
                }
                Ok(next)
            },
        }
    }

    /// Put what a stage from the catalog on writes into the buffer.
    fn fill_back(&self, stage: Stage, buffer: &mut Vec<u8>) -> (next: Result<Stage, Error>)
        requires
            self.well_formed(),
            self.holds(stage),
            stage is Catalog || stage is OutlineRoot || stage is ItemPrefix || stage is ItemTitle || stage
                is ItemSuffix || stage is XrefHeader || stage is Rows || stage is Trailer,
            old(buffer)@.len() == 0,
        ensures
            next is Ok,
            leads_on(*self, stage, final(buffer)@, next->Ok_0),
            final(buffer)@.len() > 0,
            is_bounded(*self, stage, final(buffer)@.len()),
    {
        let ghost before = stage;
        proof {
            lemma_texts_are_not_empty();
        }
        match stage {
            Stage::Catalog => {
                let outline_root: Option<PdfRef> = match &self.outline {
                    Some(outline) => Some(outline.root),
                    None => None,
                };
                push_catalog(buffer, self.catalog, self.plan.pages_root, outline_root);
                proof {
                    reveal(Parts::catalog_text);
                    assert(buffer@ =~= self.parts().catalog_text());
                }
                let next = self.at_outline();
                proof {
                    lemma_leads_on(
                        *self,
                        before,
                        buffer@,
                        next,
                        |source: Seq<u8>| self.from_outline(),
                    );
                }
                Ok(next)
            },
            Stage::OutlineRoot => {
                if let Some(outline) = &self.outline {
                    push_outline_root(
                        buffer,
                        outline.root,
                        outline.first,
                        outline.last,
                        self.bookmarks.len() as u32,
                    );
                }
                assert(buffer@ =~= self.parts().root_text());
                let next = self.at_item(0);
                proof {
                    lemma_leads_on(
                        *self,
                        before,
                        buffer@,
                        next,
                        |source: Seq<u8>| self.from_item(0),
                    );
                }
                Ok(next)
            },
            Stage::ItemPrefix { item } => Ok(self.begin_item(item, buffer)),
            Stage::ItemTitle { item, units, done } => {
                Ok(self.continue_title(item, units, done, buffer))
            },
            Stage::ItemSuffix { item } => {
                if let Some(outline) = &self.outline {
                    outline_item_suffix(&outline.nodes[item], buffer);
                }
                assert(buffer@ =~= item_suffix_text(self.parts().nodes()[item as int]));
                let next = self.at_item(item + 1);
                proof {
                    lemma_leads_on(
                        *self,
                        before,
                        buffer@,
                        next,
                        |source: Seq<u8>| self.from_item(item + 1),
                    );
                }
                Ok(next)
            },
            Stage::XrefHeader => {
                push_xref_header(buffer, self.largest as u64 + 1);
                assert(buffer@ =~= crate::fragment::texts::xref_header_text(self.size()));
                proof {
                    lemma_layout_records(*self);
                }
                Ok(Stage::Rows { number: 0, record: 0 })
            },
            Stage::Rows { number, record } => {
                let (left, record) = self.fill_rows(number, record, buffer)?;
                proof {
                    let rows = rows_text(self.records@, left as int, self.largest);
                    assert(buffer@ + rows + self.trailer() =~= buffer@ + (rows
                        + self.trailer()));
                    if left > self.largest {
                        assert(rows + self.trailer() =~= self.trailer());
                    }
                }
                if left <= self.largest {
                    Ok(Stage::Rows { number: left, record })
                } else {
                    Ok(Stage::Trailer)
                }
            },
            _ => {
                push_trailer(buffer, self.largest as u64 + 1, self.catalog, self.body_bytes);
                assert(buffer@ =~= self.trailer() + Seq::<u8>::empty());
                Ok(Stage::Flush)
            },
        }
    }

    /// Put what a stage writes into the buffer.
    fn fill(&self, stage: Stage, buffer: &mut Vec<u8>) -> (next: Result<Stage, Error>)
        requires
            self.well_formed(),
            self.holds(stage),
            !(stage is Copy || stage is Flush || stage is Complete),
            old(buffer)@.len() == 0,
        ensures
            next is Ok,
            leads_on(*self, stage, final(buffer)@, next->Ok_0),
            final(buffer)@.len() > 0,
            is_bounded(*self, stage, final(buffer)@.len()),
    {
        let front: bool = match &stage {
            Stage::Header => true,
            Stage::LineEnd { .. } => true,
            Stage::PagesPrefix => true,
            Stage::PageList { .. } => true,
            Stage::PagesSuffix => true,
            _ => false,
        };
        if front {
            self.fill_front(stage, buffer)
        } else {
            self.fill_back(stage, buffer)
        }
    }
}

/// One entry of the page list has at most fifteen bytes.
proof fn lemma_one_page_reference(pages: Seq<PdfRef>, next: int, left: int, bytes: Seq<u8>)
    requires
        0 <= next < pages.len(),
        page_list_text(pages, next) == bytes + page_list_text(pages, left),
    ensures
        left == next + 1 ==> bytes.len() <= 15,
{
    reveal_strlit(" 0 R ");
    assert(vstd::string::is_ascii(" 0 R "));
    vstd::string::is_ascii_spec_bytes(" 0 R ");
    let number = pages[next].number as nat;
    assert(number < crate::text::ten_to(10)) by {
        reveal_with_fuel(crate::text::ten_to, 11);
    }
    crate::text::lemma_decimal_length_bound(number, 10);
    if left == next + 1 {
        assert(page_list_text(pages, next).len() == page_reference_text(pages[next]).len()
            + page_list_text(pages, left).len());
    }
}

impl<'a> Layout<'a> {
    /// Begin to write the file.
    pub fn begin(self) -> (output: Output<'a>)
        requires
            self.well_formed(),
        ensures
            output.well_formed(),
            output.layout == self,
            output.stage is Header,
            output.written == 0,
    {
        let output = Output { layout: self, stage: Stage::Header, written: 0 };
        proof {
            assert forall|source: Seq<u8>| source.len() == self.index@.source_size implies {
                &&& (#[trigger] self.file(source)).len() == self.final_size
                &&& self.rest(output.stage, source) == self.file(source).skip(0)
            } by {
                law_file_size(self, source);
                assert(self.file(source).skip(0) =~= self.file(source));
            }
        }
        output
    }
}

/// Whether an output has gone on by `bytes`, whatever the source holds.
pub open spec fn went_on(before: Output, after: Output, bytes: spec_fn(Seq<u8>) -> Seq<u8>) -> bool {
    forall|source: Seq<u8>|
        source.len() == before.layout.index@.source_size ==> (#[trigger] before.layout.file(
            source,
        )).subrange(before.written as int, after.written as int) == bytes(source)
}

/// Writing the next bytes of a file leaves the rest of it.
proof fn lemma_went_on(
    before: Output,
    after: Output,
    bytes: spec_fn(Seq<u8>) -> Seq<u8>,
    length: nat,
)
    requires
        before.well_formed(),
        after.layout == before.layout,
        after.layout.holds(after.stage),
        after.written == before.written + length,
        forall|source: Seq<u8>|
            source.len() == before.layout.index@.source_size ==> {
                &&& bytes(source).len() == length
                &&& #[trigger] before.layout.rest(before.stage, source) == bytes(source)
                    + after.layout.rest(after.stage, source)
            },
    ensures
        after.well_formed(),
        went_on(before, after, bytes),
{
    let layout = before.layout;
    assert forall|source: Seq<u8>| source.len() == layout.index@.source_size implies {
        &&& (#[trigger] layout.file(source)).len() == layout.final_size
        &&& layout.rest(after.stage, source) == layout.file(source).skip(after.written as int)
        &&& layout.file(source).subrange(before.written as int, after.written as int) == bytes(
            source,
        )
        &&& after.written <= layout.final_size
    } by {
        let file = layout.file(source);
        let piece = bytes(source);
        let others = layout.rest(after.stage, source);
        assert(layout.rest(before.stage, source) == piece + others);
        assert(file.skip(before.written as int) == piece + others);
        assert(file.skip(before.written as int).len() == file.len() - before.written);
        assert(file.skip(after.written as int) =~= file.skip(before.written as int).skip(
            length as int,
        ));
        assert((piece + others).skip(length as int) =~= others);
        assert(file.subrange(before.written as int, after.written as int) =~= file.skip(
            before.written as int,
        ).take(length as int));
        assert((piece + others).take(length as int) =~= piece);
    }
    let zeros = Seq::new(layout.index@.source_size as nat, |i: int| 0u8);
    assert(layout.file(zeros).len() == layout.final_size);
}

/// Whether an action leads from one output to another. Nothing is written that
/// is empty, and the flush comes when everything has been written.
pub open spec fn stepped(before: Output, after: Output, action: Action, buffer: Seq<u8>) -> bool {
    &&& !(before.stage is Complete)
    &&& after.layout == before.layout
    &&& match action {
        Action::Write => {
            &&& buffer.len() > 0
            &&& after.written == before.written + buffer.len()
            &&& went_on(before, after, |source: Seq<u8>| buffer)
            &&& is_bounded(before.layout, before.stage, buffer.len())
            &&& !(after.stage is Complete)
        },
        Action::Copy { offset, length } => {
            &&& 0 < length <= before.layout.limits.io_chunk_bytes
            &&& offset + length <= before.layout.index@.source_size
            &&& after.written == before.written + length
            &&& went_on(
                before,
                after,
                |source: Seq<u8>| source.subrange(offset as int, offset + length),
            )
            &&& !(after.stage is Complete)
        },
        Action::Flush => {
            &&& before.written == before.layout.final_size
            &&& after.written == before.written
            &&& after.stage is Complete
        },
    }
}

/// The bytes that an action adds to the file.
pub open spec fn piece_of(action: Action, buffer: Seq<u8>, source: Seq<u8>) -> Seq<u8> {
    match action {
        Action::Write => buffer,
        Action::Copy { offset, length } => source.subrange(offset as int, offset + length),
        Action::Flush => Seq::empty(),
    }
}

/// The bytes that actions add to the file, one piece each.
pub open spec fn pieces_of(actions: Seq<Action>, buffers: Seq<Seq<u8>>, source: Seq<u8>) -> Seq<
    Seq<u8>,
> {
    Seq::new(actions.len(), |i: int| piece_of(actions[i], buffers[i], source))
}

/// An action adds the next bytes of the file.
proof fn lemma_piece_is_next(
    before: Output,
    after: Output,
    action: Action,
    buffer: Seq<u8>,
    source: Seq<u8>,
)
    requires
        before.well_formed(),
        after.well_formed(),
        stepped(before, after, action, buffer),
        source.len() == before.layout.index@.source_size,
    ensures
        ({
            let file = before.layout.file(source);
            file.take(before.written as int) + piece_of(action, buffer, source) == file.take(
                after.written as int,
            )
        }),
{
    let file = before.layout.file(source);
    let start = before.written as int;
    let end = after.written as int;
    assert(file.len() == before.layout.final_size);
    assert(piece_of(action, buffer, source) =~= file.subrange(start, end));
    assert(file.take(start) + file.subrange(start, end) =~= file.take(end));
}

/// Where an output is complete, everything has been written.
proof fn lemma_complete(output: Output, source: Seq<u8>)
    requires
        output.well_formed(),
        source.len() == output.layout.index@.source_size,
    ensures
        ({
            let file = output.layout.file(source);
            &&& output.written <= file.len()
            &&& output.stage is Complete ==> file.take(output.written as int) == file
        }),
{
    let file = output.layout.file(source);
    assert(file.len() == output.layout.final_size);
    if output.stage is Complete {
        assert(output.layout.rest(output.stage, source) =~= Seq::<u8>::empty());
        assert(file.skip(output.written as int).len() == 0);
        assert(file.take(output.written as int) =~= file);
    }
}

/// Driving an output from its beginning ends: there are no more actions than
/// bytes, and the flush. What has been written is the start of the file, and
/// once the output is complete it is the whole file.
#[verifier::rlimit(60)]
pub proof fn law_output_is_completed(
    outputs: Seq<Output>,
    actions: Seq<Action>,
    buffers: Seq<Seq<u8>>,
    source: Seq<u8>,
)
    requires
        outputs.len() == actions.len() + 1,
        buffers.len() == actions.len(),
        outputs[0].well_formed(),
        outputs[0].written == 0,
        !(outputs[0].stage is Complete),
        source.len() == outputs[0].layout.index@.source_size,
        forall|i: int|
            0 <= i < actions.len() ==> (#[trigger] outputs[i + 1]).well_formed() && stepped(
                outputs[i],
                outputs[i + 1],
                actions[i],
                buffers[i],
            ),
    ensures
        ({
            let file = outputs[0].layout.file(source);
            let written = joined(pieces_of(actions, buffers, source), 0);
            &&& outputs.last().layout == outputs[0].layout
            &&& actions.len() <= file.len() + 1
            &&& written == file.take(outputs.last().written as int)
            &&& outputs.last().stage is Complete ==> written == file
        }),
    decreases actions.len(),
{
    let file = outputs[0].layout.file(source);
    lemma_actions_bounded(outputs, actions, buffers);
    if actions.len() == 0 {
        assert(file.take(0) =~= Seq::<u8>::empty());
    } else {
        let n = actions.len() - 1;
        let earlier = outputs.drop_last();
        let before = pieces_of(actions.drop_last(), buffers.drop_last(), source);
        let piece = piece_of(actions[n], buffers[n], source);
        assert forall|i: int| 0 <= i < n implies (#[trigger] earlier[i + 1]).well_formed()
            && stepped(
            earlier[i],
            earlier[i + 1],
            actions.drop_last()[i],
            buffers.drop_last()[i],
        ) by {
            assert(outputs[i + 1].well_formed());
        }
        law_output_is_completed(earlier, actions.drop_last(), buffers.drop_last(), source);
        assert(outputs[n + 1].well_formed());
        assert(outputs[n].well_formed()) by {
            if n > 0 {
                assert(outputs[n - 1 + 1].well_formed());
            }
        }
        lemma_piece_is_next(outputs[n], outputs[n + 1], actions[n], buffers[n], source);
        assert(pieces_of(actions, buffers, source) =~= before + seq![piece]);
        lemma_joined_append(before, seq![piece], 0);
        assert(joined(seq![piece], 0) =~= piece) by {
            assert(joined(seq![piece], 1) =~= Seq::<u8>::empty());
        }
    }
    lemma_complete(outputs.last(), source);
}

/// Every action but the flush takes at least one byte.
proof fn lemma_actions_bounded(outputs: Seq<Output>, actions: Seq<Action>, buffers: Seq<Seq<u8>>)
    requires
        outputs.len() == actions.len() + 1,
        buffers.len() == actions.len(),
        !(outputs[0].stage is Complete),
        forall|i: int|
            0 <= i < actions.len() ==> (#[trigger] outputs[i + 1]).well_formed() && stepped(
                outputs[i],
                outputs[i + 1],
                actions[i],
                buffers[i],
            ),
    ensures
        actions.len() <= outputs.last().written + (if outputs.last().stage is Complete {
            1int
        } else {
            0int
        }),
        outputs.last().layout == outputs[0].layout,
    decreases actions.len(),
{
    if actions.len() > 0 {
        let n = actions.len() - 1;
        let earlier = outputs.drop_last();
        assert forall|i: int| 0 <= i < n implies (#[trigger] earlier[i + 1]).well_formed()
            && stepped(
            earlier[i],
            earlier[i + 1],
            actions.drop_last()[i],
            buffers.drop_last()[i],
        ) by {
            assert(outputs[i + 1].well_formed());
        }
        lemma_actions_bounded(earlier, actions.drop_last(), buffers.drop_last());
        assert(outputs[n + 1].well_formed());
    }
}

impl<'a> Output<'a> {
    /// What to do next. Bytes to write are put into the buffer; source bytes
    /// are named, for the caller to read and write.
    pub fn next(&mut self, buffer: &mut Vec<u8>, cancelled: bool) -> (action: Result<Action, Error>)
        requires
            old(self).well_formed(),
            !(old(self).stage is Complete),
        ensures
            final(self).well_formed(),
            final(self).layout == old(self).layout,
            cancelled ==> action == Err::<Action, Error>(Error::Cancelled) && *final(self) == *old(
                self,
            ),
            !cancelled ==> action is Ok && stepped(
                *old(self),
                *final(self),
                action->Ok_0,
                final(buffer)@,
            ),
    {
        if cancelled {
            return Err(Error::Cancelled);
        }
        buffer.clear();
        let ghost before = *self;
        let mut stage = Stage::Complete;
        core::mem::swap(&mut self.stage, &mut stage);
        assert(stage == before.stage);
        match stage {
            Stage::Flush => {
                proof {
                    let zeros = Seq::new(
                        before.layout.index@.source_size as nat,
                        |i: int| 0u8,
                    );
                    let file = before.layout.file(zeros);
                    assert(file.len() == before.layout.final_size);
                    assert(before.layout.rest(before.stage, zeros).len() == 0);
                    assert(file.skip(before.written as int).len() == 0);
                }
                Ok(Action::Flush)
            },
            Stage::Copy { record, done } => {
                let range = self.layout.records[record].range;
                let left: u64 = range.length - done;
                let chunk: u64 = self.layout.limits.io_chunk_bytes as u64;
                let length: usize = if left < chunk {
                    left as usize
                } else {
                    self.layout.limits.io_chunk_bytes
                };
                proof {
                    lemma_layout_records(before.layout);
                    assert(before.layout.limits.valid());
                }
                let offset: u64 = range.offset + done;
                let upto: u64 = done + length as u64;
                if upto == range.length {
                    self.stage = Stage::LineEnd { record };
                } else {
                    self.stage = Stage::Copy { record, done: upto };
                }
                proof {
                    lemma_copied(before.layout, record, done, length, self.stage);
                    lemma_written_bound(before, length as nat);
                }
                self.written = self.written + length as u64;
                proof {
                    lemma_went_on(
                        before,
                        *self,
                        |source: Seq<u8>| source.subrange(offset as int, offset + length),
                        length as nat,
                    );
                }
                Ok(Action::Copy { offset, length })
            },
            _ => {
                let next = self.layout.fill(stage, buffer)?;
                self.stage = next;
                let length: u64 = buffer.len() as u64;
                proof {
                    lemma_remaining(before, buffer@, self.stage);
                }
                self.written = self.written + length;
                proof {
                    lemma_went_on(before, *self, |source: Seq<u8>| buffer@, buffer@.len());
                }
                Ok(Action::Write)
            },
        }
    }

    /// Report success, once everything is written and flushed, unless the
    /// conversion has been cancelled.
    pub fn finish(self, input_bytes_read: u64, cancelled: bool) -> (report: Result<
        ConversionReport,
        Error,
    >)
        requires
            self.well_formed(),
            self.stage is Complete,
        ensures
            report == (if cancelled {
                Err::<ConversionReport, Error>(Error::Cancelled)
            } else {
                Ok(self.layout.report(input_bytes_read))
            }),
            report is Ok <==> !cancelled,
            report matches Ok(report) ==> {
                &&& report.input_bytes_read == input_bytes_read
                &&& report.output_bytes_written == self.layout.final_size
                &&& report.pages_converted as nat == self.layout.plan.pages@.len()
                &&& report.bookmarks_written as nat == self.layout.bookmarks@.len()
            },
    {
        if cancelled {
            return Err(Error::Cancelled);
        }
        Ok(
            ConversionReport {
                input_bytes_read,
                output_bytes_written: self.layout.final_size,
                pages_converted: self.layout.plan.pages.len() as u32,
                bookmarks_written: self.layout.bookmarks.len() as u32,
            },
        )
    }
}

/// Copying a chunk leads on to the rest of the object.
proof fn lemma_copied(layout: Layout, record: usize, done: u64, length: usize, next: Stage)
    requires
        layout.well_formed(),
        layout.holds(Stage::Copy { record, done }),
        0 < length,
        done + length <= layout.records@[record as int].range.length,
        next == (if done + length == layout.records@[record as int].range.length {
            Stage::LineEnd { record }
        } else {
            Stage::Copy { record, done: (done + length) as u64 }
        }),
    ensures
        layout.holds(next),
        forall|source: Seq<u8>|
            source.len() == layout.index@.source_size ==> {
                let offset = layout.records@[record as int].range.offset + done;
                #[trigger] layout.rest(Stage::Copy { record, done }, source) == source.subrange(
                    offset,
                    offset + length,
                ) + layout.rest(next, source)
            },
{
    lemma_layout_records(layout);
    let range = layout.records@[record as int].range;
    let offset = range.offset + done;
    assert forall|source: Seq<u8>|
        source.len() == layout.index@.source_size implies #[trigger] layout.rest(
        Stage::Copy { record, done },
        source,
    ) == source.subrange(offset, offset + length) + layout.rest(next, source) by {
        let piece = source.subrange(offset, offset + length);
        let whole = source.subrange(offset, range.offset + range.length);
        let others = layout.from_object(record + 1, source);
        let after = source.subrange(offset + length, range.offset + range.length);
        assert(whole =~= piece + after);
        if done + length == range.length {
            assert(after =~= Seq::<u8>::empty());
            assert(whole.push(LF) + others =~= piece + (seq![LF] + others));
        } else {
            assert(whole.push(LF) + others =~= piece + (after.push(LF) + others));
        }
    }
}

/// No more can be written than the file holds.
proof fn lemma_written_bound(output: Output, length: nat)
    requires
        output.well_formed(),
        forall|source: Seq<u8>|
            source.len() == output.layout.index@.source_size ==> (#[trigger] output.layout.rest(
                output.stage,
                source,
            )).len() >= length,
    ensures
        output.written + length <= output.layout.final_size,
{
    let zeros = Seq::new(output.layout.index@.source_size as nat, |i: int| 0u8);
    let file = output.layout.file(zeros);
    assert(file.len() == output.layout.final_size);
    assert(output.layout.rest(output.stage, zeros).len() >= length);
    assert(file.skip(output.written as int).len() == file.len() - output.written);
}

proof fn lemma_remaining(output: Output, bytes: Seq<u8>, next: Stage)
    requires
        output.well_formed(),
        leads_on(output.layout, output.stage, bytes, next),
    ensures
        output.written + bytes.len() <= output.layout.final_size,
{
    lemma_written_bound(output, bytes.len());
}

} // verus!

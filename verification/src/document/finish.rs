//! Finishing a document.

use vstd::prelude::*;
use crate::document::bookmarks::{closing_steps, closing_text, outline_failed_error};
use crate::document::pages::{
    group, output_stopped, PdfDocument, Role, lemma_held_written, lemma_stopped_first,
    lemma_stopped_later,
};
use crate::document::texts::{
    document_catalog, document_catalog_pieces, pages_root, pages_root_pieces,
};
use crate::outline::{depths, link, lemma_levels_held};
use crate::outline_order::{first_root, last_root};
use crate::pieces::{joined, views};
use crate::text::{decimal, pdf_ref, pdf_ref_text, push_decimal, push_text, spelled};
use crate::types::{ConversionReport, Error, PdfRef};
use crate::writer::{
    all_written, object_steps, object_text, output_failure, passed, steps_refused, ObjectId,
    Progress, table_text, Step, XrefStage, XrefTable, lemma_passed_more, lemma_passed_none,
    lemma_refused_first, lemma_refused_later,
};

verus! {

/// The outline root.
pub open spec fn outline_root_text(first: PdfRef, last: PdfRef, count: nat) -> Seq<u8> {
    spelled("<< /Type /Outlines /First ") + pdf_ref_text(first) + spelled(" /Last ") + pdf_ref_text(
        last,
    ) + spelled(" /Count ") + decimal(count) + spelled(" >>")
}

/// The outline root.
fn outline_root(first: PdfRef, last: PdfRef, count: u32) -> (pieces: Vec<Vec<u8>>)
    ensures
        views(pieces@) == seq![outline_root_text(first, last, count as nat)],
{
    let mut text: Vec<u8> = Vec::new();
    push_text(&mut text, "<< /Type /Outlines /First ");
    pdf_ref(&mut text, first);
    push_text(&mut text, " /Last ");
    pdf_ref(&mut text, last);
    push_text(&mut text, " /Count ");
    push_decimal(&mut text, count as u64);
    push_text(&mut text, " >>");
    assert(text@ =~= outline_root_text(first, last, count as nat));
    let mut pieces: Vec<Vec<u8>> = Vec::new();
    pieces.push(text);
    assert(views(pieces@) =~= seq![outline_root_text(first, last, count as nat)]);
    pieces
}

impl PdfDocument {
    /// The nodes below the root of the page tree, once all are closed.
    pub open spec fn root_kids(self) -> Seq<ObjectId> {
        match self.middle {
            Some(middle) => self.root_children@.push(middle.id),
            None => self.root_children@,
        }
    }

    /// The root of the page tree.
    pub open spec fn tree_root_text(self) -> Seq<u8> {
        object_text(self.pages_root_id.number as int, joined(self.root_pieces(), 0))
    }

    /// The dictionary of the root, in pieces.
    pub open spec fn root_pieces(self) -> Seq<Seq<u8>> {
        pages_root_pieces(self.pages_written as nat, self.root_kids())
    }

    /// The steps of writing the root of the page tree.
    pub open spec fn root_steps(self) -> Seq<Step> {
        object_steps(self.pages_root_id.number as int, self.root_pieces())
    }

    /// What closes the page tree.
    pub open spec fn tree_text(self) -> Seq<u8> {
        self.leaf_text() + self.middle_text() + self.tree_root_text()
    }

    /// The steps of closing the page tree.
    pub open spec fn tree_steps(self) -> Seq<Step> {
        self.leaf_closing_steps() + self.middle_steps() + self.root_steps()
    }

    /// Close the page tree.
    fn close_page_tree(&mut self) -> (closed: Result<(), Error>)
        requires
            old(self).well_formed(),
        ensures
            final(self).writer.well_formed(),
            final(self).outline == old(self).outline,
            final(self).outline_failed == old(self).outline_failed,
            final(self).limits == old(self).limits,
            final(self).pages_written == old(self).pages_written,
            final(self).input_bytes_read == old(self).input_bytes_read,
            final(self).catalog_id == old(self).catalog_id,
            final(self).pages_root_id == old(self).pages_root_id,
            match closed {
                Ok(()) => {
                    &&& old(self).writer.unready() is None
                    &&& final(self).held_sound()
                    &&& final(self).tree_torn == old(self).tree_torn
                    &&& final(self).tree_closed@
                    &&& final(self).leaf is None
                    &&& final(self).middle is None
                    &&& !final(self).roles@.dom().contains(
                        old(self).pages_root_id.number as int,
                    )
                    &&& old(self).all_held() == final(self).all_held()
                    &&& final(self).writer.unready() is None
                    &&& final(self).writer.offsets@.len() == old(self).writer.offsets@.len()
                    &&& final(self).writer.written@ == old(self).writer.written@ + old(
                        self,
                    ).tree_text()
                    &&& passed(
                        old(self).writer.progress(),
                        old(self).tree_steps(),
                        final(self).writer.progress(),
                    )
                },
                Err(error) => {
                    output_stopped(
                        old(self).writer,
                        final(self).writer,
                        old(self).tree_steps(),
                        old(self).tree_text(),
                        error,
                    )
                },
            },
    {
        let ghost begin = *self;
        let ghost start = self.writer.progress();
        let ghost first = self.leaf_closing_steps();
        let ghost second = self.middle_steps();
        let ghost last = self.root_steps();
        let ghost one = self.leaf_text();
        let ghost two = self.middle_text();
        let ghost three = self.tree_root_text();
        assert(begin.writer.written@.is_prefix_of(begin.writer.written@ + begin.tree_text()));
        match self.close_leaf() {
            Ok(()) => {},
            Err(error) => {
                proof {
                    lemma_stopped_first(begin.writer, self.writer, first, second, one, two, error);
                    lemma_stopped_first(
                        begin.writer,
                        self.writer,
                        first + second,
                        last,
                        one + two,
                        three,
                        error,
                    );
                }
                return Err(error);
            },
        }
        let ghost leafless = *self;
        match self.close_middle() {
            Ok(()) => {},
            Err(error) => {
                proof {
                    if begin.writer.unready() is None {
                        lemma_stopped_later(
                            begin.writer,
                            leafless.writer,
                            self.writer,
                            first,
                            second,
                            one,
                            two,
                            error,
                        );
                        lemma_stopped_first(
                            begin.writer,
                            self.writer,
                            first + second,
                            last,
                            one + two,
                            three,
                            error,
                        );
                    }
                }
                return Err(error);
            },
        }
        let ghost closed = *self;
        proof {
            lemma_passed_more(
                start,
                first,
                leafless.writer.progress(),
                second,
                closed.writer.progress(),
            );
            assert(closed.writer.written@ =~= begin.writer.written@ + (one + two));
            assert(self.has_role(self.pages_root_id, Role::PagesRoot));
        }
        let pieces = pages_root(self.pages_written, &self.root_children);
        match self.writer.write_object(self.pages_root_id, &pieces) {
            Ok(()) => {},
            Err(error) => {
                proof {
                    if begin.writer.unready() is None {
                        lemma_stopped_later(
                            begin.writer,
                            closed.writer,
                            self.writer,
                            first + second,
                            last,
                            one + two,
                            three,
                            error,
                        );
                    }
                }
                return Err(error);
            },
        }
        self.roles = Ghost(self.roles@.remove(self.pages_root_id.number as int));
        self.tree_closed = Ghost(true);
        proof {
            lemma_held_written(closed, *self, closed.pages_root_id.number as int);
            lemma_passed_more(
                start,
                first + second,
                closed.writer.progress(),
                last,
                self.writer.progress(),
            );
            assert(self.writer.written@ =~= begin.writer.written@ + begin.tree_text());
        }
        Ok(())
    }
}

impl PdfDocument {
    /// The outline root as an object.
    pub open spec fn outline_root_object(self) -> Seq<u8> {
        object_text(
            self.outline.root_reference().number as int,
            joined(self.outline_root_pieces(), 0),
        )
    }

    /// The dictionary of the outline root: one piece.
    pub open spec fn outline_root_pieces(self) -> Seq<Seq<u8>> {
        let entries = self.outline.entries@;
        seq![
            outline_root_text(
                link(entries, first_root(depths(entries)))->0,
                link(entries, last_root(depths(entries)))->0,
                entries.len(),
            ),
        ]
    }

    /// What ends the outline: the open entries, and the root.
    pub open spec fn outline_text(self) -> Seq<u8> {
        self.open_entries_text() + (if self.outline.root is Some {
            self.outline_root_object()
        } else {
            Seq::empty()
        })
    }

    /// The open entries, as they are written at the end.
    pub open spec fn open_entries_text(self) -> Seq<u8> {
        closing_text(
            self.outline.entries@,
            self.outline.entries@,
            self.outline.root_reference(),
            self.outline.open@.len() as int,
            0,
        )
    }

    /// The steps of writing the open entries.
    pub open spec fn open_entries_steps(self) -> Seq<Step> {
        closing_steps(
            self.outline.entries@,
            self.outline.entries@,
            self.outline.root_reference(),
            self.outline.open@.len() as int,
            0,
        )
    }

    /// The steps of ending the outline.
    pub open spec fn outline_steps(self) -> Seq<Step> {
        self.open_entries_steps() + (if self.outline.root is Some {
            object_steps(
                self.outline.root_reference().number as int,
                self.outline_root_pieces(),
            )
        } else {
            Seq::empty()
        })
    }

    /// Why there can be no outline root.
    pub open spec fn root_refusal(self) -> Option<Error> {
        if self.outline.root is Some && self.outline.entries@.len() == 0 {
            Some(Error::InvalidInput { reason: "outline root has no first child" })
        } else {
            None
        }
    }

    /// Whether the catalog is the one object that is still held.
    pub open spec fn catalog_left(self) -> bool {
        &&& self.writer.well_formed()
        &&& self.writer.limits == self.limits
        &&& self.writer.unready() is None
        &&& self.writer.is_unwritten(self.catalog_id)
        &&& self.roles@.dom().contains(self.catalog_id.number as int)
        &&& forall|n: int| #[trigger]
            self.roles@.dom().contains(n) ==> n == self.catalog_id.number
    }

    /// Write the open entries and the outline root.
    fn close_outline(&mut self) -> (closed: Result<(), Error>)
        requires
            old(self).held_sound(),
            old(self).tree_closed@,
            old(self).leaf is None,
            old(self).middle is None,
            !old(self).roles@.dom().contains(old(self).pages_root_id.number as int),
            !old(self).outline_failed,
            old(self).writer.unready() is None,
        ensures
            final(self).writer.well_formed(),
            final(self).outline.root == old(self).outline.root,
            final(self).outline.count == old(self).outline.count,
            final(self).same_pages(*old(self)),
            match closed {
                Ok(()) => {
                    &&& old(self).root_refusal() is None
                    &&& final(self).catalog_left()
                    &&& old(self).all_held() == final(self).all_held()
                    &&& final(self).writer.offsets@.len() == old(self).writer.offsets@.len()
                    &&& final(self).writer.written@ == old(self).writer.written@ + old(
                        self,
                    ).outline_text()
                    &&& passed(
                        old(self).writer.progress(),
                        old(self).outline_steps(),
                        final(self).writer.progress(),
                    )
                },
                Err(error) => {
                    match old(self).root_refusal() {
                        Some(refusal) => {
                            &&& error == refusal
                            &&& final(self).writer.written@ == old(self).writer.written@
                            &&& final(self).writer.progress() == old(self).writer.progress()
                        },
                        None => output_stopped(
                            old(self).writer,
                            final(self).writer,
                            old(self).outline_steps(),
                            old(self).outline_text(),
                            error,
                        ),
                    }
                },
            },
    {
        let ghost begin = *self;
        let ghost start = self.writer.progress();
        let ghost entries = self.outline.entries@;
        let ghost first = self.open_entries_steps();
        let ghost all = self.outline_steps();
        let ghost second = all.skip(first.len() as int);
        proof {
            lemma_levels_held(self.outline);
            assert(all =~= first + second);
            if entries.len() == 0 {
                assert(self.outline.open@.len() == 0);
                assert(first =~= Seq::<Step>::empty());
                lemma_passed_none(start);
            }
        }
        match self.close_entries(0, None, Ghost(entries)) {
            Ok(()) => {},
            Err(error) => {
                proof {
                    if entries.len() == 0 {
                        lemma_none_refused(start, error, self.writer.progress());
                    }
                    lemma_refused_first(start, first, second, error, self.writer.progress());
                }
                return Err(error);
            },
        }
        let ghost closed = *self;
        proof {
            lemma_levels_held(self.outline);
            assert(begin.all_held() == begin.held_but(0));
            assert(closed.all_held() == closed.held_but(0));
            assert(begin.writer.written@.is_prefix_of(closed.writer.written@));
        }
        if let Some(root) = self.outline.root {
            let first_child: PdfRef = match self.outline.first {
                Some(child) => child,
                None => {
                    assert(closed.writer.written@ =~= begin.writer.written@);
                    return Err(
                        Error::InvalidInput { reason: "outline root has no first child" },
                    );
                },
            };
            let last_child: PdfRef = match self.outline.last {
                Some(child) => child,
                None => {
                    return Err(Error::InvalidInput { reason: "outline root has no last child" });
                },
            };
            assert(second =~= object_steps(root.number as int, begin.outline_root_pieces()));
            let pieces = outline_root(first_child, last_child, self.outline.count);
            let id = ObjectId { number: root.number };
            assert(self.has_role(id, Role::OutlineRoot));
            match self.writer.write_object(id, &pieces) {
                Ok(()) => {},
                Err(error) => {
                    proof {
                        lemma_refused_later(start, first, second, error, self.writer.progress());
                        assert(begin.writer.written@.is_prefix_of(self.writer.written@));
                    }
                    return Err(error);
                },
            }
            self.roles = Ghost(self.roles@.remove(id.number as int));
            proof {
                lemma_held_written(closed, *self, id.number as int);
                lemma_passed_more(
                    start,
                    first,
                    closed.writer.progress(),
                    second,
                    self.writer.progress(),
                );
                assert(self.writer.written@ =~= begin.writer.written@ + begin.outline_text());
            }
        } else {
            proof {
                assert(second =~= Seq::<Step>::empty());
                assert(all =~= first);
                assert(self.writer.written@ =~= begin.writer.written@ + begin.outline_text());
            }
        }
        proof {
            assert(self.has_role(self.catalog_id, Role::Catalog));
            assert forall|n: int| #[trigger] self.roles@.dom().contains(n) implies n
                == self.catalog_id.number by {
                assert(closed.roles@.dom().contains(n));
                assert(closed.serves(n, closed.roles@[n]));
                assert(begin.roles@.dom().contains(n));
            }
        }
        Ok(())
    }
}

/// Where there is no step, none is refused.
proof fn lemma_none_refused(progress: Progress, error: Error, reached: Progress)
    ensures
        !steps_refused(progress, Seq::empty(), error, reached),
{
    reveal(steps_refused);
}

impl PdfDocument {
    /// The catalog as an object.
    pub open spec fn catalog_object(self) -> Seq<u8> {
        object_text(self.catalog_id.number as int, joined(self.catalog_pieces(), 0))
    }

    /// The dictionary of the catalog, in pieces.
    pub open spec fn catalog_pieces(self) -> Seq<Seq<u8>> {
        document_catalog_pieces(
            self.pages_root_id,
            match self.outline.root {
                Some(root) => Some(root.number),
                None => None,
            },
        )
    }

    /// The steps of writing the catalog.
    pub open spec fn catalog_steps(self) -> Seq<Step> {
        object_steps(self.catalog_id.number as int, self.catalog_pieces())
    }

    /// What is written at the end, but for the xref table.
    pub open spec fn finish_text(self) -> Seq<u8> {
        self.tree_text() + self.outline_text() + self.catalog_object()
    }

    /// The steps of writing it.
    pub open spec fn finish_steps(self) -> Seq<Step> {
        self.tree_steps() + self.outline_steps() + self.catalog_steps()
    }

    /// Why a document cannot be finished, whatever its output takes.
    pub open spec fn finish_refusal(self) -> Option<Error> {
        if self.pages_written == 0 {
            Some(Error::InvalidInput { reason: "PDF document requires at least one page" })
        } else if self.outline_failed {
            Some(outline_failed_error())
        } else {
            None
        }
    }

    /// Whether an error keeps a document from being finished.
    pub open spec fn finish_refused(self, other: Self, error: Error) -> bool {
        let start = self.writer.progress();
        match self.finish_refusal() {
            Some(refusal) => error == refusal && other == self,
            None => {
                ||| self.output_refused(other, error)
                ||| {
                    &&& self.writer.unready() is None
                    &&& self.root_refusal() is None
                    &&& passed(start, self.finish_steps(), other.writer.progress())
                    &&& other.writer.written@ == self.writer.written@ + self.finish_text()
                    &&& self.all_held() == all_written(other.writer.offsets@)
                    &&& other.catalog_id == self.catalog_id
                    &&& other.writer.unready() is None
                    &&& other.writer.finish_failure(self.catalog_id) == Some(error)
                }
            },
        }
    }

    /// Whether an error comes before the xref table.
    pub open spec fn output_refused(self, other: Self, error: Error) -> bool {
        let start = self.writer.progress();
        match self.root_refusal() {
            Some(refusal) => {
                ||| output_stopped(
                    self.writer,
                    other.writer,
                    self.tree_steps(),
                    self.tree_text(),
                    error,
                )
                ||| {
                    &&& error == refusal
                    &&& self.writer.unready() is None
                    &&& passed(start, self.tree_steps(), other.writer.progress())
                    &&& other.writer.written@ == self.writer.written@ + self.tree_text()
                }
            },
            None => output_stopped(
                self.writer,
                other.writer,
                self.finish_steps(),
                self.finish_text(),
                error,
            ),
        }
    }

    /// Write the catalog.
    fn write_catalog(&mut self) -> (wrote: Result<(), Error>)
        requires
            old(self).catalog_left(),
        ensures
            final(self).writer.well_formed(),
            final(self).same_pages(*old(self)),
            final(self).outline == old(self).outline,
            match wrote {
                Ok(()) => {
                    &&& passed(
                        old(self).writer.progress(),
                        old(self).catalog_steps(),
                        final(self).writer.progress(),
                    )
                    &&& final(self).writer.unready() is None
                    &&& old(self).all_held() == all_written(final(self).writer.offsets@)
                    &&& final(self).writer.limits == old(self).limits
                    &&& final(self).writer.offsets@.len() == old(self).writer.offsets@.len()
                    &&& final(self).writer.written@ == old(self).writer.written@ + old(
                        self,
                    ).catalog_object()
                },
                Err(error) => {
                    output_stopped(
                        old(self).writer,
                        final(self).writer,
                        old(self).catalog_steps(),
                        old(self).catalog_object(),
                        error,
                    )
                },
            },
    {
        let ghost begin = *self;
        let outlines: Option<u32> = match self.outline.root {
            Some(root) => Some(root.number),
            None => None,
        };
        let pieces = document_catalog(self.pages_root_id, outlines);
        self.writer.write_object(self.catalog_id, &pieces)?;
        proof {
            if begin.all_held() {
                assert forall|i: int| 0 <= i < self.writer.offsets@.len() implies (
                #[trigger] self.writer.offsets@[i]) is Some by {
                    if begin.writer.offsets@[i] is None {
                        assert(begin.roles@.dom().contains(i + 1));
                    }
                }
            }
            if all_written(self.writer.offsets@) {
                assert forall|i: int|
                    #![trigger begin.writer.offsets@[i]]
                    0 <= i < begin.writer.offsets@.len() && begin.writer.offsets@[i]
                        is None implies begin.roles@.dom().contains(i + 1) by {
                    assert(self.writer.offsets@[i] is Some);
                }
            }
        }
        Ok(())
    }

    /// Write the remaining page tree, outlines, and catalog, and begin the xref
    /// table. The file is complete once the table has been written.
    pub fn finish(&mut self) -> (finished: Result<XrefTable, Error>)
        requires
            old(self).well_formed(),
        ensures
            final(self).writer.well_formed(),
            final(self).pages_written == old(self).pages_written,
            final(self).outline.count == old(self).outline.count,
            final(self).input_bytes_read == old(self).input_bytes_read,
            match finished {
                Ok(table) => {
                    &&& old(self).finish_refusal() is None
                    &&& old(self).writer.unready() is None
                    &&& old(self).root_refusal() is None
                    &&& old(self).all_held()
                    &&& table == (XrefTable {
                        catalog: old(self).catalog_id,
                        start: final(self).writer.position,
                        stage: XrefStage::Header,
                    })
                    &&& table.fits(final(self).writer)
                    &&& !final(self).writer.poisoned
                    &&& final(self).writer.written@ == old(self).writer.written@ + old(
                        self,
                    ).finish_text()
                    &&& passed(
                        old(self).writer.progress(),
                        old(self).finish_steps(),
                        final(self).writer.progress(),
                    )
                },
                Err(error) => old(self).finish_refused(*final(self), error),
            },
    {
        if self.pages_written == 0 {
            return Err(Error::InvalidInput { reason: "PDF document requires at least one page" });
        }
        if self.outline_failed {
            return Err(
                Error::InvalidInput {
                    reason: "PDF outline cannot continue after a failed bookmark operation",
                },
            );
        }
        let ghost begin = *self;
        let ghost start = self.writer.progress();
        let ghost first = self.tree_steps();
        let ghost second = self.outline_steps();
        let ghost last = self.catalog_steps();
        let ghost one = self.tree_text();
        let ghost two = self.outline_text();
        let ghost three = self.catalog_object();
        match self.close_page_tree() {
            Ok(()) => {},
            Err(error) => {
                proof {
                    lemma_stopped_first(begin.writer, self.writer, first, second, one, two, error);
                    lemma_stopped_first(
                        begin.writer,
                        self.writer,
                        first + second,
                        last,
                        one + two,
                        three,
                        error,
                    );
                }
                return Err(error);
            },
        }
        let ghost treed = *self;
        assert(treed.outline_steps() == second && treed.outline_text() == two);
        match self.close_outline() {
            Ok(()) => {},
            Err(error) => {
                proof {
                    if begin.root_refusal() is None {
                        lemma_stopped_later(
                            begin.writer,
                            treed.writer,
                            self.writer,
                            first,
                            second,
                            one,
                            two,
                            error,
                        );
                        lemma_stopped_first(
                            begin.writer,
                            self.writer,
                            first + second,
                            last,
                            one + two,
                            three,
                            error,
                        );
                    }
                }
                return Err(error);
            },
        }
        let ghost outlined = *self;
        proof {
            lemma_passed_more(
                start,
                first,
                treed.writer.progress(),
                second,
                outlined.writer.progress(),
            );
            assert(outlined.catalog_object() == begin.catalog_object());
        }
        match self.write_catalog() {
            Ok(()) => {},
            Err(error) => {
                proof {
                    assert(outlined.writer.written@ =~= begin.writer.written@ + (one + two));
                    lemma_stopped_later(
                        begin.writer,
                        outlined.writer,
                        self.writer,
                        first + second,
                        last,
                        one + two,
                        three,
                        error,
                    );
                }
                return Err(error);
            },
        }
        proof {
            lemma_passed_more(
                start,
                first + second,
                outlined.writer.progress(),
                last,
                self.writer.progress(),
            );
            lemma_three_texts(
                begin.writer.written@,
                begin.tree_text(),
                begin.outline_text(),
                begin.catalog_object(),
            );
        }
        self.writer.finish(self.catalog_id)
    }

    /// What was written, once the output has been flushed.
    pub fn report(&self, cancelled: bool) -> (report: Result<ConversionReport, Error>)
        ensures
            report == if cancelled {
                Err::<ConversionReport, Error>(Error::Cancelled)
            } else {
                Ok(
                    ConversionReport {
                        input_bytes_read: self.input_bytes_read,
                        output_bytes_written: self.writer.position,
                        pages_converted: self.pages_written,
                        bookmarks_written: self.outline.count,
                    },
                )
            },
    {
        if cancelled {
            return Err(Error::Cancelled);
        }
        Ok(
            ConversionReport {
                input_bytes_read: self.input_bytes_read,
                output_bytes_written: self.writer.position,
                pages_converted: self.pages_written,
                bookmarks_written: self.outline.count,
            },
        )
    }
}

proof fn lemma_three_texts(start: Seq<u8>, first: Seq<u8>, second: Seq<u8>, third: Seq<u8>)
    ensures
        start + first + second + third == start + (first + second + third),
{
    assert(start + first + second + third =~= start + (first + second + third));
}

/// The leaves list the pages in order: page `k` is child `k % 256` of leaf
/// `k / 256`.
pub proof fn law_every_page_has_its_place(pages: Seq<ObjectId>, k: int)
    requires
        0 <= k < pages.len(),
    ensures
        0 <= k % 256 < group(pages, k / 256).len(),
        group(pages, k / 256)[k % 256] == pages[k],
{
}

/// The children of a full node stay the same whatever is added later.
pub proof fn law_full_groups_are_final(items: Seq<ObjectId>, added: ObjectId, i: int)
    requires
        0 <= i,
        256 * (i + 1) <= items.len(),
    ensures
        group(items.push(added), i) == group(items, i),
        group(items, i).len() == 256,
{
    assert(group(items.push(added), i) =~= group(items, i));
}

/// When a document is finished, the root of its page tree lists every node
/// below it in order, and the pages below them are all the pages.
pub proof fn law_root_covers_every_page(document: PdfDocument)
    requires
        document.well_formed(),
        !document.tree_torn@,
    ensures
        document.root_kids() == document.middle_ids@,
        document.pages_written == document.page_ids@.len(),
        document.pages_written == (match document.middle {
            Some(middle) => 65_536 * (document.root_kids().len() - 1) + middle.page_count,
            None => 65_536 * document.root_kids().len() as int,
        }),
        document.leaf matches Some(leaf) ==> leaf.children@ == group(
            document.page_ids@,
            document.leaf_ids@.len() - 1,
        ),
        document.middle matches Some(middle) ==> middle.children@ == group(
            document.leaf_ids@,
            document.middle_ids@.len() - 1,
        ),
{
    if document.middle is Some {
        let middles = document.middle_ids@;
        assert(middles.drop_last().push(middles.last()) =~= middles);
    }
}

/// A document with a page whose operations all succeeded is finished unless the
/// output limits or the memory do not allow it.
pub proof fn law_complete_document_finishes(
    document: PdfDocument,
    other: PdfDocument,
    error: Error,
)
    requires
        document.well_formed(),
        document.all_held(),
        !document.outline_failed,
        document.pages_written > 0,
        document.writer.unready() is None,
        document.outline.entries@.len() > 0 || document.outline.root is None,
        document.finish_refused(other, error),
    ensures
        steps_refused(
            document.writer.progress(),
            document.finish_steps(),
            error,
            other.writer.progress(),
        ) || output_failure(
            other.writer.limits,
            other.writer.position as int,
            table_text(other.writer.offsets@, document.catalog_id, other.writer.position).len(),
        ) == Some(error),
{
}

} // verus!

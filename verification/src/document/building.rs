//! Adding pages.

use vstd::prelude::*;
use crate::document::emit::page_bytes;
use crate::document::image::ImageObject;
use crate::document::pages::{
    next_page_failure, output_grew, output_stopped, PdfDocument, MAX_TREE_PAGES,
};
use crate::document::texts::{page_number_failure, pdf_page_number, points_text, PageSpec};
use crate::types::{first_failure, Error};
use crate::writer::{
    passed, steps_refused, ObjectId, Step, lemma_passed_more, lemma_refused_first,
    lemma_refused_later,
};

verus! {

impl PdfDocument {
    /// Why the document takes no further page, whatever its content.
    pub open spec fn page_room_failure(self) -> Option<Error> {
        first_failure(
            next_page_failure(self.pages_written, self.limits),
            self.page_index_refusal(),
        )
    }

    /// Why a page is refused before anything is written.
    pub open spec fn page_refusal(self, page: PageSpec, images: nat) -> Option<Error> {
        if images == 0 {
            Some(Error::InvalidInput { reason: "PDF page requires at least one image" })
        } else {
            first_failure(
                page_number_failure(page.width_micropoints),
                first_failure(
                    page_number_failure(page.height_micropoints),
                    self.page_room_failure(),
                ),
            )
        }
    }

    /// The leaf that the next page belongs to.
    pub open spec fn next_leaf(self) -> ObjectId {
        ObjectId { number: self.leaf_number() as u32 }
    }

    /// The steps of adding a page.
    pub open spec fn page_adding_steps(self, page: PageSpec, images: Seq<ImageObject>) -> Seq<
        Step,
    > {
        self.leaf_steps() + self.push_steps(
            self.leaf_base(),
            self.next_leaf(),
            points_text(page.width_micropoints),
            points_text(page.height_micropoints),
            images,
            self.leaf_siblings(),
        )
    }

    /// What adding a page writes: the nodes that it closes, and the page.
    pub open spec fn page_adding_text(self, page: PageSpec, images: Seq<ImageObject>) -> Seq<u8> {
        self.closed_nodes_text() + page_bytes(
            self.leaf_base(),
            self.next_leaf(),
            points_text(page.width_micropoints),
            points_text(page.height_micropoints),
            images,
        )
    }

    /// Make room for a page: in the index of pages, and in the page tree.
    pub(crate) fn prepare_page(&mut self) -> (prepared: Result<(), Error>)
        requires
            old(self).well_formed(),
        ensures
            final(self).well_formed(),
            final(self).same_content(*old(self)),
            final(self).writer.stream == old(self).writer.stream,
            match prepared {
                Ok(()) => {
                    &&& old(self).page_room_failure() is None
                    &&& old(self).needs_leaf() ==> old(self).writer.unready() is None
                    &&& old(self).all_held() ==> final(self).all_held()
                    &&& final(self).pages_written < MAX_TREE_PAGES
                    &&& !final(self).needs_leaf()
                    &&& final(self).leaf->0.id == old(self).next_leaf()
                    &&& final(self).leaf->0.children@.len() == old(self).leaf_siblings()
                    &&& final(self).writer.offsets@.len() == old(self).leaf_base()
                    &&& final(self).tree_torn == old(self).tree_torn
                    &&& final(self).writer.written@ == old(self).writer.written@ + old(
                        self,
                    ).closed_nodes_text()
                    &&& final(self).writer.poisoned == old(self).writer.poisoned
                    &&& final(self).writer.object_open == old(self).writer.object_open
                    &&& passed(
                        old(self).writer.progress(),
                        old(self).leaf_steps(),
                        final(self).writer.progress(),
                    )
                },
                Err(error) => {
                    &&& output_grew(old(self).writer, final(self).writer)
                    &&& match old(self).page_room_failure() {
                        Some(refusal) => error == refusal && final(self).writer == old(
                            self,
                        ).writer && final(self).same_nodes(*old(self)),
                        None => {
                            ||| old(self).page_index_starved(error) && final(self).writer == old(
                                self,
                            ).writer
                            ||| output_stopped(
                                old(self).writer,
                                final(self).writer,
                                old(self).leaf_steps(),
                                old(self).closed_nodes_text(),
                                error,
                            )
                        },
                    }
                },
            },
    {
        self.check_next_page()?;
        self.reserve_page_index_slot()?;
        self.ensure_leaf()
    }

    /// Add a page showing previously finished images and return its zero-based
    /// page index. Each image is scaled to fill the whole page, drawn in slice
    /// order, so a later image paints over an earlier one.
    pub fn add_page(&mut self, page: PageSpec, images: &[ImageObject]) -> (added: Result<
        u32,
        Error,
    >)
        requires
            old(self).well_formed(),
        ensures
            final(self).well_formed(),
            final(self).input_bytes_read == old(self).input_bytes_read,
            match added {
                Ok(index) => {
                    &&& old(self).page_refusal(page, images@.len()) is None
                    &&& old(self).writer.unready() is None
                    &&& index == old(self).pages_written
                    &&& old(self).all_held() ==> final(self).all_held()
                    &&& old(self).with_page(
                        *final(self),
                        ObjectId { number: (old(self).leaf_base() + 3) as u32 },
                    )
                    &&& final(self).writer.written@ == old(self).writer.written@ + old(
                        self,
                    ).page_adding_text(page, images@)
                    &&& final(self).writer.unready() is None
                    &&& passed(
                        old(self).writer.progress(),
                        old(self).page_adding_steps(page, images@),
                        final(self).writer.progress(),
                    )
                },
                Err(error) => {
                    &&& final(self).same_content(*old(self))
                    &&& output_grew(old(self).writer, final(self).writer)
                    &&& match old(self).page_refusal(page, images@.len()) {
                        Some(refusal) => error == refusal && final(self).writer == old(
                            self,
                        ).writer && final(self).same_nodes(*old(self)),
                        None => {
                            ||| old(self).page_index_starved(error) && final(self).writer == old(
                                self,
                            ).writer
                            ||| output_stopped(
                                old(self).writer,
                                final(self).writer,
                                old(self).page_adding_steps(page, images@),
                                old(self).page_adding_text(page, images@),
                                error,
                            )
                        },
                    }
                },
            },
    {
        if images.len() == 0 {
            return Err(Error::InvalidInput { reason: "PDF page requires at least one image" });
        }
        let width = pdf_page_number(page.width_micropoints)?;
        let height = pdf_page_number(page.height_micropoints)?;
        let ghost before = *self;
        let ghost start = self.writer.progress();
        let ghost second = self.push_steps(
            self.leaf_base(),
            self.next_leaf(),
            width@,
            height@,
            images@,
            self.leaf_siblings(),
        );
        match self.prepare_page() {
            Ok(()) => {},
            Err(error) => {
                proof {
                    if before.page_room_failure() is None && before.writer.unready() is None
                        && steps_refused(start, before.leaf_steps(), error, self.writer.progress()) {
                        lemma_refused_first(
                            start,
                            before.leaf_steps(),
                            second,
                            error,
                            self.writer.progress(),
                        );
                    }
                }
                return Err(error);
            },
        }
        let ghost ready = *self;
        let pushed = self.push_page(&width, &height, images);
        proof {
            match pushed {
                Ok(_) => {
                    lemma_passed_more(
                        start,
                        before.leaf_steps(),
                        ready.writer.progress(),
                        second,
                        self.writer.progress(),
                    );
                    assert(self.writer.written@ =~= before.writer.written@
                        + before.page_adding_text(page, images@));
                },
                Err(error) => {
                    if ready.writer.unready() is None {
                        lemma_refused_later(
                            start,
                            before.leaf_steps(),
                            second,
                            error,
                            self.writer.progress(),
                        );
                    }
                    assert(before.writer.written@.is_prefix_of(self.writer.written@));
                },
            }
        }
        pushed
    }
}

} // verus!

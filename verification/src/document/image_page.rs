//! Pages that show one image, whose bytes arrive in chunks.

use vstd::prelude::*;
use crate::counting::{count_read, read_failure};
use crate::document::emit::{page_bytes, places_kept};
use crate::document::image::{range_failure, validate_image_range, ImageObject, ImageSpec};
use crate::document::pages::{
    output_grew, output_stopped, PdfDocument, MAX_TREE_PAGES, lemma_roles_kept, lemma_still_held,
};
use crate::document::texts::{page_number_failure, pdf_page_number, points_text, PageSpec};
use crate::fallible::{allocator_refused, reserve_exact};
use crate::types::{first_failure, is_output_limit, outcome, Error, Limits, MAX_PDF_INTEGER};
use crate::writer::{
    passed, steps_refused, stream_end_text, stream_start_text, writer_failed, ObjectId,
    OpenStream, PdfWriter, Step, lemma_passed_more, lemma_passed_none, lemma_passed_one,
    lemma_refused_at, lemma_refused_first, lemma_refused_later,
};

verus! {

/// The steps of opening an image stream, numbered after `base`.
pub open spec fn image_steps(base: int, dictionary: Seq<u8>) -> Seq<Step> {
    seq![
        Step::Reserve,
        Step::Reserve,
        Step::Write { length: stream_start_text(base + 1, base + 2, dictionary).len() },
    ]
}

/// Open an image stream.
pub(crate) fn begin_image(writer: &mut PdfWriter, dictionary: &Vec<u8>) -> (begun: Result<
    ObjectId,
    Error,
>)
    requires
        old(writer).well_formed(),
    ensures
        ({
            let base = old(writer).offsets@.len() as int;
            let steps = image_steps(base, dictionary@);
            &&& places_kept(*old(writer), *final(writer))
            &&& match begun {
                Ok(image) => {
                    &&& old(writer).unready() is None
                    &&& image.number == base + 1
                    &&& final(writer).stream == Some(
                        OpenStream {
                            id: image,
                            length_id: ObjectId { number: (base + 2) as u32 },
                            length: 0,
                        },
                    )
                    &&& !final(writer).poisoned
                    &&& final(writer).offsets@.len() == base + 2
                    &&& final(writer).offsets@[base] is Some
                    &&& final(writer).written@ == old(writer).written@ + stream_start_text(
                        base + 1,
                        base + 2,
                        dictionary@,
                    )
                    &&& passed(old(writer).progress(), steps, final(writer).progress())
                },
                Err(error) => {
                    &&& output_stopped(
                        *old(writer),
                        *final(writer),
                        steps,
                        stream_start_text(base + 1, base + 2, dictionary@),
                        error,
                    )
                },
            }
        }),
{
    let ghost begin = *writer;
    let ghost start = writer.progress();
    let ghost base = writer.offsets@.len() as int;
    let ghost all = image_steps(base, dictionary@);
    let ghost write = all[2];
    let ghost one = seq![Step::Reserve];
    let ghost two = seq![Step::Reserve, Step::Reserve];
    proof {
        lemma_passed_none(start);
        assert(all =~= Seq::<Step>::empty() + one + seq![Step::Reserve, write]);
        assert(all =~= one + one + seq![write]);
        assert(all =~= two + seq![write] + Seq::<Step>::empty());
        assert(one + one =~= two);
        assert(all =~= two + seq![write]);
        assert(begin.offsets@.take(base) =~= begin.offsets@);
    }
    let image = match writer.reserve_object() {
        Ok(id) => id,
        Err(error) => {
            proof {
                if begin.unready() is None {
                    lemma_refused_at(
                        start,
                        Seq::empty(),
                        start,
                        Step::Reserve,
                        seq![Step::Reserve, write],
                        all,
                        error,
                    );
                }
            }
            return Err(error);
        },
    };
    let ghost first = writer.progress();
    proof {
        lemma_passed_one(start, Step::Reserve);
        assert(writer.offsets@.take(base) =~= begin.offsets@);
    }
    let length = match writer.reserve_object() {
        Ok(id) => id,
        Err(error) => {
            proof {
                lemma_refused_at(start, one, first, Step::Reserve, seq![write], all, error);
            }
            return Err(error);
        },
    };
    let ghost second = writer.progress();
    proof {
        lemma_passed_one(first, Step::Reserve);
        lemma_passed_more(start, one, first, one, second);
        assert(writer.offsets@.take(base) =~= begin.offsets@);
    }
    match writer.begin_stream(image, length, dictionary) {
        Ok(()) => {},
        Err(error) => {
            proof {
                lemma_refused_at(start, two, second, write, Seq::empty(), all, error);
                assert(writer.offsets@.take(base) =~= begin.offsets@);
            }
            return Err(error);
        },
    }
    proof {
        lemma_passed_one(second, write);
        lemma_passed_more(start, two, second, seq![write], writer.progress());
        assert(writer.offsets@.take(base) =~= begin.offsets@);
    }
    Ok(image)
}

/// A page whose image is being written.
pub struct ImagePage {
    pub image: ObjectId,
    pub width: Vec<u8>,
    pub height: Vec<u8>,
    pub offset: u64,
    pub length: u64,
    pub done: u64,
    pub before: Ghost<Seq<u8>>,
    pub taken: Ghost<Seq<u8>>,
}

impl ImagePage {
    /// Whether the image is the open stream of a document, and holds the bytes
    /// that were taken so far.
    pub open spec fn open_in(self, document: PdfDocument) -> bool {
        &&& document.well_formed()
        &&& document.writer.stream == Some(
            OpenStream {
                id: self.image,
                length_id: ObjectId { number: (self.image.number + 1) as u32 },
                length: self.done,
            },
        )
        &&& document.writer.offsets@.len() == self.image.number + 1
        &&& !document.roles@.dom().contains(self.image.number + 1)
        &&& document.writer.written@ == self.before@ + self.taken@
        &&& self.taken@.len() == self.done
        &&& self.done <= self.length <= MAX_PDF_INTEGER
        &&& self.offset + self.length <= u64::MAX
        &&& !document.needs_leaf()
        &&& document.pages_written < MAX_TREE_PAGES
    }
}

/// How many bytes of an image are read at a time.
pub open spec fn image_chunk(length: u64, limits: Limits) -> int {
    if length < limits.io_chunk_bytes {
        length as int
    } else {
        limits.io_chunk_bytes as int
    }
}

impl PdfDocument {
    /// Why a page with one image is refused before anything is written.
    pub open spec fn image_page_refusal(
        self,
        source_size: u64,
        offset: u64,
        length: u64,
        page: PageSpec,
        image: ImageSpec,
    ) -> Option<Error> {
        first_failure(
            self.image_failure(source_size, offset, length, page, image),
            self.page_room_failure(),
        )
    }

    /// The steps of beginning a page with one image.
    pub open spec fn image_page_steps(self, image: ImageSpec) -> Seq<Step> {
        self.leaf_steps() + image_steps(self.leaf_base(), image.dictionary_text())
    }

    /// What is written before the bytes of an image.
    pub open spec fn image_page_text(self, image: ImageSpec) -> Seq<u8> {
        self.closed_nodes_text() + stream_start_text(
            self.leaf_base() + 1,
            self.leaf_base() + 2,
            image.dictionary_text(),
        )
    }

    /// Why the declared image cannot fill a page.
    pub open spec fn image_failure(
        self,
        source_size: u64,
        offset: u64,
        length: u64,
        page: PageSpec,
        image: ImageSpec,
    ) -> Option<Error> {
        first_failure(
            page_number_failure(page.width_micropoints),
            first_failure(
                page_number_failure(page.height_micropoints),
                first_failure(
                    image.failure(length),
                    range_failure(
                        self.limits,
                        self.input_bytes_read,
                        source_size,
                        offset,
                        length,
                    ),
                ),
            ),
        )
    }

    /// Check a declared image, and spell the dimensions of its page.
    fn check_image(
        &self,
        source_size: u64,
        offset: u64,
        length: u64,
        page: PageSpec,
        image: ImageSpec,
    ) -> (checked: Result<(Vec<u8>, Vec<u8>), Error>)
        ensures
            match self.image_failure(source_size, offset, length, page, image) {
                Some(failure) => checked == Err::<(Vec<u8>, Vec<u8>), Error>(failure),
                None => {
                    &&& checked is Ok
                    &&& checked->Ok_0.0@ == points_text(page.width_micropoints)
                    &&& checked->Ok_0.1@ == points_text(page.height_micropoints)
                },
            },
    {
        let width = pdf_page_number(page.width_micropoints)?;
        let height = pdf_page_number(page.height_micropoints)?;
        image.validate(length)?;
        validate_image_range(&self.limits, self.input_bytes_read, source_size, offset, length)?;
        Ok((width, height))
    }

    /// Make room for a page, and open the stream of its image.
    fn open_image(&mut self, image: ImageSpec) -> (opened: Result<ObjectId, Error>)
        requires
            old(self).well_formed(),
        ensures
            final(self).well_formed(),
            final(self).same_content(*old(self)),
            match opened {
                Ok(id) => {
                    &&& old(self).page_room_failure() is None
                    &&& old(self).writer.unready() is None
                    &&& id.number == old(self).leaf_base() + 1
                    &&& final(self).writer.stream == Some(
                        OpenStream {
                            id,
                            length_id: ObjectId { number: (id.number + 1) as u32 },
                            length: 0,
                        },
                    )
                    &&& final(self).writer.offsets@.len() == id.number + 1
                    &&& !final(self).roles@.dom().contains(id.number + 1)
                    &&& final(self).writer.written@ == old(self).writer.written@ + old(
                        self,
                    ).image_page_text(image)
                    &&& !final(self).writer.poisoned
                    &&& old(self).all_held() ==> final(self).all_held()
                    &&& !final(self).needs_leaf()
                    &&& final(self).pages_written < MAX_TREE_PAGES
                    &&& final(self).leaf->0.id == old(self).next_leaf()
                    &&& final(self).tree_torn == old(self).tree_torn
                    &&& passed(
                        old(self).writer.progress(),
                        old(self).image_page_steps(image),
                        final(self).writer.progress(),
                    )
                },
                Err(error) => {
                    &&& output_grew(old(self).writer, final(self).writer)
                    &&& match old(self).page_room_failure() {
                        Some(refusal) => error == refusal && final(self).writer == old(
                            self,
                        ).writer && final(self).same_nodes(*old(self)),
                        None => old(self).image_page_refused(*final(self), image, error),
                    }
                },
            },
    {
        let ghost before = *self;
        let ghost start = self.writer.progress();
        let ghost first = self.leaf_steps();
        let ghost second = image_steps(self.leaf_base(), image.dictionary_text());
        match self.prepare_page() {
            Ok(()) => {},
            Err(error) => {
                proof {
                    if before.page_room_failure() is None && before.writer.unready() is None
                        && steps_refused(start, first, error, self.writer.progress()) {
                        lemma_refused_first(start, first, second, error, self.writer.progress());
                    }
                }
                return Err(error);
            },
        }
        let ghost ready = *self;
        let dictionary = image.dictionary();
        let begun = begin_image(&mut self.writer, &dictionary);
        proof {
            lemma_roles_kept(ready, *self);
            match begun {
                Ok(_) => {
                    if ready.all_held() {
                        lemma_still_held(ready, *self);
                    }
                    lemma_passed_more(
                        start,
                        first,
                        ready.writer.progress(),
                        second,
                        self.writer.progress(),
                    );
                    assert(before.writer.written@ + before.image_page_text(image)
                        =~= self.writer.written@);
                },
                Err(error) => {
                    if ready.writer.unready() is None {
                        lemma_refused_later(start, first, second, error, self.writer.progress());
                    }
                    assert(before.writer.written@.is_prefix_of(self.writer.written@));
                },
            }
        }
        begun
    }

    /// Whether an error refuses the output that begins a page with one image.
    pub open spec fn image_page_refused(self, other: Self, image: ImageSpec, error: Error) -> bool {
        ||| self.page_index_starved(error) && other.writer == self.writer
        ||| output_stopped(
            self.writer,
            other.writer,
            self.image_page_steps(image),
            self.image_page_text(image),
            error,
        )
    }

    /// Begin a page that one image fills, and make the buffer that its bytes
    /// are read into long enough for the first chunk.
    ///
    /// The image is `length` bytes of a source, from `offset` on. They arrive
    /// through `ImagePage::accept`, and are never collected into a complete
    /// image. `ImagePage::finish` ends the image and writes the page.
    pub fn add_image_page(
        &mut self,
        source_size: u64,
        offset: u64,
        length: u64,
        page: PageSpec,
        image: ImageSpec,
        buffer: &mut Vec<u8>,
    ) -> (begun: Result<ImagePage, Error>)
        requires
            old(self).well_formed(),
        ensures
            final(self).well_formed(),
            final(self).same_content(*old(self)),
            old(buffer)@.is_prefix_of(final(buffer)@),
            match begun {
                Ok(begun) => {
                    &&& old(self).image_page_refusal(source_size, offset, length, page, image)
                        is None
                    &&& old(self).writer.unready() is None
                    &&& begun.open_in(*final(self))
                    &&& begun.image.number == old(self).leaf_base() + 1
                    &&& begun.offset == offset
                    &&& begun.length == length
                    &&& begun.done == 0
                    &&& begun.width@ == points_text(page.width_micropoints)
                    &&& begun.height@ == points_text(page.height_micropoints)
                    &&& begun.before@ == old(self).writer.written@ + old(self).image_page_text(
                        image,
                    )
                    &&& final(self).leaf->0.id == old(self).next_leaf()
                    &&& final(self).tree_torn == old(self).tree_torn
                    &&& !final(self).writer.poisoned
                    &&& old(self).all_held() ==> final(self).all_held()
                    &&& final(buffer)@.len() >= image_chunk(length, old(self).limits)
                    &&& passed(
                        old(self).writer.progress(),
                        old(self).image_page_steps(image),
                        final(self).writer.progress(),
                    )
                },
                Err(error) => {
                    &&& output_grew(old(self).writer, final(self).writer)
                    &&& match old(self).image_page_refusal(
                        source_size,
                        offset,
                        length,
                        page,
                        image,
                    ) {
                        Some(refusal) => error == refusal && final(self).writer == old(
                            self,
                        ).writer && final(self).same_nodes(*old(self)),
                        None => old(self).image_page_refused(*final(self), image, error) || {
                            let chunk = image_chunk(length, old(self).limits);
                            &&& old(self).writer.unready() is None
                            &&& passed(
                                old(self).writer.progress(),
                                old(self).image_page_steps(image),
                                final(self).writer.progress(),
                            )
                            &&& final(self).writer.written@ == old(self).writer.written@ + old(
                                self,
                            ).image_page_text(image)
                            &&& old(buffer)@.len() < chunk
                            &&& allocator_refused(
                                error,
                                "PDF image I/O buffer",
                                old(self).limits,
                                chunk,
                            )
                        },
                    }
                },
            },
    {
        let (width, height) = self.check_image(source_size, offset, length, page, image)?;
        let id = self.open_image(image)?;
        proof {
            assert(self.writer.written@ + Seq::<u8>::empty() =~= self.writer.written@);
            assert(old(self).writer.written@.is_prefix_of(self.writer.written@));
        }
        let chunk: usize = if length < self.limits.io_chunk_bytes as u64 {
            length as usize
        } else {
            self.limits.io_chunk_bytes
        };
        if buffer.len() < chunk {
            let ghost held = buffer@;
            let refused = self.limits.allocation_refused("PDF image I/O buffer", chunk as u64);
            reserve_exact(buffer, chunk - buffer.len(), refused)?;
            buffer.resize(chunk, 0);
            assert(held =~= buffer@.subrange(0, held.len() as int));
        }
        Ok(
            ImagePage {
                image: id,
                width,
                height,
                offset,
                length,
                done: 0,
                before: Ghost(self.writer.written@),
                taken: Ghost(Seq::empty()),
            },
        )
    }

    /// Count one read of an image source.
    pub fn count_image_read(&mut self, requested: usize, read: usize) -> (counted: Result<
        (),
        Error,
    >)
        requires
            old(self).well_formed(),
        ensures
            ({
                let failure = read_failure(
                    old(self).input_bytes_read,
                    requested,
                    read,
                    "image source reported more bytes than requested",
                    "image input byte count overflows",
                );
                &&& counted == outcome(failure)
                &&& *final(self) == (PdfDocument {
                    input_bytes_read: if failure is None {
                        (old(self).input_bytes_read + read) as u64
                    } else {
                        old(self).input_bytes_read
                    },
                    ..*old(self)
                })
                &&& final(self).well_formed()
            }),
    {
        self.input_bytes_read = count_read(
            self.input_bytes_read,
            requested,
            read,
            "image source reported more bytes than requested",
            "image input byte count overflows",
        )?;
        Ok(())
    }
}

impl ImagePage {
    /// Where the next bytes of the image are read from, and how many fit the
    /// buffer, or nothing once all of them have been taken.
    pub fn next_chunk(&self, buffer_length: usize) -> (chunk: Option<(u64, usize)>)
        requires
            self.done <= self.length,
            self.offset + self.length <= u64::MAX,
        ensures
            match chunk {
                Some((position, count)) => {
                    &&& self.done < self.length
                    &&& position == self.offset + self.done
                    &&& count == (if self.length - self.done < buffer_length {
                        self.length - self.done
                    } else {
                        buffer_length as int
                    })
                },
                None => self.done == self.length,
            },
    {
        if self.done == self.length {
            return None;
        }
        let left: u64 = self.length - self.done;
        let count: usize = if left < buffer_length as u64 {
            left as usize
        } else {
            buffer_length
        };
        Some((self.offset + self.done, count))
    }

    /// Take the next bytes of the image.
    pub fn accept(&mut self, document: &mut PdfDocument, bytes: &[u8]) -> (accepted: Result<
        (),
        Error,
    >)
        requires
            old(self).open_in(*old(document)),
            old(self).done + bytes@.len() <= old(self).length,
        ensures
            accepted == outcome(old(document).writer.stream_failure(bytes@.len())),
            final(document).same_content(*old(document)),
            final(document).same_nodes(*old(document)),
            final(document).tree_torn == old(document).tree_torn,
            final(self).open_in(*final(document)),
            old(document).all_held() ==> final(document).all_held(),
            final(self).same_image(*old(self)),
            final(self).taken@ == (if accepted is Ok {
                old(self).taken@ + bytes@
            } else {
                old(self).taken@
            }),
            final(document).writer.taken() == old(document).writer.taken(),
            match accepted {
                Ok(()) => final(document).writer.poisoned == old(document).writer.poisoned,
                Err(error) => final(document).writer.poisoned == (old(document).writer.poisoned
                    || is_output_limit(error)),
            },
    {
        let ghost before = *document;
        let wrote = document.writer.write_stream_bytes(bytes);
        proof {
            assert(document.writer.offsets@.take(before.writer.offsets@.len() as int)
                =~= before.writer.offsets@);
            lemma_roles_kept(before, *document);
            if before.all_held() {
                lemma_held_on(before, *document);
            }
        }
        wrote?;
        self.done = self.done + bytes.len() as u64;
        let ghost taken = self.taken@ + bytes@;
        assert(self.before@ + self.taken@ + bytes@ =~= self.before@ + taken);
        self.taken = Ghost(taken);
        Ok(())
    }

    /// Whether another state is that of the same image.
    pub open spec fn same_image(self, other: Self) -> bool {
        &&& self.image == other.image
        &&& self.width == other.width
        &&& self.height == other.height
        &&& self.offset == other.offset
        &&& self.length == other.length
        &&& self.before == other.before
    }

    /// The images of the page.
    pub open spec fn images(self) -> Seq<ImageObject> {
        seq![ImageObject { object: self.image }]
    }

    /// What ends the image.
    pub open spec fn end_text(self) -> Seq<u8> {
        stream_end_text(self.image.number + 1, self.length as nat)
    }

    /// The steps of ending the image and writing its page.
    pub open spec fn finish_steps(self, document: PdfDocument) -> Seq<Step> {
        seq![Step::Write { length: self.end_text().len() }] + document.push_steps(
            self.image.number + 1,
            document.leaf->0.id,
            self.width@,
            self.height@,
            self.images(),
            document.leaf->0.children@.len(),
        )
    }

    /// End the image, write its page, and return the page's zero-based index.
    pub fn finish(self, document: &mut PdfDocument) -> (finished: Result<u32, Error>)
        requires
            self.open_in(*old(document)),
            self.done == self.length,
        ensures
            final(document).well_formed(),
            final(document).input_bytes_read == old(document).input_bytes_read,
            match finished {
                Ok(index) => {
                    let base = self.image.number + 1;
                    &&& !old(document).writer.poisoned
                    &&& index == old(document).pages_written
                    &&& old(document).all_held() ==> final(document).all_held()
                    &&& old(document).with_page(
                        *final(document),
                        ObjectId { number: (base + 3) as u32 },
                    )
                    &&& final(document).writer.written@ == self.before@ + self.taken@
                        + self.end_text() + page_bytes(
                        base,
                        old(document).leaf->0.id,
                        self.width@,
                        self.height@,
                        self.images(),
                    )
                    &&& final(document).writer.unready() is None
                    &&& passed(
                        old(document).writer.progress(),
                        self.finish_steps(*old(document)),
                        final(document).writer.progress(),
                    )
                },
                Err(error) => {
                    &&& final(document).same_content(*old(document))
                    &&& output_grew(old(document).writer, final(document).writer)
                    &&& final(document).writer.poisoned == (old(document).writer.poisoned
                        || is_output_limit(error))
                    &&& if old(document).writer.poisoned {
                        &&& error == writer_failed()
                        &&& final(document).writer.written == old(document).writer.written
                        &&& final(document).writer.pending == old(document).writer.pending
                    } else {
                        &&& steps_refused(
                            old(document).writer.progress(),
                            self.finish_steps(*old(document)),
                            error,
                            final(document).writer.progress(),
                        )
                        &&& final(document).writer.written@.is_prefix_of(
                            old(document).writer.written@ + (self.end_text() + page_bytes(
                                self.image.number + 1,
                                old(document).leaf->0.id,
                                self.width@,
                                self.height@,
                                self.images(),
                            )),
                        )
                    }
                },
            },
    {
        let ghost before = *document;
        let ghost start = document.writer.progress();
        let ghost all = self.finish_steps(before);
        let ghost first = all[0];
        let ghost second = all.skip(1);
        proof {
            lemma_passed_none(start);
            assert(all =~= Seq::<Step>::empty() + seq![first] + second);
            assert(all =~= seq![first] + second);
        }
        let ended = document.writer.end_stream();
        proof {
            lemma_roles_kept_but(before, *document, self.image.number + 1);
            if before.all_held() {
                lemma_held_on(before, *document);
            }
        }
        match ended {
            Ok(()) => {},
            Err(error) => {
                proof {
                    if !before.writer.poisoned {
                        lemma_refused_at(start, Seq::empty(), start, first, second, all, error);
                    }
                }
                return Err(error);
            },
        }
        let ghost closed = *document;
        proof {
            lemma_passed_one(start, first);
        }
        let images = vec![ImageObject { object: self.image }];
        assert(images@ =~= self.images());
        let pushed = document.push_page(&self.width, &self.height, &images);
        proof {
            assert(second =~= closed.push_steps(
                self.image.number + 1,
                closed.leaf->0.id,
                self.width@,
                self.height@,
                self.images(),
                closed.leaf->0.children@.len(),
            ));
            match pushed {
                Ok(_) => {
                    lemma_passed_more(
                        start,
                        seq![first],
                        closed.writer.progress(),
                        second,
                        document.writer.progress(),
                    );
                },
                Err(error) => {
                    lemma_refused_later(
                        start,
                        seq![first],
                        second,
                        error,
                        document.writer.progress(),
                    );
                    assert(before.writer.written@.is_prefix_of(document.writer.written@));
                },
            }
        }
        pushed
    }
}

/// Writing an object that the document does not hold keeps what it holds.
pub proof fn lemma_roles_kept_but(before: PdfDocument, after: PdfDocument, number: int)
    requires
        before.roles_sound(),
        before.writer.offsets@.len() == after.writer.offsets@.len(),
        forall|i: int|
            0 <= i < before.writer.offsets@.len() && i != number - 1 ==> (
            #[trigger] after.writer.offsets@[i]) == before.writer.offsets@[i],
        !before.roles@.dom().contains(number),
        after.roles == before.roles,
        after.catalog_id == before.catalog_id,
        after.pages_root_id == before.pages_root_id,
        after.tree_closed == before.tree_closed,
        after.leaf == before.leaf,
        after.middle == before.middle,
        after.outline == before.outline,
        after.outline_failed == before.outline_failed,
    ensures
        after.roles_sound(),
{
    assert forall|n: int|
        #![trigger after.roles@.dom().contains(n)]
        after.roles@.dom().contains(n) implies 1 <= n <= after.writer.offsets@.len()
        && after.writer.offsets@[n - 1] is None by {
        assert(before.roles@.dom().contains(n));
        assert(after.writer.offsets@[n - 1] == before.writer.offsets@[n - 1]);
    }
}

/// Going on with the open stream, or ending it, leaves every object held.
pub proof fn lemma_held_on(before: PdfDocument, after: PdfDocument)
    requires
        before.all_held(),
        before.writer.offsets@.len() == after.writer.offsets@.len(),
        after.roles == before.roles,
        before.writer.stream matches Some(stream) && {
            &&& 1 <= stream.length_id.number <= before.writer.offsets@.len()
            &&& forall|i: int|
                0 <= i < before.writer.offsets@.len() && i != stream.length_id.number - 1 ==> (
                #[trigger] after.writer.offsets@[i]) == before.writer.offsets@[i]
            &&& match after.writer.stream {
                Some(going) => going.length_id == stream.length_id,
                None => after.writer.offsets@[stream.length_id.number - 1] is Some,
            }
        },
    ensures
        after.all_held(),
{
    assert forall|i: int|
        #![trigger after.writer.offsets@[i]]
        0 <= i < after.writer.offsets@.len() && after.writer.offsets@[i] is None implies (
    after.roles@.dom().contains(i + 1) || (after.writer.stream matches Some(stream)
        && stream.length_id.number == i + 1)) by {
        assert(i == before.writer.stream->0.length_id.number - 1 || before.writer.offsets@[i]
            is None);
    }
}

} // verus!

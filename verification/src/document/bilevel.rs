//! Bilevel images whose rows arrive in pieces of any size.

use vstd::prelude::*;
use vstd::slice::slice_subrange;
use crate::document::image::{packed_bytes, BilevelImageSpec, ImageObject};
use crate::document::image_page::{begin_image, image_steps, lemma_held_on, lemma_roles_kept_but};
use crate::document::pages::{
    output_grew, output_stopped, PdfDocument, lemma_roles_kept, lemma_still_held,
};
use crate::types::{is_output_limit, outcome, Error};
use crate::writer::{
    passed, step_refused, stream_end_text, stream_start_text, writer_failed, ObjectId, OpenStream,
    PdfWriter, Progress, Step, lemma_passed_more, lemma_passed_none, lemma_passed_one,
};

verus! {

/// What is kept of rows of `stride` bytes: the first `visible` bytes of each.
pub open spec fn kept_bytes(supplied: Seq<u8>, stride: int, visible: int) -> Seq<u8>
    decreases supplied.len(),
{
    if supplied.len() == 0 {
        Seq::empty()
    } else {
        let rest = kept_bytes(supplied.drop_last(), stride, visible);
        if (supplied.len() - 1) % stride < visible {
            rest.push(supplied.last())
        } else {
            rest
        }
    }
}

/// How many of the next `count` bytes belong to the row that is at `column`.
pub open spec fn row_part(column: int, count: int, stride: int) -> int {
    if stride - column < count {
        stride - column
    } else {
        count
    }
}

/// How many of the next `count` bytes of a row that is at `column` are kept.
pub open spec fn kept_part(column: int, count: int, visible: int) -> int {
    if visible <= column {
        0
    } else if visible - column < count {
        visible - column
    } else {
        count
    }
}

/// The steps of writing `count` bytes of rows: one for each row that they
/// belong to.
pub open spec fn row_steps(column: int, count: int, stride: int, visible: int) -> Seq<Step>
    decreases count,
{
    if count <= 0 || !(0 <= column < stride) {
        Seq::empty()
    } else {
        let part = row_part(column, count, stride);
        seq![Step::Write { length: kept_part(column, part, visible) as nat }] + row_steps(
            (column + part) % stride,
            count - part,
            stride,
            visible,
        )
    }
}

/// Bytes of one row are kept up to the visible ones.
proof fn lemma_part_kept(supplied: Seq<u8>, bytes: Seq<u8>, column: int, stride: int, visible: int)
    requires
        0 < visible <= stride,
        column == supplied.len() as int % stride,
        column + bytes.len() <= stride,
    ensures
        kept_bytes(supplied + bytes, stride, visible) == kept_bytes(supplied, stride, visible)
            + bytes.take(kept_part(column, bytes.len() as int, visible)),
    decreases bytes.len(),
{
    if bytes.len() == 0 {
        assert(supplied + bytes =~= supplied);
        assert(bytes.take(0) =~= Seq::<u8>::empty());
        assert(kept_bytes(supplied, stride, visible) + Seq::<u8>::empty() =~= kept_bytes(
            supplied,
            stride,
            visible,
        ));
    } else {
        let fewer = bytes.drop_last();
        lemma_part_kept(supplied, fewer, column, stride, visible);
        assert((supplied + bytes).drop_last() =~= supplied + fewer);
        let last = supplied.len() + bytes.len() - 1;
        vstd::arithmetic::div_mod::lemma_add_mod_noop(
            supplied.len() as int,
            bytes.len() - 1,
            stride,
        );
        vstd::arithmetic::div_mod::lemma_small_mod((bytes.len() - 1) as nat, stride as nat);
        vstd::arithmetic::div_mod::lemma_small_mod(
            (column + bytes.len() - 1) as nat,
            stride as nat,
        );
        assert(last % stride == column + bytes.len() - 1);
        let kept = kept_part(column, bytes.len() as int, visible);
        let kept_fewer = kept_part(column, fewer.len() as int, visible);
        if last % stride < visible {
            assert(fewer.take(kept_fewer).push(bytes.last()) =~= bytes.take(kept));
            assert(kept_bytes(supplied, stride, visible) + fewer.take(kept_fewer).push(
                bytes.last(),
            ) =~= (kept_bytes(supplied, stride, visible) + fewer.take(kept_fewer)).push(
                bytes.last(),
            ));
        } else {
            assert(fewer.take(kept_fewer) =~= bytes.take(kept));
        }
    }
}

/// Of whole rows, every row keeps its first `visible` bytes, in order.
pub proof fn law_rows_are_kept(
    supplied: Seq<u8>,
    stride: int,
    visible: int,
    rows: int,
    row: int,
    column: int,
)
    requires
        0 < visible <= stride,
        rows >= 0,
        supplied.len() == stride * rows,
    ensures
        kept_bytes(supplied, stride, visible).len() == visible * rows,
        0 <= row < rows && 0 <= column < visible ==> kept_bytes(supplied, stride, visible)[visible
            * row + column] == supplied[stride * row + column],
    decreases rows,
{
    if rows == 0 {
        assert(stride * rows == 0) by (nonlinear_arith)
            requires
                rows == 0,
        ;
        assert(visible * rows == 0) by (nonlinear_arith)
            requires
                rows == 0,
        ;
    } else {
        let above = stride * (rows - 1);
        assert(above + stride == stride * rows) by (nonlinear_arith)
            requires
                above == stride * (rows - 1),
        ;
        assert(above >= 0) by (nonlinear_arith)
            requires
                above == stride * (rows - 1),
                stride > 0,
                rows >= 1,
        ;
        assert(visible * (rows - 1) + visible == visible * rows) by (nonlinear_arith);
        let first = supplied.take(above);
        let last = supplied.skip(above);
        assert(supplied =~= first + last);
        law_rows_are_kept(first, stride, visible, rows - 1, row, column);
        vstd::arithmetic::div_mod::lemma_mod_multiples_basic(rows - 1, stride);
        assert((rows - 1) * stride == above) by (nonlinear_arith)
            requires
                above == stride * (rows - 1),
        ;
        lemma_part_kept(first, last, 0, stride, visible);
        let kept = kept_bytes(first, stride, visible);
        assert(last.take(visible).len() == visible);
        if 0 <= row < rows - 1 && 0 <= column < visible {
            assert(stride * row + column < above) by (nonlinear_arith)
                requires
                    above == stride * (rows - 1),
                    row + 1 <= rows - 1,
                    column < stride,
                    stride > 0,
            ;
            assert(visible * row + column < visible * (rows - 1)) by (nonlinear_arith)
                requires
                    row + 1 <= rows - 1,
                    column < visible,
                    visible > 0,
            ;
            assert(stride * row >= 0 && visible * row >= 0) by (nonlinear_arith)
                requires
                    row >= 0,
                    stride > 0,
                    visible > 0,
            ;
            assert(first[stride * row + column] == supplied[stride * row + column]);
            assert((kept + last.take(visible))[visible * row + column] == kept[visible * row
                + column]);
        } else if row == rows - 1 && 0 <= column < visible {
            assert((kept + last.take(visible))[visible * (rows - 1) + column] == last[column]);
        }
    }
}

/// A bilevel image that is being written.
///
/// It takes exactly `row_stride * pixel_height` bytes through `write`, which
/// may split or join rows, and is ended by `finish`. Only row-position state is
/// retained. Until it is finished every other document operation fails.
pub struct BilevelImageWriter {
    pub object: ObjectId,
    pub visible: usize,
    pub stride: usize,
    pub column: usize,
    pub remaining: u64,
    pub image: Ghost<BilevelImageSpec>,
    pub before: Ghost<Seq<u8>>,
    pub supplied: Ghost<Seq<u8>>,
}

impl BilevelImageWriter {
    /// The bytes that are kept of the rows supplied so far.
    pub open spec fn kept(self) -> Seq<u8> {
        kept_bytes(self.supplied@, self.stride as int, self.visible as int)
    }

    /// Whether the image is the open stream of a document, and holds what is
    /// kept of the rows supplied so far.
    pub open spec fn open_in(self, document: PdfDocument) -> bool {
        &&& document.well_formed()
        &&& self.rows_sound()
        &&& document.writer.stream == Some(
            OpenStream {
                id: self.object,
                length_id: ObjectId { number: (self.object.number + 1) as u32 },
                length: self.kept().len() as u64,
            },
        )
        &&& self.kept().len() <= document.writer.position
        &&& self.object.number < document.writer.offsets@.len()
        &&& !document.roles@.dom().contains(self.object.number + 1)
        &&& document.writer.written@ == self.before@ + self.kept()
    }

    /// Whether the place within the rows agrees with what was supplied.
    pub open spec fn rows_sound(self) -> bool {
        &&& 0 < self.visible <= self.stride
        &&& self.visible == packed_bytes(self.image@.pixel_width)
        &&& self.stride == self.image@.row_stride
        &&& self.column == self.supplied@.len() as int % self.stride as int
        &&& self.supplied@.len() + self.remaining == self.image@.row_stride
            * self.image@.pixel_height
    }

    /// Whether another state is that of the same image.
    pub open spec fn same_image(self, other: Self) -> bool {
        &&& self.object == other.object
        &&& self.visible == other.visible
        &&& self.stride == other.stride
        &&& self.image == other.image
        &&& self.before == other.before
    }
}

impl PdfDocument {
    /// Start a one-bit image whose rows the caller streams.
    ///
    /// The dimensions, row stride, and PDF stream length are checked before
    /// any output. No page is added; place the finished image with `add_page`.
    /// The image must be finished before any other document operation.
    pub fn begin_bilevel_image(&mut self, image: BilevelImageSpec) -> (begun: Result<
        BilevelImageWriter,
        Error,
    >)
        requires
            old(self).well_formed(),
        ensures
            final(self).well_formed(),
            final(self).same_content(*old(self)),
            final(self).same_nodes(*old(self)),
            final(self).tree_torn == old(self).tree_torn,
            ({
                let base = old(self).writer.offsets@.len() as int;
                let steps = image_steps(base, image.dictionary_text());
                match begun {
                    Ok(begun) => {
                        &&& image.failure() is None
                        &&& old(self).writer.unready() is None
                        &&& begun.open_in(*final(self))
                        &&& old(self).all_held() ==> final(self).all_held()
                        &&& begun.object.number == base + 1
                        &&& begun.image@ == image
                        &&& begun.supplied@.len() == 0
                        &&& begun.before@ == old(self).writer.written@ + stream_start_text(
                            base + 1,
                            base + 2,
                            image.dictionary_text(),
                        )
                        &&& !final(self).writer.poisoned
                        &&& passed(
                            old(self).writer.progress(),
                            steps,
                            final(self).writer.progress(),
                        )
                    },
                    Err(error) => {
                        match image.failure() {
                            Some(failure) => error == failure && *final(self) == *old(self),
                            None => output_stopped(
                                old(self).writer,
                                final(self).writer,
                                steps,
                                stream_start_text(base + 1, base + 2, image.dictionary_text()),
                                error,
                            ),
                        }
                    },
                }
            }),
    {
        let (visible, remaining) = image.validate()?;
        let ghost before = *self;
        let dictionary = image.dictionary();
        let begun = begin_image(&mut self.writer, &dictionary);
        proof {
            lemma_roles_kept(before, *self);
            if begun is Ok && before.all_held() {
                lemma_still_held(before, *self);
            }
        }
        let object = begun?;
        proof {
            assert(self.writer.written@ + Seq::<u8>::empty() =~= self.writer.written@);
            vstd::arithmetic::div_mod::lemma_small_mod(0, image.row_stride as nat);
        }
        Ok(
            BilevelImageWriter {
                object,
                visible,
                stride: image.row_stride,
                column: 0,
                remaining,
                image: Ghost(image),
                before: Ghost(self.writer.written@),
                supplied: Ghost(Seq::empty()),
            },
        )
    }
}

impl BilevelImageWriter {
    /// Take the next bytes of one row.
    fn write_part(&mut self, document: &mut PdfDocument, bytes: &[u8]) -> (wrote: Result<
        (),
        Error,
    >)
        requires
            old(self).open_in(*old(document)),
            bytes@.len() <= old(self).remaining,
            old(self).column + bytes@.len() <= old(self).stride,
        ensures
            final(document).same_content(*old(document)),
            final(document).same_nodes(*old(document)),
            final(document).tree_torn == old(document).tree_torn,
            final(self).same_image(*old(self)),
            final(self).open_in(*final(document)),
            old(document).all_held() ==> final(document).all_held(),
            ({
                let kept = kept_part(
                    old(self).column as int,
                    bytes@.len() as int,
                    old(self).visible as int,
                ) as nat;
                &&& wrote == outcome(old(document).writer.stream_failure(kept))
                &&& match wrote {
                    Ok(()) => {
                        &&& final(self).supplied@ == old(self).supplied@ + bytes@
                        &&& final(self).column == (old(self).column + bytes@.len())
                            % old(self).stride as int
                        &&& final(document).writer.progress() == (Progress {
                            position: old(document).writer.position + kept,
                            ..old(document).writer.progress()
                        })
                        &&& old(document).writer.written@.is_prefix_of(
                            final(document).writer.written@,
                        )
                        &&& final(document).writer.offsets == old(document).writer.offsets
                        &&& final(document).writer.poisoned == old(document).writer.poisoned
                    },
                    Err(error) => {
                        &&& final(self).supplied == old(self).supplied
                        &&& final(document).writer.written == old(document).writer.written
                        &&& output_grew(old(document).writer, final(document).writer)
                        &&& final(document).writer.progress() == old(document).writer.progress()
                        &&& final(document).writer.poisoned == (old(document).writer.poisoned
                            || is_output_limit(error))
                    },
                }
            }),
    {
        let ghost before = *document;
        let ghost start = *self;
        let count: usize = bytes.len();
        let visible: usize = if self.visible > self.column {
            self.visible - self.column
        } else {
            0
        };
        let kept: usize = if count < visible {
            count
        } else {
            visible
        };
        let slice = slice_subrange(bytes, 0, kept);
        assert(slice@ =~= bytes@.take(kept as int));
        let wrote = document.writer.write_stream_bytes(slice);
        proof {
            assert(document.writer.offsets@.take(before.writer.offsets@.len() as int)
                =~= before.writer.offsets@);
            lemma_roles_kept(before, *document);
            if before.all_held() {
                lemma_held_on(before, *document);
            }
            lemma_part_kept(
                start.supplied@,
                bytes@,
                start.column as int,
                start.stride as int,
                start.visible as int,
            );
            vstd::arithmetic::div_mod::lemma_add_mod_noop(
                start.supplied@.len() as int,
                count as int,
                start.stride as int,
            );
            vstd::arithmetic::div_mod::lemma_add_mod_noop(
                start.column as int,
                count as int,
                start.stride as int,
            );
            vstd::arithmetic::div_mod::lemma_mod_twice(
                start.supplied@.len() as int,
                start.stride as int,
            );
        }
        wrote?;
        self.column = if count == self.stride - self.column {
            0
        } else {
            self.column + count
        };
        self.remaining = self.remaining - count as u64;
        self.supplied = Ghost(self.supplied@ + bytes@);
        proof {
            let sum = start.column + count;
            if sum == start.stride {
                vstd::arithmetic::div_mod::lemma_mod_self_0(start.stride as int);
            } else {
                vstd::arithmetic::div_mod::lemma_small_mod(sum as nat, start.stride as nat);
            }
            assert(start.before@ + start.kept() + bytes@.take(kept as int) =~= start.before@
                + self.kept());
        }
        Ok(())
    }
}

impl BilevelImageWriter {
    /// The steps of taking `count` more bytes.
    pub open spec fn write_steps(self, count: int) -> Seq<Step> {
        row_steps(self.column as int, count, self.stride as int, self.visible as int)
    }

    /// Whether a later state has taken the first `count` of some bytes.
    pub open spec fn stopped_after(self, other: Self, bytes: Seq<u8>, count: int) -> bool {
        other.supplied@ == self.supplied@ + bytes.take(count)
    }

    /// Whether an error refuses the row that a later state has come to, `left`
    /// of `total` bytes before the end: the rows before it have passed.
    pub open spec fn row_refused(
        self,
        other: Self,
        start: Progress,
        reached: Progress,
        left: int,
        total: int,
        error: Error,
    ) -> bool {
        let all = self.write_steps(total);
        let rest = other.write_steps(left);
        &&& 0 < rest.len() <= all.len()
        &&& passed(start, all.take(all.len() - rest.len()), reached)
        &&& step_refused(reached, rest[0], error)
    }

    /// Take the next bytes of the rows, and return how many were taken: all of
    /// them. When the output refuses some, the rows before them stay taken.
    pub fn write(&mut self, document: &mut PdfDocument, bytes: &[u8]) -> (wrote: Result<
        usize,
        Error,
    >)
        requires
            old(self).open_in(*old(document)),
        ensures
            final(document).same_content(*old(document)),
            final(document).same_nodes(*old(document)),
            final(document).tree_torn == old(document).tree_torn,
            final(self).same_image(*old(self)),
            final(self).open_in(*final(document)),
            old(document).all_held() ==> final(document).all_held(),
            output_grew(old(document).writer, final(document).writer),
            match wrote {
                Ok(count) => {
                    &&& count == bytes@.len()
                    &&& bytes@.len() <= old(self).remaining
                    &&& final(self).supplied@ == old(self).supplied@ + bytes@
                    &&& final(document).writer.poisoned == old(document).writer.poisoned
                    &&& bytes@.len() > 0 ==> !old(document).writer.poisoned
                    &&& passed(
                        old(document).writer.progress(),
                        old(self).write_steps(bytes@.len() as int),
                        final(document).writer.progress(),
                    )
                },
                Err(error) => if bytes@.len() > old(self).remaining {
                    &&& error == (Error::InvalidInput {
                        reason: "bilevel image rows exceed the declared height",
                    })
                    &&& *final(self) == *old(self)
                    &&& *final(document) == *old(document)
                } else {
                    &&& bytes@.len() > 0
                    &&& final(document).writer.poisoned == (old(document).writer.poisoned
                        || is_output_limit(error))
                    &&& if old(document).writer.poisoned {
                        &&& error == writer_failed()
                        &&& final(self).supplied == old(self).supplied
                        &&& final(document).writer.progress() == old(document).writer.progress()
                    } else {
                        exists|count: int|
                            #![trigger bytes@.take(count)]
                            0 <= count < bytes@.len() && old(self).stopped_after(
                                *final(self),
                                bytes@,
                                count,
                            ) && old(self).row_refused(
                                *final(self),
                                old(document).writer.progress(),
                                final(document).writer.progress(),
                                bytes@.len() - count,
                                bytes@.len() as int,
                                error,
                            )
                    }
                },
            },
    {
        if bytes.len() as u64 > self.remaining {
            return Err(
                Error::InvalidInput { reason: "bilevel image rows exceed the declared height" },
            );
        }
        let ghost begin = *self;
        let ghost opened = *document;
        let ghost start = document.writer.progress();
        let ghost all = self.write_steps(bytes@.len() as int);
        let ghost passing = Seq::<Step>::empty();
        let mut done: usize = 0;
        proof {
            lemma_passed_none(start);
            assert(passing + all =~= all);
            assert(bytes@.take(0) =~= Seq::<u8>::empty());
            assert(begin.supplied@ + Seq::<u8>::empty() =~= begin.supplied@);
        }
        while done < bytes.len()
            invariant
                done <= bytes@.len(),
                self.open_in(*document),
                self.same_image(begin),
                opened.all_held() ==> document.all_held(),
                self.remaining == begin.remaining - done,
                bytes@.len() <= begin.remaining,
                self.supplied@ == begin.supplied@ + bytes@.take(done as int),
                document.same_content(opened),
                document.same_nodes(opened),
                document.tree_torn == opened.tree_torn,
                output_grew(opened.writer, document.writer),
                document.writer.poisoned == opened.writer.poisoned,
                done > 0 ==> !opened.writer.poisoned,
                done == 0 ==> passing.len() == 0,
                start == opened.writer.progress(),
                begin == *old(self),
                opened == *old(document),
                all == begin.write_steps(bytes@.len() as int),
                all == passing + self.write_steps(bytes@.len() - done),
                passed(start, passing, document.writer.progress()),
            decreases bytes@.len() - done,
        {
            let row_left: usize = self.stride - self.column;
            let left: usize = bytes.len() - done;
            let count: usize = if row_left < left {
                row_left
            } else {
                left
            };
            let part = slice_subrange(bytes, done, done + count);
            let ghost now = document.writer.progress();
            let ghost here = *document;
            let ghost step = self.write_steps(bytes@.len() - done)[0];
            let ghost rest = self.write_steps(bytes@.len() - done).skip(1);
            assert(self.write_steps(bytes@.len() - done) =~= seq![step] + rest);
            match self.write_part(document, part) {
                Ok(()) => {},
                Err(error) => {
                    proof {
                        let left = self.write_steps(bytes@.len() - done);
                        assert(all.take(all.len() - left.len()) =~= passing);
                        assert(begin.stopped_after(*self, bytes@, done as int));
                        assert(bytes@.take(done as int).len() == done);
                        assert(opened.writer.written@.is_prefix_of(document.writer.written@));
                    }
                    return Err(error);
                },
            }
            proof {
                lemma_passed_one(now, step);
                lemma_passed_more(start, passing, now, seq![step], document.writer.progress());
                assert(rest =~= self.write_steps(bytes@.len() - done - count));
                assert(passing + (seq![step] + rest) =~= passing + seq![step] + rest);
                passing = passing + seq![step];
                assert(bytes@.take(done as int) + part@ =~= bytes@.take(done + count));
                assert(begin.supplied@ + bytes@.take(done as int) + part@ =~= begin.supplied@
                    + bytes@.take(done + count));
                lemma_still_grown(opened.writer, here.writer, document.writer);
            }
            done = done + count;
        }
        proof {
            assert(bytes@.take(done as int) =~= bytes@);
            assert(passing + self.write_steps(0) =~= passing);
        }
        Ok(bytes.len())
    }

    /// End the image after exactly the declared rows were written.
    pub fn finish(self, document: &mut PdfDocument) -> (finished: Result<ImageObject, Error>)
        requires
            self.open_in(*old(document)),
        ensures
            final(document).well_formed(),
            final(document).same_content(*old(document)),
            final(document).same_nodes(*old(document)),
            final(document).tree_torn == old(document).tree_torn,
            ({
                let text = stream_end_text(self.object.number + 1, self.kept().len());
                if self.remaining != 0 {
                    &&& finished == Err::<ImageObject, Error>(
                        Error::InvalidInput {
                            reason: "bilevel image ended before its declared height",
                        },
                    )
                    &&& *final(document) == *old(document)
                } else {
                    match finished {
                        Ok(image) => {
                            &&& old(document).writer.stream_failure(text.len()) is None
                            &&& image.object == self.object
                            &&& old(document).all_held() ==> final(document).all_held()
                            &&& final(document).writer.written@ == self.before@ + self.kept() + text
                            &&& final(document).writer.taken() == old(document).writer.taken()
                            &&& self.kept().len() == packed_bytes(self.image@.pixel_width)
                                * self.image@.pixel_height
                            &&& final(document).writer.unready() is None
                        },
                        Err(error) => {
                            &&& old(document).writer.stream_failure(text.len()) == Some(error)
                            &&& final(document).writer.written == old(document).writer.written
                            &&& final(document).writer.pending == old(document).writer.pending
                        },
                    }
                }
            }),
    {
        if self.remaining != 0 {
            return Err(
                Error::InvalidInput { reason: "bilevel image ended before its declared height" },
            );
        }
        let ghost before = *document;
        let ended = document.writer.end_stream();
        proof {
            lemma_roles_kept_but(before, *document, self.object.number + 1);
            if before.all_held() {
                lemma_held_on(before, *document);
            }
            law_rows_are_kept(
                self.supplied@,
                self.stride as int,
                self.visible as int,
                self.image@.pixel_height as int,
                0,
                0,
            );
        }
        ended?;
        Ok(ImageObject { object: self.object })
    }
}

/// Output that grew and then was added to grew.
proof fn lemma_still_grown(first: PdfWriter, second: PdfWriter, third: PdfWriter)
    requires
        output_grew(first, second),
        second.written@.is_prefix_of(third.written@),
        third.offsets == second.offsets,
        third.poisoned == second.poisoned,
    ensures
        output_grew(first, third),
{
    assert(first.written@ =~= third.written@.take(first.written@.len() as int)) by {
        assert(second.written@ =~= third.written@.take(second.written@.len() as int));
    }
}

} // verus!

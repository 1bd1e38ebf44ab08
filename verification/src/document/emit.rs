//! Writing one page.

use vstd::prelude::*;
use crate::document::image::ImageObject;
use crate::document::pages::{output_grew, output_stopped};
use crate::document::texts::{content_text, drawing, drawing_text, page_dictionary, page_pieces};
use crate::pieces::joined;
use crate::types::{is_output_limit, Error};
use crate::writer::{
    object_steps, object_text, passed, steps_refused, stream_end_text, stream_start_text, ObjectId,
    OpenStream, PdfWriter, Progress, Step, lemma_passed_more, lemma_passed_none, lemma_passed_one,
    lemma_refused_at, lemma_refused_first, lemma_refused_later,
};

verus! {

/// The objects of a page: its content stream, the stream's length, and the
/// page itself, numbered after `base`.
pub open spec fn page_bytes(
    base: int,
    parent: ObjectId,
    width: Seq<u8>,
    height: Seq<u8>,
    images: Seq<ImageObject>,
) -> Seq<u8> {
    let content = content_text(width, height, images.len());
    stream_start_text(base + 1, base + 2, Seq::empty()) + content + stream_end_text(
        base + 2,
        content.len(),
    ) + object_text(
        base + 3,
        joined(page_pieces(parent, width, height, images, base + 1), 0),
    )
}

/// The steps of drawing the first `count` images.
pub open spec fn drawing_steps(width: Seq<u8>, height: Seq<u8>, count: nat) -> Seq<Step>
    decreases count,
{
    if count == 0 {
        Seq::empty()
    } else {
        drawing_steps(width, height, (count - 1) as nat).push(
            Step::Write { length: drawing_text(width, height, (count - 1) as nat).len() },
        )
    }
}

/// The steps of handing out the three numbers of a page.
pub open spec fn reserve_steps() -> Seq<Step> {
    seq![Step::Reserve, Step::Reserve, Step::Reserve]
}

/// The steps of writing a page.
pub open spec fn page_steps(
    base: int,
    parent: ObjectId,
    width: Seq<u8>,
    height: Seq<u8>,
    images: Seq<ImageObject>,
) -> Seq<Step> {
    let content = content_text(width, height, images.len());
    reserve_steps() + seq![
        Step::Write { length: stream_start_text(base + 1, base + 2, Seq::empty()).len() },
    ] + drawing_steps(width, height, images.len()) + seq![
        Step::Write { length: stream_end_text(base + 2, content.len()).len() },
    ] + object_steps(base + 3, page_pieces(parent, width, height, images, base + 1))
}

/// Whether the objects of one writer keep their places in another.
pub open spec fn places_kept(before: PdfWriter, after: PdfWriter) -> bool {
    &&& before.offsets@.len() <= after.offsets@.len()
    &&& after.offsets@.take(before.offsets@.len() as int) == before.offsets@
    &&& after.limits == before.limits
    &&& after.well_formed()
}

/// Hand out the three numbers of a page.
fn reserve_page(writer: &mut PdfWriter) -> (reserved: Result<(ObjectId, ObjectId, ObjectId), Error>)
    requires
        old(writer).well_formed(),
    ensures
        places_kept(*old(writer), *final(writer)),
        final(writer).written == old(writer).written,
        final(writer).pending == old(writer).pending,
        final(writer).poisoned == old(writer).poisoned,
        final(writer).object_open == old(writer).object_open,
        final(writer).stream == old(writer).stream,
        match reserved {
            Ok((content, length, page)) => {
                let base = old(writer).offsets@.len();
                &&& old(writer).unready() is None
                &&& final(writer).offsets@ == old(writer).offsets@ + seq![None, None, None]
                &&& content.number == base + 1
                &&& length.number == base + 2
                &&& page.number == base + 3
                &&& passed(old(writer).progress(), reserve_steps(), final(writer).progress())
            },
            Err(error) => {
                &&& !is_output_limit(error)
                &&& match old(writer).unready() {
                    Some(unready) => error == unready,
                    None => steps_refused(
                        old(writer).progress(),
                        reserve_steps(),
                        error,
                        final(writer).progress(),
                    ),
                }
            },
        },
{
    let ghost begin = *writer;
    let ghost start = writer.progress();
    let ghost all = reserve_steps();
    let ghost one = seq![Step::Reserve];
    let ghost two = seq![Step::Reserve, Step::Reserve];
    proof {
        lemma_passed_none(start);
        assert(all =~= Seq::<Step>::empty() + seq![Step::Reserve] + two);
        assert(all =~= one + seq![Step::Reserve] + one);
        assert(all =~= two + seq![Step::Reserve] + Seq::<Step>::empty());
        assert(one + one =~= two);
        assert(two + one =~= all);
        assert(begin.offsets@.take(begin.offsets@.len() as int) =~= begin.offsets@);
    }
    let content = match writer.reserve_object() {
        Ok(id) => id,
        Err(error) => {
            proof {
                if begin.unready() is None {
                    lemma_refused_at(start, Seq::empty(), start, Step::Reserve, two, all, error);
                }
            }
            return Err(error);
        },
    };
    let ghost first = writer.progress();
    proof {
        lemma_passed_one(start, Step::Reserve);
        assert(writer.offsets@.take(begin.offsets@.len() as int) =~= begin.offsets@);
    }
    let length = match writer.reserve_object() {
        Ok(id) => id,
        Err(error) => {
            proof {
                lemma_refused_at(start, one, first, Step::Reserve, one, all, error);
            }
            return Err(error);
        },
    };
    let ghost second = writer.progress();
    proof {
        lemma_passed_one(first, Step::Reserve);
        lemma_passed_more(start, one, first, one, second);
        assert(writer.offsets@.take(begin.offsets@.len() as int) =~= begin.offsets@);
    }
    let page = match writer.reserve_object() {
        Ok(id) => id,
        Err(error) => {
            proof {
                lemma_refused_at(start, two, second, Step::Reserve, Seq::empty(), all, error);
            }
            return Err(error);
        },
    };
    proof {
        lemma_passed_one(second, Step::Reserve);
        lemma_passed_more(start, two, second, one, writer.progress());
        assert(writer.offsets@ =~= begin.offsets@ + seq![None, None, None]);
        assert(writer.offsets@.take(begin.offsets@.len() as int) =~= begin.offsets@);
    }
    Ok((content, length, page))
}

/// Draw images into the open stream.
fn draw_images(writer: &mut PdfWriter, width: &Vec<u8>, height: &Vec<u8>, count: usize) -> (drawn:
    Result<(), Error>)
    requires
        old(writer).well_formed(),
        !old(writer).poisoned,
        old(writer).stream is Some,
        old(writer).stream->0.length == 0,
    ensures
        final(writer).well_formed(),
        final(writer).limits == old(writer).limits,
        final(writer).offsets@ == old(writer).offsets@,
        match drawn {
            Ok(()) => {
                let content = content_text(width@, height@, count as nat);
                &&& final(writer).written@ == old(writer).written@ + content
                &&& final(writer).stream == Some(
                    OpenStream { length: content.len() as u64, ..old(writer).stream->0 },
                )
                &&& content.len() <= u64::MAX
                &&& !final(writer).poisoned
                &&& passed(
                    old(writer).progress(),
                    drawing_steps(width@, height@, count as nat),
                    final(writer).progress(),
                )
            },
            Err(error) => {
                &&& output_grew(*old(writer), *final(writer))
                &&& final(writer).written@.is_prefix_of(
                    old(writer).written@ + content_text(width@, height@, count as nat),
                )
                &&& final(writer).poisoned == is_output_limit(error)
                &&& steps_refused(
                    old(writer).progress(),
                    drawing_steps(width@, height@, count as nat),
                    error,
                    final(writer).progress(),
                )
            },
        },
{
    let ghost begin = *writer;
    let ghost start = writer.progress();
    let mut next: usize = 0;
    proof {
        lemma_passed_none(start);
        assert(begin.written@ + Seq::<u8>::empty() =~= begin.written@);
    }
    while next < count
        invariant
            next <= count,
            begin == *old(writer),
            begin.well_formed(),
            begin.stream is Some,
            begin.stream->0.length == 0,
            !begin.poisoned,
            start == begin.progress(),
            writer.well_formed(),
            writer.limits == begin.limits,
            writer.offsets@ == begin.offsets@,
            !writer.poisoned,
            writer.written@ == begin.written@ + content_text(width@, height@, next as nat),
            content_text(width@, height@, next as nat).len() <= u64::MAX,
            writer.stream == Some(
                OpenStream {
                    length: content_text(width@, height@, next as nat).len() as u64,
                    ..begin.stream->0
                },
            ),
            passed(start, drawing_steps(width@, height@, next as nat), writer.progress()),
        decreases count - next,
    {
        let text = drawing(width, height, next);
        let ghost before = *writer;
        let ghost done = drawing_steps(width@, height@, next as nat);
        let ghost step = Step::Write { length: text@.len() };
        match writer.write_stream_bytes(&text) {
            Ok(()) => {},
            Err(error) => {
                proof {
                    let upto = drawing_steps(width@, height@, (next + 1) as nat);
                    assert(upto =~= done + seq![step] + Seq::<Step>::empty());
                    lemma_refused_at(
                        start,
                        done,
                        before.progress(),
                        step,
                        Seq::empty(),
                        upto,
                        error,
                    );
                    lemma_drawing_prefix(
                        start,
                        width@,
                        height@,
                        (next + 1) as nat,
                        count as nat,
                        error,
                        before.progress(),
                    );
                    assert(begin.written@.is_prefix_of(before.written@));
                    lemma_still_prefix(begin.written@, before.written@, writer.written@);
                    let upto = content_text(width@, height@, (next + 1) as nat);
                    let whole = content_text(width@, height@, count as nat);
                    let drawn = content_text(width@, height@, next as nat);
                    assert(drawn.is_prefix_of(upto));
                    lemma_still_prefix(drawn, upto, whole);
                    assert(begin.written@ + drawn =~= (begin.written@ + whole).take(
                        (begin.written@ + drawn).len() as int,
                    )) by {
                        assert(drawn =~= whole.take(drawn.len() as int));
                    }
                }
                return Err(error);
            },
        }
        proof {
            lemma_passed_one(before.progress(), step);
            lemma_passed_more(start, done, before.progress(), seq![step], writer.progress());
            assert(drawing_steps(width@, height@, (next + 1) as nat) =~= done + seq![step]);
            let content = content_text(width@, height@, next as nat);
            assert(begin.written@ + content + text@ =~= begin.written@ + (content + text@));
        }
        next += 1;
    }
    Ok(())
}

proof fn lemma_still_prefix(first: Seq<u8>, second: Seq<u8>, third: Seq<u8>)
    requires
        first.is_prefix_of(second),
        second.is_prefix_of(third),
    ensures
        first.is_prefix_of(third),
{
    assert(first =~= third.take(first.len() as int)) by {
        assert(second =~= third.take(second.len() as int));
        assert(first =~= second.take(first.len() as int));
    }
}

/// What refuses the first drawings refuses all of them.
proof fn lemma_drawing_prefix(
    start: Progress,
    width: Seq<u8>,
    height: Seq<u8>,
    fewer: nat,
    count: nat,
    error: Error,
    reached: Progress,
)
    requires
        fewer <= count,
        steps_refused(start, drawing_steps(width, height, fewer), error, reached),
    ensures
        steps_refused(start, drawing_steps(width, height, count), error, reached),
        content_text(width, height, fewer).is_prefix_of(content_text(width, height, count)),
    decreases count,
{
    if fewer < count {
        lemma_drawing_prefix(start, width, height, fewer, (count - 1) as nat, error, reached);
        let first = drawing_steps(width, height, (count - 1) as nat);
        let last = seq![
            Step::Write { length: drawing_text(width, height, (count - 1) as nat).len() },
        ];
        lemma_refused_first(start, first, last, error, reached);
        assert(drawing_steps(width, height, count) =~= first + last);
        let shorter = content_text(width, height, (count - 1) as nat);
        assert(shorter.is_prefix_of(content_text(width, height, count)));
        lemma_still_prefix(
            content_text(width, height, fewer),
            shorter,
            content_text(width, height, count),
        );
    }
}

/// The steps of writing a content stream.
pub open spec fn content_steps(base: int, width: Seq<u8>, height: Seq<u8>, count: nat) -> Seq<Step> {
    seq![Step::Write { length: stream_start_text(base + 1, base + 2, Seq::empty()).len() }]
        + drawing_steps(width, height, count) + seq![
        Step::Write {
            length: stream_end_text(base + 2, content_text(width, height, count).len()).len(),
        },
    ]
}

/// A content stream and its length.
pub open spec fn content_bytes(base: int, width: Seq<u8>, height: Seq<u8>, count: nat) -> Seq<u8> {
    let content = content_text(width, height, count);
    stream_start_text(base + 1, base + 2, Seq::empty()) + content + stream_end_text(
        base + 2,
        content.len(),
    )
}

/// Write the content stream of a page.
fn emit_content(
    writer: &mut PdfWriter,
    content: ObjectId,
    length: ObjectId,
    width: &Vec<u8>,
    height: &Vec<u8>,
    count: usize,
    Ghost(base): Ghost<int>,
) -> (emitted: Result<(), Error>)
    requires
        old(writer).well_formed(),
        old(writer).unready() is None,
        old(writer).is_unwritten(content),
        old(writer).is_unwritten(length),
        content.number == base + 1,
        length.number == base + 2,
    ensures
        final(writer).well_formed(),
        final(writer).limits == old(writer).limits,
        final(writer).offsets@.len() == old(writer).offsets@.len(),
        forall|i: int|
            0 <= i < old(writer).offsets@.len() && i != base && i != base + 1
                ==> #[trigger] final(writer).offsets@[i] == old(writer).offsets@[i],
        match emitted {
            Ok(()) => {
                &&& final(writer).written@ == old(writer).written@ + content_bytes(
                    base,
                    width@,
                    height@,
                    count as nat,
                )
                &&& final(writer).unready() is None
                &&& final(writer).offsets@[base] is Some
                &&& final(writer).offsets@[base + 1] is Some
                &&& passed(
                    old(writer).progress(),
                    content_steps(base, width@, height@, count as nat),
                    final(writer).progress(),
                )
            },
            Err(error) => {
                &&& output_stopped(
                    *old(writer),
                    *final(writer),
                    content_steps(base, width@, height@, count as nat),
                    content_bytes(base, width@, height@, count as nat),
                    error,
                )
            },
        },
{
    let ghost begin = *writer;
    let ghost start = writer.progress();
    let ghost all = content_steps(base, width@, height@, count as nat);
    let ghost text = content_text(width@, height@, count as nat);
    let ghost opening = stream_start_text(base + 1, base + 2, Seq::empty());
    let ghost ending = stream_end_text(base + 2, text.len());
    let ghost one = Step::Write { length: opening.len() };
    let ghost drawings = drawing_steps(width@, height@, count as nat);
    let ghost last = Step::Write { length: ending.len() };
    proof {
        lemma_passed_none(start);
        assert(all =~= Seq::<Step>::empty() + seq![one] + (drawings + seq![last]));
        assert(all =~= seq![one] + drawings + seq![last]);
        assert(all =~= seq![one] + drawings + seq![last] + Seq::<Step>::empty());
    }
    let empty: Vec<u8> = Vec::new();
    assert(empty@ =~= Seq::<u8>::empty());
    match writer.begin_stream(content, length, &empty) {
        Ok(()) => {},
        Err(error) => {
            proof {
                lemma_refused_at(
                    start,
                    Seq::empty(),
                    start,
                    one,
                    drawings + seq![last],
                    all,
                    error,
                );
            }
            return Err(error);
        },
    }
    let ghost opened = *writer;
    proof {
        lemma_passed_one(start, one);
    }
    match draw_images(writer, width, height, count) {
        Ok(()) => {},
        Err(error) => {
            proof {
                lemma_refused_later(start, seq![one], drawings, error, writer.progress());
                lemma_refused_first(
                    start,
                    seq![one] + drawings,
                    seq![last],
                    error,
                    writer.progress(),
                );
                assert(begin.written@.is_prefix_of(opened.written@));
                lemma_still_prefix(begin.written@, opened.written@, writer.written@);
            }
            return Err(error);
        },
    }
    let ghost drawn = *writer;
    proof {
        lemma_passed_more(start, seq![one], opened.progress(), drawings, drawn.progress());
    }
    match writer.end_stream() {
        Ok(()) => {},
        Err(error) => {
            proof {
                lemma_refused_at(
                    start,
                    seq![one] + drawings,
                    drawn.progress(),
                    last,
                    Seq::empty(),
                    all,
                    error,
                );
                assert(begin.written@.is_prefix_of(drawn.written@)) by {
                    assert(drawn.written@ =~= begin.written@ + (opening + text));
                }
                lemma_still_prefix(begin.written@, drawn.written@, writer.written@);
            }
            return Err(error);
        },
    }
    proof {
        lemma_passed_one(drawn.progress(), last);
        lemma_passed_more(
            start,
            seq![one] + drawings,
            drawn.progress(),
            seq![last],
            writer.progress(),
        );
        assert(begin.written@ + opening + text + ending =~= begin.written@ + (opening + text
            + ending));
    }
    Ok(())
}

/// Write a page that shows some images, below a leaf of the page tree.
pub fn emit_page(
    writer: &mut PdfWriter,
    parent: ObjectId,
    width: &Vec<u8>,
    height: &Vec<u8>,
    images: &[ImageObject],
) -> (emitted: Result<ObjectId, Error>)
    requires
        old(writer).well_formed(),
    ensures
        ({
            let base = old(writer).offsets@.len() as int;
            let steps = page_steps(base, parent, width@, height@, images@);
            &&& places_kept(*old(writer), *final(writer))
            &&& match emitted {
                Ok(page) => {
                    &&& old(writer).unready() is None
                    &&& final(writer).unready() is None
                    &&& page.number == base + 3
                    &&& final(writer).offsets@.len() == base + 3
                    &&& forall|i: int|
                        base <= i < base + 3 ==> (#[trigger] final(writer).offsets@[i]) is Some
                    &&& final(writer).written@ == old(writer).written@ + page_bytes(
                        base,
                        parent,
                        width@,
                        height@,
                        images@,
                    )
                    &&& passed(old(writer).progress(), steps, final(writer).progress())
                },
                Err(error) => {
                    &&& output_stopped(
                        *old(writer),
                        *final(writer),
                        steps,
                        page_bytes(base, parent, width@, height@, images@),
                        error,
                    )
                },
            }
        }),
{
    let ghost begin = *writer;
    let ghost base = writer.offsets@.len() as int;
    let ghost start = writer.progress();
    let ghost all = page_steps(base, parent, width@, height@, images@);
    let ghost first = reserve_steps();
    let ghost second = content_steps(base, width@, height@, images@.len());
    let ghost bytes = content_bytes(base, width@, height@, images@.len());
    let ghost pieces = page_pieces(parent, width@, height@, images@, base + 1);
    let ghost object = object_text(base + 3, joined(pieces, 0));
    let ghost last = object_steps(base + 3, pieces);
    proof {
        assert(all =~= first + (second + last));
        assert(all =~= first + second + last);
    }
    let (content, length, page) = match reserve_page(writer) {
        Ok(ids) => ids,
        Err(error) => {
            proof {
                if begin.unready() is None {
                    lemma_refused_first(start, first, second + last, error, writer.progress());
                }
                assert(begin.written@.is_prefix_of(writer.written@));
            }
            return Err(error);
        },
    };
    let ghost reserved = *writer;
    assert(reserved.offsets@[base] is None);
    assert(reserved.offsets@[base + 1] is None);
    assert(reserved.offsets@[base + 2] is None);
    match emit_content(writer, content, length, width, height, images.len(), Ghost(base)) {
        Ok(()) => {},
        Err(error) => {
            proof {
                lemma_refused_later(start, first, second, error, writer.progress());
                lemma_refused_first(start, first + second, last, error, writer.progress());
                assert(writer.offsets@.take(base) =~= begin.offsets@) by {
                    assert forall|i: int| 0 <= i < base implies writer.offsets@[i]
                        == begin.offsets@[i] by {
                        assert(reserved.offsets@[i] == begin.offsets@[i]);
                    }
                }
            }
            return Err(error);
        },
    }
    let ghost filled = *writer;
    proof {
        lemma_passed_more(start, first, reserved.progress(), second, filled.progress());
        assert(filled.offsets@[base + 2] == reserved.offsets@[base + 2]);
    }
    let dictionary = page_dictionary(parent, width, height, images, content);
    match writer.write_object(page, &dictionary) {
        Ok(()) => {},
        Err(error) => {
            proof {
                lemma_refused_later(start, first + second, last, error, writer.progress());
                assert(begin.written@.is_prefix_of(writer.written@));
                assert(writer.offsets@.take(base) =~= begin.offsets@) by {
                    assert forall|i: int| 0 <= i < base implies writer.offsets@[i]
                        == begin.offsets@[i] by {
                        assert(reserved.offsets@[i] == begin.offsets@[i]);
                        assert(filled.offsets@[i] == reserved.offsets@[i]);
                    }
                }
            }
            return Err(error);
        },
    }
    proof {
        lemma_passed_more(start, first + second, filled.progress(), last, writer.progress());
        assert(begin.written@ + bytes + object =~= begin.written@ + (bytes + object));
        assert(writer.offsets@.take(base) =~= begin.offsets@) by {
            assert forall|i: int| 0 <= i < base implies writer.offsets@[i]
                == begin.offsets@[i] by {
                assert(reserved.offsets@[i] == begin.offsets@[i]);
                assert(filled.offsets@[i] == reserved.offsets@[i]);
            }
        }
    }
    Ok(page)
}

} // verus!

//! The objects that a document consists of.

use vstd::prelude::*;
use crate::document::image::ImageObject;
use crate::pieces::views;
use crate::text::{
    decimal, fixed_decimal, push_bytes, push_decimal, push_fixed_decimal, push_text, spelled,
};
use crate::types::Error;
use crate::writer::ObjectId;

verus! {

/// The smallest page dimension, in millionths of a point.
pub const MIN_PAGE_MICROPOINTS: u64 = 1;

/// The largest page dimension, in millionths of a point.
pub const MAX_PAGE_MICROPOINTS: u64 = 14_400_000_000;

/// A page's visible size in millionths of a PDF point.
#[derive(Clone, Copy, Debug, PartialEq, Eq, Structural)]
pub struct PageSpec {
    pub width_micropoints: u64,
    pub height_micropoints: u64,
}

/// A number of points with six decimals.
pub open spec fn points_text(micropoints: u64) -> Seq<u8> {
    decimal((micropoints / 1_000_000) as nat) + spelled(".") + fixed_decimal(
        (micropoints % 1_000_000) as nat,
        6,
    )
}

/// Why a page cannot have this dimension.
pub open spec fn page_number_failure(micropoints: u64) -> Option<Error> {
    if MIN_PAGE_MICROPOINTS <= micropoints <= MAX_PAGE_MICROPOINTS {
        None
    } else {
        Some(
            Error::InvalidInput {
                reason: "page dimension must be finite and within 0.000001..=14400 points",
            },
        )
    }
}

/// A page dimension as a PDF number.
pub fn pdf_page_number(micropoints: u64) -> (number: Result<Vec<u8>, Error>)
    ensures
        match page_number_failure(micropoints) {
            Some(failure) => number == Err::<Vec<u8>, Error>(failure),
            None => number is Ok && number->Ok_0@ == points_text(micropoints),
        },
{
    if micropoints < MIN_PAGE_MICROPOINTS || micropoints > MAX_PAGE_MICROPOINTS {
        return Err(
            Error::InvalidInput {
                reason: "page dimension must be finite and within 0.000001..=14400 points",
            },
        );
    }
    let mut text: Vec<u8> = Vec::new();
    push_decimal(&mut text, micropoints / 1_000_000);
    push_text(&mut text, ".");
    push_fixed_decimal(&mut text, micropoints % 1_000_000, 6);
    assert(text@ =~= points_text(micropoints));
    Ok(text)
}

/// A reference to an object, after a space.
pub open spec fn kid_text(kid: ObjectId) -> Seq<u8> {
    spelled(" ") + decimal(kid.number as nat) + spelled(" 0 R")
}

/// References to objects, one piece each.
pub open spec fn kid_pieces(kids: Seq<ObjectId>) -> Seq<Seq<u8>> {
    Seq::new(kids.len(), |i: int| kid_text(kids[i]))
}

/// The pieces of a node: a head, its children, and the end.
pub open spec fn list_pieces(head: Seq<u8>, kids: Seq<ObjectId>) -> Seq<Seq<u8>> {
    seq![head] + kid_pieces(kids) + seq![spelled(" ] >>")]
}

/// A node of the page tree after its head.
fn kids_after(head: Vec<u8>, kids: &Vec<ObjectId>) -> (pieces: Vec<Vec<u8>>)
    ensures
        views(pieces@) == list_pieces(head@, kids@),
{
    let mut pieces: Vec<Vec<u8>> = Vec::new();
    pieces.push(head);
    let mut next: usize = 0;
    assert(views(pieces@) =~= seq![head@] + kid_pieces(kids@.take(0)));
    while next < kids.len()
        invariant
            next <= kids@.len(),
            views(pieces@) == seq![head@] + kid_pieces(kids@.take(next as int)),
        decreases kids@.len() - next,
    {
        let ghost before = views(pieces@);
        let mut piece: Vec<u8> = Vec::new();
        push_text(&mut piece, " ");
        push_decimal(&mut piece, kids[next].number as u64);
        push_text(&mut piece, " 0 R");
        assert(piece@ =~= kid_text(kids@[next as int]));
        pieces.push(piece);
        assert(views(pieces@) =~= before.push(kid_text(kids@[next as int])));
        assert(views(pieces@) =~= seq![head@] + kid_pieces(kids@.take(next + 1)));
        next += 1;
    }
    assert(kids@.take(next as int) =~= kids@);
    let mut end: Vec<u8> = Vec::new();
    push_text(&mut end, " ] >>");
    assert(end@ =~= spelled(" ] >>"));
    pieces.push(end);
    assert(views(pieces@) =~= list_pieces(head@, kids@));
    pieces
}

/// A page-tree node below the root.
#[verifier::opaque]
pub open spec fn node_pieces(parent: ObjectId, count: nat, kids: Seq<ObjectId>) -> Seq<Seq<u8>> {
    list_pieces(
        spelled("<< /Type /Pages /Parent ") + decimal(parent.number as nat) + spelled(
            " 0 R /Count ",
        ) + decimal(count) + spelled(" /Kids ["),
        kids,
    )
}

pub fn page_node(parent: ObjectId, count: u32, kids: &Vec<ObjectId>) -> (pieces: Vec<Vec<u8>>)
    ensures
        views(pieces@) == node_pieces(parent, count as nat, kids@),
{
    let mut head: Vec<u8> = Vec::new();
    push_text(&mut head, "<< /Type /Pages /Parent ");
    push_decimal(&mut head, parent.number as u64);
    push_text(&mut head, " 0 R /Count ");
    push_decimal(&mut head, count as u64);
    push_text(&mut head, " /Kids [");
    proof {
        reveal(node_pieces);
    }
    assert(head@ =~= spelled("<< /Type /Pages /Parent ") + decimal(parent.number as nat)
        + spelled(" 0 R /Count ") + decimal(count as nat) + spelled(" /Kids ["));
    kids_after(head, kids)
}

/// The root of the page tree.
#[verifier::opaque]
pub open spec fn pages_root_pieces(count: nat, kids: Seq<ObjectId>) -> Seq<Seq<u8>> {
    list_pieces(spelled("<< /Type /Pages /Count ") + decimal(count) + spelled(" /Kids ["), kids)
}

pub fn pages_root(count: u32, kids: &Vec<ObjectId>) -> (pieces: Vec<Vec<u8>>)
    ensures
        views(pieces@) == pages_root_pieces(count as nat, kids@),
{
    let mut head: Vec<u8> = Vec::new();
    push_text(&mut head, "<< /Type /Pages /Count ");
    push_decimal(&mut head, count as u64);
    push_text(&mut head, " /Kids [");
    proof {
        reveal(pages_root_pieces);
    }
    assert(head@ =~= spelled("<< /Type /Pages /Count ") + decimal(count as nat) + spelled(
        " /Kids [",
    ));
    kids_after(head, kids)
}

/// The drawing of image `i`, scaled to fill the page.
pub open spec fn drawing_text(width: Seq<u8>, height: Seq<u8>, i: nat) -> Seq<u8> {
    spelled("q\n") + width + spelled(" 0 0 ") + height + spelled(" 0 0 cm\n/Im") + decimal(i)
        + spelled(" Do\nQ\n")
}

pub fn drawing(width: &Vec<u8>, height: &Vec<u8>, i: usize) -> (text: Vec<u8>)
    ensures
        text@ == drawing_text(width@, height@, i as nat),
{
    let mut text: Vec<u8> = Vec::new();
    push_text(&mut text, "q\n");
    push_bytes(&mut text, width);
    push_text(&mut text, " 0 0 ");
    push_bytes(&mut text, height);
    push_text(&mut text, " 0 0 cm\n/Im");
    push_decimal(&mut text, i as u64);
    push_text(&mut text, " Do\nQ\n");
    assert(text@ =~= drawing_text(width@, height@, i as nat));
    text
}

/// The drawings of the first `count` images, in order, so that a later image
/// paints over an earlier one.
pub open spec fn content_text(width: Seq<u8>, height: Seq<u8>, count: nat) -> Seq<u8>
    decreases count,
{
    if count == 0 {
        Seq::empty()
    } else {
        content_text(width, height, (count - 1) as nat) + drawing_text(
            width,
            height,
            (count - 1) as nat,
        )
    }
}

/// The name of image `i` of a page.
pub open spec fn image_name(image: ImageObject, i: int) -> Seq<u8> {
    spelled(" /Im") + decimal(i as nat) + spelled(" ") + decimal(image.object.number as nat)
        + spelled(" 0 R")
}

/// The names of the images of a page, one piece each.
pub open spec fn image_pieces(images: Seq<ImageObject>) -> Seq<Seq<u8>> {
    Seq::new(images.len(), |i: int| image_name(images[i], i))
}

/// How a page begins.
pub open spec fn page_head(parent: ObjectId, width: Seq<u8>, height: Seq<u8>) -> Seq<u8> {
    spelled("<< /Type /Page /Parent ") + decimal(parent.number as nat) + spelled(
        " 0 R /MediaBox [0 0 ",
    ) + width + spelled(" ") + height + spelled("] /Resources << /XObject <<")
}

/// How a page ends.
pub open spec fn page_end(content: int) -> Seq<u8> {
    spelled(" >> >> /Contents ") + decimal(content as nat) + spelled(" 0 R >>")
}

/// A page that shows some images.
#[verifier::opaque]
pub open spec fn page_pieces(
    parent: ObjectId,
    width: Seq<u8>,
    height: Seq<u8>,
    images: Seq<ImageObject>,
    content: int,
) -> Seq<Seq<u8>> {
    seq![page_head(parent, width, height)] + image_pieces(images) + seq![page_end(content)]
}

pub fn page_dictionary(
    parent: ObjectId,
    width: &Vec<u8>,
    height: &Vec<u8>,
    images: &[ImageObject],
    content: ObjectId,
) -> (pieces: Vec<Vec<u8>>)
    ensures
        views(pieces@) == page_pieces(parent, width@, height@, images@, content.number as int),
{
    let mut head: Vec<u8> = Vec::new();
    push_text(&mut head, "<< /Type /Page /Parent ");
    push_decimal(&mut head, parent.number as u64);
    push_text(&mut head, " 0 R /MediaBox [0 0 ");
    push_bytes(&mut head, width);
    push_text(&mut head, " ");
    push_bytes(&mut head, height);
    push_text(&mut head, "] /Resources << /XObject <<");
    let ghost first = page_head(parent, width@, height@);
    assert(head@ =~= first);
    let mut pieces: Vec<Vec<u8>> = Vec::new();
    pieces.push(head);
    let mut next: usize = 0;
    assert(views(pieces@) =~= seq![first] + image_pieces(images@.take(0)));
    while next < images.len()
        invariant
            next <= images@.len(),
            views(pieces@) == seq![first] + image_pieces(images@.take(next as int)),
        decreases images@.len() - next,
    {
        let ghost before = views(pieces@);
        let mut name: Vec<u8> = Vec::new();
        push_text(&mut name, " /Im");
        push_decimal(&mut name, next as u64);
        push_text(&mut name, " ");
        push_decimal(&mut name, images[next].object.number as u64);
        push_text(&mut name, " 0 R");
        assert(name@ =~= image_name(images@[next as int], next as int));
        pieces.push(name);
        assert(views(pieces@) =~= before.push(image_name(images@[next as int], next as int)));
        assert(views(pieces@) =~= seq![first] + image_pieces(images@.take(next + 1)));
        next += 1;
    }
    assert(images@.take(next as int) =~= images@);
    let mut end: Vec<u8> = Vec::new();
    push_text(&mut end, " >> >> /Contents ");
    push_decimal(&mut end, content.number as u64);
    push_text(&mut end, " 0 R >>");
    assert(end@ =~= page_end(content.number as int));
    pieces.push(end);
    proof {
        reveal(page_pieces);
    }
    assert(views(pieces@) =~= page_pieces(
        parent,
        width@,
        height@,
        images@,
        content.number as int,
    ));
    pieces
}

/// The catalog of a document.
#[verifier::opaque]
pub open spec fn document_catalog_pieces(pages: ObjectId, outlines: Option<u32>) -> Seq<Seq<u8>> {
    seq![spelled("<< /Type /Catalog /Pages ") + decimal(pages.number as nat) + spelled(" 0 R")] + (
    match outlines {
        Some(root) => seq![
            spelled(" /Outlines ") + decimal(root as nat) + spelled(" 0 R /PageMode /UseOutlines"),
        ],
        None => Seq::empty(),
    }) + seq![spelled(" >>")]
}

pub fn document_catalog(pages: ObjectId, outlines: Option<u32>) -> (pieces: Vec<Vec<u8>>)
    ensures
        views(pieces@) == document_catalog_pieces(pages, outlines),
{
    let ghost expected = document_catalog_pieces(pages, outlines);
    proof {
        reveal(document_catalog_pieces);
    }
    let mut pieces: Vec<Vec<u8>> = Vec::new();
    let mut head: Vec<u8> = Vec::new();
    push_text(&mut head, "<< /Type /Catalog /Pages ");
    push_decimal(&mut head, pages.number as u64);
    push_text(&mut head, " 0 R");
    assert(head@ =~= expected[0]);
    pieces.push(head);
    if let Some(root) = outlines {
        let mut outline: Vec<u8> = Vec::new();
        push_text(&mut outline, " /Outlines ");
        push_decimal(&mut outline, root as u64);
        push_text(&mut outline, " 0 R /PageMode /UseOutlines");
        assert(outline@ =~= expected[1]);
        pieces.push(outline);
    }
    let mut end: Vec<u8> = Vec::new();
    push_text(&mut end, " >>");
    assert(end@ =~= spelled(" >>"));
    pieces.push(end);
    assert(views(pieces@) =~= expected);
    pieces
}

} // verus!

//! What the objects of pages say.

use vstd::prelude::*;
use crate::document::image::ImageObject;
use crate::document::pages::PdfDocument;
use crate::document::texts::{
    content_text, document_catalog_pieces, drawing_text, image_name, kid_text, node_pieces,
    page_head, page_number_failure, page_pieces, pages_root_pieces, points_text, PageSpec,
};
use crate::pieces::{joined, lemma_joined_append};
use crate::reading::{holds, lemma_holds, lemma_holds_within};
use crate::text::{
    decimal, decimal_value, fixed_decimal, law_decimal_reads_back, law_fixed_decimal_reads_back,
    spelled, ten_to,
};
use crate::writer::{object_text, stream_end_text, stream_start_text, ObjectId};

verus! {

/// A dimension is accepted from a millionth of a point to 14400 points, and is
/// read back to the millionth.
pub proof fn law_dimensions_read_back(micropoints: u64)
    ensures
        page_number_failure(micropoints) is None <==> 1 <= micropoints <= 14_400_000_000,
        ({
            let text = points_text(micropoints);
            let point = text.len() - 7;
            &&& point > 0
            &&& text[point] == 46
            &&& decimal_value(text.take(point)) * 1_000_000 + decimal_value(text.skip(point + 1))
                == micropoints
        }),
{
    let whole = (micropoints / 1_000_000) as nat;
    let part = (micropoints % 1_000_000) as nat;
    let text = points_text(micropoints);
    reveal_strlit(".");
    assert(vstd::string::is_ascii("."));
    vstd::string::is_ascii_spec_bytes(".");
    law_decimal_reads_back(whole);
    assert(part < ten_to(6)) by {
        reveal_with_fuel(ten_to, 7);
    }
    law_fixed_decimal_reads_back(part, 6);
    crate::reading::lemma_digits(whole);
    let point = text.len() - 7;
    assert(text.take(point) =~= decimal(whole));
    assert(text.skip(point + 1) =~= fixed_decimal(part, 6));
}

/// The name that the contents draw in place `i` is bound to image `i` of the
/// page, so that the images are painted in the order in which they were given.
pub proof fn law_pages_bind_their_images(
    parent: ObjectId,
    width: Seq<u8>,
    height: Seq<u8>,
    images: Seq<ImageObject>,
    content: int,
    i: int,
)
    requires
        0 <= i < images.len(),
    ensures
        ({
            let pieces = page_pieces(parent, width, height, images, content);
            &&& pieces.len() == images.len() + 2
            &&& pieces[i + 1] == spelled(" /Im") + decimal(i as nat) + spelled(" ") + decimal(
                images[i].object.number as nat,
            ) + spelled(" 0 R")
        }),
{
    reveal(page_pieces);
    assert(page_pieces(parent, width, height, images, content)[i + 1] == image_name(
        images[i],
        i,
    ));
}

/// The contents draw one image after the other: image `count` follows all that
/// come before it, each scaled to the page.
pub proof fn law_contents_draw_in_order(width: Seq<u8>, height: Seq<u8>, count: nat)
    ensures
        ({
            let before = content_text(width, height, count);
            let after = content_text(width, height, count + 1);
            let drawing = after.skip(before.len() as int);
            &&& before.is_prefix_of(after)
            &&& drawing == spelled("q\n") + width + spelled(" 0 0 ") + height + spelled(
                " 0 0 cm\n/Im",
            ) + decimal(count) + spelled(" Do\nQ\n")
        }),
        content_text(width, height, 0) == Seq::<u8>::empty(),
{
    let before = content_text(width, height, count);
    let after = content_text(width, height, count + 1);
    let drawing = drawing_text(width, height, count);
    assert(after == before + drawing);
    assert(before =~= after.take(before.len() as int));
    assert(after.skip(before.len() as int) =~= drawing);
}

/// A part of an earlier piece is held by all pieces together.
pub proof fn lemma_piece_held(pieces: Seq<Seq<u8>>, k: int, part: Seq<u8>)
    requires
        0 <= k < pieces.len(),
        holds(pieces[k], part),
    ensures
        holds(joined(pieces, 0), part),
{
    let first = pieces.take(k);
    let one = seq![pieces[k]];
    let last = pieces.skip(k + 1);
    assert(pieces =~= first + one + last);
    lemma_joined_append(first + one, last, 0);
    lemma_joined_append(first, one, 0);
    assert(joined(one, 0) =~= pieces[k]) by {
        assert(joined(one, 1) =~= Seq::<u8>::empty());
    }
    lemma_holds_within(joined(first, 0), pieces[k], joined(last, 0), part);
}

/// The piece of a text is held by it.
pub proof fn lemma_holds_itself(text: Seq<u8>)
    ensures
        holds(text, text),
{
    lemma_holds(Seq::empty(), text, Seq::empty());
    assert(Seq::<u8>::empty() + text + Seq::<u8>::empty() =~= text);
}

/// Adding a page writes its contents, and a page object that has the size that
/// was asked for, names each image for the drawing in its place, and belongs to
/// the leaf of the page tree that takes it.
#[verifier::spinoff_prover]
#[verifier::rlimit(80)]
pub proof fn law_added_pages_show_their_images(
    document: PdfDocument,
    page: PageSpec,
    images: Seq<ImageObject>,
    i: int,
)
    requires
        0 <= i < images.len(),
    ensures
        ({
            let text = document.page_adding_text(page, images);
            let width = points_text(page.width_micropoints);
            let height = points_text(page.height_micropoints);
            let base = document.leaf_base();
            let drawings = content_text(width, height, images.len());
            &&& holds(
                text,
                spelled(" /Im") + decimal(i as nat) + spelled(" ") + decimal(
                    images[i].object.number as nat,
                ) + spelled(" 0 R"),
            )
            &&& holds(
                text,
                spelled(" 0 R /MediaBox [0 0 ") + width + spelled(" ") + height + spelled(
                    "] /Resources << /XObject <<",
                ),
            )
            &&& holds(
                text,
                decimal((base + 3) as nat) + spelled(" 0 obj\n") + (spelled(
                    "<< /Type /Page /Parent ",
                ) + decimal(document.next_leaf().number as nat)),
            )
            &&& holds(
                text,
                spelled(" >> >> /Contents ") + decimal((base + 1) as nat) + spelled(" 0 R >>"),
            )
            &&& holds(
                text,
                decimal((base + 1) as nat) + spelled(" 0 obj\n") + spelled("<<\n") + spelled(
                    "/Length ",
                ) + decimal((base + 2) as nat) + spelled(" 0 R\n>>\nstream\n") + drawings + spelled(
                    "\nendstream\nendobj\n",
                ),
            )
            &&& holds(
                text,
                decimal((base + 2) as nat) + spelled(" 0 obj\n") + decimal(drawings.len())
                    + spelled("\nendobj\n"),
            )
        }),
{
    let width = points_text(page.width_micropoints);
    let height = points_text(page.height_micropoints);
    let base = document.leaf_base();
    let parent = document.next_leaf();
    let text = document.page_adding_text(page, images);
    let nodes = document.closed_nodes_text();
    let drawings = content_text(width, height, images.len());
    let opening = stream_start_text(base + 1, base + 2, Seq::empty());
    let ending = stream_end_text(base + 2, drawings.len());
    let pieces = page_pieces(parent, width, height, images, base + 1);
    let body = joined(pieces, 0);
    let object = object_text(base + 3, body);
    let before = nodes + (opening + drawings + ending);
    assert(text =~= before + object + Seq::<u8>::empty());
    let header = decimal((base + 3) as nat) + spelled(" 0 obj\n");
    // What the page says.
    let name = spelled(" /Im") + decimal(i as nat) + spelled(" ") + decimal(
        images[i].object.number as nat,
    ) + spelled(" 0 R");
    law_pages_bind_their_images(parent, width, height, images, base + 1, i);
    lemma_holds_itself(name);
    lemma_piece_held(pieces, i + 1, name);
    let size = spelled(" 0 R /MediaBox [0 0 ") + width + spelled(" ") + height + spelled(
        "] /Resources << /XObject <<",
    );
    reveal(page_pieces);
    let opened = spelled("<< /Type /Page /Parent ") + decimal(parent.number as nat);
    assert(pieces[0] == page_head(parent, width, height));
    assert(pieces[0] =~= opened + size + Seq::<u8>::empty());
    lemma_holds(opened, size, Seq::empty());
    lemma_piece_held(pieces, 0, size);
    let end = spelled(" >> >> /Contents ") + decimal((base + 1) as nat) + spelled(" 0 R >>");
    assert(pieces[images.len() as int + 1] == end);
    lemma_holds_itself(end);
    lemma_piece_held(pieces, images.len() as int + 1, end);
    let close = spelled("\nendobj\n");
    assert(object =~= header + body + close);
    lemma_holds_within(header, body, close, name);
    lemma_holds_within(header, body, close, size);
    lemma_holds_within(header, body, close, end);
    lemma_holds_within(before, object, Seq::empty(), name);
    lemma_holds_within(before, object, Seq::empty(), size);
    lemma_holds_within(before, object, Seq::empty(), end);
    let rest = joined(pieces, 1);
    assert(body == pieces[0] + rest);
    assert(text =~= before + (header + opened) + (size + rest + close));
    lemma_holds(before, header + opened, size + rest + close);
    // Its contents, and their length.
    let stream = decimal((base + 1) as nat) + spelled(" 0 obj\n") + spelled("<<\n") + spelled(
        "/Length ",
    ) + decimal((base + 2) as nat) + spelled(" 0 R\n>>\nstream\n") + drawings + spelled(
        "\nendstream\nendobj\n",
    );
    let length = decimal((base + 2) as nat) + spelled(" 0 obj\n") + decimal(drawings.len())
        + close;
    assert(text =~= nodes + stream + (length + object)) by {
        assert(opening =~= decimal((base + 1) as nat) + spelled(" 0 obj\n") + spelled("<<\n")
            + spelled("/Length ") + decimal((base + 2) as nat) + spelled(" 0 R\n>>\nstream\n"));
        assert(ending =~= spelled("\nendstream\nendobj\n") + length);
    }
    lemma_holds(nodes, stream, length + object);
    assert(text =~= (nodes + stream) + length + object);
    lemma_holds(nodes + stream, length, object);
}

/// A node of the page tree names the node above it, counts its pages, and lists
/// its children in order.
pub proof fn law_nodes_list_their_children(
    parent: ObjectId,
    count: nat,
    kids: Seq<ObjectId>,
    i: int,
)
    requires
        0 <= i < kids.len(),
    ensures
        ({
            let pieces = node_pieces(parent, count, kids);
            &&& pieces.len() == kids.len() + 2
            &&& pieces[0] == spelled("<< /Type /Pages /Parent ") + decimal(parent.number as nat)
                + spelled(" 0 R /Count ") + decimal(count) + spelled(" /Kids [")
            &&& pieces[i + 1] == spelled(" ") + decimal(kids[i].number as nat) + spelled(" 0 R")
            &&& pieces.last() == spelled(" ] >>")
        }),
        ({
            let pieces = pages_root_pieces(count, kids);
            &&& pieces.len() == kids.len() + 2
            &&& pieces[0] == spelled("<< /Type /Pages /Count ") + decimal(count) + spelled(
                " /Kids [",
            )
            &&& pieces[i + 1] == spelled(" ") + decimal(kids[i].number as nat) + spelled(" 0 R")
            &&& pieces.last() == spelled(" ] >>")
        }),
{
    reveal(node_pieces);
    reveal(pages_root_pieces);
    assert(node_pieces(parent, count, kids)[i + 1] == kid_text(kids[i]));
    assert(pages_root_pieces(count, kids)[i + 1] == kid_text(kids[i]));
}

/// The nodes that a document writes are those that it holds: an open leaf with
/// the pages that it took, below the open middle node; a middle node with its
/// leaves, below the root; and the root with every middle node and the number of
/// all pages.
pub proof fn law_written_nodes_are_those_held(document: PdfDocument)
    requires
        document.well_formed(),
        !document.tree_torn@,
    ensures
        document.leaf matches Some(leaf) ==> {
            &&& document.leaf_text() == object_text(
                leaf.id.number as int,
                joined(
                    node_pieces(document.middle->0.id, leaf.children@.len(), leaf.children@),
                    0,
                ),
            )
            &&& leaf.id == document.leaf_ids@.last()
            &&& leaf.children@.len() > 0 ==> leaf.children@.last() == document.page_ids@.last()
        },
        document.middle matches Some(middle) ==> {
            &&& document.middle_text() == object_text(
                middle.id.number as int,
                joined(
                    node_pieces(
                        document.pages_root_id,
                        (document.page_ids@.len() - 65_536 * (document.middle_ids@.len() - 1)) as nat,
                        middle.children@,
                    ),
                    0,
                ),
            )
            &&& middle.id == document.middle_ids@.last()
            &&& middle.children@.len() > 0 ==> middle.children@.last() == document.leaf_ids@.last()
        },
        document.tree_root_text() == object_text(
            document.pages_root_id.number as int,
            joined(pages_root_pieces(document.page_ids@.len(), document.middle_ids@), 0),
        ),
{
    crate::document::finish::law_root_covers_every_page(document);
}

/// The catalog names the page tree, and the outline exactly where there is one.
pub proof fn law_catalog_names_its_roots(pages: ObjectId, outlines: Option<u32>)
    ensures
        ({
            let pieces = document_catalog_pieces(pages, outlines);
            &&& pieces[0] == spelled("<< /Type /Catalog /Pages ") + decimal(pages.number as nat)
                + spelled(" 0 R")
            &&& pieces.last() == spelled(" >>")
            &&& match outlines {
                Some(root) => pieces.len() == 3 && pieces[1] == spelled(" /Outlines ") + decimal(
                    root as nat,
                ) + spelled(" 0 R /PageMode /UseOutlines"),
                None => pieces.len() == 2,
            }
        }),
{
    reveal(document_catalog_pieces);
}

} // verus!

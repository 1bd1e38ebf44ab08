//! What a document's outline and its end say.

use vstd::prelude::*;
use crate::document::bookmarks::{closing_text, entry_text};
use crate::document::emit::page_bytes;
use crate::document::finish::outline_root_text;
use crate::document::image_page::ImagePage;
use crate::document::page_words::{
    law_pages_bind_their_images, lemma_holds_itself, lemma_piece_held,
};
use crate::document::pages::PdfDocument;
use crate::document::texts::{content_text, document_catalog_pieces, drawing_text, page_pieces};
use crate::outline::{depths, item_of, item_pieces, lemma_levels_held, Entry};
use crate::outline_order::{
    first_root, last_root, law_roots_are_the_outermost, lemma_last_at_most_is, open_at,
};
use crate::pieces::joined;
use crate::reading::{holds, lemma_holds, lemma_holds_within, referred, under};
use crate::text::{decimal, pdf_ref_text, spelled, SPACE};
use crate::types::{Bookmark, PdfRef};
use crate::writer::{object_text, stream_end_text, stream_start_text, ObjectId};

verus! {

/// The entries from the last open one up are written in that order.
proof fn lemma_entry_closed(
    before: Seq<Entry>,
    after: Seq<Entry>,
    root: PdfRef,
    levels: int,
    depth: int,
    level: int,
)
    requires
        0 <= depth <= level < levels,
    ensures
        holds(
            closing_text(before, after, root, levels, depth),
            entry_text(after, root, open_at(depths(before), level as nat)),
        ),
    decreases levels,
{
    let here = entry_text(after, root, open_at(depths(before), (levels - 1) as nat));
    let rest = closing_text(before, after, root, levels - 1, depth);
    let text = closing_text(before, after, root, levels, depth);
    if level == levels - 1 {
        lemma_holds(Seq::empty(), here, rest);
        assert(text =~= Seq::<u8>::empty() + here + rest);
    } else {
        lemma_entry_closed(before, after, root, levels - 1, depth, level);
        lemma_holds_within(
            here,
            rest,
            Seq::empty(),
            entry_text(after, root, open_at(depths(before), level as nat)),
        );
        assert(text =~= here + rest + Seq::<u8>::empty());
    }
}

/// An entry that no entry outside it follows is the open one at its depth.
proof fn lemma_open_entry(entries: Seq<Entry>, i: int)
    requires
        0 <= i < entries.len(),
        forall|k: int| i < k < entries.len() ==> (#[trigger] entries[k]).depth > entries[i].depth,
    ensures
        open_at(depths(entries), entries[i].depth) == i,
        entries[i].depth <= entries.last().depth,
{
    let order = depths(entries);
    assert forall|m: int| i < m < order.len() implies #[trigger] order[m] > order[i] by {
        assert(entries[m].depth > entries[i].depth);
    }
    lemma_last_at_most_is(order, order.len() as int, order[i], i);
    if i < entries.len() - 1 {
        assert(entries[entries.len() - 1].depth > entries[i].depth);
    }
}

/// An entry that no entry outside it follows is still open and is written at the
/// end, under its number.
pub proof fn law_open_entries_are_written(document: PdfDocument, i: int)
    requires
        document.well_formed(),
        !document.outline_failed,
        0 <= i < document.outline.entries@.len(),
        forall|k: int|
            i < k < document.outline.entries@.len() ==> (
            #[trigger] document.outline.entries@[k]).depth > document.outline.entries@[i].depth,
    ensures
        ({
            let entries = document.outline.entries@;
            let root = document.outline.root_reference();
            holds(
                document.open_entries_text(),
                decimal(entries[i].reference.number as nat) + spelled(" 0 obj\n") + joined(
                    item_pieces(item_of(entries, root, i)),
                    0,
                ) + spelled("\nendobj\n"),
            )
        }),
{
    reveal(entry_text);
    let entries = document.outline.entries@;
    let root = document.outline.root_reference();
    let levels = document.outline.open@.len() as int;
    lemma_levels_held(document.outline);
    lemma_open_entry(entries, i);
    assert(depths(entries).last() == entries.last().depth);
    lemma_entry_closed(entries, entries, root, levels, 0, entries[i].depth as int);
}

/// A bookmark completes the entries that it ends: those at its depth or below that
/// no entry outside them follows yet. Each is written under its number, with what
/// is known now.
pub proof fn law_ended_entries_are_written(
    document: PdfDocument,
    bookmark: Bookmark,
    root: PdfRef,
    id: ObjectId,
    i: int,
)
    requires
        document.well_formed(),
        !document.outline_failed,
        bookmark.page_index < document.page_ids@.len(),
        0 <= i < document.outline.entries@.len(),
        document.outline.entries@[i].depth >= bookmark.depth,
        forall|k: int|
            i < k < document.outline.entries@.len() ==> (
            #[trigger] document.outline.entries@[k]).depth > document.outline.entries@[i].depth,
    ensures
        ({
            let entries = document.outline.entries@;
            let page = document.page_ids@[bookmark.page_index as int];
            let all = entries.push(
                (Entry {
                    depth: bookmark.depth as nat,
                    reference: (PdfRef { number: id.number, generation: 0 }),
                    page: (PdfRef { number: page.number, generation: 0 }),
                    title: bookmark.title@,
                }),
            );
            holds(
                document.bookmark_text(bookmark, root, id),
                decimal(entries[i].reference.number as nat) + spelled(" 0 obj\n") + joined(
                    item_pieces(item_of(all, root, i)),
                    0,
                ) + spelled("\nendobj\n"),
            )
        }),
{
    reveal(entry_text);
    let entries = document.outline.entries@;
    let all = document.entries_with(bookmark, id);
    let levels = document.outline.open@.len() as int;
    lemma_levels_held(document.outline);
    lemma_open_entry(entries, i);
    assert(depths(entries).last() == entries.last().depth);
    assert(all[i] == entries[i]);
    lemma_entry_closed(
        entries,
        all,
        root,
        levels,
        bookmark.depth as int,
        entries[i].depth as int,
    );
}

/// Where there are bookmarks, what ends the outline holds its root, with its first
/// and last entries and their number.
pub proof fn law_outline_is_completed(document: PdfDocument, first: int, last: int)
    requires
        document.well_formed(),
        !document.outline_failed,
        0 <= first < document.outline.entries@.len(),
        0 <= last < document.outline.entries@.len(),
        document.outline.entries@[first].depth == 0,
        document.outline.entries@[last].depth == 0,
        forall|j: int| 0 <= j < first ==> (#[trigger] document.outline.entries@[j]).depth > 0,
        forall|j: int|
            last < j < document.outline.entries@.len() ==> (
            #[trigger] document.outline.entries@[j]).depth > 0,
    ensures
        ({
            let entries = document.outline.entries@;
            &&& document.outline.root matches Some(root) && holds(
                document.outline_text(),
                decimal(root.number as nat) + spelled(" 0 obj\n") + (spelled(
                    "<< /Type /Outlines /First ",
                ) + referred(entries[first].reference) + spelled(" /Last ") + referred(
                    entries[last].reference,
                ) + spelled(" /Count ") + decimal(entries.len()) + spelled(" >>")) + spelled(
                    "\nendobj\n",
                ),
            )
            &&& document.root_refusal() is None
        }),
{
    let entries = document.outline.entries@;
    let order = depths(entries);
    lemma_levels_held(document.outline);
    law_roots_are_the_outermost(order, first);
    law_roots_are_the_outermost(order, last);
    assert(first_root(order) == Some(first)) by {
        assert forall|j: int| 0 <= j < first implies #[trigger] order[j] > 0 by {
            assert(entries[j].depth > 0);
        }
    }
    assert(last_root(order) == Some(last)) by {
        assert forall|j: int| last < j < order.len() implies #[trigger] order[j] > 0 by {
            assert(entries[j].depth > 0);
        }
    }
    let one = entries[first].reference;
    let other = entries[last].reference;
    lemma_reference(one);
    lemma_reference(other);
    let body = spelled("<< /Type /Outlines /First ") + referred(one) + spelled(" /Last ")
        + referred(other) + spelled(" /Count ") + decimal(entries.len()) + spelled(" >>");
    assert(outline_root_text(one, other, entries.len()) =~= body);
    let pieces = document.outline_root_pieces();
    assert(pieces =~= seq![body]);
    assert(joined(pieces, 1) =~= Seq::<u8>::empty());
    assert(joined(pieces, 0) =~= body);
    let root = document.outline.root->0;
    let object = decimal(root.number as nat) + spelled(" 0 obj\n") + body + spelled("\nendobj\n");
    assert(document.outline_root_object() =~= object);
    let open = document.open_entries_text();
    lemma_holds(open, object, Seq::empty());
    assert(document.outline_text() =~= open + object + Seq::<u8>::empty());
}

proof fn lemma_reference(object: PdfRef)
    ensures
        pdf_ref_text(object) == referred(object),
{
    crate::reading::lemma_reference_words();
    assert(spelled(" ") =~= seq![SPACE]);
    assert(pdf_ref_text(object) =~= referred(object));
}

/// A document without bookmarks has nothing of an outline, and its catalog is the
/// last object of any document, after the page tree and the outline.
pub proof fn law_catalog_ends_the_objects(document: PdfDocument)
    requires
        document.well_formed(),
        !document.outline_failed,
    ensures
        document.finish_text() == document.tree_text() + document.outline_text() + decimal(
            document.catalog_id.number as nat,
        ) + spelled(" 0 obj\n") + joined(document.catalog_pieces(), 0) + spelled("\nendobj\n"),
        document.outline.root is None ==> document.outline_text().len() == 0,
        document.tree_text() == document.leaf_text() + document.middle_text() + decimal(
            document.pages_root_id.number as nat,
        ) + spelled(" 0 obj\n") + joined(document.root_pieces(), 0) + spelled("\nendobj\n"),
        joined(document.catalog_pieces(), 0) == spelled("<< /Type /Catalog /Pages ") + decimal(
            document.pages_root_id.number as nat,
        ) + spelled(" 0 R") + under(
            spelled(" /Outlines "),
            match document.outline.root {
                Some(root) => Some(root.number as nat),
                None => None,
            },
            spelled(" 0 R /PageMode /UseOutlines"),
        ) + spelled(" >>"),
{
    lemma_levels_held(document.outline);
    assert(document.finish_text() =~= document.tree_text() + document.outline_text() + decimal(
        document.catalog_id.number as nat,
    ) + spelled(" 0 obj\n") + joined(document.catalog_pieces(), 0) + spelled("\nendobj\n"));
    assert(document.tree_text() =~= document.leaf_text() + document.middle_text() + decimal(
        document.pages_root_id.number as nat,
    ) + spelled(" 0 obj\n") + joined(document.root_pieces(), 0) + spelled("\nendobj\n"));
    reveal(document_catalog_pieces);
    let pieces = document.catalog_pieces();
    let first = spelled("<< /Type /Catalog /Pages ") + decimal(
        document.pages_root_id.number as nat,
    ) + spelled(" 0 R");
    match document.outline.root {
        Some(root) => {
            let outlines = spelled(" /Outlines ") + decimal(root.number as nat) + spelled(
                " 0 R /PageMode /UseOutlines",
            );
            assert(pieces =~= seq![first, outlines, spelled(" >>")]);
            assert(joined(pieces, 3) =~= Seq::<u8>::empty());
            assert(joined(pieces, 2) =~= spelled(" >>"));
            assert(joined(pieces, 1) =~= outlines + spelled(" >>"));
            assert(joined(pieces, 0) =~= first + outlines + spelled(" >>"));
        },
        None => {
            assert(pieces =~= seq![first, spelled(" >>")]);
            assert(joined(pieces, 2) =~= Seq::<u8>::empty());
            assert(joined(pieces, 1) =~= spelled(" >>"));
            assert(joined(pieces, 0) =~= first + spelled(" >>"));
        },
    }
}

proof fn lemma_last_two(a: Seq<u8>, b: Seq<u8>, c: Seq<u8>, d: Seq<u8>)
    ensures
        a + b + c + d == a + b + (c + d),
{
    assert(a + b + c + d =~= a + b + (c + d));
}

proof fn lemma_framed(a: Seq<u8>, b: Seq<u8>, c: Seq<u8>, d: Seq<u8>)
    ensures
        a + (b + c + d) == a + b + c + d,
{
    assert(a + (b + c + d) =~= a + b + c + d);
}

/// The contents of a page with one image draw it.
proof fn lemma_image_drawn(page: ImagePage, parent: ObjectId)
    ensures
        holds(
            page_bytes(page.image.number + 1, parent, page.width@, page.height@, page.images()),
            spelled("q\n") + page.width@ + spelled(" 0 0 ") + page.height@ + spelled(
                " 0 0 cm\n/Im",
            ) + decimal(0) + spelled(" Do\nQ\n"),
        ),
{
    let base = page.image.number + 1;
    let images = page.images();
    let content = content_text(page.width@, page.height@, 1);
    let drawn = drawing_text(page.width@, page.height@, 0);
    assert(content_text(page.width@, page.height@, 0) =~= Seq::<u8>::empty());
    assert(content =~= drawn);
    let opening = stream_start_text(base + 1, base + 2, Seq::empty());
    let ending = stream_end_text(base + 2, content.len());
    let object = object_text(
        base + 3,
        joined(page_pieces(parent, page.width@, page.height@, images, base + 1), 0),
    );
    lemma_holds(opening, drawn, ending + object);
    lemma_last_two(opening, drawn, ending, object);
}

/// The page with one image binds it to its name.
proof fn lemma_image_bound(page: ImagePage, parent: ObjectId)
    ensures
        holds(
            page_bytes(page.image.number + 1, parent, page.width@, page.height@, page.images()),
            spelled(" /Im") + decimal(0) + spelled(" ") + decimal(page.image.number as nat)
                + spelled(" 0 R"),
        ),
{
    let base = page.image.number + 1;
    let images = page.images();
    let content = content_text(page.width@, page.height@, images.len());
    let opening = stream_start_text(base + 1, base + 2, Seq::empty());
    let ending = stream_end_text(base + 2, content.len());
    let pieces = page_pieces(parent, page.width@, page.height@, images, base + 1);
    let body = joined(pieces, 0);
    let name = spelled(" /Im") + decimal(0) + spelled(" ") + decimal(page.image.number as nat)
        + spelled(" 0 R");
    law_pages_bind_their_images(parent, page.width@, page.height@, images, base + 1, 0);
    lemma_holds_itself(name);
    lemma_piece_held(pieces, 1, name);
    let before = opening + content + ending;
    let header = decimal((base + 3) as nat) + spelled(" 0 obj\n");
    let close = spelled("\nendobj\n");
    lemma_holds_within(before + header, body, close, name);
    lemma_framed(before, header, body, close);
    assert(object_text(base + 3, body) == header + body + close);
}

/// A page with one image shows that image and no other: it is bound to the name
/// that the contents draw. Its stream ends with the number of its bytes.
pub proof fn law_image_pages_show_their_image(page: ImagePage, parent: ObjectId)
    ensures
        ({
            let base = page.image.number + 1;
            let text = page_bytes(base, parent, page.width@, page.height@, page.images());
            &&& page.images().len() == 1
            &&& holds(
                text,
                spelled(" /Im") + decimal(0) + spelled(" ") + decimal(page.image.number as nat)
                    + spelled(" 0 R"),
            )
            &&& holds(
                text,
                spelled("q\n") + page.width@ + spelled(" 0 0 ") + page.height@ + spelled(
                    " 0 0 cm\n/Im",
                ) + decimal(0) + spelled(" Do\nQ\n"),
            )
            &&& page.end_text() == spelled("\nendstream\nendobj\n") + (decimal(base as nat)
                + spelled(" 0 obj\n") + decimal(page.length as nat) + spelled("\nendobj\n"))
        }),
{
    lemma_image_drawn(page, parent);
    lemma_image_bound(page, parent);
}

} // verus!

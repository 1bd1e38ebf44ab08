//! What is appended to an inspected PDF before the xref update.

use vstd::prelude::*;
use crate::append::appender::{
    catalog_pieces, closing_objects, kept_entries, repairs, root_pieces, PdfOutlineAppender,
};
use crate::append::index::CatalogEntry;
use crate::append::update::{
    first_id, hash_or_zero, id_pieces, in_order, update_end_text, update_head_text, update_text,
};
use crate::append::update_words::lemma_as_many;
use crate::append::writer::{appended_entries, appended_text, hash_of, XrefEntry};
use crate::outline::{depths, item_of, item_pieces, lemma_levels_held, Entry};
use crate::outline_order::{
    first_root, last_root, law_roots_are_the_outermost, lemma_last_at_most_is, open_at,
};
use crate::pieces::{joined, lemma_joined_append};
use crate::reading::referred;
use crate::sorting::reordered;
use crate::text::{decimal, pdf_ref_text, spelled, SPACE};
use crate::types::{Bookmark, PdfRef};

verus! {

proof fn lemma_reference(object: PdfRef)
    ensures
        pdf_ref_text(object) == referred(object),
{
    crate::reading::lemma_reference_words();
    assert(spelled(" ") =~= seq![SPACE]);
    assert(pdf_ref_text(object) =~= referred(object));
}

proof fn lemma_one_piece(piece: Seq<u8>)
    ensures
        joined(seq![piece], 0) == piece,
{
    let pieces = seq![piece];
    assert(joined(pieces, 1) =~= Seq::<u8>::empty());
    assert(joined(pieces, 0) =~= piece);
}

/// The catalog is rewritten with one entry for the outline, at its end.
pub proof fn law_catalog_names_the_outline(entries: Seq<CatalogEntry>, root: PdfRef)
    ensures
        joined(catalog_pieces(entries, root), 0) == spelled("<<") + joined(
            kept_entries(entries, 0),
            0,
        ) + spelled(" /Outlines ") + referred(root) + spelled(" >>"),
{
    reveal(catalog_pieces);
    lemma_reference(root);
    let first = seq![spelled("<<")];
    let kept = kept_entries(entries, 0);
    let end = spelled(" /Outlines ") + pdf_ref_text(root) + spelled(" >>");
    lemma_joined_append(first + kept, seq![end], 0);
    lemma_joined_append(first, kept, 0);
    lemma_one_piece(spelled("<<"));
    lemma_one_piece(end);
    assert(joined(catalog_pieces(entries, root), 0) =~= spelled("<<") + joined(kept, 0) + spelled(
        " /Outlines ",
    ) + referred(root) + spelled(" >>"));
}

/// The catalog's other entries are kept as they were, in their order, each after
/// a space; an entry for an outline is not.
pub proof fn law_catalog_entries_are_kept(entries: Seq<CatalogEntry>, from: int)
    requires
        0 <= from < entries.len(),
    ensures
        joined(kept_entries(entries, entries.len() as int), 0).len() == 0,
        entries[from].name@ == spelled("Outlines") ==> joined(kept_entries(entries, from), 0)
            == joined(kept_entries(entries, from + 1), 0),
        entries[from].name@ != spelled("Outlines") ==> joined(kept_entries(entries, from), 0)
            == spelled(" ") + entries[from].raw_pair@ + joined(kept_entries(entries, from + 1), 0),
{
    assert(kept_entries(entries, entries.len() as int) =~= Seq::<Seq<u8>>::empty());
    if entries[from].name@ != spelled("Outlines") {
        let pair = seq![spelled(" "), entries[from].raw_pair@];
        lemma_joined_append(pair, kept_entries(entries, from + 1), 0);
        assert(joined(pair, 2) =~= Seq::<u8>::empty());
        assert(joined(pair, 1) =~= entries[from].raw_pair@);
        assert(joined(pair, 0) =~= spelled(" ") + entries[from].raw_pair@);
    }
}

/// The entries from the last open one up are closed in that order.
proof fn lemma_closing(
    before: Seq<Entry>,
    after: Seq<Entry>,
    root: PdfRef,
    levels: int,
    depth: int,
    k: int,
)
    requires
        0 <= depth <= levels,
    ensures
        closing_objects(before, after, root, levels, depth).len() == levels - depth,
        0 <= k < levels - depth ==> {
            let i = open_at(depths(before), (levels - 1 - k) as nat);
            let object = closing_objects(before, after, root, levels, depth)[k];
            &&& object.reference == before[i].reference
            &&& object.body == item_pieces(item_of(after, root, i))
        },
    decreases levels,
{
    if levels > depth {
        lemma_closing(before, after, root, levels - 1, depth, k - 1);
    }
}

/// An entry that no entry outside it follows is still open and is written at the
/// end, under its number, after the entries below it and before those above it.
pub proof fn law_open_entries_are_written(appender: PdfOutlineAppender, i: int)
    requires
        appender.well_formed(),
        !appender.writer.poisoned,
        0 <= i < appender.outline.entries@.len(),
        forall|k: int|
            i < k < appender.outline.entries@.len() ==> (
            #[trigger] appender.outline.entries@[k]).depth > appender.outline.entries@[i].depth,
    ensures
        ({
            let entries = appender.outline.entries@;
            let k = entries.last().depth - entries[i].depth;
            &&& 0 <= k < appender.last_objects().len()
            &&& appender.last_objects()[k].reference == entries[i].reference
            &&& appender.last_objects()[k].body == item_pieces(
                item_of(entries, appender.outline.root_reference(), i),
            )
        }),
{
    let entries = appender.outline.entries@;
    let order = depths(entries);
    let root = appender.outline.root_reference();
    lemma_levels_held(appender.outline);
    let levels = appender.outline.open@.len() as int;
    let k = entries.last().depth - entries[i].depth;
    assert(order.last() == entries.last().depth);
    if i < entries.len() - 1 {
        assert(entries[entries.len() - 1].depth > entries[i].depth);
    }
    lemma_closing(entries, entries, root, levels, 0, k);
    assert forall|m: int| i < m < order.len() implies #[trigger] order[m] > order[i] by {
        assert(entries[m].depth > entries[i].depth);
    }
    lemma_last_at_most_is(order, order.len() as int, order[i], i);
    assert(open_at(order, (levels - 1 - k) as nat) == i);
}

/// A bookmark completes the entries that it ends: those at its depth or below that
/// no entry outside them follows yet. Each is written under its number, with what
/// is known now, after the entries below it.
pub proof fn law_ended_entries_are_written(
    appender: PdfOutlineAppender,
    bookmark: Bookmark,
    root: PdfRef,
    reference: PdfRef,
    i: int,
)
    requires
        appender.well_formed(),
        !appender.writer.poisoned,
        bookmark.page_index < appender.index.pages@.len(),
        0 <= i < appender.outline.entries@.len(),
        appender.outline.entries@[i].depth >= bookmark.depth,
        forall|k: int|
            i < k < appender.outline.entries@.len() ==> (
            #[trigger] appender.outline.entries@[k]).depth > appender.outline.entries@[i].depth,
    ensures
        ({
            let entries = appender.outline.entries@;
            let all = entries.push(
                (Entry {
                    depth: bookmark.depth as nat,
                    reference,
                    page: appender.index.pages@[bookmark.page_index as int],
                    title: bookmark.title@,
                }),
            );
            let objects = appender.written_by(bookmark, root, reference);
            let k = entries.last().depth - entries[i].depth;
            &&& objects.len() == entries.last().depth + 1 - bookmark.depth
            &&& 0 <= k < objects.len()
            &&& objects[k].reference == entries[i].reference
            &&& objects[k].body == item_pieces(item_of(all, root, i))
        }),
{
    let entries = appender.outline.entries@;
    let order = depths(entries);
    lemma_levels_held(appender.outline);
    let levels = appender.outline.open@.len() as int;
    let k = entries.last().depth - entries[i].depth;
    assert(order.last() == entries.last().depth);
    if i < entries.len() - 1 {
        assert(entries[entries.len() - 1].depth > entries[i].depth);
    }
    let all = entries.push(appender.entry_of(bookmark, reference));
    lemma_closing(entries, all, root, levels, bookmark.depth as int, k);
    assert forall|m: int| i < m < order.len() implies #[trigger] order[m] > order[i] by {
        assert(entries[m].depth > entries[i].depth);
    }
    lemma_last_at_most_is(order, order.len() as int, order[i], i);
    assert(open_at(order, (levels - 1 - k) as nat) == i);
}

/// Where there are bookmarks, the outline's root is written after them, with its
/// first and last entries and their number, then every repair, and the catalog
/// last.
#[verifier::spinoff_prover]
#[verifier::rlimit(40)]
pub proof fn law_outline_is_completed(appender: PdfOutlineAppender, first: int, last: int, k: int)
    requires
        appender.well_formed(),
        !appender.writer.poisoned,
        appender.outline.root is Some,
        0 <= first < appender.outline.entries@.len(),
        0 <= last < appender.outline.entries@.len(),
        appender.outline.entries@[first].depth == 0,
        appender.outline.entries@[last].depth == 0,
        forall|j: int|
            0 <= j < first ==> (#[trigger] appender.outline.entries@[j]).depth > 0,
        forall|j: int|
            last < j < appender.outline.entries@.len() ==> (
            #[trigger] appender.outline.entries@[j]).depth > 0,
    ensures
        ({
            let entries = appender.outline.entries@;
            let objects = appender.last_objects();
            let repaired = appender.index.repair_objects@;
            let at = entries.last().depth as int + 1;
            &&& objects.len() == at + 1 + repaired.len() + 1
            &&& Some(objects[at].reference) == appender.outline.root
            &&& joined(objects[at].body, 0) == spelled("<< /Type /Outlines /First ") + referred(
                entries[first].reference,
            ) + spelled(" /Last ") + referred(entries[last].reference) + spelled(" /Count ")
                + decimal(entries.len()) + spelled(" >>")
            &&& 0 <= k < repaired.len() ==> {
                &&& objects[at + 1 + k].reference == repaired[k].reference
                &&& joined(objects[at + 1 + k].body, 0) == repaired[k].body@
            }
            &&& objects.last().reference == appender.index.catalog
            &&& objects.last().body == catalog_pieces(
                appender.index.catalog_entries@,
                appender.outline.root->0,
            )
        }),
{
    reveal(root_pieces);
    let entries = appender.outline.entries@;
    let order = depths(entries);
    lemma_levels_held(appender.outline);
    assert(order.last() == entries.last().depth);
    law_roots_are_the_outermost(order, first);
    law_roots_are_the_outermost(order, last);
    assert(first_root(order) == Some(first)) by {
        assert forall|j: int| 0 <= j < first implies #[trigger] order[j] > 0 by {
            assert(entries[j].depth > 0);
        }
    }
    assert(last_root(order) == Some(last)) by {
        assert forall|j: int| last < j < order.len() implies #[trigger] order[j] > 0 by {
            assert(entries[j].depth > 0);
        }
    }
    let root = appender.outline.root_reference();
    let at = entries.last().depth as int + 1;
    lemma_closing(entries, entries, root, appender.outline.open@.len() as int, 0, 0);
    lemma_reference(entries[first].reference);
    lemma_reference(entries[last].reference);
    let body = root_pieces(entries[first].reference, entries[last].reference, entries.len());
    lemma_one_piece(body[0]);
    assert(body =~= seq![body[0]]);
    let objects = appender.last_objects();
    assert(objects[at].body == body);
    if 0 <= k < appender.index.repair_objects@.len() {
        lemma_one_piece(appender.index.repair_objects@[k].body@);
        assert(objects[at + 1 + k] == repairs(appender.index.repair_objects@)[k]);
    }
}

/// Where there are no bookmarks, the repairs are written, and nothing else.
pub proof fn law_repairs_are_written(appender: PdfOutlineAppender, k: int)
    requires
        appender.well_formed(),
        !appender.writer.poisoned,
        appender.outline.root is None,
    ensures
        ({
            let objects = appender.last_objects();
            let repaired = appender.index.repair_objects@;
            &&& objects.len() == repaired.len()
            &&& 0 <= k < repaired.len() ==> objects[k].reference == repaired[k].reference
            &&& 0 <= k < repaired.len() ==> joined(objects[k].body, 0) == repaired[k].body@
        }),
{
    lemma_levels_held(appender.outline);
    let root = appender.outline.root_reference();
    lemma_closing(
        appender.outline.entries@,
        appender.outline.entries@,
        root,
        appender.outline.open@.len() as int,
        0,
        0,
    );
    if 0 <= k < appender.index.repair_objects@.len() {
        lemma_one_piece(appender.index.repair_objects@[k].body@);
    }
}

/// A file to which objects were appended ends by saying where its last xref table
/// starts, and one starts there.
pub proof fn law_appended_tables_are_found(
    appender: PdfOutlineAppender,
    finished: PdfOutlineAppender,
)
    requires
        appender.well_formed(),
        appender.completed_by(finished),
        appender.writer.entries@.len() + appender.last_objects().len() > 0,
        appender.writer.position + appended_text(appender.last_objects()).len() <= u64::MAX,
    ensures
        ({
            let file = finished.writer.written@;
            let start = appender.writer.written@.len() + appended_text(
                appender.last_objects(),
            ).len();
            let end = spelled(" >>\nstartxref\n") + decimal(start) + spelled("\n%%EOF\n");
            &&& start + 5 <= file.len()
            &&& spelled("xref\n").is_prefix_of(file.skip(start as int))
            &&& end.len() <= file.len()
            &&& file.skip(file.len() - end.len()) == end
        }),
{
    reveal(update_head_text);
    reveal(update_end_text);
    let objects = appender.last_objects();
    let text = appended_text(objects);
    let listed = appender.writer.entries@ + appended_entries(
        objects,
        appender.writer.position as int,
    );
    lemma_as_many(objects, appender.writer.position as int);
    let hash = hash_of(appender.writer.update_hash, text);
    let position = (appender.writer.position + text.len()) as u64;
    let index = *appender.index;
    let entries = choose|entries: Seq<XrefEntry>|
        #![trigger update_text(hash, position, index, entries)]
        reordered(listed, entries) && in_order(entries) && finished.writer.written@
            == appender.writer.written@ + text + update_text(hash, position, index, entries);
    let head = update_head_text(index, entries);
    let end = update_end_text(position);
    let ids = id_pieces(first_id(index), hash_or_zero(hash_of(hash, head)));
    lemma_joined_append(ids, seq![end], 0);
    lemma_one_piece(end);
    let before = appender.writer.written@ + text;
    let file = finished.writer.written@;
    assert(file =~= before + (head + joined(ids, 0) + end));
    assert(file.skip(file.len() - end.len()) =~= end);
    reveal_strlit("xref\n");
    assert(vstd::string::is_ascii("xref\n"));
    crate::reading::lemma_ascii("xref\n");
    let word = spelled("xref\n");
    assert(word =~= head.take(5));
    assert(word =~= file.skip(before.len() as int).take(5));
}

} // verus!

//! What the written entries of an outline say.

use vstd::prelude::*;
use crate::outline::{
    children_pieces, depths, item_of, item_pieces, link_pieces, place_text, title_pieces, Entry,
    Item, TITLE_PIECE_UNITS,
};
use crate::outline_order::{
    descendants, has_below, is_child, is_next, last_child, law_children_agree,
    law_links_are_the_relatives, next_sibling, parent, previous_sibling, well_nested,
};
use crate::pieces::{joined, lemma_joined_append};
use crate::reading::{
    holds, lacks, lemma_ascii, lemma_both_lack, lemma_linked, lemma_linked_lacks, lemma_no_number,
    lemma_nothing_lacks, lemma_number_lacks, lemma_one_number, lemma_reference_words,
    lemma_referred_lacks, linked, only_at, referred,
};
use crate::text::{
    decimal, hex_units, law_titles_are_utf16, lemma_hex_units_join, pdf_ref_text, spelled,
    title_hex, utf16,
};
use crate::types::PdfRef;

verus! {

/// The words of an outline entry.
proof fn lemma_entry_words()
    ensures
        spelled("<< /Title <FEFF").len() == 15,
        spelled("<< /Title <FEFF")[0] == 60,
        lacks(spelled("<< /Title <FEFF"), 118),
        lacks(spelled("<< /Title <FEFF"), 78),
        lacks(spelled("<< /Title <FEFF"), 76),
        lacks(spelled("<< /Title <FEFF"), 117),
        lacks(spelled("<< /Title <FEFF"), 91),
        spelled("> /Parent ").len() == 10,
        spelled("> /Parent ")[0] == 62,
        lacks(spelled("> /Parent "), 118),
        lacks(spelled("> /Parent "), 78),
        lacks(spelled("> /Parent "), 76),
        lacks(spelled("> /Parent "), 117),
        lacks(spelled("> /Parent "), 91),
        spelled(" /Dest [").len() == 8,
        spelled(" /Dest [")[0] == 32,
        lacks(spelled(" /Dest ["), 118),
        lacks(spelled(" /Dest ["), 78),
        lacks(spelled(" /Dest ["), 76),
        lacks(spelled(" /Dest ["), 117),
        only_at(spelled(" /Dest ["), 7, 91),
        spelled(" /Fit]").len() == 6,
        spelled(" /Fit]")[0] == 32,
        lacks(spelled(" /Fit]"), 118),
        lacks(spelled(" /Fit]"), 78),
        lacks(spelled(" /Fit]"), 76),
        lacks(spelled(" /Fit]"), 117),
        lacks(spelled(" /Fit]"), 91),
        spelled(" /Prev ").len() == 7,
        spelled(" /Prev ")[0] == 32,
        lacks(spelled(" /Prev "), 78),
        lacks(spelled(" /Prev "), 76),
        lacks(spelled(" /Prev "), 117),
        lacks(spelled(" /Prev "), 91),
        only_at(spelled(" /Prev "), 5, 118),
        spelled(" /Next ").len() == 7,
        spelled(" /Next ")[0] == 32,
        lacks(spelled(" /Next "), 118),
        lacks(spelled(" /Next "), 76),
        lacks(spelled(" /Next "), 117),
        lacks(spelled(" /Next "), 91),
        only_at(spelled(" /Next "), 2, 78),
        spelled(" /First ").len() == 8,
        spelled(" /First ")[0] == 32,
        lacks(spelled(" /First "), 118),
        lacks(spelled(" /First "), 78),
        lacks(spelled(" /First "), 76),
        lacks(spelled(" /First "), 117),
        lacks(spelled(" /First "), 91),
        spelled(" /Last ").len() == 7,
        spelled(" /Last ")[0] == 32,
        lacks(spelled(" /Last "), 118),
        lacks(spelled(" /Last "), 78),
        lacks(spelled(" /Last "), 117),
        lacks(spelled(" /Last "), 91),
        only_at(spelled(" /Last "), 2, 76),
        spelled(" /Count ").len() == 8,
        spelled(" /Count ")[0] == 32,
        lacks(spelled(" /Count "), 118),
        lacks(spelled(" /Count "), 78),
        lacks(spelled(" /Count "), 76),
        lacks(spelled(" /Count "), 91),
        only_at(spelled(" /Count "), 4, 117),
        spelled(" >>").len() == 3,
        spelled(" >>")[0] == 32,
        lacks(spelled(" >>"), 118),
        lacks(spelled(" >>"), 78),
        lacks(spelled(" >>"), 76),
        lacks(spelled(" >>"), 117),
        lacks(spelled(" >>"), 91),
{
    reveal(lacks);
    reveal(only_at);
    reveal_strlit("<< /Title <FEFF");
    assert(vstd::string::is_ascii("<< /Title <FEFF"));
    lemma_ascii("<< /Title <FEFF");
    reveal_strlit("> /Parent ");
    assert(vstd::string::is_ascii("> /Parent "));
    lemma_ascii("> /Parent ");
    reveal_strlit(" /Dest [");
    assert(vstd::string::is_ascii(" /Dest ["));
    lemma_ascii(" /Dest [");
    reveal_strlit(" /Fit]");
    assert(vstd::string::is_ascii(" /Fit]"));
    lemma_ascii(" /Fit]");
    reveal_strlit(" /Prev ");
    assert(vstd::string::is_ascii(" /Prev "));
    lemma_ascii(" /Prev ");
    reveal_strlit(" /Next ");
    assert(vstd::string::is_ascii(" /Next "));
    lemma_ascii(" /Next ");
    reveal_strlit(" /First ");
    assert(vstd::string::is_ascii(" /First "));
    lemma_ascii(" /First ");
    reveal_strlit(" /Last ");
    assert(vstd::string::is_ascii(" /Last "));
    lemma_ascii(" /Last ");
    reveal_strlit(" /Count ");
    assert(vstd::string::is_ascii(" /Count "));
    lemma_ascii(" /Count ");
    reveal_strlit(" >>");
    assert(vstd::string::is_ascii(" >>"));
    lemma_ascii(" >>");
}

/// The pieces of a title are its digits.
proof fn lemma_title_joined(units: Seq<u16>, from: int)
    requires
        0 <= from <= units.len(),
    ensures
        joined(title_pieces(units, from), 0) == hex_units(units.skip(from)),
    decreases units.len() - from,
{
    let pieces = title_pieces(units, from);
    if from == units.len() {
        assert(units.skip(from) =~= Seq::<u16>::empty());
    } else if from + TITLE_PIECE_UNITS >= units.len() {
        assert(joined(pieces, 1) =~= Seq::<u8>::empty());
        assert(joined(pieces, 0) =~= pieces[0]);
    } else {
        let next = from + TITLE_PIECE_UNITS;
        let chunk = units.subrange(from, next);
        lemma_title_joined(units, next);
        lemma_joined_append(seq![hex_units(chunk)], title_pieces(units, next), 0);
        assert(joined(seq![hex_units(chunk)], 0) =~= hex_units(chunk)) by {
            assert(joined(seq![hex_units(chunk)], 1) =~= Seq::<u8>::empty());
        }
        assert(units.skip(from) =~= chunk + units.skip(next));
        lemma_hex_units_join(chunk, units.skip(next));
    }
}

/// One piece is what it is.
proof fn lemma_one_piece(piece: Seq<u8>)
    ensures
        joined(seq![piece], 0) == piece,
{
    assert(joined(seq![piece], 1) =~= Seq::<u8>::empty());
    assert(joined(seq![piece], 0) =~= piece);
}

/// What follows the title of an entry.
spec fn after_title(item: Item) -> Seq<u8> {
    spelled("> /Parent ") + referred(item.parent) + linked(spelled(" /Dest ["), Some(item.page))
        + spelled(" /Fit]") + linked(spelled(" /Prev "), item.previous) + linked(
        spelled(" /Next "),
        item.next,
    ) + below(item) + spelled(" >>")
}

/// What an entry says of those below it.
spec fn below(item: Item) -> Seq<u8> {
    if item.first_child is Some && item.last_child is Some {
        linked(spelled(" /First "), item.first_child) + linked(spelled(" /Last "), item.last_child)
            + spelled(" /Count ") + decimal(item.descendants as nat)
    } else {
        Seq::empty()
    }
}

/// A reference is written as it is read.
proof fn lemma_referred(object: PdfRef)
    ensures
        pdf_ref_text(object) == referred(object),
{
    lemma_reference_words();
    assert(pdf_ref_text(object) =~= referred(object));
}

/// The text of an entry.
proof fn lemma_entry_text(item: Item)
    ensures
        joined(item_pieces(item), 0) == spelled("<< /Title <FEFF") + title_hex(item.title)
            + after_title(item),
{
    reveal(item_pieces);
    let units = utf16(item.title);
    let open = seq![spelled("<< /Title <FEFF")];
    let title = title_pieces(units, 0);
    let place = seq![place_text(item.parent, item.page)];
    let previous = link_pieces(" /Prev ", item.previous);
    let next = link_pieces(" /Next ", item.next);
    let children = children_pieces(item.first_child, item.last_child, item.descendants);
    let end = seq![spelled(" >>")];
    lemma_joined_append(open + title + place + previous + next + children, end, 0);
    lemma_joined_append(open + title + place + previous + next, children, 0);
    lemma_joined_append(open + title + place + previous, next, 0);
    lemma_joined_append(open + title + place, previous, 0);
    lemma_joined_append(open + title, place, 0);
    lemma_joined_append(open, title, 0);
    lemma_one_piece(spelled("<< /Title <FEFF"));
    lemma_one_piece(place_text(item.parent, item.page));
    lemma_one_piece(spelled(" >>"));
    lemma_title_joined(units, 0);
    assert(units.skip(0) =~= units);
    lemma_referred(item.parent);
    lemma_referred(item.page);
    lemma_link_piece(" /Prev ", item.previous);
    lemma_link_piece(" /Next ", item.next);
    if item.first_child is Some && item.last_child is Some {
        lemma_referred(item.first_child->0);
        lemma_referred(item.last_child->0);
        lemma_one_piece(children[0]);
        assert(children =~= seq![children[0]]);
        assert(joined(children, 0) =~= below(item));
    } else {
        assert(joined(children, 0) =~= below(item));
    }
    assert(joined(place, 0) =~= spelled("> /Parent ") + referred(item.parent) + linked(
        spelled(" /Dest ["),
        Some(item.page),
    ) + spelled(" /Fit]"));
    assert(joined(item_pieces(item), 0) =~= spelled("<< /Title <FEFF") + title_hex(item.title)
        + after_title(item));
}

proof fn lemma_link_piece(key: &str, link: Option<PdfRef>)
    ensures
        joined(link_pieces(key, link), 0) == linked(spelled(key), link),
{
    match link {
        Some(object) => {
            lemma_referred(object);
            lemma_one_piece(spelled(key) + pdf_ref_text(object));
        },
        None => {
            assert(joined(link_pieces(key, link), 0) =~= Seq::<u8>::empty());
        },
    }
}

/// A title has only hexadecimal digits.
proof fn lemma_title_lacks(title: Seq<char>, byte: u8)
    requires
        !(48 <= byte <= 57),
        !(65 <= byte <= 70),
    ensures
        lacks(title_hex(title), byte),
{
    reveal(lacks);
    law_titles_are_utf16(title, 'x');
}

/// What stands before the links of an entry.
spec fn before_links(item: Item) -> Seq<u8> {
    spelled("<< /Title <FEFF") + title_hex(item.title) + spelled("> /Parent ") + referred(
        item.parent,
    ) + linked(spelled(" /Dest ["), Some(item.page)) + spelled(" /Fit]")
}

proof fn lemma_before_links(item: Item, byte: u8)
    requires
        byte == 118 || byte == 78 || byte == 76 || byte == 117,
    ensures
        lacks(before_links(item), byte),
{
    lemma_entry_words();
    lemma_title_lacks(item.title, byte);
    lemma_referred_lacks(item.parent, byte);
    lemma_linked_lacks(spelled(" /Dest ["), Some(item.page), byte);
    let a = spelled("<< /Title <FEFF");
    let b = title_hex(item.title);
    let c = spelled("> /Parent ");
    let d = referred(item.parent);
    let e = linked(spelled(" /Dest ["), Some(item.page));
    lemma_both_lack(a, b, byte);
    lemma_both_lack(a + b, c, byte);
    lemma_both_lack(a + b + c, d, byte);
    lemma_both_lack(a + b + c + d, e, byte);
    lemma_both_lack(a + b + c + d + e, spelled(" /Fit]"), byte);
}

proof fn lemma_below_lacks(item: Item, byte: u8)
    requires
        byte == 118 || byte == 78 || byte == 91,
    ensures
        lacks(below(item), byte),
{
    lemma_entry_words();
    lemma_nothing_lacks(byte);
    lemma_linked_lacks(spelled(" /First "), item.first_child, byte);
    lemma_linked_lacks(spelled(" /Last "), item.last_child, byte);
    lemma_number_lacks(item.descendants as nat, byte);
    let first = linked(spelled(" /First "), item.first_child);
    let last = linked(spelled(" /Last "), item.last_child);
    lemma_both_lack(first, last, byte);
    lemma_both_lack(first + last, spelled(" /Count "), byte);
    lemma_both_lack(first + last + spelled(" /Count "), decimal(item.descendants as nat), byte);
}

/// The siblings that the text of an item names.
#[verifier::spinoff_prover]
#[verifier::rlimit(60)]
proof fn lemma_siblings_named(item: Item, read: PdfRef)
    ensures
        ({
            let text = joined(item_pieces(item), 0);
            &&& holds(text, spelled(" /Prev ") + referred(read)) <==> item.previous == Some(read)
            &&& holds(text, spelled(" /Next ") + referred(read)) <==> item.next == Some(read)
        }),
{
    lemma_entry_words();
    lemma_entry_text(item);
    let text = joined(item_pieces(item), 0);
    let before = before_links(item);
    let previous = linked(spelled(" /Prev "), item.previous);
    let next = linked(spelled(" /Next "), item.next);
    let end = spelled(" >>");
    lemma_before_links(item, 118);
    lemma_before_links(item, 78);
    lemma_below_lacks(item, 118);
    lemma_below_lacks(item, 78);
    lemma_linked_lacks(spelled(" /Next "), item.next, 118);
    lemma_linked_lacks(spelled(" /Prev "), item.previous, 78);
    lemma_both_lack(next, below(item), 118);
    lemma_both_lack(next + below(item), end, 118);
    assert(text =~= before + previous + (next + below(item) + end));
    lemma_linked(
        before,
        spelled(" /Prev "),
        item.previous,
        next + below(item) + end,
        5,
        118,
        read,
    );
    lemma_both_lack(before, previous, 78);
    lemma_both_lack(below(item), end, 78);
    assert(text =~= (before + previous) + next + (below(item) + end));
    lemma_linked(before + previous, spelled(" /Next "), item.next, below(item) + end, 2, 78, read);
}

/// What stands before what an entry says of those below it.
spec fn before_below(item: Item) -> Seq<u8> {
    before_links(item) + linked(spelled(" /Prev "), item.previous) + linked(
        spelled(" /Next "),
        item.next,
    )
}

proof fn lemma_before_below(item: Item)
    ensures
        joined(item_pieces(item), 0) == before_below(item) + below(item) + spelled(" >>"),
        lacks(before_below(item), 76),
        lacks(before_below(item), 117),
{
    lemma_entry_words();
    lemma_entry_text(item);
    assert(joined(item_pieces(item), 0) =~= before_below(item) + below(item) + spelled(" >>"));
    let before = before_links(item);
    let previous = linked(spelled(" /Prev "), item.previous);
    let next = linked(spelled(" /Next "), item.next);
    lemma_before_links(item, 76);
    lemma_before_links(item, 117);
    lemma_linked_lacks(spelled(" /Prev "), item.previous, 76);
    lemma_linked_lacks(spelled(" /Next "), item.next, 76);
    lemma_linked_lacks(spelled(" /Prev "), item.previous, 117);
    lemma_linked_lacks(spelled(" /Next "), item.next, 117);
    lemma_both_lack(before, previous, 76);
    lemma_both_lack(before + previous, next, 76);
    lemma_both_lack(before, previous, 117);
    lemma_both_lack(before + previous, next, 117);
}

/// The last child and the count that the text of an item names.
proof fn lemma_children_named(item: Item, read: PdfRef, n: nat)
    requires
        item.first_child is Some <==> item.last_child is Some,
        item.descendants >= 0,
    ensures
        ({
            let text = joined(item_pieces(item), 0);
            &&& holds(text, spelled(" /Last ") + referred(read)) <==> item.last_child == Some(read)
            &&& holds(text, spelled(" /Count ") + decimal(n) + spelled(" >>"))
                <==> item.last_child is Some && item.descendants == n
            &&& item.first_child matches Some(first) ==> holds(
                text,
                spelled(" /First ") + referred(first) + spelled(" /Last ") + referred(
                    item.last_child->0,
                ),
            )
        }),
{
    lemma_entry_words();
    lemma_before_below(item);
    let text = joined(item_pieces(item), 0);
    let first = linked(spelled(" /First "), item.first_child);
    let last = linked(spelled(" /Last "), item.last_child);
    let number = decimal(item.descendants as nat);
    let end = spelled(" >>");
    let upto = before_below(item);
    if item.first_child is Some {
        lemma_linked_lacks(spelled(" /First "), item.first_child, 76);
        lemma_linked_lacks(spelled(" /First "), item.first_child, 117);
        lemma_linked_lacks(spelled(" /Last "), item.last_child, 117);
        lemma_number_lacks(item.descendants as nat, 76);
        lemma_both_lack(upto, first, 76);
        lemma_both_lack(spelled(" /Count "), number, 76);
        lemma_both_lack(spelled(" /Count ") + number, end, 76);
        assert(text =~= (upto + first) + last + (spelled(" /Count ") + number + end));
        lemma_linked(
            upto + first,
            spelled(" /Last "),
            item.last_child,
            spelled(" /Count ") + number + end,
            2,
            76,
            read,
        );
        lemma_both_lack(upto, first, 117);
        lemma_both_lack(upto + first, last, 117);
        assert(text =~= (upto + first + last) + spelled(" /Count ") + number + end);
        assert(end =~= end.take(end.len() as int));
        lemma_one_number(
            upto + first + last,
            spelled(" /Count "),
            item.descendants as nat,
            end,
            end,
            4,
            117,
            n,
        );
        let both = spelled(" /First ") + referred(item.first_child->0) + spelled(" /Last ")
            + referred(item.last_child->0);
        assert(text =~= upto + both + (spelled(" /Count ") + number + end));
        crate::reading::lemma_holds(upto, both, spelled(" /Count ") + number + end);
    } else {
        assert(text =~= upto + end);
        lemma_both_lack(upto, end, 76);
        lemma_both_lack(upto, end, 117);
        lemma_no_number(text, spelled(" /Last "), referred(read), 2, 76);
        let rest = decimal(n) + end;
        assert(spelled(" /Count ") + rest =~= spelled(" /Count ") + decimal(n) + end);
        lemma_no_number(text, spelled(" /Count "), rest, 4, 117);
    }
}

/// The page that the text of an item opens.
proof fn lemma_page_named(item: Item, read: PdfRef)
    ensures
        holds(joined(item_pieces(item), 0), spelled(" /Dest [") + referred(read)) <==> item.page
            == read,
{
    lemma_entry_words();
    lemma_entry_text(item);
    let text = joined(item_pieces(item), 0);
    let a = spelled("<< /Title <FEFF");
    let b = title_hex(item.title);
    let c = spelled("> /Parent ");
    let d = referred(item.parent);
    lemma_title_lacks(item.title, 91);
    lemma_referred_lacks(item.parent, 91);
    lemma_both_lack(a, b, 91);
    lemma_both_lack(a + b, c, 91);
    lemma_both_lack(a + b + c, d, 91);
    let previous = linked(spelled(" /Prev "), item.previous);
    let next = linked(spelled(" /Next "), item.next);
    lemma_linked_lacks(spelled(" /Prev "), item.previous, 91);
    lemma_linked_lacks(spelled(" /Next "), item.next, 91);
    lemma_below_lacks(item, 91);
    let fit = spelled(" /Fit]");
    let end = spelled(" >>");
    lemma_both_lack(fit, previous, 91);
    lemma_both_lack(fit + previous, next, 91);
    lemma_both_lack(fit + previous + next, below(item), 91);
    lemma_both_lack(fit + previous + next + below(item), end, 91);
    let rest = fit + previous + next + below(item) + end;
    assert(text =~= (a + b + c + d) + linked(spelled(" /Dest ["), Some(item.page)) + rest);
    lemma_linked(a + b + c + d, spelled(" /Dest ["), Some(item.page), rest, 7, 91, read);
}

/// A written entry has its own title and names the entry above it, or the outline
/// root.
#[verifier::spinoff_prover]
#[verifier::rlimit(60)]
proof fn lemma_title_and_parent(item: Item)
    ensures
        (spelled("<< /Title <FEFF") + title_hex(item.title) + spelled("> /Parent ") + referred(
            item.parent,
        ) + spelled(" /Dest [")).is_prefix_of(joined(item_pieces(item), 0)),
{
    lemma_entry_text(item);
    let text = joined(item_pieces(item), 0);
    let start = spelled("<< /Title <FEFF") + title_hex(item.title) + spelled("> /Parent ")
        + referred(item.parent) + spelled(" /Dest [");
    let rest = referred(item.page) + spelled(" /Fit]") + linked(spelled(" /Prev "), item.previous)
        + linked(spelled(" /Next "), item.next) + below(item) + spelled(" >>");
    assert(text =~= start + rest);
    assert(start =~= text.take(start.len() as int));
}

/// A written entry opens its page and names the entries beside it, and no others.
pub proof fn law_entries_name_their_siblings(
    entries: Seq<Entry>,
    root: PdfRef,
    i: int,
    object: PdfRef,
)
    requires
        well_nested(Seq::new(entries.len(), |k: int| entries[k].depth)),
        0 <= i < entries.len(),
    ensures
        ({
            let order = Seq::new(entries.len(), |k: int| entries[k].depth);
            let text = joined(item_pieces(item_of(entries, root, i)), 0);
            &&& item_of(entries, root, i).reference == entries[i].reference
            &&& holds(text, spelled(" /Dest [") + referred(object)) <==> entries[i].page == object
            &&& holds(text, spelled(" /Prev ") + referred(object)) <==> exists|j: int|
                #[trigger] is_next(order, j, i) && entries[j].reference == object
            &&& holds(text, spelled(" /Next ") + referred(object)) <==> exists|j: int|
                #[trigger] is_next(order, i, j) && entries[j].reference == object
        }),
{
    let order = Seq::new(entries.len(), |k: int| entries[k].depth);
    assert(order =~= depths(entries));
    let item = item_of(entries, root, i);
    lemma_page_named(item, object);
    lemma_siblings_named(item, object);
    assert forall|j: int| #[trigger] is_next(order, j, i) implies previous_sibling(order, i)
        == Some(j) by {
        law_links_are_the_relatives(order, i, j, 0);
    }
    if let Some(j) = previous_sibling(order, i) {
        law_links_are_the_relatives(order, i, j, 0);
        assert(is_next(order, j, i));
    }
    assert forall|j: int| #[trigger] is_next(order, i, j) implies next_sibling(order, i) == Some(
        j,
    ) by {
        law_links_are_the_relatives(order, i, j, 0);
    }
    if let Some(j) = next_sibling(order, i) {
        law_links_are_the_relatives(order, i, j, 0);
        assert(is_next(order, i, j));
    }
}

/// A written entry names the first and the last entry directly below it, and
/// counts all below it, exactly where there are any.
pub proof fn law_entries_name_their_children(
    entries: Seq<Entry>,
    root: PdfRef,
    i: int,
    j: int,
    object: PdfRef,
    n: nat,
)
    requires
        well_nested(Seq::new(entries.len(), |k: int| entries[k].depth)),
        0 <= i < entries.len(),
    ensures
        ({
            let order = Seq::new(entries.len(), |k: int| entries[k].depth);
            let text = joined(item_pieces(item_of(entries, root, i)), 0);
            &&& is_child(order, i, j) && (forall|k: int| k > j ==> !#[trigger] is_child(order, i, k))
                ==> (holds(text, spelled(" /Last ") + referred(object)) <==> entries[j].reference
                == object)
            &&& (forall|k: int| !#[trigger] is_child(order, i, k)) ==> !holds(
                text,
                spelled(" /Last ") + referred(object),
            )
            &&& holds(text, spelled(" /Count ") + decimal(n) + spelled(" >>")) <==> n > 0
                && has_below(order, i, n as int)
            &&& is_child(order, i, i + 1) && is_child(order, i, j) && (forall|k: int|
                k > j ==> !#[trigger] is_child(order, i, k)) ==> holds(
                text,
                spelled(" /First ") + referred(entries[i + 1].reference) + spelled(" /Last ")
                    + referred(entries[j].reference),
            )
        }),
{
    let order = Seq::new(entries.len(), |k: int| entries[k].depth);
    assert(order =~= depths(entries));
    let item = item_of(entries, root, i);
    law_children_agree(order, i);
    law_links_are_the_relatives(order, i, j, n as int);
    law_links_are_the_relatives(order, i, i + 1, descendants(order, i));
    lemma_children_named(item, object, n);
    if let Some(last) = last_child(order, i) {
        law_links_are_the_relatives(order, i, last, 0);
        assert(is_child(order, i, last));
    }
    if is_child(order, i, i + 1) {
        assert forall|k: int| k < i + 1 implies !#[trigger] is_child(order, i, k) by {}
    }
}

/// A written entry has its title, and lies below the entry that owns it, or below
/// the outline root.
pub proof fn law_entries_name_their_owner(entries: Seq<Entry>, root: PdfRef, i: int, p: int)
    requires
        well_nested(Seq::new(entries.len(), |k: int| entries[k].depth)),
        0 <= i < entries.len(),
        entries[i].depth > 0 ==> is_child(Seq::new(entries.len(), |k: int| entries[k].depth), p, i),
    ensures
        ({
            let text = joined(item_pieces(item_of(entries, root, i)), 0);
            let above = if entries[i].depth == 0 {
                root
            } else {
                entries[p].reference
            };
            (spelled("<< /Title <FEFF") + title_hex(entries[i].title) + spelled("> /Parent ")
                + referred(above) + spelled(" /Dest [")).is_prefix_of(text)
        }),
{
    let order = Seq::new(entries.len(), |k: int| entries[k].depth);
    assert(order =~= depths(entries));
    law_links_are_the_relatives(order, i, p, 0);
    lemma_title_and_parent(item_of(entries, root, i));
}

} // verus!

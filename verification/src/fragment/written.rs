//! What the written parts of a rebuilt file say.

use vstd::prelude::*;
use crate::fragment::index::Reconstruction;
use crate::fragment::layout::{
    lemma_all_records, outline_plan_failure, outline_root_of, parts_of, Parts,
};
use crate::fragment::outline::{
    bookmark_failure, bookmarks_failure, depths_of, item_reference, outline_failure, outline_node,
    outline_nodes, OutlineNode,
};
use crate::fragment::texts::{
    children_text, item_place_text, item_prefix_text, item_suffix_text, item_text, link_text,
    outline_root_text,
};
use crate::outline_order::{
    descendants, first_child, has_below, is_child, is_next, last_child, last_root,
    law_children_agree, law_links_are_the_relatives, law_roots_are_the_outermost, next_sibling,
    parent, previous_sibling, well_nested,
};
use crate::reading::{
    holds, is_digit, lacks, lemma_ascii, lemma_both_lack, lemma_first_number, lemma_no_number,
    lemma_nothing_lacks, lemma_number_lacks, lemma_one_number, names, only_at,
};
use crate::text::{decimal, spelled, title_hex};
use crate::types::{Bookmark, PdfRef};

verus! {

/// The words of an outline item.
proof fn lemma_item_words()
    ensures
        spelled("> /Parent ").len() == 10,
        spelled("> /Parent ")[0] == 62,
        lacks(spelled("> /Parent "), 118),
        lacks(spelled("> /Parent "), 78),
        lacks(spelled("> /Parent "), 70),
        lacks(spelled("> /Parent "), 76),
        lacks(spelled("> /Parent "), 67),
        lacks(spelled("> /Parent "), 91),
        spelled(" 0 R").len() == 4,
        spelled(" 0 R")[0] == 32,
        lacks(spelled(" 0 R"), 118),
        lacks(spelled(" 0 R"), 78),
        lacks(spelled(" 0 R"), 70),
        lacks(spelled(" 0 R"), 76),
        lacks(spelled(" 0 R"), 67),
        lacks(spelled(" 0 R"), 91),
        spelled(" /Dest [").len() == 8,
        spelled(" /Dest [")[0] == 32,
        lacks(spelled(" /Dest ["), 118),
        lacks(spelled(" /Dest ["), 78),
        lacks(spelled(" /Dest ["), 70),
        lacks(spelled(" /Dest ["), 76),
        lacks(spelled(" /Dest ["), 67),
        only_at(spelled(" /Dest ["), 7, 91),
        spelled(" /XYZ null null null]").len() == 21,
        spelled(" /XYZ null null null]")[0] == 32,
        lacks(spelled(" /XYZ null null null]"), 118),
        lacks(spelled(" /XYZ null null null]"), 78),
        lacks(spelled(" /XYZ null null null]"), 70),
        lacks(spelled(" /XYZ null null null]"), 76),
        lacks(spelled(" /XYZ null null null]"), 67),
        lacks(spelled(" /XYZ null null null]"), 91),
        spelled(" /Prev ").len() == 7,
        spelled(" /Prev ")[0] == 32,
        lacks(spelled(" /Prev "), 78),
        lacks(spelled(" /Prev "), 70),
        lacks(spelled(" /Prev "), 76),
        lacks(spelled(" /Prev "), 67),
        lacks(spelled(" /Prev "), 91),
        only_at(spelled(" /Prev "), 5, 118),
        spelled(" /Next ").len() == 7,
        spelled(" /Next ")[0] == 32,
        lacks(spelled(" /Next "), 118),
        lacks(spelled(" /Next "), 70),
        lacks(spelled(" /Next "), 76),
        lacks(spelled(" /Next "), 67),
        lacks(spelled(" /Next "), 91),
        only_at(spelled(" /Next "), 2, 78),
        spelled(" /First ").len() == 8,
        spelled(" /First ")[0] == 32,
        lacks(spelled(" /First "), 118),
        lacks(spelled(" /First "), 78),
        lacks(spelled(" /First "), 76),
        lacks(spelled(" /First "), 67),
        lacks(spelled(" /First "), 91),
        only_at(spelled(" /First "), 2, 70),
        spelled(" /Last ").len() == 7,
        spelled(" /Last ")[0] == 32,
        lacks(spelled(" /Last "), 118),
        lacks(spelled(" /Last "), 78),
        lacks(spelled(" /Last "), 70),
        lacks(spelled(" /Last "), 67),
        lacks(spelled(" /Last "), 91),
        only_at(spelled(" /Last "), 2, 76),
        spelled(" /Count ").len() == 8,
        spelled(" /Count ")[0] == 32,
        lacks(spelled(" /Count "), 118),
        lacks(spelled(" /Count "), 78),
        lacks(spelled(" /Count "), 70),
        lacks(spelled(" /Count "), 76),
        lacks(spelled(" /Count "), 91),
        only_at(spelled(" /Count "), 2, 67),
        spelled(" >>\nendobj\n").len() == 11,
        spelled(" >>\nendobj\n")[0] == 32,
        lacks(spelled(" >>\nendobj\n"), 118),
        lacks(spelled(" >>\nendobj\n"), 78),
        lacks(spelled(" >>\nendobj\n"), 70),
        lacks(spelled(" >>\nendobj\n"), 76),
        lacks(spelled(" >>\nendobj\n"), 67),
        lacks(spelled(" >>\nendobj\n"), 91),
        spelled(" >>").len() == 3,
        spelled(" >>")[0] == 32,
        lacks(spelled(" >>"), 118),
        lacks(spelled(" >>"), 78),
        lacks(spelled(" >>"), 70),
        lacks(spelled(" >>"), 76),
        lacks(spelled(" >>"), 67),
        lacks(spelled(" >>"), 91),
{
    reveal(lacks);
    reveal(only_at);
    reveal_strlit("> /Parent ");
    assert(vstd::string::is_ascii("> /Parent "));
    lemma_ascii("> /Parent ");
    reveal_strlit(" 0 R");
    assert(vstd::string::is_ascii(" 0 R"));
    lemma_ascii(" 0 R");
    reveal_strlit(" /Dest [");
    assert(vstd::string::is_ascii(" /Dest ["));
    lemma_ascii(" /Dest [");
    reveal_strlit(" /XYZ null null null]");
    assert(vstd::string::is_ascii(" /XYZ null null null]"));
    lemma_ascii(" /XYZ null null null]");
    reveal_strlit(" /Prev ");
    assert(vstd::string::is_ascii(" /Prev "));
    lemma_ascii(" /Prev ");
    reveal_strlit(" /Next ");
    assert(vstd::string::is_ascii(" /Next "));
    lemma_ascii(" /Next ");
    reveal_strlit(" /First ");
    assert(vstd::string::is_ascii(" /First "));
    lemma_ascii(" /First ");
    reveal_strlit(" /Last ");
    assert(vstd::string::is_ascii(" /Last "));
    lemma_ascii(" /Last ");
    reveal_strlit(" /Count ");
    assert(vstd::string::is_ascii(" /Count "));
    lemma_ascii(" /Count ");
    reveal_strlit(" >>\nendobj\n");
    assert(vstd::string::is_ascii(" >>\nendobj\n"));
    lemma_ascii(" >>\nendobj\n");
    reveal_strlit(" >>");
    assert(vstd::string::is_ascii(" >>"));
    lemma_ascii(" >>");
}

/// A key that an optional link stands under names that link and nothing else.
proof fn lemma_link_named(
    left: Seq<u8>,
    key: &str,
    link: Option<PdfRef>,
    right: Seq<u8>,
    i: int,
    byte: u8,
    number: nat,
)
    requires
        lacks(left, byte),
        lacks(right, byte),
        only_at(spelled(key), i, byte),
        !is_digit(byte),
        lacks(spelled(" 0 R"), byte),
        spelled(" 0 R").len() == 4,
        spelled(" 0 R")[0] == 32,
    ensures
        names(left + link_text(key, link) + right, key, number) <==> (link matches Some(link)
            && link.number == number),
{
    let end = spelled(" 0 R");
    match link {
        Some(link) => {
            let value = link.number as nat;
            let tail = end + right;
            lemma_both_lack(end, right, byte);
            assert(left + link_text(key, Some(link)) + right =~= left + spelled(key) + decimal(
                value,
            ) + tail);
            assert(end =~= tail.take(end.len() as int));
            lemma_one_number(left, spelled(key), value, tail, end, i, byte, number);
        },
        None => {
            lemma_nothing_lacks(byte);
            lemma_both_lack(left, link_text(key, None), byte);
            lemma_both_lack(left + link_text(key, None), right, byte);
            let rest = decimal(number) + end;
            assert(spelled(key) + rest =~= spelled(key) + decimal(number) + end);
            lemma_no_number(
                left + link_text(key, None) + right,
                spelled(key),
                rest,
                i,
                byte,
            );
        },
    }
}

/// A link has no byte that neither its key nor a reference has.
proof fn lemma_link_lacks(key: &str, link: Option<PdfRef>, byte: u8)
    requires
        lacks(spelled(key), byte),
        lacks(spelled(" 0 R"), byte),
        !is_digit(byte),
    ensures
        lacks(link_text(key, link), byte),
{
    match link {
        Some(link) => {
            let number = decimal(link.number as nat);
            lemma_number_lacks(link.number as nat, byte);
            lemma_both_lack(number, spelled(" 0 R"), byte);
            lemma_both_lack(spelled(key), number + spelled(" 0 R"), byte);
        },
        None => {
            lemma_nothing_lacks(byte);
        },
    }
}

/// The place of an item has no byte that its words lack.
proof fn lemma_place_lacks(parent: PdfRef, page: PdfRef, byte: u8)
    requires
        lacks(spelled("> /Parent "), byte),
        lacks(spelled(" 0 R"), byte),
        lacks(spelled(" /Dest ["), byte),
        lacks(spelled(" /XYZ null null null]"), byte),
        !is_digit(byte),
    ensures
        lacks(item_place_text(parent, page), byte),
{
    let above = link_text("> /Parent ", Some(parent));
    let opened = link_text(" /Dest [", Some(page));
    let view = spelled(" /XYZ null null null]");
    lemma_link_lacks("> /Parent ", Some(parent), byte);
    lemma_link_lacks(" /Dest [", Some(page), byte);
    lemma_both_lack(above, opened, byte);
    lemma_both_lack(above + opened, view, byte);
    assert(item_place_text(parent, page) =~= above + opened + view);
}

/// The children of an item have no byte that their words lack.
proof fn lemma_children_lack(node: OutlineNode, byte: u8)
    requires
        lacks(spelled(" /First "), byte),
        lacks(spelled(" /Last "), byte),
        lacks(spelled(" /Count "), byte),
        lacks(spelled(" 0 R"), byte),
        !is_digit(byte),
    ensures
        lacks(children_text(node.first_child, node.last_child, node.descendants), byte),
{
    lemma_nothing_lacks(byte);
    lemma_link_lacks(" /First ", node.first_child, byte);
    lemma_link_lacks(" /Last ", node.last_child, byte);
    lemma_number_lacks(node.descendants as nat, byte);
    let first = link_text(" /First ", node.first_child);
    let last = link_text(" /Last ", node.last_child);
    let count = spelled(" /Count ") + decimal(node.descendants as nat);
    lemma_both_lack(spelled(" /Count "), decimal(node.descendants as nat), byte);
    lemma_both_lack(first, last, byte);
    lemma_both_lack(first + last, count, byte);
    if node.first_child is Some && node.last_child is Some {
        assert(children_text(node.first_child, node.last_child, node.descendants) =~= first + last
            + count);
    }
}

/// A written outline item carries the links of its node: `/Prev` and `/Next`
/// each exactly where the node has that link, whatever the others are.
pub proof fn law_items_carry_their_siblings(node: OutlineNode, n: nat)
    ensures
        ({
            let text = item_suffix_text(node);
            &&& names(text, " /Prev ", n) <==> (node.previous matches Some(item) && item.number
                == n)
            &&& names(text, " /Next ", n) <==> (node.next matches Some(item) && item.number == n)
        }),
{
    reveal(item_suffix_text);
    lemma_item_words();
    let text = item_suffix_text(node);
    let place = item_place_text(node.parent, node.page);
    let previous = link_text(" /Prev ", node.previous);
    let next = link_text(" /Next ", node.next);
    let children = children_text(node.first_child, node.last_child, node.descendants);
    let end = spelled(" >>\nendobj\n");
    assert(text =~= place + previous + (next + children + end));
    lemma_place_lacks(node.parent, node.page, 118);
    lemma_link_lacks(" /Next ", node.next, 118);
    lemma_children_lack(node, 118);
    lemma_both_lack(next, children, 118);
    lemma_both_lack(next + children, end, 118);
    lemma_link_named(place, " /Prev ", node.previous, next + children + end, 5, 118, n);
    assert(text =~= (place + previous) + next + (children + end));
    lemma_place_lacks(node.parent, node.page, 78);
    lemma_link_lacks(" /Prev ", node.previous, 78);
    lemma_children_lack(node, 78);
    lemma_both_lack(place, previous, 78);
    lemma_both_lack(children, end, 78);
    lemma_link_named(place + previous, " /Next ", node.next, children + end, 2, 78, n);
}

/// What stands before the children of an item has none of their bytes.
proof fn lemma_before_children(node: OutlineNode, byte: u8)
    requires
        lacks(spelled("> /Parent "), byte),
        lacks(spelled(" 0 R"), byte),
        lacks(spelled(" /Dest ["), byte),
        lacks(spelled(" /XYZ null null null]"), byte),
        lacks(spelled(" /Prev "), byte),
        lacks(spelled(" /Next "), byte),
        !is_digit(byte),
    ensures
        lacks(
            item_place_text(node.parent, node.page) + link_text(" /Prev ", node.previous)
                + link_text(" /Next ", node.next),
            byte,
        ),
{
    let place = item_place_text(node.parent, node.page);
    let previous = link_text(" /Prev ", node.previous);
    let next = link_text(" /Next ", node.next);
    lemma_place_lacks(node.parent, node.page, byte);
    lemma_link_lacks(" /Prev ", node.previous, byte);
    lemma_link_lacks(" /Next ", node.next, byte);
    lemma_both_lack(place, previous, byte);
    lemma_both_lack(place + previous, next, byte);
}

/// A written outline item names its first and its last child, and counts what
/// lies below it, exactly where its node has children.
#[verifier::spinoff_prover]
#[verifier::rlimit(60)]
pub proof fn law_items_carry_their_children(node: OutlineNode, n: nat)
    requires
        node.first_child is Some <==> node.last_child is Some,
    ensures
        ({
            let text = item_suffix_text(node);
            &&& names(text, " /First ", n) <==> (node.first_child matches Some(item)
                && item.number == n)
            &&& names(text, " /Last ", n) <==> (node.last_child matches Some(item) && item.number
                == n)
            &&& holds(text, spelled(" /Count ") + decimal(n) + spelled(" >>")) <==> (
            node.first_child is Some && node.descendants == n)
        }),
{
    reveal(item_suffix_text);
    lemma_item_words();
    let text = item_suffix_text(node);
    let before = item_place_text(node.parent, node.page) + link_text(" /Prev ", node.previous)
        + link_text(" /Next ", node.next);
    let end = spelled(" >>\nendobj\n");
    let close = spelled(" 0 R");
    lemma_before_children(node, 70);
    lemma_before_children(node, 76);
    lemma_before_children(node, 67);
    let first = link_text(" /First ", node.first_child);
    let last = link_text(" /Last ", node.last_child);
    let number = decimal(node.descendants as nat);
    let count = spelled(" /Count ") + number;
    if node.first_child is Some {
        assert(text =~= before + first + (last + count + end));
        lemma_number_lacks(node.descendants as nat, 70);
        lemma_number_lacks(node.descendants as nat, 76);
        lemma_link_lacks(" /Last ", node.last_child, 70);
        lemma_link_lacks(" /First ", node.first_child, 76);
        lemma_link_lacks(" /First ", node.first_child, 67);
        lemma_link_lacks(" /Last ", node.last_child, 67);
        lemma_both_lack(spelled(" /Count "), number, 70);
        lemma_both_lack(last, count, 70);
        lemma_both_lack(last + count, end, 70);
        lemma_link_named(before, " /First ", node.first_child, last + count + end, 2, 70, n);
        assert(text =~= (before + first) + last + (count + end));
        lemma_both_lack(before, first, 76);
        lemma_both_lack(spelled(" /Count "), number, 76);
        lemma_both_lack(count, end, 76);
        lemma_link_named(before + first, " /Last ", node.last_child, count + end, 2, 76, n);
        assert(text =~= (before + first + last) + spelled(" /Count ") + number + end);
        lemma_both_lack(before, first, 67);
        lemma_both_lack(before + first, last, 67);
        assert(spelled(" >>") =~= end.take(3)) by {
            reveal_strlit(" >>");
            reveal_strlit(" >>\nendobj\n");
            lemma_ascii(" >>");
            lemma_ascii(" >>\nendobj\n");
        }
        lemma_one_number(
            before + first + last,
            spelled(" /Count "),
            node.descendants as nat,
            end,
            spelled(" >>"),
            2,
            67,
            n,
        );
    } else {
        assert(text =~= before + end);
        lemma_both_lack(before, end, 70);
        lemma_both_lack(before, end, 76);
        lemma_both_lack(before, end, 67);
        let rest = decimal(n) + close;
        assert(spelled(" /First ") + rest =~= spelled(" /First ") + decimal(n) + close);
        lemma_no_number(text, spelled(" /First "), rest, 2, 70);
        assert(spelled(" /Last ") + rest =~= spelled(" /Last ") + decimal(n) + close);
        lemma_no_number(text, spelled(" /Last "), rest, 2, 76);
        let rest = decimal(n) + spelled(" >>");
        assert(spelled(" /Count ") + rest =~= spelled(" /Count ") + decimal(n) + spelled(" >>"));
        lemma_no_number(text, spelled(" /Count "), rest, 2, 67);
    }
}

/// A written outline item names the node above it and the page that it opens.
pub proof fn law_items_open_their_page(node: OutlineNode, n: nat)
    ensures
        ({
            let text = item_suffix_text(node);
            &&& names(text, " /Dest [", n) <==> node.page.number == n
            &&& (spelled("> /Parent ") + decimal(n) + spelled(" 0 R")).is_prefix_of(text)
                <==> node.parent.number == n
        }),
{
    reveal(item_suffix_text);
    lemma_item_words();
    let text = item_suffix_text(node);
    let previous = link_text(" /Prev ", node.previous);
    let next = link_text(" /Next ", node.next);
    let children = children_text(node.first_child, node.last_child, node.descendants);
    let end = spelled(" >>\nendobj\n");
    let close = spelled(" 0 R");
    let view = spelled(" /XYZ null null null]");
    let above = link_text("> /Parent ", Some(node.parent));
    let opened = link_text(" /Dest [", Some(node.page));
    let rest = view + previous + next + children + end;
    assert(text =~= above + opened + rest);
    lemma_link_lacks("> /Parent ", Some(node.parent), 91);
    lemma_link_lacks(" /Prev ", node.previous, 91);
    lemma_link_lacks(" /Next ", node.next, 91);
    lemma_children_lack(node, 91);
    lemma_both_lack(view, previous, 91);
    lemma_both_lack(view + previous, next, 91);
    lemma_both_lack(view + previous + next, children, 91);
    lemma_both_lack(view + previous + next + children, end, 91);
    lemma_link_named(above, " /Dest [", Some(node.page), rest, 7, 91, n);
    let tail = close + opened + rest;
    assert(text =~= spelled("> /Parent ") + decimal(node.parent.number as nat) + tail);
    assert(close =~= tail.take(4));
    lemma_first_number(spelled("> /Parent "), node.parent.number as nat, tail, close, n);
}

/// Whether an optional link names an item.
spec fn names_item(link: Option<PdfRef>, root: PdfRef, j: int) -> bool {
    link matches Some(item) && item.number == root.number + 1 + j
}

/// The nodes of an outline as the bookmarks relate to each other.
proof fn lemma_node_beside(
    bookmarks: Seq<Bookmark>,
    pages: Seq<PdfRef>,
    root: PdfRef,
    i: int,
    j: int,
)
    requires
        well_nested(Seq::new(bookmarks.len(), |k: int| bookmarks[k].depth as nat)),
        0 <= i < bookmarks.len(),
        0 <= j < bookmarks.len(),
        root.number + bookmarks.len() <= u32::MAX,
    ensures
        ({
            let order = Seq::new(bookmarks.len(), |k: int| bookmarks[k].depth as nat);
            let node = outline_nodes(bookmarks, pages, root)[i];
            &&& node.reference.number == root.number + 1 + i
            &&& node.page == pages[bookmarks[i].page_index as int]
            &&& names_item(node.previous, root, j) <==> previous_sibling(order, i) == Some(j)
            &&& names_item(node.next, root, j) <==> next_sibling(order, i) == Some(j)
            &&& bookmarks[i].depth == 0 ==> node.parent.number == root.number
            &&& bookmarks[i].depth > 0 ==> node.parent.number > root.number
            &&& node.parent.number == root.number + 1 + j <==> parent(order, i) == Some(j)
        }),
{
    reveal(outline_node);
    let order = Seq::new(bookmarks.len(), |k: int| bookmarks[k].depth as nat);
    assert(order =~= depths_of(bookmarks));
    law_children_agree(order, i);
    crate::outline_order::lemma_first_at_most(order, i + 1, order[i]);
    crate::outline_order::lemma_last_at_most(order, i, order[i]);
}

#[verifier::spinoff_prover]
#[verifier::rlimit(60)]
proof fn lemma_node_below(
    bookmarks: Seq<Bookmark>,
    pages: Seq<PdfRef>,
    root: PdfRef,
    i: int,
    j: int,
)
    requires
        well_nested(Seq::new(bookmarks.len(), |k: int| bookmarks[k].depth as nat)),
        0 <= i < bookmarks.len(),
        0 <= j < bookmarks.len(),
        root.number + bookmarks.len() <= u32::MAX,
    ensures
        ({
            let order = Seq::new(bookmarks.len(), |k: int| bookmarks[k].depth as nat);
            let node = outline_nodes(bookmarks, pages, root)[i];
            &&& names_item(node.first_child, root, j) <==> first_child(order, i) == Some(j)
            &&& names_item(node.last_child, root, j) <==> last_child(order, i) == Some(j)
            &&& node.descendants == descendants(order, i)
            &&& node.first_child is Some <==> node.last_child is Some
            &&& node.first_child is Some <==> node.descendants > 0
        }),
{
    reveal(outline_node);
    let order = Seq::new(bookmarks.len(), |k: int| bookmarks[k].depth as nat);
    assert(order =~= depths_of(bookmarks));
    law_children_agree(order, i);
    crate::outline_order::lemma_first_at_most(order, i + 1, order[i]);
}

/// Each bookmark of a rebuilt file is an item numbered after the outline root,
/// which opens the page that the bookmark asks for and names the items beside it:
/// following `/Next` from the first visits all on its level.
pub proof fn law_bookmarks_name_their_siblings(
    bookmarks: Seq<Bookmark>,
    pages: Seq<PdfRef>,
    root: PdfRef,
    i: int,
    j: int,
)
    requires
        well_nested(Seq::new(bookmarks.len(), |k: int| bookmarks[k].depth as nat)),
        0 <= i < bookmarks.len(),
        0 <= j < bookmarks.len(),
        root.number + bookmarks.len() <= u32::MAX,
    ensures
        ({
            let order = Seq::new(bookmarks.len(), |k: int| bookmarks[k].depth as nat);
            let node = outline_nodes(bookmarks, pages, root)[i];
            let text = item_text(node, bookmarks[i].title@);
            let suffix = item_suffix_text(node);
            let other = (root.number + 1 + j) as nat;
            &&& text == decimal((root.number + 1 + i) as nat) + spelled(" 0 obj\n<< /Title <FEFF")
                + title_hex(bookmarks[i].title@) + suffix
            &&& names(suffix, " /Prev ", other) <==> is_next(order, j, i)
            &&& names(suffix, " /Next ", other) <==> is_next(order, i, j)
            &&& forall|n: nat| #[trigger]
                names(suffix, " /Dest [", n) <==> pages[bookmarks[i].page_index as int].number == n
            &&& (spelled("> /Parent ") + decimal(other) + spelled(" 0 R")).is_prefix_of(suffix)
                <==> is_child(order, j, i)
            &&& (spelled("> /Parent ") + decimal(root.number as nat) + spelled(
                " 0 R",
            )).is_prefix_of(suffix) <==> bookmarks[i].depth == 0
        }),
{
    let node = outline_nodes(bookmarks, pages, root)[i];
    let suffix = item_suffix_text(node);
    let other = (root.number + 1 + j) as nat;
    let order = Seq::new(bookmarks.len(), |k: int| bookmarks[k].depth as nat);
    lemma_node_beside(bookmarks, pages, root, i, j);
    law_links_are_the_relatives(order, i, j, 0);
    law_items_carry_their_siblings(node, other);
    law_items_open_their_page(node, other);
    law_items_open_their_page(node, root.number as nat);
    assert forall|n: nat| #[trigger] names(suffix, " /Dest [", n)
        <==> pages[bookmarks[i].page_index as int].number == n by {
        law_items_open_their_page(node, n);
    }
    reveal(item_text);
    reveal(item_prefix_text);
    assert(item_text(node, bookmarks[i].title@) =~= decimal((root.number + 1 + i) as nat) + spelled(
        " 0 obj\n<< /Title <FEFF",
    ) + title_hex(bookmarks[i].title@) + suffix);
}

/// Each item names the first and the last item directly below it, and counts all
/// below it, exactly where there are any.
pub proof fn law_bookmarks_name_their_children(
    bookmarks: Seq<Bookmark>,
    pages: Seq<PdfRef>,
    root: PdfRef,
    i: int,
    j: int,
    count: nat,
)
    requires
        well_nested(Seq::new(bookmarks.len(), |k: int| bookmarks[k].depth as nat)),
        0 <= i < bookmarks.len(),
        0 <= j < bookmarks.len(),
        root.number + bookmarks.len() <= u32::MAX,
    ensures
        ({
            let order = Seq::new(bookmarks.len(), |k: int| bookmarks[k].depth as nat);
            let suffix = item_suffix_text(outline_nodes(bookmarks, pages, root)[i]);
            let other = (root.number + 1 + j) as nat;
            &&& names(suffix, " /First ", other) <==> is_child(order, i, j) && j == i + 1
            &&& names(suffix, " /Last ", other) <==> is_child(order, i, j) && forall|k: int|
                k > j ==> !#[trigger] is_child(order, i, k)
            &&& holds(suffix, spelled(" /Count ") + decimal(count) + spelled(" >>")) <==> count > 0
                && has_below(order, i, count as int)
        }),
{
    let order = Seq::new(bookmarks.len(), |k: int| bookmarks[k].depth as nat);
    let node = outline_nodes(bookmarks, pages, root)[i];
    lemma_node_below(bookmarks, pages, root, i, j);
    lemma_children_named(order, i, j);
    assert(descendants(order, i) == count <==> has_below(order, i, count as int)) by {
        law_links_are_the_relatives(order, i, j, count as int);
    }
    law_items_carry_their_children(node, (root.number + 1 + j) as nat);
    law_items_carry_their_children(node, count);
}

/// The first child of an entry is the entry after it, and the last one is the last
/// directly below it.
proof fn lemma_children_named(order: Seq<nat>, i: int, j: int)
    requires
        well_nested(order),
        0 <= i < order.len(),
    ensures
        first_child(order, i) == Some(j) <==> is_child(order, i, j) && j == i + 1,
        last_child(order, i) == Some(j) <==> is_child(order, i, j) && forall|k: int|
            k > j ==> !#[trigger] is_child(order, i, k),
{
    law_links_are_the_relatives(order, i, j, 0);
    if j == i + 1 && is_child(order, i, j) {
        assert forall|k: int| k < j implies !#[trigger] is_child(order, i, k) by {}
    }
}

/// The outline root of a rebuilt file names the first and the last bookmark at
/// the top level, and counts all bookmarks.
#[verifier::spinoff_prover]
#[verifier::rlimit(60)]
pub proof fn law_outline_root_names_its_ends(index: Reconstruction, n: nat)
    requires
        index.well_formed(),
        outline_plan_failure(index) is None,
        index.bookmarks@.len() > 0,
    ensures
        ({
            let bookmarks = index.bookmarks@;
            let root = index.records@.last().reference.number + 1;
            let text = parts_of(index).root_text();
            &&& names(text, " /First ", n) <==> n == root + 1
            &&& names(text, " /Last ", n) <==> exists|i: int|
                0 <= i < bookmarks.len() && (#[trigger] bookmarks[i]).depth == 0 && n == root + 1
                    + i && forall|k: int|
                    i < k < bookmarks.len() ==> (#[trigger] bookmarks[k]).depth > 0
            &&& holds(text, spelled(" /Count ") + decimal(n) + spelled(" >>")) <==> n
                == bookmarks.len()
            &&& (decimal(root as nat) + spelled(" 0 obj\n")).is_prefix_of(text)
        }),
{
    let bookmarks = index.bookmarks@;
    let order = Seq::new(bookmarks.len(), |k: int| bookmarks[k].depth as nat);
    assert(order =~= depths_of(bookmarks));
    let parts = parts_of(index);
    let text = parts.root_text();
    lemma_all_records(index);
    lemma_accepted_nest(index);
    reveal(Parts::root_text);
    let root = parts.outline_root;
    let last = last_root(order)->0;
    lemma_last_bookmark(bookmarks, last);
    law_roots_are_the_outermost(order, 0);
    let first_item = item_reference(root, 0);
    let last_item = item_reference(root, last);
    let count = bookmarks.len();
    assert(text == outline_root_text(root, first_item, last_item, count as u32));
    lemma_root_text(root, first_item, last_item, count as u32, n);
}

/// The last bookmark at the top level is the only one there that none follows.
proof fn lemma_last_bookmark(bookmarks: Seq<Bookmark>, last: int)
    requires
        bookmarks.len() > 0,
        well_nested(depths_of(bookmarks)),
        last_root(depths_of(bookmarks)) == Some(last),
    ensures
        0 <= last < bookmarks.len(),
        bookmarks[last].depth == 0,
        forall|k: int| last < k < bookmarks.len() ==> (#[trigger] bookmarks[k]).depth > 0,
        forall|i: int|
            0 <= i < bookmarks.len() && (#[trigger] bookmarks[i]).depth == 0 && (forall|k: int|
                i < k < bookmarks.len() ==> (#[trigger] bookmarks[k]).depth > 0) ==> i == last,
{
    let order = depths_of(bookmarks);
    law_roots_are_the_outermost(order, last);
    assert(order[last] == 0);
    assert forall|k: int| last < k < bookmarks.len() implies (#[trigger] bookmarks[k]).depth > 0 by {
        assert(order[k] > 0);
    }
    assert forall|i: int| 0 <= i < bookmarks.len() && (#[trigger] bookmarks[i]).depth == 0 && (forall|
        k: int,
    |
        i < k < bookmarks.len() ==> (#[trigger] bookmarks[k]).depth > 0) implies i == last by {
        assert forall|k: int| i < k < order.len() implies #[trigger] order[k] > 0 by {
            assert(bookmarks[k].depth > 0);
        }
        law_roots_are_the_outermost(order, i);
    }
}

/// Accepted bookmarks start at the top level and skip no level.
proof fn lemma_accepted_nest(index: Reconstruction)
    requires
        index.well_formed(),
        outline_plan_failure(index) is None,
        index.bookmarks@.len() > 0,
    ensures
        well_nested(depths_of(index.bookmarks@)),
{
    let bookmarks = index.bookmarks@;
    let pages = index.plan.pages@;
    let root = outline_root_of(index.records@);
    assert forall|i: int| 0 <= i < bookmarks.len() implies bookmark_failure(
        bookmarks,
        pages,
        root,
        i,
    ) is None by {
        lemma_each_accepted(bookmarks, pages, root, 0, i);
    }
    let order = depths_of(bookmarks);
    assert(bookmark_failure(bookmarks, pages, root, 0) is None);
    assert forall|i: int| 1 <= i < order.len() implies (#[trigger] order[i]) <= order[i - 1] + 1 by {
        assert(bookmark_failure(bookmarks, pages, root, i) is None);
    }
}

/// Where no bookmark is refused, each one is accepted.
proof fn lemma_each_accepted(
    bookmarks: Seq<Bookmark>,
    pages: Seq<PdfRef>,
    root: PdfRef,
    from: int,
    i: int,
)
    requires
        0 <= from <= i < bookmarks.len(),
        bookmarks_failure(bookmarks, pages, root, from) is None,
    ensures
        bookmark_failure(bookmarks, pages, root, i) is None,
    decreases i - from,
{
    if from < i {
        lemma_each_accepted(bookmarks, pages, root, from + 1, i);
    }
}

/// Where each bookmark is accepted, none is refused.
proof fn lemma_all_accepted(
    bookmarks: Seq<Bookmark>,
    pages: Seq<PdfRef>,
    root: PdfRef,
    from: int,
)
    requires
        0 <= from,
        forall|i: int|
            from <= i < bookmarks.len() ==> #[trigger] bookmark_failure(bookmarks, pages, root, i)
                is None,
    ensures
        bookmarks_failure(bookmarks, pages, root, from) is None,
    decreases bookmarks.len() - from,
{
    if from < bookmarks.len() {
        assert(bookmark_failure(bookmarks, pages, root, from) is None);
        lemma_all_accepted(bookmarks, pages, root, from + 1);
    }
}

/// Whether a bookmark may follow those before it.
pub open spec fn may_follow(bookmarks: Seq<Bookmark>, pages: nat, root: PdfRef, i: int) -> bool {
    &&& bookmarks[i].title@.len() > 0
    &&& bookmarks[i].page_index < pages
    &&& bookmarks[i].depth < 256
    &&& bookmarks[i].depth == 0 || i > 0 && bookmarks[i].depth <= bookmarks[i - 1].depth + 1
    &&& root.number + i + 1 <= 8_388_607
}

/// A list of bookmarks is accepted exactly where each has a title and one of the
/// pages, none skips a level or lies too deep, and all have an object number.
pub proof fn law_bookmarks_are_refused_for_cause(
    bookmarks: Seq<Bookmark>,
    pages: Seq<PdfRef>,
    root: PdfRef,
)
    ensures
        outline_failure(bookmarks, pages, root) is None <==> bookmarks.len() > 0 && forall|i: int|
            0 <= i < bookmarks.len() ==> #[trigger] may_follow(bookmarks, pages.len(), root, i),
{
    assert forall|i: int| 0 <= i < bookmarks.len() implies (#[trigger] may_follow(
        bookmarks,
        pages.len(),
        root,
        i,
    ) <==> bookmark_failure(bookmarks, pages, root, i) is None) by {}
    if bookmarks.len() > 0 {
        if bookmarks_failure(bookmarks, pages, root, 0) is None {
            assert forall|i: int| 0 <= i < bookmarks.len() implies #[trigger] may_follow(
                bookmarks,
                pages.len(),
                root,
                i,
            ) by {
                lemma_each_accepted(bookmarks, pages, root, 0, i);
            }
        }
        if forall|i: int|
            0 <= i < bookmarks.len() ==> #[trigger] may_follow(bookmarks, pages.len(), root, i) {
            assert forall|i: int| 0 <= i < bookmarks.len() implies #[trigger] bookmark_failure(
                bookmarks,
                pages,
                root,
                i,
            ) is None by {
                assert(may_follow(bookmarks, pages.len(), root, i));
            }
            lemma_all_accepted(bookmarks, pages, root, 0);
        }
    }
}

/// The words of an outline root.
proof fn lemma_root_words()
    ensures
        spelled(" 0 obj\n<< /Type /Outlines /First ") == spelled(" 0 obj\n<< /Type /Outlines")
            + spelled(" /First "),
        lacks(spelled(" 0 obj\n<< /Type /Outlines"), 70),
        lacks(spelled(" 0 obj\n<< /Type /Outlines"), 76),
        lacks(spelled(" 0 obj\n<< /Type /Outlines"), 67),
        spelled(" >>").is_prefix_of(spelled(" >>\nendobj\n")),
        spelled(" 0 obj\n").len() == 7,
        spelled(" 0 obj\n").is_prefix_of(spelled(" 0 obj\n<< /Type /Outlines /First ")),
{
    reveal_strlit(" 0 obj\n<< /Type /Outlines");
    assert(vstd::string::is_ascii(" 0 obj\n<< /Type /Outlines"));
    lemma_ascii(" 0 obj\n<< /Type /Outlines");
    reveal_strlit(" 0 obj\n<< /Type /Outlines /First ");
    assert(vstd::string::is_ascii(" 0 obj\n<< /Type /Outlines /First "));
    lemma_ascii(" 0 obj\n<< /Type /Outlines /First ");
    reveal_strlit(" /First ");
    assert(vstd::string::is_ascii(" /First "));
    lemma_ascii(" /First ");
    reveal_strlit(" 0 obj\n");
    assert(vstd::string::is_ascii(" 0 obj\n"));
    lemma_ascii(" 0 obj\n");
    reveal_strlit(" >>");
    assert(vstd::string::is_ascii(" >>"));
    lemma_ascii(" >>");
    reveal_strlit(" >>\nendobj\n");
    assert(vstd::string::is_ascii(" >>\nendobj\n"));
    lemma_ascii(" >>\nendobj\n");
    reveal(lacks);
    let head = spelled(" 0 obj\n<< /Type /Outlines /First ");
    assert(head =~= spelled(" 0 obj\n<< /Type /Outlines") + spelled(" /First "));
    assert(spelled(" 0 obj\n") =~= head.take(7));
    assert(spelled(" >>") =~= spelled(" >>\nendobj\n").take(3));
}

#[verifier::spinoff_prover]
#[verifier::rlimit(60)]
proof fn lemma_root_text(root: PdfRef, first: PdfRef, last: PdfRef, count: u32, n: nat)
    ensures
        ({
            let text = outline_root_text(root, first, last, count);
            &&& names(text, " /First ", n) <==> n == first.number
            &&& names(text, " /Last ", n) <==> n == last.number
            &&& holds(text, spelled(" /Count ") + decimal(n) + spelled(" >>")) <==> n == count
            &&& (decimal(root.number as nat) + spelled(" 0 obj\n")).is_prefix_of(text)
        }),
{
    reveal(outline_root_text);
    lemma_item_words();
    let text = outline_root_text(root, first, last, count);
    let number = decimal(root.number as nat);
    let open = spelled(" 0 obj\n<< /Type /Outlines");
    let head = spelled(" 0 obj\n<< /Type /Outlines /First ");
    lemma_root_words();
    let end = spelled(" >>\nendobj\n");
    let one = link_text(" /First ", Some(first));
    let two = link_text(" /Last ", Some(last));
    let total = decimal(count as nat);
    let counted = spelled(" /Count ") + total;
    assert(text =~= (number + open) + one + (two + counted + end));
    lemma_number_lacks(root.number as nat, 70);
    lemma_number_lacks(root.number as nat, 76);
    lemma_number_lacks(root.number as nat, 67);
    lemma_number_lacks(count as nat, 70);
    lemma_number_lacks(count as nat, 76);
    lemma_both_lack(number, open, 70);
    lemma_both_lack(number, open, 76);
    lemma_both_lack(number, open, 67);
    lemma_link_lacks(" /Last ", Some(last), 70);
    lemma_link_lacks(" /First ", Some(first), 76);
    lemma_link_lacks(" /First ", Some(first), 67);
    lemma_link_lacks(" /Last ", Some(last), 67);
    lemma_both_lack(spelled(" /Count "), total, 70);
    lemma_both_lack(two, counted, 70);
    lemma_both_lack(two + counted, end, 70);
    lemma_link_named(number + open, " /First ", Some(first), two + counted + end, 2, 70, n);
    assert(text =~= (number + open + one) + two + (counted + end));
    lemma_both_lack(number + open, one, 76);
    lemma_both_lack(spelled(" /Count "), total, 76);
    lemma_both_lack(counted, end, 76);
    lemma_link_named(number + open + one, " /Last ", Some(last), counted + end, 2, 76, n);
    assert(text =~= (number + open + one + two) + spelled(" /Count ") + total + end);
    lemma_both_lack(number + open, one, 67);
    lemma_both_lack(number + open + one, two, 67);
    lemma_one_number(
        number + open + one + two,
        spelled(" /Count "),
        count as nat,
        end,
        spelled(" >>"),
        2,
        67,
        n,
    );
    let start = number + spelled(" 0 obj\n");
    assert(text =~= start + (head.skip(7) + decimal(first.number as nat) + spelled(" 0 R") + two
        + counted + end)) by {
        assert(head =~= spelled(" 0 obj\n") + head.skip(7));
    }
    assert(start =~= text.take(start.len() as int));
}

} // verus!

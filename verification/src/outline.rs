//! An outline that is written as its entries arrive.
//!
//! Entries arrive in document order. An entry is written once the next entry
//! at its depth or above arrives, when everything about it is known; only the
//! entries that are still open are held.

use vstd::prelude::*;
use vstd::pervasive::unreached;
use crate::outline_order::{
    descendants, first_child, first_root, is_open, last_at_most, last_child, last_root,
    next_sibling, open_at, open_levels, parent, previous_sibling, subtree_end, well_nested,
    lemma_first_at_most, lemma_last_at_most, lemma_levels, lemma_open_levels, lemma_push_end,
    lemma_push_links, lemma_push_open,
};
use crate::pieces::views;
use crate::text::{
    decimal, hex_units, pdf_ref, pdf_ref_text, push_decimal, push_hex_units, push_text, spelled,
    title_units, utf16,
};
use crate::types::PdfRef;

verus! {

/// One entry as it arrived.
pub ghost struct Entry {
    pub depth: nat,
    pub reference: PdfRef,
    pub page: PdfRef,
    pub title: Seq<char>,
}

/// The depths of the entries.
pub open spec fn depths(entries: Seq<Entry>) -> Seq<nat> {
    Seq::new(entries.len(), |i: int| entries[i].depth)
}

/// The object of an entry that a link names.
pub open spec fn link(entries: Seq<Entry>, item: Option<int>) -> Option<PdfRef> {
    match item {
        Some(i) => Some(entries[i].reference),
        None => None,
    }
}

/// An entry with everything it is written with.
pub ghost struct Item {
    pub reference: PdfRef,
    pub parent: PdfRef,
    pub previous: Option<PdfRef>,
    pub next: Option<PdfRef>,
    pub page: PdfRef,
    pub title: Seq<char>,
    pub first_child: Option<PdfRef>,
    pub last_child: Option<PdfRef>,
    pub descendants: int,
}

/// Entry `i` of an outline below `root`, with every link.
pub open spec fn item_of(entries: Seq<Entry>, root: PdfRef, i: int) -> Item {
    let order = depths(entries);
    Item {
        reference: entries[i].reference,
        parent: match parent(order, i) {
            Some(above) => entries[above].reference,
            None => root,
        },
        previous: link(entries, previous_sibling(order, i)),
        next: link(entries, next_sibling(order, i)),
        page: entries[i].page,
        title: entries[i].title,
        first_child: link(entries, first_child(order, i)),
        last_child: link(entries, last_child(order, i)),
        descendants: descendants(order, i),
    }
}

/// How many code units of a title make one piece.
pub const TITLE_PIECE_UNITS: usize = 1024;

/// The digits of a title from code unit `from` on, in pieces.
pub open spec fn title_pieces(units: Seq<u16>, from: int) -> Seq<Seq<u8>>
    decreases units.len() - from,
{
    if from >= units.len() {
        Seq::empty()
    } else if from + TITLE_PIECE_UNITS >= units.len() {
        seq![hex_units(units.skip(from))]
    } else {
        seq![hex_units(units.subrange(from, from + TITLE_PIECE_UNITS))] + title_pieces(
            units,
            from + TITLE_PIECE_UNITS,
        )
    }
}

/// Where an item belongs and what it opens.
pub open spec fn place_text(parent: PdfRef, page: PdfRef) -> Seq<u8> {
    spelled("> /Parent ") + pdf_ref_text(parent) + spelled(" /Dest [") + pdf_ref_text(page)
        + spelled(" /Fit]")
}

/// An optional link under a name.
pub open spec fn link_pieces(name: &str, link: Option<PdfRef>) -> Seq<Seq<u8>> {
    match link {
        Some(link) => seq![spelled(name) + pdf_ref_text(link)],
        None => Seq::empty(),
    }
}

/// The children of an item, if it has any.
pub open spec fn children_pieces(first: Option<PdfRef>, last: Option<PdfRef>, count: int) -> Seq<
    Seq<u8>,
> {
    match (first, last) {
        (Some(first), Some(last)) => seq![
            spelled(" /First ") + pdf_ref_text(first) + spelled(" /Last ") + pdf_ref_text(last)
                + spelled(" /Count ") + decimal(count as nat),
        ],
        _ => Seq::empty(),
    }
}

/// The pieces of an item's dictionary.
#[verifier::opaque]
pub open spec fn item_pieces(item: Item) -> Seq<Seq<u8>> {
    seq![spelled("<< /Title <FEFF")] + title_pieces(utf16(item.title), 0) + seq![
        place_text(item.parent, item.page),
    ] + link_pieces(" /Prev ", item.previous) + link_pieces(" /Next ", item.next)
        + children_pieces(item.first_child, item.last_child, item.descendants) + seq![
        spelled(" >>"),
    ]
}

/// An item that is closed and about to be written.
#[derive(Debug)]
pub struct ClosedOutline {
    pub reference: PdfRef,
    pub parent: PdfRef,
    pub previous: Option<PdfRef>,
    pub next: Option<PdfRef>,
    pub page: PdfRef,
    pub title: String,
    pub first_child: Option<PdfRef>,
    pub last_child: Option<PdfRef>,
    pub descendants: u32,
}

impl View for ClosedOutline {
    type V = Item;

    open spec fn view(&self) -> Item {
        Item {
            reference: self.reference,
            parent: self.parent,
            previous: self.previous,
            next: self.next,
            page: self.page,
            title: self.title@,
            first_child: self.first_child,
            last_child: self.last_child,
            descendants: self.descendants as int,
        }
    }
}

/// Append the digits of a title to a list of pieces.
fn push_title_pieces(pieces: &mut Vec<Vec<u8>>, units: &Vec<u16>)
    ensures
        views(final(pieces)@) == views(old(pieces)@) + title_pieces(units@, 0),
{
    let ghost before = views(pieces@);
    let mut done: usize = 0;
    let count: usize = units.len();
    assert(before + title_pieces(units@, 0) == views(pieces@) + title_pieces(units@, 0));
    while done < count
        invariant
            done <= count == units@.len(),
            before + title_pieces(units@, 0) == views(pieces@) + title_pieces(units@, done as int),
        decreases count - done,
    {
        let left: usize = count - done;
        let upto: usize = if left <= TITLE_PIECE_UNITS {
            count
        } else {
            done + TITLE_PIECE_UNITS
        };
        let mut digits: Vec<u8> = Vec::new();
        let chunk = &units[done..upto];
        push_hex_units(&mut digits, chunk);
        let ghost sofar = views(pieces@);
        proof {
            assert(digits@ =~= hex_units(units@.subrange(done as int, upto as int)));
            if upto == count {
                assert(units@.subrange(done as int, upto as int) =~= units@.skip(done as int));
            }
        }
        pieces.push(digits);
        proof {
            assert(views(pieces@) =~= sofar.push(digits@));
            assert(sofar + title_pieces(units@, done as int) =~= views(pieces@) + title_pieces(
                units@,
                upto as int,
            ));
        }
        done = upto;
    }
    assert(views(pieces@) + title_pieces(units@, done as int) =~= views(pieces@));
}

/// Append an optional link to a list of pieces.
fn push_link_piece(pieces: &mut Vec<Vec<u8>>, name: &str, link: Option<PdfRef>)
    ensures
        views(final(pieces)@) == views(old(pieces)@) + link_pieces(name, link),
{
    let ghost before = views(pieces@);
    if let Some(link) = link {
        let mut text: Vec<u8> = Vec::new();
        push_text(&mut text, name);
        pdf_ref(&mut text, link);
        assert(text@ =~= spelled(name) + pdf_ref_text(link));
        pieces.push(text);
    }
    assert(views(pieces@) =~= before + link_pieces(name, link));
}

/// The pieces of an item's dictionary.
pub fn closed_pieces(item: &ClosedOutline) -> (pieces: Vec<Vec<u8>>)
    ensures
        views(pieces@) == item_pieces(item@),
{
    let mut pieces: Vec<Vec<u8>> = Vec::new();
    let mut open: Vec<u8> = Vec::new();
    push_text(&mut open, "<< /Title <FEFF");
    assert(open@ =~= spelled("<< /Title <FEFF"));
    pieces.push(open);
    assert(views(pieces@) =~= seq![spelled("<< /Title <FEFF")]);
    let units = title_units(item.title.as_str());
    push_title_pieces(&mut pieces, &units);
    let ghost titled = views(pieces@);
    let mut place: Vec<u8> = Vec::new();
    push_text(&mut place, "> /Parent ");
    pdf_ref(&mut place, item.parent);
    push_text(&mut place, " /Dest [");
    pdf_ref(&mut place, item.page);
    push_text(&mut place, " /Fit]");
    assert(place@ =~= place_text(item.parent, item.page));
    pieces.push(place);
    assert(views(pieces@) =~= titled + seq![place_text(item.parent, item.page)]);
    push_link_piece(&mut pieces, " /Prev ", item.previous);
    push_link_piece(&mut pieces, " /Next ", item.next);
    let ghost linked = views(pieces@);
    if let (Some(first), Some(last)) = (item.first_child, item.last_child) {
        let mut children: Vec<u8> = Vec::new();
        push_text(&mut children, " /First ");
        pdf_ref(&mut children, first);
        push_text(&mut children, " /Last ");
        pdf_ref(&mut children, last);
        push_text(&mut children, " /Count ");
        push_decimal(&mut children, item.descendants as u64);
        assert(children@ =~= children_pieces(
            item.first_child,
            item.last_child,
            item.descendants as int,
        )[0]);
        pieces.push(children);
    }
    assert(views(pieces@) =~= linked + children_pieces(
        item.first_child,
        item.last_child,
        item.descendants as int,
    ));
    let ghost almost = views(pieces@);
    let mut end: Vec<u8> = Vec::new();
    push_text(&mut end, " >>");
    assert(end@ =~= spelled(" >>"));
    pieces.push(end);
    assert(views(pieces@) =~= almost + seq![spelled(" >>")]);
    proof {
        reveal(item_pieces);
    }
    pieces
}

/// An entry that later entries may still belong to.
#[derive(Debug)]
pub struct OpenOutline {
    pub reference: PdfRef,
    pub parent: PdfRef,
    pub previous: Option<PdfRef>,
    pub page: PdfRef,
    pub title: String,
    pub title_capacity: u64,
    pub ordinal: u32,
    pub first_child: Option<PdfRef>,
    pub last_child: Option<PdfRef>,
}

/// The entries that have arrived and those still open.
pub struct Outline {
    pub root: Option<PdfRef>,
    pub first: Option<PdfRef>,
    pub last: Option<PdfRef>,
    pub open: Vec<OpenOutline>,
    pub count: u32,
    pub retained_titles: u64,
    pub entries: Ghost<Seq<Entry>>,
}

/// Whether an open entry holds what is known of entry `i` so far.
pub open spec fn holds_entry(item: OpenOutline, entries: Seq<Entry>, root: PdfRef, i: int) -> bool {
    let so_far = item_of(entries, root, i);
    &&& item.ordinal == i
    &&& item.reference == so_far.reference
    &&& item.parent == so_far.parent
    &&& item.previous == so_far.previous
    &&& item.page == so_far.page
    &&& item.title@ == so_far.title
    &&& item.first_child == so_far.first_child
    &&& item.last_child == so_far.last_child
}

/// The bytes that the titles of the first `levels` open entries take.
pub open spec fn title_bytes(open: Seq<OpenOutline>, levels: int) -> int
    decreases levels,
{
    if levels <= 0 {
        0
    } else {
        title_bytes(open, levels - 1) + open[levels - 1].title_capacity
    }
}

impl Outline {
    /// The object of the outline root, once there is one.
    pub open spec fn root_reference(self) -> PdfRef {
        self.root->0
    }

    /// Whether the first levels of the open entries are held, deeper ones
    /// having been closed already.
    #[verifier::opaque]
    pub open spec fn holds_levels(self) -> bool {
        let entries = self.entries@;
        let order = depths(entries);
        &&& self.count == entries.len()
        &&& well_nested(order)
        &&& entries.len() > 0 ==> self.root is Some
        &&& self.first == link(entries, first_root(order))
        &&& self.last == link(entries, last_root(order))
        &&& self.open@.len() <= open_levels(order)
        &&& self.retained_titles == title_bytes(self.open@, self.open@.len() as int)
        &&& forall|level: int|
            #![trigger self.open@[level]]
            0 <= level < self.open@.len() ==> holds_entry(
                self.open@[level],
                entries,
                self.root_reference(),
                open_at(order, level as nat),
            )
    }

    /// Whether every open entry is held.
    pub open spec fn well_formed(self) -> bool {
        self.holds_levels() && self.open@.len() == open_levels(depths(self.entries@))
    }

    /// An outline without entries.
    pub fn new() -> (outline: Self)
        ensures
            outline.well_formed(),
            outline.entries@.len() == 0,
            outline.root is None,
            outline.open@.len() == 0,
            outline.count == 0,
    {
        proof {
            reveal(Outline::holds_levels);
        }
        Outline {
            root: None,
            first: None,
            last: None,
            open: Vec::new(),
            count: 0,
            retained_titles: 0,
            entries: Ghost(Seq::empty()),
        }
    }
}

/// What entry `i` is once an entry no deeper than it has arrived: the new one
/// is its next sibling or none of its relatives.
pub proof fn lemma_item_closed(entries: Seq<Entry>, root: PdfRef, added: Entry, i: int)
    requires
        well_nested(depths(entries.push(added))),
        0 <= i < entries.len(),
        is_open(depths(entries), i),
        added.depth <= entries[i].depth,
    ensures
        item_of(entries.push(added), root, i) == (Item {
            next: if added.depth == entries[i].depth {
                Some(added.reference)
            } else {
                None
            },
            descendants: entries.len() - i - 1,
            ..item_of(entries, root, i)
        }),
{
    let order = depths(entries);
    let longer = entries.push(added);
    let longer_order = depths(longer);
    assert(longer_order =~= order.push(added.depth));
    lemma_push_links(order, added.depth, i);
    lemma_push_end(order, added.depth, i);
    lemma_link_bounds(entries, i);
    lemma_first_at_most(order, i + 1, order[i]);
}

/// The links of an entry name entries of the list.
pub proof fn lemma_link_bounds(entries: Seq<Entry>, i: int)
    requires
        0 <= i < entries.len(),
        well_nested(depths(entries)) || exists|depth: nat| #[trigger]
            well_nested(depths(entries).push(depth)),
    ensures
        ({
            let order = depths(entries);
            &&& parent(order, i) matches Some(p) ==> 0 <= p < entries.len()
            &&& previous_sibling(order, i) matches Some(p) ==> 0 <= p < entries.len()
            &&& next_sibling(order, i) matches Some(p) ==> 0 <= p < entries.len()
            &&& first_child(order, i) matches Some(p) ==> 0 <= p < entries.len()
            &&& last_child(order, i) matches Some(p) ==> 0 <= p < entries.len()
        }),
{
    let order = depths(entries);
    lemma_first_at_most(order, i + 1, order[i]);
    lemma_last_at_most(order, i, order[i]);
    lemma_last_at_most(order, subtree_end(order, i), order[i] + 1);
    if order[i] > 0 {
        lemma_last_at_most(order, i, (order[i] - 1) as nat);
        lemma_parent_exists(order, i);
    }
    if subtree_end(order, i) > i + 1 {
        assert(last_child(order, i)->0 >= i) by {
            assert(order[i] <= order[i] + 1);
        }
    }
}

/// An entry below the top level has something shallower before it.
proof fn lemma_parent_exists(order: Seq<nat>, i: int)
    requires
        0 <= i < order.len(),
        order[i] > 0,
        well_nested(order) || exists|depth: nat| #[trigger] well_nested(order.push(depth)),
    ensures
        parent(order, i)->0 >= 0,
{
    lemma_last_at_most(order, i, (order[i] - 1) as nat);
    assert(order[0] == 0) by {
        if !well_nested(order) {
            let depth = choose|depth: nat| #[trigger] well_nested(order.push(depth));
            assert(order.push(depth)[0] == 0);
        }
    }
    if parent(order, i)->0 < 0 {
        assert(order[0] > order[i] - 1);
    }
}

/// What an open entry is at the end of the outline: nothing follows it.
pub proof fn lemma_item_at_end(entries: Seq<Entry>, root: PdfRef, i: int)
    requires
        0 <= i < entries.len(),
        is_open(depths(entries), i),
    ensures
        item_of(entries, root, i) == (Item {
            next: None,
            descendants: entries.len() - i - 1,
            ..item_of(entries, root, i)
        }),
{
}

/// An entry that is closed is written with the same links whatever arrives
/// later.
pub proof fn law_closed_items_are_final(
    entries: Seq<Entry>,
    root: PdfRef,
    added: Entry,
    i: int,
)
    requires
        well_nested(depths(entries.push(added))),
        0 <= i < entries.len(),
        !is_open(depths(entries), i),
    ensures
        item_of(entries.push(added), root, i) == item_of(entries, root, i),
        !is_open(depths(entries.push(added)), i),
{
    let order = depths(entries);
    assert(depths(entries.push(added)) =~= order.push(added.depth));
    lemma_push_links(order, added.depth, i);
    lemma_push_end(order, added.depth, i);
    lemma_link_bounds(entries, i);
}

/// A new entry comes after the last child of its parent, or after the last
/// top-level entry.
proof fn lemma_previous_of_new(order: Seq<nat>, depth: nat)
    requires
        well_nested(order.push(depth)),
        well_nested(order),
    ensures
        depth <= open_levels(order),
        depth == 0 ==> previous_sibling(order.push(depth), order.len() as int) == last_root(order)
            && parent(order.push(depth), order.len() as int) is None,
        depth > 0 ==> {
            let above = open_at(order, (depth - 1) as nat);
            &&& 0 <= above < order.len()
            &&& is_open(order, above)
            &&& order[above] == depth - 1
            &&& parent(order.push(depth), order.len() as int) == Some(above)
            &&& previous_sibling(order.push(depth), order.len() as int) == last_child(order, above)
        },
{
    let longer = order.push(depth);
    let n = order.len() as int;
    assert(longer[n] == depth);
    if n > 0 {
        assert(longer[n - 1] == order[n - 1]);
    }
    assert(order =~= longer.take(n));
    crate::outline_order::lemma_last_at_most_prefix(longer, order, n, depth);
    lemma_last_at_most(order, n, depth);
    if depth == 0 {
        if n > 0 {
            lemma_levels(order, n, 0);
            assert(longer[last_root(order)->0] == order[last_root(order)->0]);
        }
    } else {
        let above = open_at(order, (depth - 1) as nat);
        lemma_open_levels(order, (depth - 1) as nat);
        crate::outline_order::lemma_last_at_most_prefix(longer, order, n, (depth - 1) as nat);
        lemma_first_at_most(order, above + 1, order[above]);
        let j = last_at_most(order, n, depth);
        assert(j >= above) by {
            if j < above {
                assert(order[above] > depth);
            }
        }
        if n > above + 1 {
            assert(order[above + 1] <= order[above] + 1);
            assert(order[above + 1] > order[above]);
            assert(j >= above + 1) by {
                if j < above + 1 {
                    assert(order[above + 1] > depth);
                }
            }
            assert(order[j] > order[above]);
        } else {
            assert(j == above);
        }
        assert(longer[j] == order[j]);
    }
}

/// The list is longer by one entry, and the open entries above it hold it.
proof fn lemma_pushed_entry(
    entries: Seq<Entry>,
    root: PdfRef,
    added: Entry,
    item: OpenOutline,
    level: nat,
)
    requires
        well_nested(depths(entries)),
        well_nested(depths(entries.push(added))),
        level < added.depth,
        level < open_levels(depths(entries)),
        holds_entry(item, entries, root, open_at(depths(entries), level)),
    ensures
        open_at(depths(entries.push(added)), level) == open_at(depths(entries), level),
        holds_entry(
            if level + 1 == added.depth {
                OpenOutline {
                    first_child: if item.first_child is None {
                        Some(added.reference)
                    } else {
                        item.first_child
                    },
                    last_child: Some(added.reference),
                    ..item
                }
            } else {
                item
            },
            entries.push(added),
            root,
            open_at(depths(entries), level),
        ),
{
    let order = depths(entries);
    let longer = order.push(added.depth);
    assert(depths(entries.push(added)) =~= longer);
    let i = open_at(order, level);
    lemma_open_levels(order, level);
    lemma_push_open(order, added.depth, level);
    lemma_push_links(order, added.depth, i);
    lemma_link_bounds(entries, i);
}

/// A new entry holds what is known of it.
proof fn lemma_new_entry_held(entries: Seq<Entry>, root: PdfRef, added: Entry, item: OpenOutline)
    requires
        well_nested(depths(entries)),
        well_nested(depths(entries.push(added))),
        item.ordinal == entries.len(),
        item.reference == added.reference,
        item.page == added.page,
        item.title@ == added.title,
        item.first_child is None,
        item.last_child is None,
        added.depth == 0 ==> item.parent == root && item.previous == link(
            entries,
            last_root(depths(entries)),
        ),
        added.depth > 0 ==> {
            let above = open_at(depths(entries), (added.depth - 1) as nat);
            &&& item.parent == entries[above].reference
            &&& item.previous == link(entries, last_child(depths(entries), above))
        },
    ensures
        open_at(depths(entries.push(added)), added.depth) == entries.len(),
        holds_entry(item, entries.push(added), root, entries.len() as int),
{
    let order = depths(entries);
    let longer = order.push(added.depth);
    let n = entries.len() as int;
    assert(depths(entries.push(added)) =~= longer);
    lemma_previous_of_new(order, added.depth);
    lemma_push_open(order, added.depth, added.depth);
    if added.depth > 0 {
        lemma_link_bounds(entries, open_at(order, (added.depth - 1) as nat));
    } else if n > 0 {
        lemma_levels(order, n, 0);
        lemma_last_at_most(order, n, 0);
    }
}

/// The first and the last top-level entry after one more entry.
proof fn lemma_roots_of_longer(entries: Seq<Entry>, added: Entry)
    requires
        well_nested(depths(entries)),
        well_nested(depths(entries.push(added))),
    ensures
        ({
            let longer = entries.push(added);
            &&& link(longer, first_root(depths(longer))) == (if entries.len() == 0 {
                Some(added.reference)
            } else {
                link(entries, first_root(depths(entries)))
            })
            &&& link(longer, last_root(depths(longer))) == (if added.depth == 0 {
                Some(added.reference)
            } else {
                link(entries, last_root(depths(entries)))
            })
            &&& entries.len() == 0 ==> added.depth == 0
        }),
{
    let order = depths(entries);
    let longer = order.push(added.depth);
    assert(depths(entries.push(added)) =~= longer);
    let n = entries.len() as int;
    assert(longer[n] == added.depth);
    if added.depth > 0 && n > 0 {
        assert(order =~= longer.take(n));
        crate::outline_order::lemma_last_at_most_prefix(longer, order, n, 0);
        lemma_last_at_most(order, n, 0);
        lemma_levels(order, n, 0);
    }
}

proof fn lemma_title_bytes_same(one: Seq<OpenOutline>, other: Seq<OpenOutline>, levels: int)
    requires
        0 <= levels <= one.len(),
        levels <= other.len(),
        forall|l: int|
            0 <= l < levels ==> (#[trigger] one[l]).title_capacity == (
            #[trigger] other[l]).title_capacity,
    ensures
        title_bytes(one, levels) == title_bytes(other, levels),
    decreases levels,
{
    if levels > 0 {
        lemma_title_bytes_same(one, other, levels - 1);
    }
}

/// Titles take no less than those of fewer levels.
pub proof fn lemma_title_bytes_grow(open: Seq<OpenOutline>, fewer: int, levels: int)
    requires
        0 <= fewer <= levels,
    ensures
        0 <= title_bytes(open, fewer) <= title_bytes(open, levels),
    decreases levels,
{
    if fewer < levels {
        lemma_title_bytes_grow(open, fewer, levels - 1);
    } else if levels > 0 {
        lemma_title_bytes_grow(open, fewer - 1, levels - 1);
    }
}

impl Outline {
    /// Whether another outline has the same entries and roots.
    pub open spec fn same_entries(self, other: Self) -> bool {
        &&& self.root == other.root
        &&& self.first == other.first
        &&& self.last == other.last
        &&& self.count == other.count
        &&& self.entries == other.entries
    }

    /// Close the deepest open entry, with its next sibling.
    pub fn close_top(&mut self, next: Option<PdfRef>) -> (item: ClosedOutline)
        requires
            old(self).holds_levels(),
            old(self).open@.len() > 0,
        ensures
            final(self).holds_levels(),
            final(self).same_entries(*old(self)),
            final(self).open@ == old(self).open@.drop_last(),
            ({
                let entries = old(self).entries@;
                let i = open_at(depths(entries), (old(self).open@.len() - 1) as nat);
                item@ == (Item {
                    next,
                    descendants: entries.len() - i - 1,
                    ..item_of(entries, old(self).root_reference(), i)
                })
            }),
    {
        let ghost before = *self;
        proof {
            reveal(Outline::holds_levels);
        }
        let ghost level = (self.open@.len() - 1) as nat;
        let ghost i = open_at(depths(self.entries@), level);
        proof {
            lemma_open_levels(depths(self.entries@), level);
            assert(holds_entry(
                self.open@[level as int],
                self.entries@,
                self.root_reference(),
                i,
            ));
            lemma_title_bytes_same(self.open@, self.open@.drop_last(), level as int);
            lemma_title_bytes_grow(self.open@, level as int, level as int + 1);
        }
        let item = match self.open.pop() {
            Some(item) => item,
            None => unreached(),
        };
        assert(item == before.open@[level as int]);
        self.retained_titles = self.retained_titles - item.title_capacity;
        let descendants: u32 = self.count - item.ordinal - 1;
        proof {
            assert forall|l: int|
                #![trigger self.open@[l]]
                0 <= l < self.open@.len() implies holds_entry(
                self.open@[l],
                self.entries@,
                self.root_reference(),
                open_at(depths(self.entries@), l as nat),
            ) by {
                assert(self.open@[l] == before.open@[l]);
            }
        }
        ClosedOutline {
            reference: item.reference,
            parent: item.parent,
            previous: item.previous,
            next,
            page: item.page,
            title: item.title,
            first_child: item.first_child,
            last_child: item.last_child,
            descendants,
        }
    }

    /// Add an entry below the open entries, none of which is as deep.
    #[verifier::rlimit(50)]
    pub fn push(&mut self, reference: PdfRef, page: PdfRef, title: String, title_capacity: u64)
        requires
            old(self).holds_levels(),
            old(self).root is Some,
            old(self).count < u32::MAX,
            old(self).retained_titles + title_capacity <= u64::MAX,
        ensures
            final(self).well_formed(),
            final(self).root == old(self).root,
            final(self).count == old(self).count + 1,
            final(self).entries@ == old(self).entries@.push(
                Entry { depth: old(self).open@.len(), reference, page, title: title@ },
            ),
            final(self).retained_titles == old(self).retained_titles + title_capacity,
            final(self).open@.len() == old(self).open@.len() + 1,
            final(self).open@.last().reference == reference,
            forall|l: int|
                #![trigger final(self).open@[l]]
                0 <= l < old(self).open@.len() ==> {
                    &&& final(self).open@[l].title_capacity == old(self).open@[l].title_capacity
                    &&& final(self).open@[l].reference == old(self).open@[l].reference
                },
    {
        let ghost before = *self;
        proof {
            reveal(Outline::holds_levels);
        }
        let ghost entries = self.entries@;
        let ghost order = depths(entries);
        let ghost root = self.root_reference();
        let depth: usize = self.open.len();
        let ghost added = Entry { depth: depth as nat, reference, page, title: title@ };
        let ghost longer = entries.push(added);
        proof {
            assert(depths(longer) =~= order.push(depth as nat));
            lemma_nested_push(order, depth as nat);
            lemma_roots_of_longer(entries, added);
            lemma_previous_of_new(order, depth as nat);
        }
        let mut parent = PdfRef { number: 0, generation: 0 };
        let mut previous: Option<PdfRef> = None;
        if depth == 0 {
            if let Some(root) = self.root {
                parent = root;
            }
            previous = self.last;
            if self.first.is_none() {
                self.first = Some(reference);
            }
            self.last = Some(reference);
        } else {
            proof {
                assert(holds_entry(
                    before.open@[depth - 1],
                    entries,
                    root,
                    open_at(order, (depth - 1) as nat),
                ));
            }
            parent = self.open[depth - 1].reference;
            previous = self.open[depth - 1].last_child;
            if self.open[depth - 1].first_child.is_none() {
                self.open[depth - 1].first_child = Some(reference);
            }
            self.open[depth - 1].last_child = Some(reference);
        }
        let item = OpenOutline {
            reference,
            parent,
            previous,
            page,
            title,
            title_capacity,
            ordinal: self.count,
            first_child: None,
            last_child: None,
        };
        proof {
            lemma_new_entry_held(entries, root, added, item);
        }
        self.open.push(item);
        self.count = self.count + 1;
        self.retained_titles = self.retained_titles + title_capacity;
        self.entries = Ghost(longer);
        proof {
            assert forall|l: int|
                #![trigger self.open@[l]]
                0 <= l < self.open@.len() implies holds_entry(
                self.open@[l],
                longer,
                root,
                open_at(depths(longer), l as nat),
            ) by {
                if l < depth {
                    assert(holds_entry(
                        before.open@[l],
                        entries,
                        root,
                        open_at(order, l as nat),
                    ));
                    lemma_pushed_entry(entries, root, added, before.open@[l], l as nat);
                    if l < depth - 1 {
                        assert(self.open@[l] == before.open@[l]);
                    }
                }
            }
            lemma_title_bytes_same(before.open@, self.open@, depth as int);
        }
    }
}

proof fn lemma_nested_push(order: Seq<nat>, depth: nat)
    requires
        well_nested(order),
        depth <= open_levels(order),
    ensures
        well_nested(order.push(depth)),
{
    let longer = order.push(depth);
    if order.len() > 0 {
        assert(longer[0] == order[0]);
    }
    assert forall|i: int| 1 <= i < longer.len() implies (#[trigger] longer[i]) <= longer[i - 1]
        + 1 by {
        if i < order.len() {
            assert(order[i] <= order[i - 1] + 1);
        }
    }
}

/// An entry no deeper than the open ones allow keeps the list well nested.
pub proof fn lemma_nested_entry(entries: Seq<Entry>, added: Entry)
    requires
        well_nested(depths(entries)),
        added.depth <= open_levels(depths(entries)),
    ensures
        well_nested(depths(entries.push(added))),
{
    assert(depths(entries.push(added)) =~= depths(entries).push(added.depth));
    lemma_nested_push(depths(entries), added.depth);
}

/// Titles of fewer levels are those of the levels that are kept.
pub proof fn lemma_title_bytes_take(open: Seq<OpenOutline>, levels: int)
    requires
        0 <= levels <= open.len(),
    ensures
        title_bytes(open.take(levels), levels) == title_bytes(open, levels),
{
    lemma_title_bytes_same(open.take(levels), open, levels);
}

/// What holding the open entries comes to.
pub proof fn lemma_levels_held(outline: Outline)
    requires
        outline.holds_levels(),
    ensures
        outline.count == outline.entries@.len(),
        well_nested(depths(outline.entries@)),
        outline.open@.len() <= open_levels(depths(outline.entries@)),
        outline.retained_titles == title_bytes(outline.open@, outline.open@.len() as int),
        outline.entries@.len() > 0 ==> outline.root is Some,
        outline.first == link(outline.entries@, first_root(depths(outline.entries@))),
        outline.last == link(outline.entries@, last_root(depths(outline.entries@))),
{
    reveal(Outline::holds_levels);
}

/// Giving an empty outline a root changes nothing else.
pub proof fn lemma_rooted(outline: Outline, rooted: Outline)
    requires
        outline.well_formed(),
        outline.root is None,
        rooted.root is Some,
        rooted.first == outline.first,
        rooted.last == outline.last,
        rooted.open@ == outline.open@,
        rooted.count == outline.count,
        rooted.retained_titles == outline.retained_titles,
        rooted.entries == outline.entries,
    ensures
        rooted.well_formed(),
{
    reveal(Outline::holds_levels);
}

/// Room for more open entries changes nothing else.
pub proof fn lemma_roomier(outline: Outline, roomier: Outline)
    requires
        outline.well_formed(),
        roomier.same_entries(outline),
        roomier.open@ == outline.open@,
        roomier.retained_titles == outline.retained_titles,
    ensures
        roomier.well_formed(),
{
    reveal(Outline::holds_levels);
}

/// What an open entry is known as once a new entry arrives, or at the end.
pub proof fn lemma_closing_item(
    before: Seq<Entry>,
    after: Seq<Entry>,
    root: PdfRef,
    level: nat,
    depth: nat,
    next: Option<PdfRef>,
)
    requires
        well_nested(depths(before)),
        level < open_levels(depths(before)),
        depth <= level,
        match next {
            Some(reference) => exists|added: Entry|
                #![trigger before.push(added)]
                after == before.push(added) && added.depth == depth && added.reference
                    == reference && well_nested(depths(after)),
            None => after == before,
        },
    ensures
        ({
            let i = open_at(depths(before), level);
            &&& 0 <= i < before.len()
            &&& item_of(after, root, i) == (Item {
                next: if level == depth {
                    next
                } else {
                    None
                },
                descendants: before.len() - i - 1,
                ..item_of(before, root, i)
            })
        }),
{
    let i = open_at(depths(before), level);
    lemma_open_levels(depths(before), level);
    match next {
        Some(reference) => {
            let added = choose|added: Entry|
                #![trigger before.push(added)]
                after == before.push(added) && added.depth == depth && added.reference
                    == reference && well_nested(depths(after));
            lemma_item_closed(before, root, added, i);
        },
        None => {
            lemma_item_at_end(before, root, i);
        },
    }
}

/// No more entries are open than have arrived.
pub proof fn lemma_open_levels_bound(outline: Outline)
    requires
        outline.holds_levels(),
    ensures
        outline.open@.len() <= outline.count,
{
    reveal(Outline::holds_levels);
    let order = depths(outline.entries@);
    if order.len() > 0 {
        lemma_depth_bound(order, order.len() - 1);
    }
}

/// An entry has as many entries before it as it is deep.
proof fn lemma_depth_bound(order: Seq<nat>, i: int)
    requires
        well_nested(order),
        0 <= i < order.len(),
    ensures
        order[i] <= i,
    decreases i,
{
    if i > 0 {
        lemma_depth_bound(order, i - 1);
        assert(order[i] <= order[i - 1] + 1);
    }
}

/// Every entry is written when a later entry completes it, with the links that
/// the whole list of entries gives it in the end.
pub proof fn law_written_entry_is_final(
    before: Seq<Entry>,
    added: Entry,
    later: Seq<Entry>,
    root: PdfRef,
    level: nat,
)
    requires
        well_nested(depths(later)),
        before.push(added).is_prefix_of(later),
        well_nested(depths(before)),
        level < open_levels(depths(before)),
        added.depth <= level,
    ensures
        ({
            let i = open_at(depths(before), level);
            item_of(before.push(added), root, i) == item_of(later, root, i)
        }),
    decreases later.len(),
{
    let i = open_at(depths(before), level);
    let sooner = before.push(added);
    lemma_open_levels(depths(before), level);
    lemma_prefix_nested(later, sooner.len() as int);
    assert(sooner =~= later.take(sooner.len() as int));
    if later.len() == sooner.len() {
        assert(later =~= sooner);
    } else {
        let shorter = later.drop_last();
        lemma_prefix_nested(later, shorter.len() as int);
        assert(shorter =~= later.take(shorter.len() as int));
        assert(sooner =~= shorter.take(sooner.len() as int));
        law_written_entry_is_final(before, added, shorter, root, level);
        lemma_closed_in_later(before, added, shorter, i);
        assert(later =~= shorter.push(later.last()));
        law_closed_items_are_final(shorter, root, later.last(), i);
    }
}

proof fn lemma_prefix_nested(entries: Seq<Entry>, count: int)
    requires
        well_nested(depths(entries)),
        0 <= count <= entries.len(),
    ensures
        well_nested(depths(entries.take(count))),
{
    let all = depths(entries);
    let first = depths(entries.take(count));
    if count > 0 {
        assert(first[0] == all[0]);
    }
    assert forall|i: int| 1 <= i < first.len() implies (#[trigger] first[i]) <= first[i - 1]
        + 1 by {
        assert(all[i] <= all[i - 1] + 1);
    }
}

/// An entry that a later one closed stays closed.
proof fn lemma_closed_in_later(before: Seq<Entry>, added: Entry, later: Seq<Entry>, i: int)
    requires
        0 <= i < before.len(),
        added.depth <= before[i].depth,
        before.push(added).is_prefix_of(later),
    ensures
        !is_open(depths(later), i),
{
    let order = depths(later);
    let n = before.len() as int;
    assert(later[n] == before.push(added)[n]);
    assert(later[i] == before.push(added)[i]);
    lemma_first_at_most(order, i + 1, order[i]);
    if is_open(order, i) {
        assert(order[n] > order[i]);
    }
}

} // verus!

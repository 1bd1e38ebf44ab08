//! What is read from a document's ID and how the second one is computed.

use vstd::prelude::*;
use crate::append::trailer_id::{
    first_id_span, fnv128_of, hex_string_end, is_hex_digit, is_pdf_space,
    literal_string_end, space_end, string_end, FNV128_BASIS, FNV128_PRIME,
};
use crate::append::writer::{little_endian_bytes, update_hash_start};

verus! {

/// Whether bytes are white space: null, tab, line feed, form feed, carriage
/// return or space.
pub open spec fn is_blank(bytes: Seq<u8>) -> bool {
    forall|k: int|
        0 <= k < bytes.len() ==> (#[trigger] bytes[k]) == 0 || bytes[k] == 9 || bytes[k] == 10
            || bytes[k] == 12 || bytes[k] == 13 || bytes[k] == 32
}

/// Whether bytes are a hexadecimal string in angle brackets.
pub open spec fn is_hex_string(text: Seq<u8>) -> bool {
    &&& text.len() >= 2
    &&& text[0] == 60
    &&& text.last() == 62
    &&& forall|k: int|
        0 < k < text.len() - 1 ==> 48 <= (#[trigger] text[k]) <= 57 || 65 <= text[k] <= 70 || 97
            <= text[k] <= 102
}

/// Whether bytes are a string in parentheses that nests none and escapes nothing.
pub open spec fn is_plain_string(text: Seq<u8>) -> bool {
    &&& text.len() >= 2
    &&& text[0] == 40
    &&& text.last() == 41
    &&& forall|k: int|
        0 < k < text.len() - 1 ==> (#[trigger] text[k]) != 40 && text[k] != 41 && text[k] != 92
}

proof fn lemma_blank_skipped(raw: Seq<u8>, from: int, to: int)
    requires
        0 <= from <= to <= raw.len(),
        is_blank(raw.subrange(from, to)),
        to == raw.len() || raw[to] == 91 || raw[to] == 93 || raw[to] == 60 || raw[to] == 40,
    ensures
        space_end(raw, from, false) == to,
    decreases to - from,
{
    if from < to {
        assert(raw.subrange(from, to)[0] == raw[from]);
        assert(is_pdf_space(raw[from]));
        assert forall|k: int| 0 <= k < to - from - 1 implies (
        #[trigger] raw.subrange(from + 1, to)[k]) == raw.subrange(from, to)[k + 1] by {}
        lemma_blank_skipped(raw, from + 1, to);
    }
}

proof fn lemma_hex_read(raw: Seq<u8>, from: int, end: int)
    requires
        0 <= from < end <= raw.len(),
        raw[end - 1] == 62,
        forall|k: int|
            from <= k < end - 1 ==> 48 <= (#[trigger] raw[k]) <= 57 || 65 <= raw[k] <= 70 || 97
                <= raw[k] <= 102,
    ensures
        hex_string_end(raw, from) == Some(end),
    decreases end - from,
{
    if from < end - 1 {
        assert(is_hex_digit(raw[from]));
        lemma_hex_read(raw, from + 1, end);
    }
}

proof fn lemma_plain_read(raw: Seq<u8>, from: int, end: int)
    requires
        0 <= from < end <= raw.len(),
        raw[end - 1] == 41,
        forall|k: int|
            from <= k < end - 1 ==> (#[trigger] raw[k]) != 40 && raw[k] != 41 && raw[k] != 92,
    ensures
        literal_string_end(raw, from, 1) == Some(end),
    decreases end - from,
{
    if from < end - 1 {
        assert(raw[from] != 40 && raw[from] != 41 && raw[from] != 92);
        lemma_plain_read(raw, from + 1, end);
    }
}

proof fn lemma_string_read(raw: Seq<u8>, from: int, end: int)
    requires
        0 <= from < end <= raw.len(),
        is_hex_string(raw.subrange(from, end)) || is_plain_string(raw.subrange(from, end)),
    ensures
        string_end(raw, from) == Some(end),
{
    let text = raw.subrange(from, end);
    assert(text[0] == raw[from]);
    assert(text.last() == raw[end - 1]);
    assert forall|k: int| from < k < end - 1 implies #[trigger] raw[k] == text[k - from] by {}
    if is_hex_string(text) {
        if from + 1 < end - 1 {
            assert(raw[from + 1] == text[1]);
        }
        lemma_hex_read(raw, from + 1, end);
    } else {
        lemma_plain_read(raw, from + 1, end);
    }
}

/// The first ID of two strings between brackets is found as it stands, whatever
/// white space is around them.
#[verifier::spinoff_prover]
#[verifier::rlimit(60)]
pub proof fn law_first_id_is_found(
    before: Seq<u8>,
    inside: Seq<u8>,
    one: Seq<u8>,
    between: Seq<u8>,
    other: Seq<u8>,
    behind: Seq<u8>,
    after: Seq<u8>,
)
    requires
        is_blank(before),
        is_blank(inside),
        is_hex_string(one) || is_plain_string(one),
        is_blank(between),
        is_hex_string(other) || is_plain_string(other),
        is_blank(behind),
        is_blank(after),
    ensures
        ({
            let raw = before + seq![91u8] + inside + one + between + other + behind + seq![93u8]
                + after;
            first_id_span(raw) matches Some((start, end)) && raw.subrange(start, end) == one
        }),
{
    let raw = before + seq![91u8] + inside + one + between + other + behind + seq![93u8] + after;
    let a = before.len() as int;
    let b = a + 1 + inside.len();
    let c = b + one.len();
    let d = c + between.len();
    let e = d + other.len();
    let f = e + behind.len();
    assert(raw.subrange(0, a) =~= before);
    assert(raw.subrange(a + 1, b) =~= inside);
    assert(raw.subrange(b, c) =~= one);
    assert(raw.subrange(c, d) =~= between);
    assert(raw.subrange(d, e) =~= other);
    assert(raw.subrange(e, f) =~= behind);
    assert(raw.subrange(f + 1, raw.len() as int) =~= after);
    assert(raw[a] == 91 && raw[f] == 93 && raw[b] == one[0] && raw[d] == other[0]);
    lemma_blank_skipped(raw, 0, a);
    lemma_blank_skipped(raw, a + 1, b);
    lemma_string_read(raw, b, c);
    lemma_blank_skipped(raw, c, d);
    lemma_string_read(raw, d, e);
    lemma_blank_skipped(raw, e, f);
    lemma_blank_skipped(raw, f + 1, raw.len() as int);
}

/// Whether bytes have no parenthesis and no backslash.
pub open spec fn is_plain(bytes: Seq<u8>) -> bool {
    forall|k: int|
        0 <= k < bytes.len() ==> (#[trigger] bytes[k]) != 40 && bytes[k] != 41 && bytes[k] != 92
}

proof fn lemma_plain_skipped(raw: Seq<u8>, from: int, to: int, depth: int)
    requires
        0 <= from <= to <= raw.len(),
        is_plain(raw.subrange(from, to)),
    ensures
        literal_string_end(raw, from, depth) == literal_string_end(raw, to, depth),
    decreases to - from,
{
    if from < to {
        assert(raw.subrange(from, to)[0] == raw[from]);
        assert forall|k: int| 0 <= k < to - from - 1 implies (
        #[trigger] raw.subrange(from + 1, to)[k]) == raw.subrange(from, to)[k + 1] by {}
        lemma_plain_skipped(raw, from + 1, to, depth);
    }
}

/// A string ends at the parenthesis that closes it: one inside it that is opened
/// and closed does not, whatever follows.
pub proof fn law_strings_nest(a: Seq<u8>, b: Seq<u8>, c: Seq<u8>, rest: Seq<u8>)
    requires
        is_plain(a),
        is_plain(b),
        is_plain(c),
    ensures
        string_end(
            seq![40u8] + a + seq![40u8] + b + seq![41u8] + c + seq![41u8] + rest,
            0,
        ) == Some((a.len() + b.len() + c.len() + 4) as int),
{
    let raw = seq![40u8] + a + seq![40u8] + b + seq![41u8] + c + seq![41u8] + rest;
    let x = 1 + a.len() as int;
    let y = x + 1 + b.len();
    let z = y + 1 + c.len();
    assert(raw.subrange(1, x) =~= a);
    assert(raw.subrange(x + 1, y) =~= b);
    assert(raw.subrange(y + 1, z) =~= c);
    assert(raw[0] == 40 && raw[x] == 40 && raw[y] == 41 && raw[z] == 41);
    lemma_plain_skipped(raw, 1, x, 1);
    lemma_plain_skipped(raw, x + 1, y, 2);
    lemma_plain_skipped(raw, y + 1, z, 1);
    assert(literal_string_end(raw, z, 1) == Some(z + 1));
    assert(literal_string_end(raw, y, 2) == literal_string_end(raw, y + 1, 1));
    assert(literal_string_end(raw, x, 1) == literal_string_end(raw, x + 1, 2));
}

/// A byte after a backslash is part of its string, whatever it is.
pub proof fn law_escaped_bytes_end_nothing(a: Seq<u8>, byte: u8, c: Seq<u8>, rest: Seq<u8>)
    requires
        is_plain(a),
        is_plain(c),
    ensures
        string_end(seq![40u8] + a + seq![92u8, byte] + c + seq![41u8] + rest, 0) == Some(
            (a.len() + c.len() + 4) as int,
        ),
{
    let raw = seq![40u8] + a + seq![92u8, byte] + c + seq![41u8] + rest;
    let x = 1 + a.len() as int;
    let z = x + 2 + c.len();
    assert(raw.subrange(1, x) =~= a);
    assert(raw.subrange(x + 2, z) =~= c);
    assert(raw[0] == 40 && raw[x] == 92 && raw[z] == 41);
    lemma_plain_skipped(raw, 1, x, 1);
    lemma_plain_skipped(raw, x + 2, z, 1);
    assert(literal_string_end(raw, z, 1) == Some(z + 1));
    assert(literal_string_end(raw, x, 1) == literal_string_end(raw, x + 2, 1));
}

proof fn lemma_comment_skipped(raw: Seq<u8>, from: int, to: int)
    requires
        0 <= from <= to < raw.len(),
        raw[to] == 10 || raw[to] == 13,
        forall|k: int| from <= k < to ==> (#[trigger] raw[k]) != 10 && raw[k] != 13,
    ensures
        space_end(raw, from, true) == space_end(raw, to + 1, false),
    decreases to - from,
{
    if from < to {
        assert(raw[from] != 10 && raw[from] != 13);
        lemma_comment_skipped(raw, from + 1, to);
    }
}

/// A comment is passed over up to the end of its line.
pub proof fn law_comments_are_passed_over(raw: Seq<u8>, from: int, to: int)
    requires
        0 <= from < to < raw.len(),
        raw[from] == 37,
        raw[to] == 10 || raw[to] == 13,
        forall|k: int| from < k < to ==> (#[trigger] raw[k]) != 10 && raw[k] != 13,
    ensures
        space_end(raw, from, false) == space_end(raw, to + 1, false),
{
    lemma_comment_skipped(raw, from + 1, to);
}

proof fn lemma_hex_ends(raw: Seq<u8>, at: int)
    requires
        0 <= at,
    ensures
        hex_string_end(raw, at) matches Some(end) ==> at < end <= raw.len() && raw[end - 1] == 62
            && forall|k: int| at <= k < end - 1 ==> #[trigger] raw[k] != 62,
    decreases raw.len() - at,
{
    if at < raw.len() && raw[at] != 62 {
        lemma_hex_ends(raw, at + 1);
    }
}

proof fn lemma_literal_ends(raw: Seq<u8>, at: int, depth: int)
    requires
        0 <= at,
    ensures
        literal_string_end(raw, at, depth) matches Some(end) ==> at < end <= raw.len() && raw[end
            - 1] == 41,
    decreases raw.len() - at,
{
    if at < raw.len() {
        if raw[at] == 92 {
            if at + 1 < raw.len() {
                lemma_literal_ends(raw, at + 2, depth);
            }
        } else if raw[at] == 40 {
            lemma_literal_ends(raw, at + 1, depth + 1);
        } else if raw[at] == 41 && depth != 1 {
            lemma_literal_ends(raw, at + 1, depth - 1);
        } else {
            lemma_literal_ends(raw, at + 1, depth);
        }
    }
}

proof fn lemma_space_forward(raw: Seq<u8>, from: int, in_comment: bool)
    requires
        0 <= from <= raw.len(),
    ensures
        from <= space_end(raw, from, in_comment) <= raw.len(),
    decreases raw.len() - from,
{
    if from < raw.len() {
        if in_comment {
            lemma_space_forward(raw, from + 1, raw[from] != 10 && raw[from] != 13);
        } else {
            lemma_space_forward(raw, from + 1, false);
            lemma_space_forward(raw, from + 1, true);
        }
    }
}

/// Any first ID that is found is a string in its delimiters, inside an array.
pub proof fn law_first_id_is_a_string(raw: Seq<u8>)
    ensures
        first_id_span(raw) matches Some((start, end)) ==> {
            &&& 0 < start
            &&& start + 2 <= end < raw.len()
            &&& raw[start] == 60 && raw[end - 1] == 62 || raw[start] == 40 && raw[end - 1] == 41
            &&& raw[start] == 60 ==> raw[start + 1] != 60
            &&& exists|open: int| 0 <= open < start && #[trigger] raw[open] == 91
            &&& exists|close: int| end < close < raw.len() && #[trigger] raw[close] == 93
        },
{
    if let Some((start, end)) = first_id_span(raw) {
        let open = space_end(raw, 0, false);
        lemma_space_forward(raw, 0, false);
        lemma_space_forward(raw, open + 1, false);
        lemma_hex_ends(raw, start + 1);
        lemma_literal_ends(raw, start + 1, 1);
        lemma_space_forward(raw, end, false);
        let second = space_end(raw, end, false);
        lemma_hex_ends(raw, second + 1);
        lemma_literal_ends(raw, second + 1, 1);
        let second_end = string_end(raw, second)->0;
        lemma_space_forward(raw, second_end, false);
        let close = space_end(raw, second_end, false);
        assert(raw[open] == 91);
        assert(raw[close] == 93);
    }
}

/// The hash of more bytes takes in each of them in turn, as 128-bit FNV-1a does,
/// and that of none changes nothing.
pub proof fn law_fnv128_takes_in_each_byte(hash: u128, bytes: Seq<u8>, byte: u8)
    ensures
        fnv128_of(hash, Seq::empty()) == hash,
        fnv128_of(hash, bytes.push(byte)) == ((fnv128_of(hash, bytes) ^ (byte as u128))
            * 0x1000000000000000000013b) % 0x1_0000_0000_0000_0000_0000_0000_0000_0000int,
{
    let more = bytes.push(byte);
    assert(more.drop_last() =~= bytes);
    assert(more.last() == byte);
    let value = (fnv128_of(hash, bytes) ^ (byte as u128)) * FNV128_PRIME;
    assert(FNV128_PRIME == 0x1000000000000000000013b);
    assert(0 <= value % (u128::MAX + 1) <= u128::MAX);
}

/// The hash of an update starts from the document's ID, where it has one, and
/// from the length of what was copied, in eight bytes with the lowest first.
pub proof fn law_update_hash_starts_from_the_copy(id: Seq<u8>, copied: u64, length: Seq<u8>)
    requires
        length.len() == 8,
        copied == length[0] + 0x100 * length[1] + 0x1_0000 * length[2] + 0x100_0000 * length[3]
            + 0x1_0000_0000 * length[4] + 0x100_0000_0000 * length[5] + 0x1_0000_0000_0000
            * length[6] + 0x100_0000_0000_0000 * length[7],
    ensures
        update_hash_start(None, copied as nat) == fnv128_of(
            0x6c62272e07bb014262b821756295c58d,
            length,
        ),
        update_hash_start(Some(id), copied as nat) == fnv128_of(
            fnv128_of(0x6c62272e07bb014262b821756295c58d, id),
            length,
        ),
{
    lemma_lowest_first(length, 8);
    assert(low_value(length) == copied) by {
        lemma_low_value_8(length);
    }
    assert(FNV128_BASIS == 0x6c62272e07bb014262b821756295c58d);
}

/// The number that bytes stand for, the lowest first.
spec fn low_value(bytes: Seq<u8>) -> nat
    decreases bytes.len(),
{
    if bytes.len() == 0 {
        0
    } else {
        bytes[0] as nat + 256 * low_value(bytes.skip(1))
    }
}

proof fn lemma_lowest_first(bytes: Seq<u8>, width: nat)
    requires
        bytes.len() == width,
    ensures
        little_endian_bytes(low_value(bytes), width) == bytes,
    decreases width,
{
    if width > 0 {
        let rest = bytes.skip(1);
        lemma_lowest_first(rest, (width - 1) as nat);
        let value = low_value(bytes);
        assert(value % 256 == bytes[0] && value / 256 == low_value(rest));
        assert(little_endian_bytes(value, width) =~= bytes);
    } else {
        assert(little_endian_bytes(low_value(bytes), width) =~= bytes);
    }
}

proof fn lemma_low_value_8(b: Seq<u8>)
    requires
        b.len() == 8,
    ensures
        low_value(b) == b[0] + 0x100 * b[1] + 0x1_0000 * b[2] + 0x100_0000 * b[3] + 0x1_0000_0000
            * b[4] + 0x100_0000_0000 * b[5] + 0x1_0000_0000_0000 * b[6] + 0x100_0000_0000_0000
            * b[7],
{
    lemma_low_step(b, 0);
    lemma_low_step(b, 1);
    lemma_low_step(b, 2);
    lemma_low_step(b, 3);
    lemma_low_step(b, 4);
    lemma_low_step(b, 5);
    lemma_low_step(b, 6);
    lemma_low_step(b, 7);
    assert(b.skip(0) =~= b);
    assert(low_value(b.skip(8)) == 0);
}

proof fn lemma_low_step(b: Seq<u8>, k: int)
    requires
        0 <= k < b.len(),
    ensures
        low_value(b.skip(k)) == b[k] + 256 * low_value(b.skip(k + 1)),
{
    assert(b.skip(k).skip(1) =~= b.skip(k + 1));
}

} // verus!

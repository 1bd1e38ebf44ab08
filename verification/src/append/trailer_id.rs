//! The document identifiers in a trailer.

use vstd::prelude::*;
use crate::types::{Error, PdfErrorKind};

verus! {

// The second document ID is a content-derived version marker, not a signature
// or cryptographic digest. The first ID is retained exactly as supplied.
pub const FNV128_BASIS: u128 = 0x6c62272e07bb014262b821756295c58d;

pub const FNV128_PRIME: u128 = 0x0000000001000000000000000000013b;

/// The hash after one more byte.
pub open spec fn fnv128_step(hash: u128, byte: u8) -> u128 {
    (((hash ^ (byte as u128)) * FNV128_PRIME) % (u128::MAX + 1)) as u128
}

/// The hash after more bytes.
pub open spec fn fnv128_of(hash: u128, bytes: Seq<u8>) -> u128
    decreases bytes.len(),
{
    if bytes.len() == 0 {
        hash
    } else {
        fnv128_step(fnv128_of(hash, bytes.drop_last()), bytes.last())
    }
}

/// Continue the 128-bit FNV-1a hash of a byte sequence.
pub fn fnv128(hash: u128, bytes: &[u8]) -> (hashed: u128)
    ensures
        hashed == fnv128_of(hash, bytes@),
{
    let mut hashed: u128 = hash;
    let mut next: usize = 0;
    assert(bytes@.take(0) =~= Seq::<u8>::empty());
    while next < bytes.len()
        invariant
            next <= bytes@.len(),
            hashed == fnv128_of(hash, bytes@.take(next as int)),
        decreases bytes@.len() - next,
    {
        let ghost seen = bytes@.take(next + 1);
        assert(seen.drop_last() =~= bytes@.take(next as int));
        assert(seen.last() == bytes@[next as int]);
        let mixed: u128 = hashed ^ (bytes[next] as u128);
        hashed = mixed.wrapping_mul(FNV128_PRIME);
        next += 1;
    }
    assert(bytes@.take(next as int) =~= bytes@);
    hashed
}

/// Hashing in pieces is hashing at once.
pub proof fn law_fnv128_in_pieces(hash: u128, first: Seq<u8>, second: Seq<u8>)
    ensures
        fnv128_of(fnv128_of(hash, first), second) == fnv128_of(hash, first + second),
    decreases second.len(),
{
    if second.len() == 0 {
        assert(first + second =~= first);
    } else {
        law_fnv128_in_pieces(hash, first, second.drop_last());
        assert((first + second).drop_last() =~= first + second.drop_last());
        assert((first + second).last() == second.last());
    }
}

/// Whether a byte is PDF white space.
pub open spec fn is_pdf_space(byte: u8) -> bool {
    byte == 0 || byte == 9 || byte == 10 || byte == 12 || byte == 13 || byte == 32
}

fn is_space(byte: u8) -> (space: bool)
    ensures
        space == is_pdf_space(byte),
{
    byte == 0 || byte == 9 || byte == 10 || byte == 12 || byte == 13 || byte == 32
}

/// Whether a byte is a hexadecimal digit.
pub open spec fn is_hex_digit(byte: u8) -> bool {
    48 <= byte <= 57 || 65 <= byte <= 70 || 97 <= byte <= 102
}

/// Where white space and comments end. A comment runs from `%` to the end of
/// its line.
pub open spec fn space_end(raw: Seq<u8>, from: int, in_comment: bool) -> int
    decreases raw.len() - from,
{
    if from >= raw.len() {
        from
    } else if in_comment {
        space_end(raw, from + 1, raw[from] != 10 && raw[from] != 13)
    } else if is_pdf_space(raw[from]) {
        space_end(raw, from + 1, false)
    } else if raw[from] == 37 {
        space_end(raw, from + 1, true)
    } else {
        from
    }
}

/// Move past white space and comments.
fn skip_pdf_space(raw: &[u8], cursor: &mut usize)
    requires
        *old(cursor) <= raw@.len(),
    ensures
        *final(cursor) == space_end(raw@, *old(cursor) as int, false),
        *old(cursor) <= *final(cursor) <= raw@.len(),
{
    let mut in_comment: bool = false;
    while *cursor < raw.len()
        invariant
            *old(cursor) <= *cursor <= raw@.len(),
            space_end(raw@, *old(cursor) as int, false) == space_end(
                raw@,
                *cursor as int,
                in_comment,
            ),
        decreases raw@.len() - *cursor,
    {
        let byte: u8 = raw[*cursor];
        if in_comment {
            in_comment = byte != 10 && byte != 13;
        } else if byte == 37 {
            in_comment = true;
        } else if !is_space(byte) {
            return;
        }
        *cursor += 1;
    }
}

/// Where a hexadecimal string ends whose digits stand at `at`.
pub open spec fn hex_string_end(raw: Seq<u8>, at: int) -> Option<int>
    decreases raw.len() - at,
{
    if at >= raw.len() {
        None
    } else if raw[at] == 62 {
        Some(at + 1)
    } else if is_hex_digit(raw[at]) || is_pdf_space(raw[at]) {
        hex_string_end(raw, at + 1)
    } else {
        None
    }
}

/// Where a literal string ends that has `depth` open parentheses at `at`.
pub open spec fn literal_string_end(raw: Seq<u8>, at: int, depth: int) -> Option<int>
    decreases raw.len() - at,
{
    if at >= raw.len() {
        None
    } else if raw[at] == 92 {
        if at + 1 >= raw.len() {
            None
        } else {
            literal_string_end(raw, at + 2, depth)
        }
    } else if raw[at] == 40 {
        if depth == u32::MAX {
            None
        } else {
            literal_string_end(raw, at + 1, depth + 1)
        }
    } else if raw[at] == 41 {
        if depth == 1 {
            Some(at + 1)
        } else {
            literal_string_end(raw, at + 1, depth - 1)
        }
    } else {
        literal_string_end(raw, at + 1, depth)
    }
}

/// Where the string that starts at `from` ends.
pub open spec fn string_end(raw: Seq<u8>, from: int) -> Option<int> {
    if from >= raw.len() {
        None
    } else if raw[from] == 60 && !(from + 1 < raw.len() && raw[from + 1] == 60) {
        hex_string_end(raw, from + 1)
    } else if raw[from] == 40 {
        literal_string_end(raw, from + 1, 1)
    } else {
        None
    }
}

fn skip_hex_string(raw: &[u8], cursor: &mut usize) -> (skipped: Option<()>)
    requires
        *old(cursor) <= raw@.len(),
    ensures
        match hex_string_end(raw@, *old(cursor) as int) {
            Some(end) => skipped is Some && *final(cursor) == end && *old(cursor) < end
                <= raw@.len(),
            None => skipped is None,
        },
{
    while *cursor < raw.len()
        invariant
            *old(cursor) <= *cursor <= raw@.len(),
            hex_string_end(raw@, *old(cursor) as int) == hex_string_end(raw@, *cursor as int),
        decreases raw@.len() - *cursor,
    {
        let byte: u8 = raw[*cursor];
        *cursor += 1;
        if byte == 62 {
            return Some(());
        }
        let is_hex: bool = 48 <= byte && byte <= 57 || 65 <= byte && byte <= 70 || 97 <= byte
            && byte <= 102;
        if !is_hex && !is_space(byte) {
            return None;
        }
    }
    None
}

fn skip_literal_string(raw: &[u8], cursor: &mut usize) -> (skipped: Option<()>)
    requires
        *old(cursor) <= raw@.len(),
    ensures
        match literal_string_end(raw@, *old(cursor) as int, 1) {
            Some(end) => skipped is Some && *final(cursor) == end && *old(cursor) < end
                <= raw@.len(),
            None => skipped is None,
        },
{
    let mut depth: u32 = 1;
    while *cursor < raw.len()
        invariant
            *old(cursor) <= *cursor <= raw@.len(),
            depth >= 1,
            literal_string_end(raw@, *old(cursor) as int, 1) == literal_string_end(
                raw@,
                *cursor as int,
                depth as int,
            ),
        decreases raw@.len() - *cursor,
    {
        let byte: u8 = raw[*cursor];
        *cursor += 1;
        if byte == 92 {
            if *cursor >= raw.len() {
                return None;
            }
            *cursor += 1;
        } else if byte == 40 {
            if depth == u32::MAX {
                return None;
            }
            depth += 1;
        } else if byte == 41 {
            depth -= 1;
            if depth == 0 {
                return Some(());
            }
        }
    }
    None
}

/// Move past one string.
fn skip_pdf_string(raw: &[u8], cursor: &mut usize) -> (skipped: Option<()>)
    requires
        *old(cursor) <= raw@.len(),
    ensures
        match string_end(raw@, *old(cursor) as int) {
            Some(end) => skipped is Some && *final(cursor) == end && *old(cursor) < end
                <= raw@.len(),
            None => skipped is None,
        },
{
    if *cursor >= raw.len() {
        return None;
    }
    let first: u8 = raw[*cursor];
    let doubled: bool = raw.len() - *cursor > 1 && raw[*cursor + 1] == 60;
    if first == 60 && !doubled {
        *cursor += 1;
        skip_hex_string(raw, cursor)
    } else if first == 40 {
        *cursor += 1;
        skip_literal_string(raw, cursor)
    } else {
        None
    }
}

/// The first of the two strings of a direct ID array, if it is one.
pub open spec fn first_id_span(raw: Seq<u8>) -> Option<(int, int)> {
    let open = space_end(raw, 0, false);
    if !(open < raw.len() && raw[open] == 91) {
        None
    } else {
        let start = space_end(raw, open + 1, false);
        match string_end(raw, start) {
            None => None,
            Some(end) => match string_end(raw, space_end(raw, end, false)) {
                None => None,
                Some(second_end) => {
                    let close = space_end(raw, second_end, false);
                    if close < raw.len() && raw[close] == 93 && space_end(raw, close + 1, false)
                        == raw.len() {
                        Some((start, end))
                    } else {
                        None
                    }
                },
            },
        }
    }
}

/// The error for an ID that is not a direct array of two strings.
#[verifier::allow_in_spec]
pub fn unsupported_id(offset: u64) -> Error
    returns
        (Error::Pdf {
            offset,
            object: None,
            kind: PdfErrorKind::UnsupportedFeature,
            reason: "unsupported PDF trailer ID syntax",
        }),
{
    Error::Pdf {
        offset,
        object: None,
        kind: PdfErrorKind::UnsupportedFeature,
        reason: "unsupported PDF trailer ID syntax",
    }
}

/// The first string of a direct ID array, with its delimiters.
pub fn first_id_string(raw: &[u8], offset: u64) -> (first: Result<&[u8], Error>)
    ensures
        match first_id_span(raw@) {
            Some((start, end)) => {
                &&& 0 <= start < end <= raw@.len()
                &&& first is Ok
                &&& first->Ok_0@ == raw@.subrange(start, end)
            },
            None => first is Err && first->Err_0 == unsupported_id(offset),
        },
{
    let mut cursor: usize = 0;
    skip_pdf_space(raw, &mut cursor);
    if cursor >= raw.len() || raw[cursor] != 91 {
        return Err(unsupported_id(offset));
    }
    cursor += 1;
    skip_pdf_space(raw, &mut cursor);
    let start: usize = cursor;
    if skip_pdf_string(raw, &mut cursor).is_none() {
        return Err(unsupported_id(offset));
    }
    let end: usize = cursor;
    skip_pdf_space(raw, &mut cursor);
    if skip_pdf_string(raw, &mut cursor).is_none() {
        return Err(unsupported_id(offset));
    }
    skip_pdf_space(raw, &mut cursor);
    if cursor >= raw.len() || raw[cursor] != 93 {
        return Err(unsupported_id(offset));
    }
    cursor += 1;
    skip_pdf_space(raw, &mut cursor);
    if cursor != raw.len() {
        return Err(unsupported_id(offset));
    }
    Ok(&raw[start..end])
}

} // verus!

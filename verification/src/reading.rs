//! What a reader finds in text that was written.

use vstd::prelude::*;
use crate::text::{decimal, law_decimal_reads_back, spelled};
use crate::types::PdfRef;

verus! {

/// Whether a text holds a part at a position.
pub open spec fn holds_at(text: Seq<u8>, part: Seq<u8>, at: int) -> bool {
    &&& 0 <= at
    &&& at + part.len() <= text.len()
    &&& text.subrange(at, at + part.len()) == part
}

/// Whether a text holds a part somewhere.
pub open spec fn holds(text: Seq<u8>, part: Seq<u8>) -> bool {
    exists|at: int| holds_at(text, part, at)
}

/// Whether a byte occurs nowhere in a text.
#[verifier::opaque]
pub open spec fn lacks(text: Seq<u8>, byte: u8) -> bool {
    forall|i: int| 0 <= i < text.len() ==> (#[trigger] text[i]) != byte
}

/// Whether a byte occurs in a text at one position and nowhere else.
#[verifier::opaque]
pub open spec fn only_at(text: Seq<u8>, i: int, byte: u8) -> bool {
    &&& 0 <= i < text.len()
    &&& text[i] == byte
    &&& forall|j: int| 0 <= j < text.len() && j != i ==> (#[trigger] text[j]) != byte
}

/// Whether a byte is a decimal digit.
pub open spec fn is_digit(byte: u8) -> bool {
    48 <= byte <= 57
}

/// The bytes of an ASCII literal are its characters.
pub proof fn lemma_ascii(text: &str)
    requires
        vstd::string::is_ascii(text),
    ensures
        spelled(text).len() == text@.len(),
        forall|i: int|
            0 <= i < text@.len() ==> (#[trigger] spelled(text)[i]) == text@[i] as u8,
{
    vstd::string::is_ascii_spec_bytes(text);
}

/// A text holds what it is made of.
pub proof fn lemma_holds(left: Seq<u8>, part: Seq<u8>, right: Seq<u8>)
    ensures
        holds_at(left + part + right, part, left.len() as int),
        holds(left + part + right, part),
{
    let text = left + part + right;
    assert(text.subrange(left.len() as int, left.len() as int + part.len()) =~= part);
    assert(holds_at(text, part, left.len() as int));
}

/// A text without a byte holds no part that has it.
pub proof fn lemma_lacking(text: Seq<u8>, part: Seq<u8>, i: int, byte: u8)
    requires
        lacks(text, byte),
        0 <= i < part.len(),
        part[i] == byte,
    ensures
        !holds(text, part),
{
    reveal(lacks);
    assert forall|at: int| !holds_at(text, part, at) by {
        if holds_at(text, part, at) {
            assert(text.subrange(at, at + part.len())[i] == text[at + i]);
        }
    }
}

/// A number is spelled in digits.
pub proof fn lemma_digits(value: nat)
    ensures
        decimal(value).len() > 0,
        forall|i: int| 0 <= i < decimal(value).len() ==> is_digit(#[trigger] decimal(value)[i]),
    decreases value,
{
    if value >= 10 {
        lemma_digits(value / 10);
        let digits = decimal(value);
        assert forall|i: int| 0 <= i < digits.len() implies is_digit(#[trigger] digits[i]) by {
            if i < digits.len() - 1 {
                assert(digits[i] == decimal(value / 10)[i]);
            }
        }
    }
}

/// A number has no byte that is not a digit.
pub proof fn lemma_number_lacks(value: nat, byte: u8)
    requires
        !is_digit(byte),
    ensures
        lacks(decimal(value), byte),
{
    reveal(lacks);
    lemma_digits(value);
}

/// Nothing has no byte.
pub proof fn lemma_nothing_lacks(byte: u8)
    ensures
        lacks(Seq::empty(), byte),
{
    reveal(lacks);
}

/// What two texts lack, both together lack.
pub proof fn lemma_both_lack(one: Seq<u8>, other: Seq<u8>, byte: u8)
    requires
        lacks(one, byte),
        lacks(other, byte),
    ensures
        lacks(one + other, byte),
{
    reveal(lacks);
    let both = one + other;
    assert forall|i: int| 0 <= i < both.len() implies (#[trigger] both[i]) != byte by {
        if i < one.len() {
            assert(both[i] == one[i]);
        } else {
            assert(both[i] == other[i - one.len()]);
        }
    }
}

/// A text without a byte of a key holds nothing under that key.
pub proof fn lemma_no_number(text: Seq<u8>, key: Seq<u8>, rest: Seq<u8>, i: int, byte: u8)
    requires
        lacks(text, byte),
        only_at(key, i, byte),
    ensures
        !holds(text, key + rest),
{
    reveal(only_at);
    assert((key + rest)[i] == byte);
    lemma_lacking(text, key + rest, i, byte);
}

/// A number that something other than a digit follows is read as itself.
pub proof fn lemma_number_ends(one: nat, end: Seq<u8>, other: nat, tail: Seq<u8>)
    requires
        (decimal(one) + end).is_prefix_of(decimal(other) + tail),
        end.len() > 0,
        !is_digit(end[0]),
        tail.len() > 0,
        !is_digit(tail[0]),
    ensures
        one == other,
        end.is_prefix_of(tail),
{
    lemma_digits(one);
    lemma_digits(other);
    let left = decimal(one) + end;
    let right = decimal(other) + tail;
    let shown = decimal(one).len() as int;
    let wanted = decimal(other).len() as int;
    assert(left =~= right.take(left.len() as int));
    if shown < wanted {
        assert(left[shown] == end[0]);
        assert(right[shown] == decimal(other)[shown]);
        assert(false);
    }
    if wanted < shown {
        assert(left[wanted] == decimal(one)[wanted]);
        assert(right[wanted] == tail[0]);
        assert(false);
    }
    assert(decimal(one) =~= left.take(shown));
    assert(decimal(other) =~= right.take(shown));
    assert(decimal(one) =~= decimal(other));
    law_decimal_reads_back(one);
    law_decimal_reads_back(other);
    assert(end =~= left.skip(shown));
    assert(tail.take(end.len() as int) =~= end);
}

/// A number under a key whose byte `byte` occurs nowhere else is the only
/// number under that key.
pub proof fn lemma_one_number(
    left: Seq<u8>,
    key: Seq<u8>,
    value: nat,
    right: Seq<u8>,
    end: Seq<u8>,
    i: int,
    byte: u8,
    read: nat,
)
    requires
        lacks(left, byte),
        lacks(right, byte),
        only_at(key, i, byte),
        !is_digit(byte),
        end.len() > 0,
        !is_digit(end[0]),
        end.is_prefix_of(right),
    ensures
        holds(left + key + decimal(value) + right, key + decimal(read) + end) <==> read == value,
{
    reveal(lacks);
    reveal(only_at);
    let text = left + key + decimal(value) + right;
    let part = key + decimal(read) + end;
    lemma_digits(value);
    if read == value {
        let tail = right.skip(end.len() as int);
        assert(right =~= end + tail) by {
            assert(end =~= right.take(end.len() as int));
        }
        assert(text =~= left + part + tail);
        lemma_holds(left, part, tail);
    }
    if holds(text, part) {
        let at = choose|at: int| holds_at(text, part, at);
        assert(part[i] == byte);
        assert(text.subrange(at, at + part.len())[i] == text[at + i]);
        let place = at + i;
        let start = left.len() as int;
        let digits = start + key.len();
        let after = digits + decimal(value).len();
        assert(place == start + i) by {
            if place < start {
                assert(text[place] == left[place]);
            } else if place < digits {
                assert(text[place] == key[place - start]);
            } else if place < after {
                assert(text[place] == decimal(value)[place - digits]);
            } else {
                assert(text[place] == right[place - after]);
            }
        }
        let seen = decimal(read) + end;
        let there = decimal(value) + right;
        assert(text.skip(digits) =~= there);
        assert(part.skip(key.len() as int) =~= seen);
        assert(seen =~= there.take(seen.len() as int)) by {
            assert forall|k: int| 0 <= k < seen.len() implies seen[k] == there[k] by {
                assert(part[key.len() + k] == seen[k]);
                assert(text.subrange(at, at + part.len())[key.len() + k] == text[digits + k]);
                assert(text.skip(digits)[k] == text[digits + k]);
            }
        }
        lemma_number_ends(read, end, value, right);
    }
}

/// A number that stands first after a known text is the only one there.
pub proof fn lemma_first_number(key: Seq<u8>, value: nat, right: Seq<u8>, end: Seq<u8>, read: nat)
    requires
        end.len() > 0,
        !is_digit(end[0]),
        end.is_prefix_of(right),
    ensures
        (key + decimal(read) + end).is_prefix_of(key + decimal(value) + right) <==> read == value,
{
    let text = key + decimal(value) + right;
    let part = key + decimal(read) + end;
    if read == value {
        assert(end =~= right.take(end.len() as int));
        assert(part =~= text.take(part.len() as int));
    }
    if part.is_prefix_of(text) {
        let seen = decimal(read) + end;
        let there = decimal(value) + right;
        assert(part =~= text.take(part.len() as int));
        assert(text.skip(key.len() as int) =~= there);
        assert(seen =~= there.take(seen.len() as int)) by {
            assert forall|k: int| 0 <= k < seen.len() implies seen[k] == there[k] by {
                assert(part[key.len() + k] == seen[k]);
                assert(text[key.len() + k] == there[k]);
            }
        }
        lemma_number_ends(read, end, value, right);
    }
}

/// Whether a text names an object under a key: `key n 0 R`.
pub open spec fn names(text: Seq<u8>, key: &str, number: nat) -> bool {
    holds(text, spelled(key) + decimal(number) + spelled(" 0 R"))
}

/// A number under a key, if there is one.
pub open spec fn under(key: Seq<u8>, value: Option<nat>, end: Seq<u8>) -> Seq<u8> {
    match value {
        Some(value) => key + decimal(value) + end,
        None => Seq::empty(),
    }
}

/// A key that an optional number stands under has that number and no other.
pub proof fn lemma_under(
    left: Seq<u8>,
    key: Seq<u8>,
    value: Option<nat>,
    end: Seq<u8>,
    right: Seq<u8>,
    i: int,
    byte: u8,
    read: nat,
)
    requires
        lacks(left, byte),
        lacks(end, byte),
        lacks(right, byte),
        only_at(key, i, byte),
        !is_digit(byte),
        end.len() > 0,
        !is_digit(end[0]),
    ensures
        holds(left + under(key, value, end) + right, key + decimal(read) + end) <==> value == Some(
            read,
        ),
{
    match value {
        Some(number) => {
            let tail = end + right;
            lemma_both_lack(end, right, byte);
            assert(left + under(key, value, end) + right =~= left + key + decimal(number) + tail);
            assert(end =~= tail.take(end.len() as int));
            lemma_one_number(left, key, number, tail, end, i, byte, read);
        },
        None => {
            lemma_both_lack(left, right, byte);
            assert(left + under(key, value, end) + right =~= left + right);
            assert(key + (decimal(read) + end) =~= key + decimal(read) + end);
            lemma_no_number(left + right, key, decimal(read) + end, i, byte);
        },
    }
}

/// A number under a key has no byte that neither has.
pub proof fn lemma_under_lacks(key: Seq<u8>, value: Option<nat>, end: Seq<u8>, byte: u8)
    requires
        lacks(key, byte),
        lacks(end, byte),
        !is_digit(byte),
    ensures
        lacks(under(key, value, end), byte),
{
    match value {
        Some(number) => {
            lemma_number_lacks(number, byte);
            lemma_both_lack(key, decimal(number), byte);
            lemma_both_lack(key + decimal(number), end, byte);
        },
        None => {
            lemma_nothing_lacks(byte);
        },
    }
}

/// A part with a byte that the text has at one place can stand only there.
pub proof fn lemma_marked(
    left: Seq<u8>,
    key: Seq<u8>,
    right: Seq<u8>,
    part: Seq<u8>,
    i: int,
    byte: u8,
)
    requires
        lacks(left, byte),
        lacks(right, byte),
        only_at(key, i, byte),
        i < part.len(),
        part[i] == byte,
    ensures
        holds(left + key + right, part) <==> part.is_prefix_of(key + right),
{
    reveal(lacks);
    reveal(only_at);
    let text = left + key + right;
    let start = left.len() as int;
    if part.is_prefix_of(key + right) {
        assert(part =~= (key + right).take(part.len() as int));
        assert(text.subrange(start, start + part.len()) =~= part);
        assert(holds_at(text, part, start));
    }
    if holds(text, part) {
        let at = choose|at: int| holds_at(text, part, at);
        let place = at + i;
        assert(text.subrange(at, at + part.len())[i] == text[place]);
        assert(place == start + i) by {
            if place < start {
                assert(text[place] == left[place]);
            } else if place < start + key.len() {
                assert(text[place] == key[place - start]);
            } else {
                assert(text[place] == right[place - start - key.len()]);
            }
        }
        assert(part =~= (key + right).take(part.len() as int)) by {
            assert forall|k: int| 0 <= k < part.len() implies part[k] == (key + right)[k] by {
                assert(text.subrange(at, at + part.len())[k] == text[start + k]);
            }
        }
    }
}

/// What a part of a text holds, the text holds.
pub proof fn lemma_holds_within(left: Seq<u8>, middle: Seq<u8>, right: Seq<u8>, part: Seq<u8>)
    requires
        holds(middle, part),
    ensures
        holds(left + middle + right, part),
{
    let at = choose|at: int| holds_at(middle, part, at);
    let text = left + middle + right;
    let place = left.len() + at;
    assert(text.subrange(place, place + part.len()) =~= part) by {
        assert forall|k: int| 0 <= k < part.len() implies text[place + k] == part[k] by {
            assert(middle.subrange(at, at + part.len())[k] == middle[at + k]);
        }
    }
    assert(holds_at(text, part, place));
}

/// An object as it is referred to: `n g R`.
pub open spec fn referred(object: PdfRef) -> Seq<u8> {
    decimal(object.number as nat) + spelled(" ") + decimal(object.generation as nat) + spelled(
        " R",
    )
}

/// How references end.
pub proof fn lemma_reference_words()
    ensures
        spelled(" ").len() == 1,
        spelled(" ")[0] == 32,
        spelled(" R").len() == 2,
        spelled(" R")[0] == 32,
        spelled(" R")[1] == 82,
        forall|byte: u8|
            byte != 32 && byte != 82 ==> #[trigger] lacks(spelled(" R"), byte) && lacks(
                spelled(" "),
                byte,
            ),
{
    reveal_strlit(" ");
    reveal_strlit(" R");
    assert(vstd::string::is_ascii(" "));
    assert(vstd::string::is_ascii(" R"));
    lemma_ascii(" ");
    lemma_ascii(" R");
    reveal(lacks);
}

/// A reference has only digits, spaces and the letter R.
pub proof fn lemma_referred_lacks(object: PdfRef, byte: u8)
    requires
        !is_digit(byte),
        byte != 32,
        byte != 82,
    ensures
        lacks(referred(object), byte),
{
    lemma_reference_words();
    let number = decimal(object.number as nat);
    let generation = decimal(object.generation as nat);
    lemma_number_lacks(object.number as nat, byte);
    lemma_number_lacks(object.generation as nat, byte);
    assert(lacks(spelled(" R"), byte) && lacks(spelled(" "), byte));
    lemma_both_lack(number, spelled(" "), byte);
    lemma_both_lack(number + spelled(" "), generation, byte);
    lemma_both_lack(number + spelled(" ") + generation, spelled(" R"), byte);
}

/// A reference is read as itself.
pub proof fn lemma_reference_ends(one: PdfRef, other: PdfRef, tail: Seq<u8>)
    requires
        referred(one).is_prefix_of(referred(other) + tail),
    ensures
        one == other,
{
    lemma_reference_words();
    let space = spelled(" ");
    let end = spelled(" R");
    let low = decimal(one.generation as nat) + end;
    let high = decimal(other.generation as nat) + end + tail;
    assert(referred(one) =~= decimal(one.number as nat) + (space + low));
    assert(referred(other) + tail =~= decimal(other.number as nat) + (space + high));
    lemma_number_ends(one.number as nat, space + low, other.number as nat, space + high);
    assert(low =~= high.take(low.len() as int)) by {
        assert(space + low =~= (space + high).take((space + low).len() as int));
        assert forall|k: int| 0 <= k < low.len() implies low[k] == high[k] by {
            assert((space + low)[k + 1] == low[k]);
            assert((space + high)[k + 1] == high[k]);
        }
    }
    assert(high =~= decimal(other.generation as nat) + (end + tail));
    lemma_number_ends(one.generation as nat, end, other.generation as nat, end + tail);
}

/// A reference under a key, if there is one.
pub open spec fn linked(key: Seq<u8>, link: Option<PdfRef>) -> Seq<u8> {
    match link {
        Some(link) => key + referred(link),
        None => Seq::empty(),
    }
}

/// A key that an optional reference stands under has that reference and no
/// other.
pub proof fn lemma_linked(
    left: Seq<u8>,
    key: Seq<u8>,
    link: Option<PdfRef>,
    right: Seq<u8>,
    i: int,
    byte: u8,
    read: PdfRef,
)
    requires
        lacks(left, byte),
        lacks(right, byte),
        only_at(key, i, byte),
        !is_digit(byte),
        byte != 32,
        byte != 82,
    ensures
        holds(left + linked(key, link) + right, key + referred(read)) <==> link == Some(read),
{
    reveal(only_at);
    let part = key + referred(read);
    match link {
        Some(object) => {
            let tail = referred(object) + right;
            lemma_referred_lacks(object, byte);
            lemma_both_lack(referred(object), right, byte);
            assert(left + linked(key, link) + right =~= left + key + tail);
            assert(part[i] == byte);
            lemma_marked(left, key, tail, part, i, byte);
            if part.is_prefix_of(key + tail) {
                assert(referred(read) =~= tail.take(referred(read).len() as int)) by {
                    assert(part =~= (key + tail).take(part.len() as int));
                    assert forall|k: int| 0 <= k < referred(read).len() implies referred(read)[k]
                        == tail[k] by {
                        assert(part[key.len() + k] == referred(read)[k]);
                        assert((key + tail)[key.len() + k] == tail[k]);
                    }
                }
                lemma_reference_ends(read, object, right);
            }
            if read == object {
                assert(part =~= (key + tail).take(part.len() as int));
            }
        },
        None => {
            lemma_both_lack(left, right, byte);
            assert(left + linked(key, link) + right =~= left + right);
            lemma_no_number(left + right, key, referred(read), i, byte);
        },
    }
}

/// A reference under a key has no byte that neither has.
pub proof fn lemma_linked_lacks(key: Seq<u8>, link: Option<PdfRef>, byte: u8)
    requires
        lacks(key, byte),
        !is_digit(byte),
        byte != 32,
        byte != 82,
    ensures
        lacks(linked(key, link), byte),
{
    match link {
        Some(object) => {
            lemma_referred_lacks(object, byte);
            lemma_both_lack(key, referred(object), byte);
        },
        None => {
            lemma_nothing_lacks(byte);
        },
    }
}

} // verus!

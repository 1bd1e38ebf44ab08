//! The spellings of numbers and titles in a PDF file.

use vstd::prelude::*;
use vstd::arithmetic::power::pow;
use vstd::string::StringSliceAdditionalSpecFns;
use crate::types::PdfRef;

verus! {

pub const LF: u8 = 10;

pub const CR: u8 = 13;

pub const SPACE: u8 = 32;

/// The bytes of a literal.
pub open spec fn spelled(text: &str) -> Seq<u8> {
    text.spec_bytes()
}

/// The ASCII digit of a value below ten.
pub open spec fn digit(value: nat) -> u8 {
    (48 + value) as u8
}

/// A number in decimal, without leading zeros.
pub open spec fn decimal(value: nat) -> Seq<u8>
    decreases value,
{
    if value < 10 {
        seq![digit(value)]
    } else {
        decimal(value / 10).push(digit(value % 10))
    }
}

/// The last `width` decimal digits of a number, with leading zeros.
pub open spec fn fixed_decimal(value: nat, width: nat) -> Seq<u8>
    decreases width,
{
    if width == 0 {
        Seq::empty()
    } else {
        fixed_decimal(value / 10, (width - 1) as nat).push(digit(value % 10))
    }
}

/// The number that a run of decimal digits spells.
pub open spec fn decimal_value(digits: Seq<u8>) -> int
    decreases digits.len(),
{
    if digits.len() == 0 {
        0
    } else {
        decimal_value(digits.drop_last()) * 10 + (digits.last() - 48)
    }
}

/// Ten to the power of `exponent`.
pub open spec fn ten_to(exponent: nat) -> nat
    decreases exponent,
{
    if exponent == 0 {
        1
    } else {
        10 * ten_to((exponent - 1) as nat)
    }
}

/// The uppercase hexadecimal digit of a value below sixteen.
pub open spec fn hex_digit(value: nat) -> u8 {
    if value < 10 {
        (48 + value) as u8
    } else {
        (55 + value) as u8
    }
}

/// The last `width` uppercase hexadecimal digits of a number.
pub open spec fn fixed_hex(value: nat, width: nat) -> Seq<u8>
    decreases width,
{
    if width == 0 {
        Seq::empty()
    } else {
        fixed_hex(value / 16, (width - 1) as nat).push(hex_digit(value % 16))
    }
}

/// One character as UTF-16 code units: itself, or a surrogate pair.
pub open spec fn utf16_char(character: char) -> Seq<u16> {
    let scalar = character as u32;
    if scalar < 0x1_0000 {
        seq![scalar as u16]
    } else {
        seq![
            (0xD800 + (scalar - 0x1_0000) / 0x400) as u16,
            (0xDC00 + (scalar - 0x1_0000) % 0x400) as u16,
        ]
    }
}

/// A text as UTF-16 code units.
pub open spec fn utf16(text: Seq<char>) -> Seq<u16>
    decreases text.len(),
{
    if text.len() == 0 {
        Seq::empty()
    } else {
        utf16(text.drop_last()) + utf16_char(text.last())
    }
}

/// Code units in hexadecimal, four big-endian digits each.
pub open spec fn hex_units(units: Seq<u16>) -> Seq<u8>
    decreases units.len(),
{
    if units.len() == 0 {
        Seq::empty()
    } else {
        hex_units(units.drop_last()) + fixed_hex(units.last() as nat, 4)
    }
}

/// A title as the hexadecimal digits of a UTF-16 PDF string.
pub open spec fn title_hex(title: Seq<char>) -> Seq<u8> {
    hex_units(utf16(title))
}

/// Append bytes.
pub fn push_bytes(out: &mut Vec<u8>, bytes: &[u8])
    ensures
        final(out)@ == old(out)@ + bytes@,
{
    let ghost before = out@;
    out.extend_from_slice(bytes);
    assert(out@ =~= before + bytes@);
}

/// Append a literal.
pub fn push_text(out: &mut Vec<u8>, text: &str)
    ensures
        final(out)@ == old(out)@ + spelled(text),
{
    push_bytes(out, text.as_bytes());
}

/// Append a number in decimal.
pub fn push_decimal(out: &mut Vec<u8>, value: u64)
    ensures
        final(out)@ == old(out)@ + decimal(value as nat),
    decreases value,
{
    let ghost before = out@;
    if value >= 10 {
        push_decimal(out, value / 10);
    }
    out.push(48 + (value % 10) as u8);
    assert(out@ =~= before + decimal(value as nat));
}

/// `number generation R`.
pub open spec fn pdf_ref_text(reference: PdfRef) -> Seq<u8> {
    decimal(reference.number as nat).push(SPACE) + decimal(reference.generation as nat) + spelled(
        " R",
    )
}

/// Append a reference.
pub fn pdf_ref(out: &mut Vec<u8>, reference: PdfRef)
    ensures
        final(out)@ == old(out)@ + pdf_ref_text(reference),
{
    let ghost before = out@;
    push_decimal(out, reference.number as u64);
    out.push(SPACE);
    push_decimal(out, reference.generation as u64);
    push_text(out, " R");
    assert(out@ =~= before + pdf_ref_text(reference));
}

/// Append the last `width` decimal digits of a number.
pub fn push_fixed_decimal(out: &mut Vec<u8>, value: u64, width: usize)
    ensures
        final(out)@ == old(out)@ + fixed_decimal(value as nat, width as nat),
    decreases width,
{
    let ghost before = out@;
    if width > 0 {
        push_fixed_decimal(out, value / 10, width - 1);
        out.push(48 + (value % 10) as u8);
    }
    assert(out@ =~= before + fixed_decimal(value as nat, width as nat));
}

/// The uppercase hexadecimal digit of a value below sixteen.
fn hex_digit_of(value: u8) -> (digit: u8)
    requires
        value < 16,
    ensures
        digit == hex_digit(value as nat),
{
    if value < 10 {
        48 + value
    } else {
        55 + value
    }
}

/// Append the last `width` hexadecimal digits of a number.
pub fn push_fixed_hex(out: &mut Vec<u8>, value: u128, width: usize)
    ensures
        final(out)@ == old(out)@ + fixed_hex(value as nat, width as nat),
    decreases width,
{
    let ghost before = out@;
    if width > 0 {
        push_fixed_hex(out, value / 16, width - 1);
        out.push(hex_digit_of((value % 16) as u8));
    }
    assert(out@ =~= before + fixed_hex(value as nat, width as nat));
}

/// The UTF-16 code units of a title.
pub fn title_units(title: &str) -> (units: Vec<u16>)
    ensures
        units@ == utf16(title@),
{
    broadcast use vstd::string::axiom_spec_iter;

    let mut units: Vec<u16> = Vec::new();
    assert(title@.take(0) =~= Seq::<char>::empty());
    for character in it: title.chars()
        invariant
            units@ == utf16(title@.take(it.index() as int)),
            it.seq() == title@,
    {
        let ghost before = units@;
        let ghost seen = title@.take(it.index() + 1);
        let scalar: u32 = character as u32;
        if scalar < 0x1_0000 {
            units.push(scalar as u16);
        } else {
            units.push((0xD800 + (scalar - 0x1_0000) / 0x400) as u16);
            units.push((0xDC00 + (scalar - 0x1_0000) % 0x400) as u16);
        }
        proof {
            assert(seen.drop_last() =~= title@.take(it.index() as int));
            assert(seen.last() == character);
            assert(units@ =~= before + utf16_char(character));
        }
    }
    assert(title@.take(title@.len() as int) =~= title@);
    units
}

/// Append code units in hexadecimal.
pub fn push_hex_units(out: &mut Vec<u8>, units: &[u16])
    ensures
        final(out)@ == old(out)@ + hex_units(units@),
{
    let ghost before = out@;
    let mut done: usize = 0;
    assert(units@.take(0) =~= Seq::<u16>::empty());
    while done < units.len()
        invariant
            done <= units@.len(),
            out@ =~= before + hex_units(units@.take(done as int)),
        decreases units@.len() - done,
    {
        push_fixed_hex(out, units[done] as u128, 4);
        done += 1;
        proof {
            let seen = units@.take(done as int);
            assert(seen.drop_last() =~= units@.take(done - 1));
            assert(seen.last() == units@[done - 1]);
        }
    }
    assert(units@.take(units@.len() as int) =~= units@);
}

/// How many decimal digits a number takes.
pub fn decimal_digits(value: u64) -> (digits: u64)
    ensures
        digits == decimal(value as nat).len(),
        1 <= digits <= 20,
{
    let mut left: u64 = value;
    let mut digits: u64 = 1;
    proof {
        lemma_decimal_length_bound(value as nat, 20);
    }
    while left >= 10
        invariant
            digits >= 1,
            decimal(value as nat).len() == digits - 1 + decimal(left as nat).len(),
            decimal(value as nat).len() <= 20,
        decreases left,
    {
        left = left / 10;
        digits += 1;
    }
    digits
}

/// A number below ten to the `width` takes at most `width` digits.
pub proof fn lemma_decimal_length_bound(value: nat, width: nat)
    requires
        value < ten_to(width) || width == 20 && value <= u64::MAX,
        width >= 1,
    ensures
        1 <= decimal(value).len() <= width,
    decreases width,
{
    if width == 20 && value <= u64::MAX {
        reveal_with_fuel(ten_to, 21);
        assert(ten_to(20) == 100_000_000_000_000_000_000);
    }
    if value >= 10 {
        assert(width > 1) by {
            reveal_with_fuel(ten_to, 2);
        }
        lemma_decimal_length_bound(value / 10, (width - 1) as nat);
    }
}

/// A number spelled in decimal reads back as itself.
pub proof fn law_decimal_reads_back(value: nat)
    ensures
        decimal_value(decimal(value)) == value,
    decreases value,
{
    if value >= 10 {
        law_decimal_reads_back(value / 10);
        let digits = decimal(value);
        assert(digits.drop_last() =~= decimal(value / 10));
        assert(digits.last() == digit(value % 10));
    } else {
        let digits = decimal(value);
        assert(digits.drop_last() =~= Seq::<u8>::empty());
        assert(digits.last() == digit(value));
        reveal_with_fuel(decimal_value, 2);
    }
}

/// A number that fits the width reads back from its fixed-width digits.
pub proof fn law_fixed_decimal_reads_back(value: nat, width: nat)
    requires
        value < ten_to(width),
    ensures
        fixed_decimal(value, width).len() == width,
        decimal_value(fixed_decimal(value, width)) == value,
    decreases width,
{
    if width > 0 {
        law_fixed_decimal_reads_back(value / 10, (width - 1) as nat);
        let digits = fixed_decimal(value, width);
        assert(digits.drop_last() =~= fixed_decimal(value / 10, (width - 1) as nat));
        assert(digits.last() == digit(value % 10));
    }
}

/// Fixed-width digits fill exactly the width.
pub proof fn lemma_fixed_decimal_length(value: nat, width: nat)
    ensures
        fixed_decimal(value, width).len() == width,
    decreases width,
{
    if width > 0 {
        lemma_fixed_decimal_length(value / 10, (width - 1) as nat);
    }
}

/// Fixed-width hexadecimal digits fill exactly the width.
pub proof fn lemma_fixed_hex_length(value: nat, width: nat)
    ensures
        fixed_hex(value, width).len() == width,
    decreases width,
{
    if width > 0 {
        lemma_fixed_hex_length(value / 16, (width - 1) as nat);
    }
}

/// Four digits spell each code unit.
pub proof fn lemma_hex_units_length(units: Seq<u16>)
    ensures
        hex_units(units).len() == 4 * units.len(),
    decreases units.len(),
{
    if units.len() > 0 {
        lemma_hex_units_length(units.drop_last());
        lemma_fixed_hex_length(units.last() as nat, 4);
    }
}

/// Hexadecimal digits of joined code units are the joined digits.
pub proof fn lemma_hex_units_join(left: Seq<u16>, right: Seq<u16>)
    ensures
        hex_units(left + right) == hex_units(left) + hex_units(right),
    decreases right.len(),
{
    if right.len() == 0 {
        assert(left + right =~= left);
        assert(hex_units(left) + hex_units(right) =~= hex_units(left));
    } else {
        lemma_hex_units_join(left, right.drop_last());
        assert((left + right).drop_last() =~= left + right.drop_last());
        assert(hex_units(left + right) =~= hex_units(left) + hex_units(right));
    }
}

/// The digits of one unit between those of the others.
pub proof fn lemma_hex_units_around(units: Seq<u16>, at: int)
    requires
        0 <= at < units.len(),
    ensures
        hex_units(units) == hex_units(units.take(at)) + fixed_hex(units[at] as nat, 4) + hex_units(
            units.skip(at + 1),
        ),
{
    let first = units.take(at + 1);
    assert(units =~= first + units.skip(at + 1));
    lemma_hex_units_join(first, units.skip(at + 1));
    assert(first.drop_last() =~= units.take(at));
    assert(first.last() == units[at]);
}

pub proof fn lemma_pow_16_4()
    ensures
        pow(16, 4) == 0x1_0000,
{
    reveal(pow);
    reveal_with_fuel(pow, 5);
}

pub proof fn lemma_pow_16_32()
    ensures
        pow(16, 32) == u128::MAX + 1,
{
    reveal(pow);
    reveal_with_fuel(pow, 33);
}

/// Numbers that fit their digits are told apart by them.
pub proof fn lemma_hex_tells_apart(one: nat, other: nat, width: nat)
    requires
        fixed_hex(one, width) == fixed_hex(other, width),
        one < pow(16, width),
        other < pow(16, width),
    ensures
        one == other,
    decreases width,
{
    reveal(pow);
    if width > 0 {
        let left = fixed_hex(one, width);
        let right = fixed_hex(other, width);
        assert(left.last() == hex_digit(one % 16));
        assert(right.last() == hex_digit(other % 16));
        assert(left.drop_last() =~= fixed_hex(one / 16, (width - 1) as nat));
        assert(right.drop_last() =~= fixed_hex(other / 16, (width - 1) as nat));
        lemma_hex_tells_apart(one / 16, other / 16, (width - 1) as nat);
    }
}

proof fn lemma_hex_units_distinct(one: Seq<u16>, other: Seq<u16>)
    requires
        hex_units(one) == hex_units(other),
    ensures
        one == other,
    decreases one.len(),
{
    lemma_hex_units_length(one);
    lemma_hex_units_length(other);
    if one.len() == 0 {
        assert(one =~= other);
    } else {
        let left = hex_units(one);
        let right = hex_units(other);
        lemma_hex_units_length(one.drop_last());
        lemma_hex_units_length(other.drop_last());
        lemma_fixed_hex_length(one.last() as nat, 4);
        lemma_fixed_hex_length(other.last() as nat, 4);
        let start = 4 * (one.len() - 1);
        assert(left.take(start) =~= hex_units(one.drop_last()));
        assert(right.take(start) =~= hex_units(other.drop_last()));
        assert(left.skip(start) =~= fixed_hex(one.last() as nat, 4));
        assert(right.skip(start) =~= fixed_hex(other.last() as nat, 4));
        lemma_hex_units_distinct(one.drop_last(), other.drop_last());
        lemma_pow_16_4();
        lemma_hex_tells_apart(one.last() as nat, other.last() as nat, 4);
        assert(one =~= one.drop_last().push(one.last()));
        assert(other =~= other.drop_last().push(other.last()));
    }
}

/// A low surrogate ends a pair, and nothing else does.
proof fn lemma_char_units(character: char)
    ensures
        ({
            let scalar = character as u32;
            let units = utf16_char(character);
            if scalar < 0x1_0000 {
                units.len() == 1 && units[0] == scalar && !(0xDC00 <= scalar <= 0xDFFF)
            } else {
                &&& units.len() == 2
                &&& units[0] == 0xD800 + (scalar - 0x1_0000) / 0x400
                &&& units[1] == 0xDC00 + (scalar - 0x1_0000) % 0x400
                &&& 0xDC00 <= units[1] <= 0xDFFF
            }
        }),
{
    let scalar = character as u32;
    assert(scalar <= 0x10_FFFF);
    if scalar >= 0x1_0000 {
        let above = scalar - 0x1_0000;
        assert(0 <= above / 0x400 <= 0x3FF);
        assert(0 <= above % 0x400 <= 0x3FF);
    }
}

proof fn lemma_char_distinct(one: char, other: char)
    requires
        utf16_char(one) == utf16_char(other),
    ensures
        one == other,
{
    lemma_char_units(one);
    lemma_char_units(other);
    let left = utf16_char(one);
    assert(left[0] == utf16_char(other)[0]);
    assert(one as u32 == other as u32);
}

proof fn lemma_utf16_distinct(one: Seq<char>, other: Seq<char>)
    requires
        utf16(one) == utf16(other),
    ensures
        one == other,
    decreases one.len(),
{
    if one.len() == 0 {
        if other.len() > 0 {
            assert(utf16(other).len() >= utf16_char(other.last()).len());
        }
        assert(one =~= other);
    } else if other.len() == 0 {
        assert(utf16(one).len() >= utf16_char(one.last()).len());
    } else {
        let a = one.last();
        let b = other.last();
        let left = utf16_char(a);
        let right = utf16_char(b);
        let all = utf16(one);
        lemma_char_units(a);
        lemma_char_units(b);
        assert(all.last() == left.last());
        assert(all.last() == right.last());
        assert(left.len() == right.len());
        assert(all.skip(all.len() - left.len()) =~= left);
        assert(all.skip(all.len() - right.len()) =~= right);
        lemma_char_distinct(a, b);
        assert(all.take(all.len() - left.len()) =~= utf16(one.drop_last()));
        assert(all.take(all.len() - right.len()) =~= utf16(other.drop_last()));
        lemma_utf16_distinct(one.drop_last(), other.drop_last());
        assert(one =~= one.drop_last().push(a));
        assert(other =~= other.drop_last().push(b));
    }
}

/// A title can be read back from its digits: no two titles share theirs.
pub proof fn law_titles_read_back(one: Seq<char>, other: Seq<char>)
    requires
        title_hex(one) == title_hex(other),
    ensures
        one == other,
{
    lemma_hex_units_distinct(utf16(one), utf16(other));
    lemma_utf16_distinct(one, other);
}

/// The value of a hexadecimal digit.
pub open spec fn hex_value(digit: u8) -> int {
    if 48 <= digit <= 57 {
        digit - 48
    } else {
        digit - 65 + 10
    }
}

/// The number that four hexadecimal digits spell.
pub open spec fn unit_value(digits: Seq<u8>) -> int {
    4096 * hex_value(digits[0]) + 256 * hex_value(digits[1]) + 16 * hex_value(digits[2])
        + hex_value(digits[3])
}

/// Four digits of a code unit spell it, the highest first.
proof fn lemma_unit_digits(unit: u16)
    ensures
        fixed_hex(unit as nat, 4).len() == 4,
        unit_value(fixed_hex(unit as nat, 4)) == unit,
        forall|i: int|
            0 <= i < 4 ==> {
                let digit = #[trigger] fixed_hex(unit as nat, 4)[i];
                48 <= digit <= 57 || 65 <= digit <= 70
            },
{
    reveal_with_fuel(fixed_hex, 5);
    let value = unit as nat;
    lemma_fixed_hex_length(value, 4);
    lemma_fixed_hex_length(value / 16, 3);
    lemma_fixed_hex_length(value / 16 / 16, 2);
    lemma_fixed_hex_length(value / 16 / 16 / 16, 1);
    let digits = fixed_hex(value, 4);
    assert(digits[3] == hex_digit(value % 16));
    assert(digits[2] == hex_digit(value / 16 % 16));
    assert(digits[1] == hex_digit(value / 16 / 16 % 16));
    assert(digits[0] == hex_digit(value / 16 / 16 / 16 % 16));
}

/// A title is spelled character by character as a reader decodes it: four digits
/// are the character itself, or eight digits are a surrogate pair for it, the
/// high half first.
pub proof fn law_titles_are_utf16(title: Seq<char>, character: char)
    ensures
        title_hex(Seq::empty()) == Seq::<u8>::empty(),
        ({
            let before = title_hex(title);
            let after = title_hex(title.push(character));
            let added = after.skip(before.len() as int);
            let scalar = character as u32 as int;
            &&& before.is_prefix_of(after)
            &&& if scalar < 0x1_0000 {
                added.len() == 4 && unit_value(added) == scalar
            } else {
                let high = unit_value(added.take(4));
                let low = unit_value(added.skip(4));
                &&& added.len() == 8
                &&& 0xD800 <= high < 0xDC00
                &&& 0xDC00 <= low < 0xE000
                &&& 0x1_0000 + 0x400 * (high - 0xD800) + (low - 0xDC00) == scalar
            }
        }),
        forall|i: int|
            0 <= i < title_hex(title).len() ==> {
                let digit = #[trigger] title_hex(title)[i];
                48 <= digit <= 57 || 65 <= digit <= 70
            },
{
    let longer = title.push(character);
    assert(longer.drop_last() =~= title);
    let units = utf16_char(character);
    lemma_hex_units_join(utf16(title), units);
    let before = title_hex(title);
    let after = title_hex(longer);
    assert(after == before + hex_units(units));
    assert(before =~= after.take(before.len() as int));
    let added = after.skip(before.len() as int);
    assert(added =~= hex_units(units));
    lemma_unit_digits(units[0]);
    reveal_with_fuel(hex_units, 3);
    if units.len() == 1 {
        assert(units.drop_last() =~= Seq::<u16>::empty());
        assert(added =~= fixed_hex(units[0] as nat, 4));
    } else {
        lemma_unit_digits(units[1]);
        assert(units.drop_last() =~= seq![units[0]]);
        assert(seq![units[0]].drop_last() =~= Seq::<u16>::empty());
        assert(added =~= fixed_hex(units[0] as nat, 4) + fixed_hex(units[1] as nat, 4));
        assert(added.take(4) =~= fixed_hex(units[0] as nat, 4));
        assert(added.skip(4) =~= fixed_hex(units[1] as nat, 4));
    }
    lemma_title_digits(title);
}

/// A title is spelled in hexadecimal digits.
proof fn lemma_title_digits(title: Seq<char>)
    ensures
        forall|i: int|
            0 <= i < title_hex(title).len() ==> {
                let digit = #[trigger] title_hex(title)[i];
                48 <= digit <= 57 || 65 <= digit <= 70
            },
{
    lemma_unit_list_digits(utf16(title));
}

proof fn lemma_unit_list_digits(units: Seq<u16>)
    ensures
        forall|i: int|
            0 <= i < hex_units(units).len() ==> {
                let digit = #[trigger] hex_units(units)[i];
                48 <= digit <= 57 || 65 <= digit <= 70
            },
    decreases units.len(),
{
    if units.len() > 0 {
        lemma_unit_list_digits(units.drop_last());
        lemma_unit_digits(units.last());
        let first = hex_units(units.drop_last());
        let last = fixed_hex(units.last() as nat, 4);
        let all = hex_units(units);
        assert forall|i: int| 0 <= i < all.len() implies {
            let digit = #[trigger] all[i];
            48 <= digit <= 57 || 65 <= digit <= 70
        } by {
            if i < first.len() {
                assert(all[i] == first[i]);
            } else {
                assert(all[i] == last[i - first.len()]);
            }
        }
    }
}

} // verus!

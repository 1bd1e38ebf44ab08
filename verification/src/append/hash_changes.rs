//! Which changes of an update change its hash.

use vstd::prelude::*;
use vstd::arithmetic::div_mod::{
    lemma_fundamental_div_mod, lemma_mod_multiples_vanish, lemma_mul_mod_noop_left,
    lemma_small_mod,
};
use crate::append::trailer_id::{fnv128_of, law_fnv128_in_pieces, FNV128_PRIME};

verus! {

/// The inverse of the prime: their product is one more than a multiple of the
/// modulus.
pub const PRIME_INVERSE: u128 = 0xb1041ad2562ff2ff2ff2ff2ff2ff2ff3;

/// Which multiple.
pub const INVERSE_MULTIPLE: u128 = 0xb1041ad2562ff2ff2ff3d9;

/// The power of two in the prime, which is 315 more.
pub const PRIME_POWER: u128 = 0x1_0000_0000_0000_0000_0000_00;

/// The prime has an inverse, so that it keeps hashes apart.
proof fn lemma_prime_keeps_apart(one: u128, other: u128)
    requires
        (one * FNV128_PRIME) % (u128::MAX + 1) == (other * FNV128_PRIME) % (u128::MAX + 1),
    ensures
        one == other,
{
    let modulus: int = u128::MAX + 1;
    let prime: int = FNV128_PRIME as int;
    let inverse: int = PRIME_INVERSE as int;
    let multiple: int = INVERSE_MULTIPLE as int;
    assert(prime * inverse == 1 + multiple * modulus);
    lemma_undone(one as int, prime, inverse, multiple, modulus);
    lemma_undone(other as int, prime, inverse, multiple, modulus);
}

/// Multiplying by a number and then by its inverse leads back.
proof fn lemma_undone(value: int, number: int, inverse: int, multiple: int, modulus: int)
    requires
        0 <= value < modulus,
        number * inverse == 1 + multiple * modulus,
    ensures
        (((value * number) % modulus) * inverse) % modulus == value,
{
    lemma_mul_mod_noop_left(value * number, inverse, modulus);
    assert(value * number * inverse == modulus * (value * multiple) + value) by (nonlinear_arith)
        requires
            number * inverse == 1 + multiple * modulus,
    ;
    lemma_mod_multiples_vanish(value * multiple, value, modulus);
    lemma_small_mod(value as nat, modulus as nat);
}

/// Hashes that differ stay different when the same bytes follow.
pub proof fn law_fnv128_keeps_hashes_apart(one: u128, other: u128, bytes: Seq<u8>)
    requires
        one != other,
    ensures
        fnv128_of(one, bytes) != fnv128_of(other, bytes),
    decreases bytes.len(),
{
    if bytes.len() > 0 {
        law_fnv128_keeps_hashes_apart(one, other, bytes.drop_last());
        let left = fnv128_of(one, bytes.drop_last());
        let right = fnv128_of(other, bytes.drop_last());
        let byte = bytes.last() as u128;
        assert(left != right ==> left ^ byte != right ^ byte) by (bit_vector);
        if fnv128_of(one, bytes) == fnv128_of(other, bytes) {
            lemma_prime_keeps_apart(left ^ byte, right ^ byte);
        }
    }
}

/// By how much two hashes differ after bytes whose mixing shifts the difference
/// by `shifts`, up to multiples of the modulus.
spec fn spread(shifts: Seq<int>) -> int
    decreases shifts.len(),
{
    if shifts.len() == 0 {
        0
    } else {
        (spread(shifts.drop_last()) + shifts.last()) * FNV128_PRIME
    }
}

/// By how much mixing two bytes into two hashes shifts their difference.
spec fn shift(one: u128, left: u8, other: u128, right: u8) -> int {
    (one ^ (left as u128)) - (other ^ (right as u128)) - (one - other)
}

/// The shifts of all bytes.
spec fn shifts(hash: u128, one: Seq<u8>, other: Seq<u8>) -> Seq<int> {
    Seq::new(
        one.len(),
        |i: int|
            shift(
                fnv128_of(hash, one.take(i)),
                one[i],
                fnv128_of(hash, other.take(i)),
                other[i],
            ),
    )
}

/// Mixing changes no more than the last eight bits.
proof fn lemma_small_shift(one: u128, left: u8, other: u128, right: u8)
    ensures
        -510 <= shift(one, left, other, right) <= 510,
{
    lemma_small_mix(one, left);
    lemma_small_mix(other, right);
}

proof fn lemma_small_mix(hash: u128, byte: u8)
    ensures
        -255 <= (hash ^ (byte as u128)) - hash <= 255,
{
    let mixed = hash ^ (byte as u128);
    assert(mixed / 256 == hash / 256) by (bit_vector)
        requires
            mixed == hash ^ (byte as u128),
    ;
}

proof fn lemma_spread(hash: u128, one: Seq<u8>, other: Seq<u8>)
    requires
        one.len() == other.len(),
    ensures
        (fnv128_of(hash, one) - fnv128_of(hash, other) - spread(shifts(hash, one, other))) % (
        u128::MAX + 1) == 0,
    decreases one.len(),
{
    let modulus: int = u128::MAX + 1;
    let all = shifts(hash, one, other);
    if one.len() > 0 {
        let n = one.len() - 1;
        let left = one.drop_last();
        let right = other.drop_last();
        lemma_spread(hash, left, right);
        let fewer = shifts(hash, left, right);
        assert(one.take(n) =~= left && other.take(n) =~= right);
        assert forall|i: int| 0 <= i < n implies fewer[i] == all[i] by {
            assert(left.take(i) =~= one.take(i) && right.take(i) =~= other.take(i));
        }
        assert(all.drop_last() =~= fewer);
        let a: int = fnv128_of(hash, left) as int;
        let b: int = fnv128_of(hash, right) as int;
        let x: int = (fnv128_of(hash, left) ^ (one.last() as u128)) as int;
        let y: int = (fnv128_of(hash, right) ^ (other.last() as u128)) as int;
        let prime: int = FNV128_PRIME as int;
        let before = spread(fewer);
        let last = all.last();
        assert(last == x - y - (a - b));
        lemma_fundamental_div_mod(a - b - before, modulus);
        lemma_fundamental_div_mod(x * prime, modulus);
        lemma_fundamental_div_mod(y * prime, modulus);
        let q = (a - b - before) / modulus;
        let whole = q * prime - (x * prime) / modulus + (y * prime) / modulus;
        assert((x * prime) % modulus - (y * prime) % modulus - (before + last) * prime == modulus
            * whole) by (nonlinear_arith)
            requires
                last == x - y - (a - b),
                a - b - before == modulus * q,
                x * prime == modulus * ((x * prime) / modulus) + (x * prime) % modulus,
                y * prime == modulus * ((y * prime) / modulus) + (y * prime) % modulus,
                whole == q * prime - (x * prime) / modulus + (y * prime) / modulus,
        ;
        lemma_mod_multiples_vanish(whole, 0, modulus);
    } else {
        assert(all =~= Seq::<int>::empty());
    }
}

/// Five shifts, ordered by powers of a number that is a small number off a
/// large one.
proof fn lemma_expanded(high: int, f0: int, f1: int, f2: int, f3: int, f4: int)
    ensures
        ({
            let prime = high + 315;
            let rest = f2 + (945 + high) * f3 + (595_350 + 1260 * high + high * high) * f4;
            (((f4 * prime + f3) * prime + f2) * prime + f1) * prime + f0 == (f0 + 315 * f1
                + 99_225 * f2 + 31_255_875 * f3 + 9_845_600_625 * f4) + high * (f1 + 630 * f2
                + 297_675 * f3 + 125_023_500 * f4) + high * high * rest
        }),
{
    let prime = high + 315;
    let two = high * high;
    let three = two * high;
    let four = three * high;
    assert(prime * prime == two + 630 * high + 99_225) by (nonlinear_arith)
        requires
            prime == high + 315,
            two == high * high,
    ;
    assert(prime * prime * prime == three + 945 * two + 297_675 * high + 31_255_875)
        by (nonlinear_arith)
        requires
            prime == high + 315,
            prime * prime == two + 630 * high + 99_225,
            two == high * high,
            three == two * high,
    ;
    assert(prime * prime * prime * prime == four + 1260 * three + 595_350 * two + 125_023_500
        * high + 9_845_600_625) by (nonlinear_arith)
        requires
            prime == high + 315,
            prime * prime * prime == three + 945 * two + 297_675 * high + 31_255_875,
            two == high * high,
            three == two * high,
            four == three * high,
    ;
    let p2 = prime * prime;
    let p3 = p2 * prime;
    let p4 = p3 * prime;
    assert((((f4 * prime + f3) * prime + f2) * prime + f1) * prime + f0 == f4 * p4 + f3 * p3 + f2
        * p2 + f1 * prime + f0) by (nonlinear_arith)
        requires
            p2 == prime * prime,
            p3 == p2 * prime,
            p4 == p3 * prime,
    ;
    assert(f4 * p4 == f4 * four + 1260 * (f4 * three) + 595_350 * (f4 * two) + 125_023_500 * (f4
        * high) + 9_845_600_625 * f4) by (nonlinear_arith)
        requires
            p4 == four + 1260 * three + 595_350 * two + 125_023_500 * high + 9_845_600_625,
    ;
    assert(f3 * p3 == f3 * three + 945 * (f3 * two) + 297_675 * (f3 * high) + 31_255_875 * f3)
        by (nonlinear_arith)
        requires
            p3 == three + 945 * two + 297_675 * high + 31_255_875,
    ;
    assert(f2 * p2 == f2 * two + 630 * (f2 * high) + 99_225 * f2) by (nonlinear_arith)
        requires
            p2 == two + 630 * high + 99_225,
    ;
    let rest = f2 + (945 + high) * f3 + (595_350 + 1260 * high + high * high) * f4;
    let a3 = high * f3;
    let a4 = high * f4;
    let b4 = two * f4;
    assert(rest == f2 + 945 * f3 + a3 + 595_350 * f4 + 1260 * a4 + b4) by (nonlinear_arith)
        requires
            rest == f2 + (945 + high) * f3 + (595_350 + 1260 * high + high * high) * f4,
            two == high * high,
            a3 == high * f3,
            a4 == high * f4,
            b4 == two * f4,
    ;
    assert(two * rest == two * f2 + 945 * (two * f3) + two * a3 + 595_350 * (two * f4) + 1260 * (two
        * a4) + two * b4) by (nonlinear_arith)
        requires
            rest == f2 + 945 * f3 + a3 + 595_350 * f4 + 1260 * a4 + b4,
    ;
    assert(two * a3 == f3 * three) by (nonlinear_arith)
        requires
            a3 == high * f3,
            three == two * high,
    ;
    assert(two * a4 == f4 * three) by (nonlinear_arith)
        requires
            a4 == high * f4,
            three == two * high,
    ;
    assert(two * b4 == f4 * four) by (nonlinear_arith)
        requires
            b4 == two * f4,
            two == high * high,
            three == two * high,
            four == three * high,
    ;
    assert(f1 * prime == f1 * high + 315 * f1) by (nonlinear_arith)
        requires
            prime == high + 315,
    ;
    assert(high * (f1 + 630 * f2 + 297_675 * f3 + 125_023_500 * f4) == f1 * high + 630 * (f2
        * high) + 297_675 * (f3 * high) + 125_023_500 * (f4 * high)) by (nonlinear_arith);
}

/// A polynomial with small coefficients that has a double zero there vanishes.
proof fn lemma_double_zero(f0: int, f1: int, f2: int, f3: int, f4: int)
    requires
        -510 <= f0 <= 510,
        -510 <= f1 <= 510,
        -510 <= f3 <= 510,
        f0 + 315 * f1 + 99_225 * f2 + 31_255_875 * f3 + 9_845_600_625 * f4 == 0,
        f1 + 630 * f2 + 297_675 * f3 + 125_023_500 * f4 == 0,
    ensures
        f0 == 0 && f1 == 0 && f2 == 0 && f3 == 0 && f4 == 0,
{
    let one = f1 + 315 * f2 + 99_225 * f3 + 31_255_875 * f4;
    assert(f0 == -315 * one);
    assert(one == 315 * (-f2 - 630 * f3 - 297_675 * f4));
    assert(f0 == 0);
    assert(f1 == -315 * (f2 + 315 * f3 + 99_225 * f4));
    assert(f2 == -315 * (2 * f3 + 945 * f4));
    assert(f1 == 0);
    assert(f3 == -630 * f4);
}

/// Small shifts of at most five bytes in a row do not cancel.
proof fn lemma_no_cancelling(f0: int, f1: int, f2: int, f3: int, f4: int)
    requires
        -510 <= f0 <= 510,
        -510 <= f1 <= 510,
        -510 <= f2 <= 510,
        -510 <= f3 <= 510,
        -510 <= f4 <= 510,
        (((((f4 * FNV128_PRIME + f3) * FNV128_PRIME + f2) * FNV128_PRIME + f1) * FNV128_PRIME
            + f0) * FNV128_PRIME) % (u128::MAX + 1) == 0,
    ensures
        f0 == 0 && f1 == 0 && f2 == 0 && f3 == 0 && f4 == 0,
{
    let modulus: int = u128::MAX + 1;
    let prime: int = FNV128_PRIME as int;
    let high: int = PRIME_POWER as int;
    let total = (((f4 * prime + f3) * prime + f2) * prime + f1) * prime + f0;
    lemma_prime_divides_out(total);
    let low = f0 + 315 * f1 + 99_225 * f2 + 31_255_875 * f3 + 9_845_600_625 * f4;
    let slope = f1 + 630 * f2 + 297_675 * f3 + 125_023_500 * f4;
    let rest = f2 + (945 + high) * f3 + (595_350 + 1260 * high + high * high) * f4;
    assert(prime == high + 315);
    lemma_expanded(high, f0, f1, f2, f3, f4);
    lemma_fundamental_div_mod(total, modulus);
    lemma_parts_vanish(low, slope, rest, total / modulus);
    lemma_double_zero(f0, f1, f2, f3, f4);
}

/// A multiple of the modulus is so without the prime.
proof fn lemma_prime_divides_out(total: int)
    requires
        (total * FNV128_PRIME) % (u128::MAX + 1) == 0,
    ensures
        total % (u128::MAX + 1) == 0,
{
    let modulus: int = u128::MAX + 1;
    let prime: int = FNV128_PRIME as int;
    let inverse: int = PRIME_INVERSE as int;
    let multiple: int = INVERSE_MULTIPLE as int;
    assert(prime * inverse == 1 + multiple * modulus);
    lemma_mul_mod_noop_left(total * prime, inverse, modulus);
    assert(total * prime * inverse == modulus * (total * multiple) + total) by (nonlinear_arith)
        requires
            prime * inverse == 1 + multiple * modulus,
    ;
    lemma_mod_multiples_vanish(total * multiple, total, modulus);
}

/// Parts that are too small to reach each other vanish one by one.
proof fn lemma_parts_vanish(low: int, slope: int, rest: int, quotient: int)
    requires
        -0x1_0000_0000_0000 < low < 0x1_0000_0000_0000,
        -0x100_0000_0000 < slope < 0x100_0000_0000,
        ({
            let high: int = PRIME_POWER as int;
            low + high * slope + high * high * rest == (u128::MAX + 1) * quotient
        }),
    ensures
        low == 0 && slope == 0,
{
    let high: int = PRIME_POWER as int;
    let step: int = 0x100_0000_0000;
    let square: int = 0x1_0000_0000_0000;
    assert(u128::MAX + 1 == high * step);
    assert(high == step * square);
    let factor = step * quotient - slope - high * rest;
    assert(low == high * factor) by (nonlinear_arith)
        requires
            low + high * slope + high * high * rest == (high * step) * quotient,
            factor == step * quotient - slope - high * rest,
    ;
    assert(factor == 0);
    assert(slope == step * (quotient - square * rest));
    assert(quotient - square * rest == 0);
}

/// Byte strings of one length that differ in no more than five bytes in a row,
/// such as one character of a title, have different hashes.
pub proof fn law_fnv128_tells_short_changes(
    hash: u128,
    before: Seq<u8>,
    one: Seq<u8>,
    other: Seq<u8>,
    after: Seq<u8>,
)
    requires
        one.len() == other.len(),
        one.len() <= 5,
        one != other,
    ensures
        fnv128_of(hash, before + one + after) != fnv128_of(hash, before + other + after),
{
    let start = fnv128_of(hash, before);
    law_fnv128_in_pieces(hash, before, one);
    law_fnv128_in_pieces(hash, before, other);
    law_fnv128_in_pieces(hash, before + one, after);
    law_fnv128_in_pieces(hash, before + other, after);
    if fnv128_of(start, one) == fnv128_of(start, other) {
        lemma_short_changes(start, one, other);
    }
    law_fnv128_keeps_hashes_apart(fnv128_of(start, one), fnv128_of(start, other), after);
}

proof fn lemma_short_changes(hash: u128, one: Seq<u8>, other: Seq<u8>)
    requires
        one.len() == other.len(),
        one.len() <= 5,
        fnv128_of(hash, one) == fnv128_of(hash, other),
    ensures
        one == other,
{
    let all = shifts(hash, one, other);
    let n = one.len() as int;
    lemma_spread(hash, one, other);
    assert forall|i: int| 0 <= i < n implies -510 <= #[trigger] all[i] <= 510 by {
        lemma_small_shift(
            fnv128_of(hash, one.take(i)),
            one[i],
            fnv128_of(hash, other.take(i)),
            other[i],
        );
    }
    let f = Seq::new(5, |j: int| if j < n { all[n - 1 - j] } else { 0 });
    assert(spread(all) == ((((f[4] * FNV128_PRIME + f[3]) * FNV128_PRIME + f[2]) * FNV128_PRIME
        + f[1]) * FNV128_PRIME + f[0]) * FNV128_PRIME) by {
        lemma_spread_of_five(all, f);
    }
    lemma_negated(spread(all));
    lemma_no_cancelling(f[0], f[1], f[2], f[3], f[4]);
    assert forall|i: int| 0 <= i < n implies all[i] == 0 by {
        assert(f[n - 1 - i] == all[i]);
    }
    lemma_same_bytes(hash, one, other, n);
    assert(one.take(n) =~= one && other.take(n) =~= other);
}

/// What divides a number divides its negation.
proof fn lemma_negated(value: int)
    requires
        (0 - value) % (u128::MAX + 1) == 0,
    ensures
        value % (u128::MAX + 1) == 0,
{
}

/// The spread of at most five shifts, `f` being those from the last one back.
proof fn lemma_spread_of_five(all: Seq<int>, f: Seq<int>)
    requires
        all.len() <= 5,
        f.len() == 5,
        forall|j: int|
            0 <= j < 5 ==> #[trigger] f[j] == if j < all.len() {
                all[all.len() - 1 - j]
            } else {
                0
            },
    ensures
        spread(all) == ((((f[4] * FNV128_PRIME + f[3]) * FNV128_PRIME + f[2]) * FNV128_PRIME
            + f[1]) * FNV128_PRIME + f[0]) * FNV128_PRIME,
{
    let n = all.len() as int;
    reveal_with_fuel(spread, 6);
    let four = all.drop_last();
    let three = four.drop_last();
    let two = three.drop_last();
    let one = two.drop_last();
    if n >= 1 {
        assert(f[0] == all[n - 1]);
    }
    if n >= 2 {
        assert(f[1] == all[n - 2]);
        assert(four.last() == all[n - 2]);
    }
    if n >= 3 {
        assert(f[2] == all[n - 3]);
        assert(three.last() == all[n - 3]);
    }
    if n >= 4 {
        assert(f[3] == all[n - 4]);
        assert(two.last() == all[n - 4]);
    }
    if n >= 5 {
        assert(f[4] == all[n - 5]);
        assert(one.last() == all[n - 5]);
    }
}

/// Where nothing shifts, the bytes are the same.
proof fn lemma_same_bytes(hash: u128, one: Seq<u8>, other: Seq<u8>, count: int)
    requires
        one.len() == other.len(),
        0 <= count <= one.len(),
        forall|i: int| 0 <= i < one.len() ==> #[trigger] shifts(hash, one, other)[i] == 0,
    ensures
        one.take(count) == other.take(count),
    decreases count,
{
    if count > 0 {
        let i = count - 1;
        lemma_same_bytes(hash, one, other, i);
        let state = fnv128_of(hash, one.take(i));
        assert(shifts(hash, one, other)[i] == 0);
        let left = one[i];
        let right = other[i];
        assert(state ^ (left as u128) == state ^ (right as u128) ==> left == right)
            by (bit_vector);
        assert(one.take(count) =~= one.take(i).push(left));
        assert(other.take(count) =~= other.take(i).push(right));
    } else {
        assert(one.take(0) =~= other.take(0));
    }
}

} // verus!

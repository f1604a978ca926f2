//! Division and remainder by powers of two: how a number splits into the
//! part above a field, the field, and the part below it, and how it is put
//! together again.
use crate::model::{bit, field_unsigned, two_pow, with_field};
use vstd::arithmetic::div_mod::*;
use vstd::arithmetic::power2::*;
use vstd::prelude::*;

verus! {

/// `2^n` is positive.
pub(crate) proof fn lemma_two_pow_pos(n: nat)
    ensures
        two_pow(n) > 0,
{
    lemma_pow2_pos(n);
}

/// Where the powers of two lie with respect to the largest words.
pub(crate) proof fn lemma_two_pow_bounds(n: nat)
    ensures
        two_pow(n) > 0,
        n < 64 ==> two_pow(n) <= 0x8000_0000_0000_0000,
        n == 64 ==> two_pow(n) == 0x1_0000_0000_0000_0000,
        n < 63 ==> two_pow(n) <= 0x4000_0000_0000_0000,
        n == 63 ==> two_pow(n) == 0x8000_0000_0000_0000,
        n == 0 ==> two_pow(n) == 1,
{
    lemma_pow2_pos(n);
    lemma2_to64();
    lemma2_to64_rest();
    if n < 63 {
        lemma_pow2_strictly_increases(n, 63);
        lemma_pow2_unfold(63);
        if n < 62 {
            lemma_pow2_strictly_increases(n, 62);
        }
    }
}

/// Dropping no bits changes nothing.
pub(crate) proof fn lemma_div_one(x: int)
    ensures
        x / two_pow(0) == x,
{
    lemma2_to64();
    lemma_fundamental_div_mod_converse(x, two_pow(0), x, 0);
}

/// `2^(a+b) = 2^a * 2^b`.
pub(crate) proof fn lemma_two_pow_adds(a: nat, b: nat)
    ensures
        two_pow(a + b) == two_pow(a) * two_pow(b),
        two_pow(a + b) == two_pow(b) * two_pow(a),
{
    lemma_pow2_adds(a, b);
    lemma_pow2_adds(b, a);
}

/// A field of `width` bits is a number below `2^width`.
pub(crate) proof fn lemma_field_range(word: int, width: nat, lsb: nat)
    ensures
        0 <= field_unsigned(word, width, lsb) < two_pow(width),
{
    lemma_two_pow_pos(width);
    lemma_mod_bound(word / two_pow(lsb), two_pow(width));
}

/// A number is the sum of what lies above a field, the field itself, and
/// what lies below it, each at its own weight.
pub(crate) proof fn lemma_split(word: int, width: nat, lsb: nat)
    requires
        0 <= word,
    ensures
        word == (word / two_pow(lsb + width)) * two_pow(lsb + width) + field_unsigned(
            word,
            width,
            lsb,
        ) * two_pow(lsb) + word % two_pow(lsb),
{
    let lo: int = two_pow(lsb);
    let mid: int = two_pow(width);
    let all: int = two_pow(lsb + width);
    lemma_two_pow_pos(lsb);
    lemma_two_pow_pos(width);
    lemma_two_pow_adds(lsb, width);
    lemma_mod_breakdown(word, lo, mid);
    lemma_fundamental_div_mod(word, all);
    let f: int = (word / lo) % mid;
    let h: int = word / all;
    assert(all * h == h * all) by (nonlinear_arith);
    assert(lo * f == f * lo) by (nonlinear_arith);
}

/// A field is found in what remains of a number modulo the weight of the
/// first bit above the field.
pub(crate) proof fn lemma_field_of_low_part(word: int, width: nat, lsb: nat)
    requires
        0 <= word,
    ensures
        0 <= word % two_pow(lsb + width) < two_pow(lsb + width),
        (word % two_pow(lsb + width)) / two_pow(lsb) == field_unsigned(word, width, lsb),
{
    let lo: int = two_pow(lsb);
    let mid: int = two_pow(width);
    let f: int = field_unsigned(word, width, lsb);
    lemma_two_pow_pos(lsb);
    lemma_two_pow_pos(width);
    lemma_two_pow_pos(lsb + width);
    lemma_two_pow_adds(lsb, width);
    lemma_mod_breakdown(word, lo, mid);
    lemma_mod_bound(word, two_pow(lsb + width));
    lemma_mod_bound(word, lo);
    assert(lo * f == f * lo) by (nonlinear_arith);
    lemma_fundamental_div_mod_converse(word % two_pow(lsb + width), lo, f, word % lo);
}

/// Reading back a number that was put together from three parts: each part
/// comes out as it went in.
pub(crate) proof fn lemma_join(high: int, field: int, low: int, width: nat, lsb: nat)
    requires
        0 <= field < two_pow(width),
        0 <= low < two_pow(lsb),
    ensures
        ({
            let x = high * two_pow(lsb + width) + field * two_pow(lsb) + low;
            &&& x / two_pow(lsb + width) == high
            &&& field_unsigned(x, width, lsb) == field
            &&& x % two_pow(lsb) == low
            &&& x / two_pow(lsb) == high * two_pow(width) + field
            &&& 0 <= field * two_pow(lsb) + low < two_pow(lsb + width)
        }),
{
    let lo: int = two_pow(lsb);
    let mid: int = two_pow(width);
    let all: int = two_pow(lsb + width);
    let x: int = high * all + field * lo + low;
    lemma_two_pow_pos(lsb);
    lemma_two_pow_pos(width);
    lemma_two_pow_adds(lsb, width);
    assert(x == (high * mid + field) * lo + low) by (nonlinear_arith)
        requires
            x == high * all + field * lo + low,
            all == mid * lo,
    ;
    lemma_fundamental_div_mod_converse(x, lo, high * mid + field, low);
    lemma_fundamental_div_mod_converse(high * mid + field, mid, high, field);
    assert(0 <= field * lo + low < all) by (nonlinear_arith)
        requires
            0 <= field <= mid - 1,
            0 <= low < lo,
            all == mid * lo,
    ;
    lemma_fundamental_div_mod_converse(x, all, high, field * lo + low);
}

/// Replacing a field leaves the parts above and below it as they were and
/// puts the low bits of the new value in between.
pub(crate) proof fn lemma_with_field_parts(word: int, width: nat, lsb: nat, value: int)
    requires
        0 <= word,
    ensures
        with_field(word, width, lsb, value) == (word / two_pow(lsb + width)) * two_pow(
            lsb + width,
        ) + (value % two_pow(width)) * two_pow(lsb) + word % two_pow(lsb),
{
    lemma_split(word, width, lsb);
}

/// A bit below position `n` does not depend on what is added in multiples
/// of `2^n`.
pub(crate) proof fn lemma_bit_below(high: int, low: int, n: nat, p: nat)
    requires
        p < n,
    ensures
        bit(high * two_pow(n) + low, p) == bit(low, p),
{
    let unit: int = two_pow(p);
    let rest: int = two_pow((n - p - 1) as nat);
    lemma_two_pow_pos(p);
    lemma_two_pow_adds(p, (n - p) as nat);
    lemma_two_pow_adds(1, (n - p - 1) as nat);
    lemma2_to64();
    assert(two_pow(n) == (2 * rest) * unit) by (nonlinear_arith)
        requires
            two_pow(n) == two_pow((n - p) as nat) * unit,
            two_pow((n - p) as nat) == 2 * rest,
    ;
    assert(high * two_pow(n) + low == low + (2 * (high * rest)) * unit) by (nonlinear_arith)
        requires
            two_pow(n) == (2 * rest) * unit,
    ;
    lemma_hoist_over_denominator(low, 2 * (high * rest), unit as nat);
    lemma_mod_multiples_vanish(high * rest, low / unit, 2);
}

/// A bit at or above position `n` of a number is a bit of the number with
/// its low `n` bits dropped.
pub(crate) proof fn lemma_bit_above(x: int, n: nat, p: nat)
    requires
        0 <= x,
        n <= p,
    ensures
        bit(x, p) == bit(x / two_pow(n), (p - n) as nat),
{
    lemma_two_pow_pos(n);
    lemma_two_pow_pos((p - n) as nat);
    lemma_two_pow_adds(n, (p - n) as nat);
    lemma_div_denominator(x, two_pow(n), two_pow((p - n) as nat));
}

} // verus!

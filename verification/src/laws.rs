//! How the operations relate to one another.
//!
//! Each law is stated over the integer model, which is what the contracts of
//! the operations in [`crate::bitpack`] speak of, and holds for every word and
//! every field that lies within a word.
use crate::arith::{
    lemma_bit_above, lemma_bit_below, lemma_div_one, lemma_field_range, lemma_join, lemma_split,
    lemma_two_pow_adds, lemma_two_pow_bounds, lemma_two_pow_pos, lemma_with_field_parts,
};
use crate::model::{
    bit, field_signed, field_unsigned, fits_signed, fits_unsigned, two_pow, with_field,
};
use vstd::arithmetic::div_mod::*;
use vstd::arithmetic::power2::*;
use vstd::prelude::*;

verus! {

/// A word with a field replaced is again a word.
pub proof fn law_with_field_is_word(word: u64, width: nat, lsb: nat, value: int)
    requires
        width + lsb <= 64,
    ensures
        0 <= with_field(word as int, width, lsb, value) <= u64::MAX,
{
    let high: int = word as int / two_pow(lsb + width);
    let new: int = value % two_pow(width);
    let low: int = word as int % two_pow(lsb);
    let top: int = two_pow((64 - lsb - width) as nat);
    lemma_two_pow_pos(lsb);
    lemma_two_pow_pos(width);
    lemma_two_pow_pos(lsb + width);
    lemma_two_pow_pos((64 - lsb - width) as nat);
    lemma_with_field_parts(word as int, width, lsb, value);
    lemma_mod_bound(value, two_pow(width));
    lemma_mod_bound(word as int, two_pow(lsb));
    lemma_join(high, new, low, width, lsb);
    // the part above the field is below 2^(64 - lsb - width)
    lemma_two_pow_adds(lsb + width, (64 - lsb - width) as nat);
    lemma2_to64_rest();
    lemma_div_pos_is_pos(word as int, two_pow(lsb + width));
    lemma_fundamental_div_mod(word as int, two_pow(lsb + width));
    lemma_mod_bound(word as int, two_pow(lsb + width));
    assert(high < top) by (nonlinear_arith)
        requires
            two_pow(lsb + width) * high <= word,
            word < two_pow(lsb + width) * top,
            two_pow(lsb + width) > 0,
    ;
    assert(high * two_pow(lsb + width) <= (top - 1) * two_pow(lsb + width)) by (nonlinear_arith)
        requires
            0 <= high <= top - 1,
            two_pow(lsb + width) > 0,
    ;
    assert((top - 1) * two_pow(lsb + width) == two_pow(lsb + width) * top - two_pow(lsb + width))
        by (nonlinear_arith);
    assert(0 <= high * two_pow(lsb + width)) by (nonlinear_arith)
        requires
            0 <= high,
            two_pow(lsb + width) > 0,
    ;
}

/// Reading an unsigned field gives back the number that was written to it,
/// provided the number fits the field.
pub proof fn law_round_trip_unsigned(word: u64, width: nat, lsb: nat, value: int)
    requires
        1 <= width,
        width + lsb <= 64,
        fits_unsigned(value, width),
    ensures
        field_unsigned(with_field(word as int, width, lsb, value), width, lsb) == value,
{
    lemma_written_field(word, width, lsb, value);
    lemma_two_pow_bounds(width);
    lemma_small_mod(value as nat, pow2(width));
}

/// Reading a signed field gives back the number that was written to it,
/// provided the number fits the field.
pub proof fn law_round_trip_signed(word: u64, width: nat, lsb: nat, value: int)
    requires
        1 <= width,
        width + lsb <= 64,
        fits_signed(value, width),
    ensures
        field_signed(with_field(word as int, width, lsb, value), width, lsb) == value,
{
    lemma_written_field(word, width, lsb, value);
    law_sign_extension(value, width);
}

/// Writing a field changes no bit outside the field.
pub proof fn law_untouched_bits(word: u64, width: nat, lsb: nat, value: int, p: nat)
    requires
        width + lsb <= 64,
        !(lsb <= p < lsb + width),
    ensures
        bit(with_field(word as int, width, lsb, value), p) == bit(word as int, p),
{
    let high: int = word as int / two_pow(lsb + width);
    let old: int = field_unsigned(word as int, width, lsb);
    let new: int = value % two_pow(width);
    let low: int = word as int % two_pow(lsb);
    let after: int = with_field(word as int, width, lsb, value);
    lemma_two_pow_pos(lsb);
    lemma_two_pow_pos(width);
    lemma_two_pow_adds(lsb, width);
    lemma_split(word as int, width, lsb);
    lemma_with_field_parts(word as int, width, lsb, value);
    lemma_field_range(word as int, width, lsb);
    lemma_mod_bound(value, two_pow(width));
    lemma_mod_bound(word as int, two_pow(lsb));
    lemma_join(high, old, low, width, lsb);
    lemma_join(high, new, low, width, lsb);
    law_with_field_is_word(word, width, lsb, value);
    if p < lsb {
        lemma_bit_below(high * two_pow(width) + old, low, lsb, p);
        lemma_bit_below(high * two_pow(width) + new, low, lsb, p);
        assert(word == (high * two_pow(width) + old) * two_pow(lsb) + low) by (nonlinear_arith)
            requires
                word == high * two_pow(lsb + width) + old * two_pow(lsb) + low,
                two_pow(lsb + width) == two_pow(width) * two_pow(lsb),
        ;
        assert(after == (high * two_pow(width) + new) * two_pow(lsb) + low) by (nonlinear_arith)
            requires
                after == high * two_pow(lsb + width) + new * two_pow(lsb) + low,
                two_pow(lsb + width) == two_pow(width) * two_pow(lsb),
        ;
    } else {
        lemma_bit_above(word as int, lsb + width, p);
        lemma_bit_above(after, lsb + width, p);
    }
}

/// Writing a field sets each bit of the field to the bit of the value at the
/// same distance from the least significant one.
pub proof fn law_written_bits(word: u64, width: nat, lsb: nat, value: int, i: nat)
    requires
        width + lsb <= 64,
        i < width,
    ensures
        bit(with_field(word as int, width, lsb, value), lsb + i) == bit(value, i),
{
    let high: int = word as int / two_pow(lsb + width);
    let new: int = value % two_pow(width);
    let low: int = word as int % two_pow(lsb);
    let after: int = with_field(word as int, width, lsb, value);
    lemma_two_pow_pos(lsb);
    lemma_two_pow_pos(width);
    lemma_with_field_parts(word as int, width, lsb, value);
    lemma_mod_bound(value, two_pow(width));
    lemma_mod_bound(word as int, two_pow(lsb));
    lemma_join(high, new, low, width, lsb);
    law_with_field_is_word(word, width, lsb, value);
    lemma_bit_above(after, lsb, lsb + i);
    lemma_bit_below(high, new, width, i);
    lemma_fundamental_div_mod(value, two_pow(width));
    lemma_bit_below(value / two_pow(width), new, width, i);
    assert(two_pow(width) * (value / two_pow(width)) == (value / two_pow(width)) * two_pow(width))
        by (nonlinear_arith);
}

/// A number fits `width` unsigned bits if and only if its low `width` bits,
/// read as an unsigned number, are the number itself.
pub proof fn law_fits_unsigned_low_bits(n: u64, width: nat)
    requires
        1 <= width <= 64,
    ensures
        fits_unsigned(n as int, width) <==> field_unsigned(n as int, width, 0) == n,
{
    lemma_div_one(n as int);
    lemma_two_pow_bounds(width);
    lemma_mod_bound(n as int, two_pow(width));
    if n < two_pow(width) {
        lemma_small_mod(n as nat, pow2(width));
    }
}

/// A number fits `width` two's-complement bits if and only if its low
/// `width` bits, read as a signed number, are the number itself: extending
/// the sign of its low `width` bits gives the number back.
pub proof fn law_sign_extension(n: int, width: nat)
    requires
        1 <= width <= 64,
    ensures
        fits_signed(n, width) <==> field_signed(n, width, 0) == n,
{
    let half: int = two_pow((width - 1) as nat);
    let full: int = two_pow(width);
    lemma_div_one(n);
    lemma_two_pow_bounds(width);
    lemma_two_pow_bounds((width - 1) as nat);
    lemma_pow2_unfold(width);
    assert(full == 2 * half);
    lemma_mod_bound(n, full);
    if 0 <= n < half {
        lemma_small_mod(n as nat, pow2(width));
    }
    if -half <= n < 0 {
        lemma_small_mod((n + full) as nat, pow2(width));
        lemma_mod_add_multiples_vanish(n, full);
    }
}

/// A field as wide as the word is the word: every word fits it, writing to
/// it gives the value written whatever the word held, and reading it gives
/// the word.
pub proof fn law_full_word_unsigned(word: u64, value: u64)
    ensures
        fits_unsigned(value as int, 64),
        with_field(word as int, 64, 0, value as int) == value,
        field_unsigned(value as int, 64, 0) == value,
{
    lemma_full_word(word, value as int);
    lemma_div_one(value as int);
    lemma_two_pow_bounds(64);
    lemma_small_mod(value as nat, pow2(64));
}

/// A field as wide as the word holds every signed word: writing one gives
/// its two's-complement form whatever the word held, and reading that as a
/// signed number gives the value back.
pub proof fn law_full_word_signed(word: u64, value: i64)
    ensures
        fits_signed(value as int, 64),
        with_field(word as int, 64, 0, value as int) == (if value < 0 {
            value + 0x1_0000_0000_0000_0000
        } else {
            value as int
        }),
        field_signed(with_field(word as int, 64, 0, value as int), 64, 0) == value,
{
    lemma_full_word(word, value as int);
    lemma_two_pow_bounds(64);
    if value < 0 {
        lemma_small_mod((value + two_pow(64)) as nat, pow2(64));
        lemma_mod_add_multiples_vanish(value as int, two_pow(64));
    } else {
        lemma_small_mod(value as nat, pow2(64));
    }
    law_round_trip_signed(word, 64, 0, value as int);
}

/// A number put together from a part above a field, the field and a part
/// below it, each at its own weight, has that field and those parts.
pub proof fn law_field_of_parts(high: int, field: int, low: int, width: nat, lsb: nat)
    requires
        0 <= field < two_pow(width),
        0 <= low < two_pow(lsb),
    ensures
        field_unsigned(
            high * two_pow(lsb + width) + field * two_pow(lsb) + low,
            width,
            lsb,
        ) == field,
        (high * two_pow(lsb + width) + field * two_pow(lsb) + low) / two_pow(lsb + width) == high,
        (high * two_pow(lsb + width) + field * two_pow(lsb) + low) % two_pow(lsb) == low,
{
    lemma_join(high, field, low, width, lsb);
}

/// What is read from a field always fits the width of the field.
pub proof fn law_field_fits(word: int, width: nat, lsb: nat)
    requires
        1 <= width <= 64,
    ensures
        fits_unsigned(field_unsigned(word, width, lsb), width),
        fits_signed(field_signed(word, width, lsb), width),
{
    lemma_field_range(word, width, lsb);
    lemma_two_pow_bounds(width);
    lemma_two_pow_bounds((width - 1) as nat);
    lemma_pow2_unfold(width);
}

/// Writing back what was read from a field leaves the word as it was.
pub proof fn law_write_back(word: u64, width: nat, lsb: nat)
    requires
        1 <= width,
        width + lsb <= 64,
    ensures
        with_field(word as int, width, lsb, field_unsigned(word as int, width, lsb)) == word,
        with_field(word as int, width, lsb, field_signed(word as int, width, lsb)) == word,
{
    let field: int = field_unsigned(word as int, width, lsb);
    lemma_field_range(word as int, width, lsb);
    lemma_two_pow_pos(width);
    lemma_small_mod(field as nat, pow2(width));
    if 2 * field >= two_pow(width) {
        lemma_mod_sub_multiples_vanish(field, two_pow(width));
    }
}

/// A number fits `width` unsigned bits if and only if none of its bits at
/// position `width` or above is set.
pub proof fn law_fits_unsigned_high_bits(n: u64, width: nat)
    requires
        1 <= width <= 64,
    ensures
        fits_unsigned(n as int, width) <==> (forall|p: nat| p >= width ==> !#[trigger] bit(
            n as int,
            p,
        )),
{
    lemma_two_pow_bounds(width);
    lemma_two_pow_bounds(64);
    if fits_unsigned(n as int, width) {
        assert forall|p: nat| p >= width implies !#[trigger] bit(n as int, p) by {
            if p > width {
                lemma_pow2_strictly_increases(width, p);
            }
            lemma_basic_div(n as int, two_pow(p));
        }
    } else {
        let p: nat = lemma_some_bit_set(n as int, width, 64);
        assert(bit(n as int, p));
    }
}

/// A number that lies between two powers of two has a bit set at a position
/// between the two exponents.
proof fn lemma_some_bit_set(x: int, k: nat, m: nat) -> (p: nat)
    requires
        two_pow(k) <= x < two_pow(m),
    ensures
        k <= p < m,
        bit(x, p),
    decreases m - k,
{
    lemma_two_pow_pos(k);
    if m < k {
        lemma_pow2_strictly_increases(m, k);
    }
    if bit(x, k) {
        k
    } else {
        let q: int = x / two_pow(k);
        lemma_div_non_zero(x, two_pow(k));
        lemma_fundamental_div_mod(x, two_pow(k));
        lemma_mod_bound(x, two_pow(k));
        lemma_pow2_unfold(k + 1);
        assert(two_pow(k) * q >= two_pow(k) * 2) by (nonlinear_arith)
            requires
                q >= 2,
                two_pow(k) > 0,
        ;
        lemma_some_bit_set(x, k + 1, m)
    }
}

/// In a field that starts at the lowest bit and is as wide as the word, the
/// old field is the whole word and the new word is the low 64 bits of the
/// value.
proof fn lemma_full_word(word: u64, value: int)
    ensures
        with_field(word as int, 64, 0, value) == value % two_pow(64),
{
    lemma_div_one(word as int);
    lemma_two_pow_bounds(64);
    lemma_two_pow_bounds(0);
    lemma_small_mod(word as nat, pow2(64));
}

/// What is read from a field just written is the low bits of the value.
proof fn lemma_written_field(word: u64, width: nat, lsb: nat, value: int)
    requires
        width + lsb <= 64,
    ensures
        field_unsigned(with_field(word as int, width, lsb, value), width, lsb) == value % two_pow(
            width,
        ),
        value % two_pow(width) == field_unsigned(value, width, 0),
{
    lemma_two_pow_pos(lsb);
    lemma_two_pow_pos(width);
    lemma_with_field_parts(word as int, width, lsb, value);
    lemma_mod_bound(value, two_pow(width));
    lemma_mod_bound(word as int, two_pow(lsb));
    lemma_join(
        word as int / two_pow(lsb + width),
        value % two_pow(width),
        word as int % two_pow(lsb),
        width,
        lsb,
    );
    lemma_div_one(value);
}

} // verus!

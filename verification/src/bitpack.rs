//! The operations on words.
use crate::arith::{lemma_div_one, lemma_two_pow_bounds};
use crate::laws::{
    law_round_trip_signed, law_round_trip_unsigned, law_sign_extension, law_untouched_bits,
    law_written_bits,
};
use crate::machine::{
    lemma_assemble, lemma_half_of_power, lemma_keep_low, lemma_low_bits_of_signed,
    lemma_ones_shr, lemma_shl, lemma_shl_all, lemma_shr, lemma_shr_all, lemma_sign_extended,
    lemma_top_aligned,
};
use crate::model::{
    bit, field_signed, field_unsigned, fits_signed, fits_unsigned, max_signed, max_unsigned,
    min_signed, two_pow, with_field, WORD_BITS,
};
use vstd::arithmetic::div_mod::*;
use vstd::arithmetic::power2::*;
use vstd::prelude::*;

verus! {

/// Number of bits in `word`, which is the same for every word.
pub fn get_word_width(word: u64) -> (r: u64)
    ensures
        r == WORD_BITS,
{
    WORD_BITS
}

/// Shifts `word` to the left by `shift` bits. Bits that leave the word are
/// lost; a shift by the width of the word or more leaves nothing.
pub fn shl(word: u64, shift: u64) -> (r: u64)
    ensures
        r == (word * two_pow(shift as nat)) % two_pow(64),
        shift >= 64 ==> r == 0,
{
    if shift >= WORD_BITS {
        proof {
            lemma_shl_all(word, shift);
        }
        0
    } else {
        proof {
            lemma_shl(word, shift);
        }
        word << shift
    }
}

/// Shifts `word` to the right by `shift` bits, filling with zeros; a shift by
/// the width of the word or more leaves nothing.
pub fn shr(word: u64, shift: u64) -> (r: u64)
    ensures
        r == word as int / two_pow(shift as nat),
        shift >= 64 ==> r == 0,
{
    if shift >= WORD_BITS {
        proof {
            lemma_shr_all(word, shift);
        }
        0
    } else {
        proof {
            lemma_shr(word, shift);
        }
        word >> shift
    }
}

/// Largest number that `bits` unsigned bits can hold.
pub fn umax(bits: u64) -> (r: u64)
    ensures
        r == max_unsigned(bits as nat),
{
    if bits >= WORD_BITS {
        u64::MAX
    } else {
        proof {
            lemma_half_of_power(bits);
        }
        (1u64 << bits) - 1
    }
}

/// Largest number that `bits` two's-complement bits can hold. For no bits at
/// all this is `-1`, which lies below [`smin`]: nothing can be held.
pub fn smax(bits: u64) -> (r: i64)
    ensures
        r == max_signed(bits as nat),
{
    if bits >= WORD_BITS {
        i64::MAX
    } else {
        proof {
            lemma_half_of_power(bits);
        }
        ((1u64 << bits) / 2) as i64 - 1
    }
}

/// Smallest number that `bits` two's-complement bits can hold. For no bits at
/// all this is `0`, which lies above [`smax`]: nothing can be held.
pub fn smin(bits: u64) -> (r: i64)
    ensures
        r == min_signed(bits as nat),
{
    if bits >= WORD_BITS {
        i64::MIN
    } else {
        proof {
            lemma_half_of_power(bits);
        }
        -(((1u64 << bits) / 2) as i64)
    }
}

/// Whether `n` can be written in `width` unsigned bits, for a `width` from 1
/// to 64.
pub fn fitsu(n: u64, width: u64) -> (r: bool)
    requires
        1 <= width <= 64,
    ensures
        r == fits_unsigned(n as int, width as nat),
        r == (0 <= n <= max_unsigned(width as nat)),
{
    let spare: u64 = WORD_BITS - width;
    proof {
        let low: int = n as int % two_pow(width as nat);
        lemma_two_pow_bounds(width as nat);
        lemma_two_pow_bounds(spare as nat);
        lemma_shl(n, spare);
        lemma_shr(n << spare, spare);
        lemma_mod_bound(n as int, two_pow(width as nat));
        lemma_div_by_multiple(low, two_pow(spare as nat));
        if n < two_pow(width as nat) {
            lemma_small_mod(n as nat, pow2(width as nat));
        }
    }
    n == (n << spare) >> spare
}

/// Whether `n` can be written in `width` two's-complement bits, for a `width`
/// from 1 to 64.
pub fn fitss(n: i64, width: u64) -> (r: bool)
    requires
        1 <= width <= 64,
    ensures
        r == fits_signed(n as int, width as nat),
        r == (min_signed(width as nat) <= n <= max_signed(width as nat)),
{
    let spare: u64 = WORD_BITS - width;
    proof {
        lemma_sign_extended(n as u64, width, 0);
        lemma_low_bits_of_signed(n, width);
        lemma_div_one(n as int);
        lemma_div_one((n as u64) as int);
        law_sign_extension(n as int, width as nat);
    }
    let top: u64 = (#[verifier::truncate] (n as u64)) << spare;
    n == (#[verifier::truncate] (top as i64)) >> spare
}

/// The `width` bits of `word` that start at bit `lsb`, as an unsigned number.
///
/// The field has at least one bit and ends within the word. It is moved up
/// until it ends at the top of the word, which drops what lay above it, and
/// then down to the bottom, which drops what lay below it and fills with
/// zeros.
pub fn getu(word: u64, width: u64, lsb: u64) -> (r: u64)
    requires
        1 <= width,
        width + lsb <= 64,
    ensures
        r == field_unsigned(word as int, width as nat, lsb as nat),
{
    let up: u64 = WORD_BITS - width - lsb;
    let down: u64 = WORD_BITS - width;
    proof {
        lemma_top_aligned(word, width, lsb);
        lemma_shr(word << up, down);
    }
    (word << up) >> down
}

/// The `width` bits of `word` that start at bit `lsb`, as a two's-complement
/// number.
///
/// The field has at least one bit and ends within the word. It is moved up
/// until it ends at the top of the word, where its sign bit is the sign bit of
/// the word, and then down to the bottom with a shift that keeps the sign.
pub fn gets(word: u64, width: u64, lsb: u64) -> (r: i64)
    requires
        1 <= width,
        width + lsb <= 64,
    ensures
        r == field_signed(word as int, width as nat, lsb as nat),
{
    let up: u64 = WORD_BITS - width - lsb;
    let down: u64 = WORD_BITS - width;
    proof {
        lemma_sign_extended(word, width, lsb);
    }
    (#[verifier::truncate] ((word << up) as i64)) >> down
}

/// Writes `value` into the `width` bits of `word` that start at bit `lsb` and
/// returns the new word, or `None` when `value` does not fit `width` unsigned
/// bits. Bits outside the field are those of `word`.
///
/// The field has at least one bit and ends within the word.
pub fn newu(word: u64, width: u64, lsb: u64, value: u64) -> (r: Option<u64>)
    requires
        1 <= width,
        width + lsb <= 64,
    ensures
        r is Some <==> fits_unsigned(value as int, width as nat),
        r matches Some(w) ==> {
            &&& w == with_field(word as int, width as nat, lsb as nat, value as int)
            &&& field_unsigned(w as int, width as nat, lsb as nat) == value
            &&& forall|p: nat|
                !(lsb <= p < lsb + width) ==> #[trigger] bit(w as int, p) == bit(word as int, p)
            &&& forall|p: nat|
                lsb <= p < lsb + width ==> #[trigger] bit(w as int, p) == bit(
                    value as int,
                    (p - lsb) as nat,
                )
        },
{
    let word_width: u64 = get_word_width(word);
    if fitsu(value, width) {
        // what lies above the field
        let left: u64 = shl(shr(word, lsb + width), lsb + width);
        // what lies below the field
        let right: u64 = shr(shl(word, word_width - lsb), word_width - lsb);
        // the field itself, moved to its place
        let middle: u64 = value << lsb;
        let new_word: u64 = left | right | middle;
        proof {
            lemma_two_pow_bounds(width as nat);
            lemma_small_mod(value as nat, pow2(width as nat));
            lemma_assemble(word, width, lsb, value as int, value, left, right, middle);
            law_round_trip_unsigned(word, width as nat, lsb as nat, value as int);
            lemma_bits_after_write(word, width as nat, lsb as nat, value as int);
        }
        Some(new_word)
    } else {
        None
    }
}

/// Writes `value`, in two's-complement form, into the `width` bits of `word`
/// that start at bit `lsb` and returns the new word, or `None` when `value`
/// does not fit `width` signed bits. Bits outside the field are those of
/// `word`.
///
/// The field has at least one bit and ends within the word.
pub fn news(word: u64, width: u64, lsb: u64, value: i64) -> (r: Option<u64>)
    requires
        1 <= width,
        width + lsb <= 64,
    ensures
        r is Some <==> fits_signed(value as int, width as nat),
        r matches Some(w) ==> {
            &&& w == with_field(word as int, width as nat, lsb as nat, value as int)
            &&& field_signed(w as int, width as nat, lsb as nat) == value
            &&& forall|p: nat|
                !(lsb <= p < lsb + width) ==> #[trigger] bit(w as int, p) == bit(word as int, p)
            &&& forall|p: nat|
                lsb <= p < lsb + width ==> #[trigger] bit(w as int, p) == bit(
                    value as int,
                    (p - lsb) as nat,
                )
        },
{
    let word_width: u64 = get_word_width(word);
    if fitss(value, width) {
        // what lies above the field
        let left: u64 = shl(shr(word, lsb + width), lsb + width);
        // what lies below the field
        let right: u64 = shr(shl(word, word_width - lsb), word_width - lsb);
        // the low bits of the value, moved to the place of the field
        let field: u64 = (#[verifier::truncate] (value as u64)) & umax(width);
        let middle: u64 = field << lsb;
        let new_word: u64 = left | right | middle;
        proof {
            lemma_two_pow_bounds(width as nat);
            lemma_ones_shr((64 - width) as u64);
            lemma_keep_low(value as u64, width);
            lemma_low_bits_of_signed(value, width);
            lemma_assemble(word, width, lsb, value as int, field, left, right, middle);
            law_round_trip_signed(word, width as nat, lsb as nat, value as int);
            lemma_bits_after_write(word, width as nat, lsb as nat, value as int);
        }
        Some(new_word)
    } else {
        None
    }
}

/// Bit by bit, a word with a field replaced is the value inside the field
/// and the old word outside it.
proof fn lemma_bits_after_write(word: u64, width: nat, lsb: nat, value: int)
    requires
        width + lsb <= 64,
    ensures
        forall|p: nat|
            !(lsb <= p < lsb + width) ==> #[trigger] bit(
                with_field(word as int, width, lsb, value),
                p,
            ) == bit(word as int, p),
        forall|p: nat|
            lsb <= p < lsb + width ==> #[trigger] bit(
                with_field(word as int, width, lsb, value),
                p,
            ) == bit(value, (p - lsb) as nat),
{
    assert forall|p: nat| !(lsb <= p < lsb + width) implies #[trigger] bit(
        with_field(word as int, width, lsb, value),
        p,
    ) == bit(word as int, p) by {
        law_untouched_bits(word, width, lsb, value, p);
    }
    assert forall|p: nat| lsb <= p < lsb + width implies #[trigger] bit(
        with_field(word as int, width, lsb, value),
        p,
    ) == bit(value, (p - lsb) as nat) by {
        law_written_bits(word, width, lsb, value, (p - lsb) as nat);
    }
}

} // verus!

//! What the operations mean, over unbounded integers.
//!
//! A word is read as the natural number whose binary digits are its bits,
//! digit `p` having weight `2^p`. Everything else follows from that reading:
//! dropping the low `n` bits is division by `2^n`, keeping the low `n` bits is
//! the remainder modulo `2^n`.
use vstd::arithmetic::power2::pow2;
use vstd::prelude::*;

verus! {

/// Number of bits in a word.
pub const WORD_BITS: u64 = 64;

/// `2^n` as an integer.
pub open spec fn two_pow(n: nat) -> int {
    pow2(n) as int
}

/// Largest number that `width` unsigned bits can hold: `2^width - 1`, and the
/// largest word once `width` reaches the size of a word.
pub open spec fn max_unsigned(width: nat) -> int {
    if width >= 64 {
        u64::MAX as int
    } else {
        two_pow(width) - 1
    }
}

/// Largest number that `width` two's-complement bits can hold:
/// `2^(width-1) - 1`, capped at the largest signed word.
///
/// A field of no bits holds no number at all, which shows as a maximum of
/// `-1` lying below the minimum of `0`.
pub open spec fn max_signed(width: nat) -> int {
    if width == 0 {
        -1
    } else if width >= 64 {
        i64::MAX as int
    } else {
        two_pow((width - 1) as nat) - 1
    }
}

/// Smallest number that `width` two's-complement bits can hold:
/// `-2^(width-1)`, capped at the smallest signed word.
///
/// For a field of no bits this is `0`, above [`max_signed`], so that the
/// range is empty.
pub open spec fn min_signed(width: nat) -> int {
    if width == 0 {
        0
    } else if width >= 64 {
        i64::MIN as int
    } else {
        -two_pow((width - 1) as nat)
    }
}

/// Whether `n` can be written in `width` unsigned bits.
pub open spec fn fits_unsigned(n: int, width: nat) -> bool {
    0 <= n <= max_unsigned(width)
}

/// Whether `n` can be written in `width` two's-complement bits.
pub open spec fn fits_signed(n: int, width: nat) -> bool {
    min_signed(width) <= n <= max_signed(width)
}

/// Bit `p` of `word`.
pub open spec fn bit(word: int, p: nat) -> bool {
    (word / two_pow(p)) % 2 == 1
}

/// The `width` bits of `word` that start at bit `lsb`, read as an unsigned
/// number.
pub open spec fn field_unsigned(word: int, width: nat, lsb: nat) -> int {
    (word / two_pow(lsb)) % two_pow(width)
}

/// The `width` bits of `word` that start at bit `lsb`, read as a
/// two's-complement number: the topmost bit of the field counts `-2^(width-1)`
/// instead of `2^(width-1)`.
pub open spec fn field_signed(word: int, width: nat, lsb: nat) -> int {
    let u = field_unsigned(word, width, lsb);
    if 2 * u >= two_pow(width) {
        u - two_pow(width)
    } else {
        u
    }
}

/// `word` with the `width` bits that start at bit `lsb` replaced by the low
/// `width` bits of `value`.
///
/// The remainder is the mathematical one, never negative, so for a negative
/// `value` the bits written are those of its two's-complement form.
pub open spec fn with_field(word: int, width: nat, lsb: nat, value: int) -> int {
    word - field_unsigned(word, width, lsb) * two_pow(lsb) + (value % two_pow(width)) * two_pow(
        lsb,
    )
}

} // verus!

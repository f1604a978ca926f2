//! How shifts, masks and casts on machine words relate to the integer model.
use crate::arith::{
    lemma_field_of_low_part, lemma_join, lemma_two_pow_bounds, lemma_with_field_parts,
};
use crate::model::{field_signed, field_unsigned, two_pow, with_field};
use vstd::arithmetic::div_mod::*;
use vstd::arithmetic::power2::*;
use vstd::bits::*;
use vstd::prelude::*;

verus! {

/// A word of all ones, shifted right by `k`, is `2^(64-k) - 1`.
pub(crate) proof fn lemma_ones_shr(k: u64)
    requires
        k < 64,
    ensures
        (u64::MAX >> k) == two_pow((64 - k) as nat) - 1,
{
    let lo: int = two_pow(k as nat);
    let hi: int = two_pow((64 - k) as nat);
    lemma_two_pow_bounds(k as nat);
    lemma_two_pow_bounds((64 - k) as nat);
    lemma_two_pow_bounds(64);
    lemma_pow2_adds((64 - k) as nat, k as nat);
    lemma_u64_shr_is_div(u64::MAX, k);
    assert((hi - 1) * lo + (lo - 1) == hi * lo - 1) by (nonlinear_arith);
    lemma_fundamental_div_mod_converse(u64::MAX as int, lo, hi - 1, lo - 1);
}

/// Masking a word with `n` low ones keeps its remainder modulo `2^n`.
pub(crate) proof fn lemma_keep_low(x: u64, n: u64)
    requires
        1 <= n <= 64,
    ensures
        (x & (u64::MAX >> ((64 - n) as u64))) == x as int % two_pow(n as nat),
{
    lemma_ones_shr((64 - n) as u64);
    lemma_two_pow_bounds(n as nat);
    if n == 64 {
        assert(x & (u64::MAX >> 0) == x) by (bit_vector);
        lemma_small_mod(x as nat, pow2(64));
    } else {
        lemma_u64_low_bits_mask_is_mod(x, n as nat);
    }
}

/// A shift to the left drops the bits that leave the word and multiplies the
/// rest by a power of two.
pub(crate) proof fn lemma_shl(x: u64, s: u64)
    requires
        s < 64,
    ensures
        (x << s) == (x as int % two_pow((64 - s) as nat)) * two_pow(s as nat),
        (x << s) == (x * two_pow(s as nat)) % two_pow(64),
{
    let keep: u64 = x & (u64::MAX >> s);
    let lo: int = two_pow(s as nat);
    let hi: int = two_pow((64 - s) as nat);
    lemma_two_pow_bounds(s as nat);
    lemma_two_pow_bounds((64 - s) as nat);
    lemma_two_pow_bounds(64);
    lemma_pow2_adds(s as nat, (64 - s) as nat);
    assert(x << s == (x & (u64::MAX >> s)) << s) by (bit_vector)
        requires
            s < 64,
    ;
    if s == 0 {
        assert(x & (u64::MAX >> 0) == x) by (bit_vector);
        lemma_small_mod(x as nat, pow2(64));
    } else {
        lemma_keep_low(x, (64 - s) as u64);
    }
    assert(keep == x as int % hi);
    assert(keep * lo <= (hi - 1) * lo) by (nonlinear_arith)
        requires
            0 <= keep <= hi - 1,
            lo > 0,
    ;
    assert((hi - 1) * lo == lo * hi - lo) by (nonlinear_arith);
    lemma_u64_shl_is_mul(keep, s);
    lemma_truncate_middle(x as int, lo, hi);
    assert(lo * (x as int) == x * lo) by (nonlinear_arith);
    assert(lo * (x as int % hi) == (x as int % hi) * lo) by (nonlinear_arith);
}

/// A shift to the right divides by a power of two.
pub(crate) proof fn lemma_shr(x: u64, s: u64)
    requires
        s < 64,
    ensures
        (x >> s) == x as int / two_pow(s as nat),
{
    lemma_u64_shr_is_div(x, s);
}

/// A word with the single bit `n` set is `2^n`; half of it is `2^(n-1)`, and
/// nothing when the bit is the lowest one.
pub(crate) proof fn lemma_half_of_power(n: u64)
    requires
        n < 64,
    ensures
        (1u64 << n) == two_pow(n as nat),
        (1u64 << n) / 2 == (if n == 0 {
            0
        } else {
            two_pow((n - 1) as nat)
        }),
        1 <= (1u64 << n),
        (1u64 << n) / 2 <= 0x4000_0000_0000_0000,
{
    lemma_two_pow_bounds(n as nat);
    lemma_u64_shl_is_mul(1, n);
    if n > 0 {
        lemma_two_pow_bounds((n - 1) as nat);
        lemma_pow2_unfold(n as nat);
    }
}

/// Once every bit has left the word, nothing is left of a product with a
/// power of two.
pub(crate) proof fn lemma_shl_all(x: u64, s: u64)
    requires
        s >= 64,
    ensures
        (x * two_pow(s as nat)) % two_pow(64) == 0,
{
    let over: int = two_pow((s - 64) as nat);
    lemma_two_pow_bounds(64);
    lemma_pow2_adds(64, (s - 64) as nat);
    assert(x * two_pow(s as nat) == (x * over) * two_pow(64)) by (nonlinear_arith)
        requires
            two_pow(s as nat) == two_pow(64) * over,
    ;
    lemma_mod_multiples_basic(x * over, two_pow(64));
}

/// A word divided by `2^64` or more is zero.
pub(crate) proof fn lemma_shr_all(x: u64, s: u64)
    requires
        s >= 64,
    ensures
        x as int / two_pow(s as nat) == 0,
{
    lemma_two_pow_bounds(64);
    if s > 64 {
        lemma_pow2_strictly_increases(64, s as nat);
    }
    lemma_basic_div(x as int, two_pow(s as nat));
}

/// Two words of which one lies wholly below bit `k` and the other wholly at
/// or above it share no bit, so joining them adds them.
pub(crate) proof fn lemma_or_is_add(a: u64, b: u64, k: nat)
    requires
        k <= 64,
        a < two_pow(k),
        b as int % two_pow(k) == 0,
    ensures
        (a | b) == a + b,
{
    lemma_two_pow_bounds(k);
    if k == 0 {
        assert(0u64 | b == b) by (bit_vector);
    } else {
        let m: u64 = u64::MAX >> ((64 - k) as u64);
        lemma_keep_low(a, k as u64);
        lemma_keep_low(b, k as u64);
        lemma_small_mod(a as nat, pow2(k));
        assert((a | b) == a + b) by (bit_vector)
            requires
                a & m == a,
                b & m == 0,
        ;
    }
}

/// With a field moved up so that it ends at the top of the word, dropping
/// all that lies below where the field now starts leaves the field.
pub(crate) proof fn lemma_top_aligned(word: u64, width: u64, lsb: u64)
    requires
        1 <= width,
        width + lsb <= 64,
    ensures
        (word << ((64 - width - lsb) as u64)) as int / two_pow((64 - width) as nat)
            == field_unsigned(word as int, width as nat, lsb as nat),
{
    let up: u64 = (64 - width - lsb) as u64;
    let below: int = two_pow(lsb as nat);
    let spare: int = two_pow(up as nat);
    let kept: int = word as int % two_pow((lsb + width) as nat);
    lemma_shl(word, up);
    lemma_two_pow_bounds(lsb as nat);
    lemma_two_pow_bounds(up as nat);
    lemma_pow2_adds(up as nat, lsb as nat);
    lemma_field_of_low_part(word as int, width as nat, lsb as nat);
    lemma_div_by_multiple(kept, spare);
    lemma_div_denominator(kept * spare, spare, below);
}

/// The three pieces from which a word with a new field is put together
/// share no bit, and joined they are the word with the field replaced: what
/// lay above the field, the new field, and what lay below it.
pub(crate) proof fn lemma_assemble(
    word: u64,
    width: u64,
    lsb: u64,
    value: int,
    field: u64,
    left: u64,
    right: u64,
    middle: u64,
)
    requires
        1 <= width,
        width + lsb <= 64,
        field == value % two_pow(width as nat),
        left == ((word as int / two_pow((lsb + width) as nat)) * two_pow((lsb + width) as nat))
            % two_pow(64),
        right == ((word * two_pow((64 - lsb) as nat)) % two_pow(64)) / two_pow((64 - lsb) as nat),
        middle == field << lsb,
    ensures
        (left | right | middle) == with_field(word as int, width as nat, lsb as nat, value),
{
    let end: nat = (lsb + width) as nat;
    let high: int = word as int / two_pow(end);
    let low: int = word as int % two_pow(lsb as nat);
    let spare: int = two_pow((64 - lsb) as nat);
    lemma_two_pow_bounds(lsb as nat);
    lemma_two_pow_bounds(width as nat);
    lemma_two_pow_bounds(end);
    lemma_two_pow_bounds((64 - lsb) as nat);
    lemma_two_pow_bounds(64);
    lemma_mod_bound(value, two_pow(width as nat));
    lemma_mod_bound(word as int, two_pow(lsb as nat));
    lemma_join(high, field as int, low, width as nat, lsb as nat);
    lemma_with_field_parts(word as int, width as nat, lsb as nat, value);
    // left: the part above the field, at its weight
    lemma_fundamental_div_mod(word as int, two_pow(end));
    lemma_mod_bound(word as int, two_pow(end));
    lemma_div_pos_is_pos(word as int, two_pow(end));
    assert(two_pow(end) * high == high * two_pow(end)) by (nonlinear_arith);
    assert(0 <= high * two_pow(end)) by (nonlinear_arith)
        requires
            0 <= high,
            0 < two_pow(end),
    ;
    lemma_small_mod((high * two_pow(end)) as nat, pow2(64));
    assert(left == high * two_pow(end));
    // right: the part below the field
    lemma_pow2_adds((64 - lsb) as nat, lsb as nat);
    lemma_truncate_middle(word as int, spare, two_pow(lsb as nat));
    assert(spare * word == word * spare) by (nonlinear_arith);
    lemma_div_multiples_vanish(low, spare);
    assert(right == low);
    // middle: the field, at its weight
    assert(field * two_pow(lsb as nat) < two_pow(end));
    lemma_u64_shl_is_mul(field, lsb);
    assert(middle == field * two_pow(lsb as nat));
    // no two of them share a bit
    lemma_mod_multiples_basic(field as int, two_pow(lsb as nat));
    lemma_or_is_add(right, middle, lsb as nat);
    let below: u64 = right | middle;
    lemma_mod_multiples_basic(high, two_pow(end));
    lemma_or_is_add(below, left, end);
    assert((left | right | middle) == (below | left)) by (bit_vector)
        requires
            below == right | middle,
    ;
}

/// A signed word, taken as an unsigned one, keeps its value when it is not
/// negative and moves up by `2^64` when it is.
pub(crate) proof fn lemma_as_unsigned(x: i64)
    ensures
        (x as u64) as int == (if x < 0 {
            x + 0x1_0000_0000_0000_0000
        } else {
            x as int
        }),
{
    assert((x as u64) as int == (if x < 0 {
        x + 0x1_0000_0000_0000_0000
    } else {
        x as int
    })) by (bit_vector);
}

/// A signed word and the unsigned word of the same bits have the same low
/// bits.
pub(crate) proof fn lemma_low_bits_of_signed(x: i64, n: u64)
    requires
        1 <= n <= 64,
    ensures
        (x as u64) as int % two_pow(n as nat) == x as int % two_pow(n as nat),
{
    lemma_as_unsigned(x);
    lemma_two_pow_bounds(n as nat);
    lemma_two_pow_bounds(64);
    lemma_pow2_adds(n as nat, (64 - n) as nat);
    if x < 0 {
        lemma_mod_multiples_vanish(two_pow((64 - n) as nat), x as int, two_pow(n as nat));
    }
}

/// A shift to the right of a signed word fills with copies of the top bit:
/// it divides the unsigned word of the same bits and, where the top bit is
/// set, takes `2^(64-s)` off.
pub(crate) proof fn lemma_shr_signed(t: u64, s: u64)
    requires
        s < 64,
    ensures
        ((t as i64) >> s) as int == (if t >= 0x8000_0000_0000_0000 {
            t as int / two_pow(s as nat) - two_pow((64 - s) as nat)
        } else {
            t as int / two_pow(s as nat)
        }),
{
    lemma_shr(t, s);
    lemma_ones_shr(s);
    assert(t < 0x8000_0000_0000_0000 ==> ((t as i64) >> s) == (t >> s)) by (bit_vector)
        requires
            s < 64,
    ;
    assert(t >= 0x8000_0000_0000_0000 ==> ((t as i64) >> s) + (u64::MAX >> s) + 1 == (t >> s))
        by (bit_vector)
        requires
            s < 64,
    ;
}

/// With a field moved up so that it ends at the top of the word, a signed
/// shift back down to the bottom of the word leaves the field with its sign
/// extended.
pub(crate) proof fn lemma_sign_extended(word: u64, width: u64, lsb: u64)
    requires
        1 <= width,
        width + lsb <= 64,
    ensures
        (((word << ((64 - width - lsb) as u64)) as i64) >> ((64 - width) as u64)) as int
            == field_signed(word as int, width as nat, lsb as nat),
{
    let up: u64 = (64 - width - lsb) as u64;
    let down: u64 = (64 - width) as u64;
    let top: u64 = word << up;
    let unit: int = two_pow(down as nat);
    let half: int = two_pow((width - 1) as nat);
    let field: int = field_unsigned(word as int, width as nat, lsb as nat);
    lemma_top_aligned(word, width, lsb);
    lemma_shr_signed(top, down);
    lemma_two_pow_bounds(down as nat);
    lemma_two_pow_bounds(width as nat);
    lemma_two_pow_bounds((width - 1) as nat);
    lemma_two_pow_bounds(63);
    lemma_pow2_unfold(width as nat);
    lemma_pow2_adds((width - 1) as nat, down as nat);
    // the top bit of the word is now the top bit of the field
    lemma_fundamental_div_mod(top as int, unit);
    lemma_mod_bound(top as int, unit);
    assert(top >= half * unit <==> field >= half) by (nonlinear_arith)
        requires
            top == unit * field + top as int % unit,
            0 <= top as int % unit < unit,
    ;
}

} // verus!

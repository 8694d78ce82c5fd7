//! Order keys: integers that order as 32-bit floating-point numbers do. A number is
//! given by its bit pattern: a sign bit above 31 bits of magnitude. The transform
//! coefficients reach the median rule as such keys.

use vstd::prelude::*;

verus! {

/// The key of a bit pattern that is no number. It is above the key of every number.
pub const NO_NUMBER: i32 = 0x7FFF_FFFF;

/// The greatest magnitude of a number: that of the two infinities.
pub const MAX_MAGNITUDE: u32 = 0x7F80_0000;

/// The bit pattern of a 32-bit floating-point value that is no number: all bits of
/// the exponent are set, and not all others below the sign are clear.
pub open spec fn is_nan_bits(bits: u32) -> bool {
    bits & 0x7F80_0000 == 0x7F80_0000 && bits & 0x007F_FFFF != 0
}

/// The bits below the sign.
pub open spec fn magnitude(bits: u32) -> u32 {
    bits & 0x7FFF_FFFF
}

/// Whether the sign bit is set.
pub open spec fn negative(bits: u32) -> bool {
    bits & 0x8000_0000 != 0
}

/// The key of a bit pattern: the magnitude of a number without the sign bit, minus
/// the magnitude of one with it, so that both zeros have the key 0.
pub open spec fn key_of(bits: u32) -> i32 {
    if is_nan_bits(bits) {
        NO_NUMBER
    } else if negative(bits) {
        (-(magnitude(bits) as int)) as i32
    } else {
        magnitude(bits) as i32
    }
}

/// The bit pattern that a key stands for. A key below 0 stands for a number with
/// the sign bit.
pub open spec fn bits_of(key: i32) -> u32 {
    if key >= 0 {
        key as u32
    } else {
        0x8000_0000u32 | ((-(key as int)) as u32)
    }
}

/// How two numbers compare, by sign and magnitude: whether `a` is at least `b`.
/// Without sign bits the greater magnitude is the greater number, with sign bits
/// the smaller; a number with the sign bit is at least one without it only where
/// both are zero.
pub open spec fn at_least(a: u32, b: u32) -> bool {
    if negative(a) {
        if negative(b) {
            magnitude(a) <= magnitude(b)
        } else {
            magnitude(a) == 0 && magnitude(b) == 0
        }
    } else {
        if negative(b) {
            true
        } else {
            magnitude(a) >= magnitude(b)
        }
    }
}

proof fn lemma_parts(bits: u32)
    by (bit_vector)
    ensures
        bits & 0x7FFF_FFFF <= 0x7FFF_FFFF,
        (bits & 0x7F80_0000 == 0x7F80_0000 && bits & 0x007F_FFFF != 0) <==> (bits
            & 0x7FFF_FFFF) > 0x7F80_0000,
        bits & 0x8000_0000 == 0 ==> bits & 0x7FFF_FFFF == bits,
        bits & 0x8000_0000 != 0 ==> 0x8000_0000u32 | (bits & 0x7FFF_FFFF) == bits,
{
}

proof fn lemma_signed(m: u32)
    by (bit_vector)
    requires
        m <= 0x8000_0000,
    ensures
        m < 0x8000_0000 ==> (0x8000_0000u32 | m) & 0x7FFF_FFFF == m,
        (0x8000_0000u32 | m) & 0x8000_0000 != 0,
        m < 0x8000_0000 ==> m & 0x7FFF_FFFF == m && m & 0x8000_0000 == 0,
{
}

/// The key of a number, given by its bit pattern.
pub fn order_key(bits: u32) -> (key: i32)
    ensures
        key == key_of(bits),
{
    let m: u32 = bits & 0x7FFF_FFFF;
    proof {
        lemma_parts(bits);
    }
    if m > MAX_MAGNITUDE {
        NO_NUMBER
    } else if bits & 0x8000_0000 != 0 {
        -(m as i32)
    } else {
        m as i32
    }
}

/// The bit pattern that a key stands for.
pub fn from_key(key: i32) -> (bits: u32)
    ensures
        bits == bits_of(key),
{
    if key >= 0 {
        key as u32
    } else {
        0x8000_0000u32 | ((-(key as i64)) as u32)
    }
}

/// Keys order as the numbers do: for two bit patterns of numbers, the key of the
/// first is at least the key of the second exactly where the first number is at
/// least the second.
pub proof fn law_keys_order(a: u32, b: u32)
    requires
        !is_nan_bits(a),
        !is_nan_bits(b),
    ensures
        key_of(a) >= key_of(b) <==> at_least(a, b),
{
    lemma_parts(a);
    lemma_parts(b);
}

/// What is no number has a key above that of every number, and every number has a
/// key between those of the two infinities.
pub proof fn law_no_number_is_above(bits: u32)
    ensures
        is_nan_bits(bits) ==> key_of(bits) == NO_NUMBER,
        !is_nan_bits(bits) ==> -MAX_MAGNITUDE <= key_of(bits) <= MAX_MAGNITUDE < NO_NUMBER,
{
    lemma_parts(bits);
}

/// A key stands for the number it was made from: the same bit pattern, but for the
/// zero with the sign bit, whose key stands for the zero without.
pub proof fn law_key_round_trip(bits: u32)
    requires
        !is_nan_bits(bits),
    ensures
        bits_of(key_of(bits)) == if magnitude(bits) == 0 {
            0
        } else {
            bits
        },
        key_of(bits_of(key_of(bits))) == key_of(bits),
{
    lemma_parts(bits);
    let m = magnitude(bits);
    lemma_signed(m);
    lemma_parts(bits_of(key_of(bits)));
    if m == 0 {
        assert(0x8000_0000u32 | 0u32 == 0x8000_0000u32) by (bit_vector);
    }
}

/// Every key between those of the two infinities is the key of the number it
/// stands for.
pub proof fn law_bits_round_trip(key: i32)
    requires
        -MAX_MAGNITUDE <= key <= MAX_MAGNITUDE,
    ensures
        !is_nan_bits(bits_of(key)),
        key_of(bits_of(key)) == key,
{
    let bits = bits_of(key);
    lemma_parts(bits);
    if key >= 0 {
        lemma_signed(key as u32);
    } else {
        lemma_signed((-(key as int)) as u32);
    }
}

} // verus!

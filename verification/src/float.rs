//! IEEE 754 double-precision numbers, held as their bit patterns.

use vstd::arithmetic::power2::pow2;
use vstd::prelude::*;

verus! {

/// The weight of the sign bit.
pub const SIGN: u64 = 0x8000_0000_0000_0000;

/// The weight of the lowest exponent bit.
pub const HIDDEN: u64 = 0x10_0000_0000_0000;

/// The bit pattern of positive infinity.
pub const INFINITY: u64 = 0x7ff0_0000_0000_0000;

/// The bit pattern without its sign.
pub open spec fn magnitude(bits: u64) -> int {
    bits as int % SIGN as int
}

/// Whether the sign bit is set.
pub open spec fn negative(bits: u64) -> bool {
    bits >= SIGN
}

/// Whether the pattern is not a number.
pub open spec fn nan(bits: u64) -> bool {
    magnitude(bits) > INFINITY
}

/// Whether the pattern is a zero of either sign.
pub open spec fn zero(bits: u64) -> bool {
    magnitude(bits) == 0
}

/// Whether the pattern is a number and not an infinity.
pub open spec fn finite(bits: u64) -> bool {
    magnitude(bits) < INFINITY
}

/// IEEE equality: the zeros are equal, and what is not a number equals nothing.
pub open spec fn float_equal(a: u64, b: u64) -> bool {
    !nan(a) && !nan(b) && (a == b || (zero(a) && zero(b)))
}

/// The pattern with a negative zero replaced by the positive one.
pub open spec fn folded(bits: u64) -> u64 {
    if zero(bits) {
        0
    } else {
        bits
    }
}

/// The significand: the value is this times two to the power `exponent`.
pub open spec fn significand(bits: u64) -> nat {
    if magnitude(bits) < HIDDEN {
        magnitude(bits) as nat
    } else {
        (magnitude(bits) % HIDDEN as int + HIDDEN) as nat
    }
}

/// The exponent that belongs to the significand.
pub open spec fn exponent(bits: u64) -> int {
    if magnitude(bits) < HIDDEN {
        -1074
    } else {
        magnitude(bits) / HIDDEN as int - 1075
    }
}

/// The magnitude of the value as an integer, if it is one and at most two to
/// the power 53.
pub open spec fn small_integer(bits: u64) -> Option<nat> {
    if zero(bits) {
        Some(0)
    } else if exponent(bits) == 1 && significand(bits) == HIDDEN {
        Some((2 * HIDDEN) as nat)
    } else if exponent(bits) <= 0 && significand(bits) % pow2((-exponent(bits)) as nat) == 0 {
        Some(significand(bits) / pow2((-exponent(bits)) as nat))
    } else {
        None
    }
}

/// The integer that the float is, if it is one of magnitude at most two to the
/// power 53.
pub open spec fn exact_integer(bits: u64) -> Option<int> {
    match small_integer(bits) {
        None => None,
        Some(n) => Some(
            if negative(bits) {
                -(n as int)
            } else {
                n as int
            },
        ),
    }
}

/// Whether the pattern is not a number.
pub fn is_nan(bits: u64) -> (result: bool)
    ensures
        result == nan(bits),
{
    bits % SIGN > INFINITY
}

/// Whether the pattern is a zero of either sign.
pub fn is_zero(bits: u64) -> (result: bool)
    ensures
        result == zero(bits),
{
    bits % SIGN == 0
}

/// Whether the pattern is a number and not an infinity.
pub fn is_finite(bits: u64) -> (result: bool)
    ensures
        result == finite(bits),
{
    bits % SIGN < INFINITY
}

/// IEEE equality.
pub fn floats_equal(a: u64, b: u64) -> (result: bool)
    ensures
        result == float_equal(a, b),
{
    !is_nan(a) && !is_nan(b) && (a == b || (is_zero(a) && is_zero(b)))
}

/// The pattern with a negative zero replaced by the positive one.
pub fn fold_signed_zero(bits: u64) -> (result: u64)
    ensures
        result == folded(bits),
{
    if is_zero(bits) {
        0
    } else {
        bits
    }
}

/// Two to the power `k`, below the width of the type.
pub fn power_of_two(k: u32) -> (result: u64)
    requires
        k < 64,
    ensures
        result == pow2(k as nat),
        result >= 1,
{
    let mut result: u64 = 1;
    let mut i: u32 = 0;
    proof {
        vstd::arithmetic::power2::lemma2_to64();
        vstd::arithmetic::power2::lemma2_to64_rest();
    }
    while i < k
        invariant
            i <= k < 64,
            result == pow2(i as nat),
            result >= 1,
            pow2(63) == 0x8000_0000_0000_0000,
        decreases k - i,
    {
        proof {
            vstd::arithmetic::power2::lemma_pow2_unfold((i + 1) as nat);
            if i < 62 {
                vstd::arithmetic::power2::lemma_pow2_strictly_increases((i + 1) as nat, 63);
            }
        }
        result = result * 2;
        i = i + 1;
    }
    result
}

/// The integer that the float is, if it is one of magnitude at most two to the
/// power 53.
pub fn float_to_integer(bits: u64) -> (result: Option<i64>)
    ensures
        match result {
            Some(n) => exact_integer(bits) == Some(n as int),
            None => exact_integer(bits) is None,
        },
{
    let size: u64 = bits % SIGN;
    if size == 0 {
        return Some(0);
    }
    let (digits, power): (u64, i64) = if size < HIDDEN {
        (size, -1074)
    } else {
        (size % HIDDEN + HIDDEN, (size / HIDDEN) as i64 - 1075)
    };
    let whole: u64;
    if power == 1 && digits == HIDDEN {
        whole = 2 * HIDDEN;
    } else if power > 0 {
        return None;
    } else if power < -52 {
        proof {
            vstd::arithmetic::power2::lemma2_to64();
            vstd::arithmetic::power2::lemma2_to64_rest();
            vstd::arithmetic::power2::lemma_pow2_strictly_increases(52, (-power) as nat);
            if power < -53 {
                vstd::arithmetic::power2::lemma_pow2_strictly_increases(53, (-power) as nat);
            }
            vstd::arithmetic::div_mod::lemma_small_mod(digits as nat, pow2((-power) as nat));
        }
        return None;
    } else {
        let unit: u64 = power_of_two((-power) as u32);
        if digits % unit != 0 {
            return None;
        }
        whole = digits / unit;
        proof {
            assert(whole <= digits) by (nonlinear_arith)
                requires
                    whole == digits / unit,
                    unit >= 1,
            ;
        }
    }
    if bits >= SIGN {
        Some(-(whole as i64))
    } else {
        Some(whole as i64)
    }
}

} // verus!

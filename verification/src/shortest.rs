//! The decimal digits that a float is printed with: as few as still read back
//! as the same float.

use vstd::arithmetic::power::{lemma_pow_positive, pow};
use vstd::arithmetic::power2::{lemma_pow2_adds, lemma_pow2_pos, pow2};
use vstd::prelude::*;

use crate::big::Big;
use crate::float::INFINITY;
use crate::float_math::parts;
use crate::numeric_text::is_nearest_decimal;
use crate::order::Place;

#[allow(unused_imports)]
use crate::float::HIDDEN;
#[allow(unused_imports)]
use crate::float_math::{is_nearest, lemma_quotient_below, scaled};
#[allow(unused_imports)]
use crate::numeric_text::{decimal_den, decimal_num, lemma_ten_exceeds_two, not_below_zero};
#[allow(unused_imports)]
use crate::order::int_place;

verus! {

/// The numerator of a magnitude as a multiple of ten to the power `e`.
pub open spec fn tens_num(m: int, e: int) -> int {
    scaled(m) * pow(10, not_below_zero(-e))
}

/// The denominator of a magnitude as a multiple of ten to the power `e`.
pub open spec fn tens_den(e: int) -> int {
    pow(10, not_below_zero(e)) * pow2(1074)
}

/// How often ten to the power `e` goes into a magnitude.
pub open spec fn whole(m: int, e: int) -> int {
    tens_num(m, e) / tens_den(e)
}

/// Whether the first digit of a magnitude counts ten to the power `e`.
pub open spec fn leads(m: int, e: int) -> bool {
    1 <= whole(m, e) <= 9
}

/// The power of ten that the first digit of a magnitude counts.
pub open spec fn lead(m: int) -> int {
    choose|e: int| leads(m, e)
}

/// Whether `n` times ten to the power `e` reads back as the magnitude.
pub open spec fn reads_back(m: int, n: int, e: int) -> bool {
    is_nearest(decimal_num(n as nat, e), decimal_den(e), m)
}

/// Whether a multiple of ten to the power `e` next to a magnitude reads back as
/// it.
pub open spec fn suffices(m: int, e: int) -> bool {
    reads_back(m, whole(m, e), e) || reads_back(m, whole(m, e) + 1, e)
}

/// The first power of ten, from `e` down, with a multiple that reads back as the
/// magnitude; the last of them after `count` steps.
pub open spec fn unit_from(m: int, e: int, count: nat) -> int
    decreases count,
{
    if count == 0 || suffices(m, e) {
        e
    } else {
        unit_from(m, e - 1, (count - 1) as nat)
    }
}

/// The power of ten that the last digit of a magnitude counts. Seventeen digits
/// tell any two floats apart.
pub open spec fn unit(m: int) -> int {
    unit_from(m, lead(m), 16)
}

/// Where a magnitude stands relative to the middle between the multiple of ten
/// to the power `e` below it and the one above.
pub open spec fn beside_middle(m: int, e: int) -> Place {
    int_place(2 * tens_num(m, e), (2 * whole(m, e) + 1) * tens_den(e))
}

/// The multiple of ten to the power `e` nearest to a magnitude, the even one
/// where two are equally near.
pub open spec fn nearest_multiple(m: int, e: int) -> int {
    match beside_middle(m, e) {
        Place::Before => whole(m, e),
        Place::Same => whole(m, e) + whole(m, e) % 2,
        Place::After => whole(m, e) + 1,
    }
}

/// The multiple of ten to the power `e` that reads back as a magnitude; where
/// two do, the nearer, and the upper where they are equally near.
pub open spec fn readable_multiple(m: int, e: int) -> int {
    if reads_back(m, whole(m, e), e) && (!reads_back(m, whole(m, e) + 1, e) || beside_middle(m, e)
        is Before) {
        whole(m, e)
    } else {
        whole(m, e) + 1
    }
}

/// A decimal number: its digits, and the power of ten that the last counts.
pub struct Digits {
    pub digits: u64,
    pub unit: i64,
}

/// The digits of a magnitude: correctly rounded to as few as read back.
pub open spec fn rounded_digits(m: int) -> (int, int) {
    if m == 0 {
        (0, 0)
    } else {
        (nearest_multiple(m, unit(m)), unit(m))
    }
}

/// The digits of a magnitude: the nearest of those that read back with as few as
/// possible.
pub open spec fn readable_digits(m: int) -> (int, int) {
    if m == 0 {
        (0, 0)
    } else {
        (readable_multiple(m, unit(m)), unit(m))
    }
}

// ---------------------------------------------------------------------
// Facts about multiples
// ---------------------------------------------------------------------

proof fn lemma_positive(m: int, e: int)
    requires
        m >= 0,
    ensures
        tens_num(m, e) >= 0,
        tens_den(e) > 0,
{
    lemma_pow_positive(10, not_below_zero(-e));
    lemma_pow_positive(10, not_below_zero(e));
    lemma_pow2_pos(1074);
    crate::float_math::lemma_scaled_monotone(0, m);
    let s: int = scaled(m);
    let p: int = pow(10, not_below_zero(-e));
    let q: int = pow(10, not_below_zero(e));
    let u: int = pow2(1074) as int;
    assert(s * p >= 0 && q * u > 0) by (nonlinear_arith)
        requires
            s >= 0,
            p > 0,
            q > 0,
            u > 0,
    ;
}

/// A count is at least `n` where so many multiples do not exceed the magnitude.
proof fn lemma_whole(m: int, e: int, n: int)
    requires
        m >= 0,
    ensures
        whole(m, e) >= n <==> n * tens_den(e) <= tens_num(m, e),
        whole(m, e) >= 0,
{
    lemma_positive(m, e);
    lemma_quotient_below(tens_num(m, e), tens_den(e), n);
    lemma_quotient_below(tens_num(m, e), tens_den(e), 0);
}

/// A multiple of a power of ten is ten times that multiple of the power below.
proof fn lemma_step(m: int, e: int, n: int)
    requires
        m >= 0,
    ensures
        whole(m, e) >= 10 * n <==> whole(m, e + 1) >= n,
{
    lemma_whole(m, e, 10 * n);
    lemma_whole(m, e + 1, n);
    reveal(pow);
    let s: int = scaled(m);
    let u: int = pow2(1074) as int;
    if e >= 0 {
        let p: int = pow(10, e as nat);
        assert(pow(10, (e + 1) as nat) == 10 * p);
        assert(n * ((10 * p) * u) == (10 * n) * (p * u)) by (nonlinear_arith);
    } else {
        let p: int = pow(10, not_below_zero(-(e + 1)));
        assert(pow(10, not_below_zero(-e)) == 10 * p);
        assert(s * (10 * p) == 10 * (s * p)) by (nonlinear_arith);
        assert(pow(10, not_below_zero(e)) == 1);
        assert(pow(10, not_below_zero(e + 1)) == 1);
        assert((10 * n) * (1 * u) == 10 * (n * (1 * u))) by (nonlinear_arith);
    }
}

/// The count for a power of ten that is at least one grows as the power falls.
proof fn lemma_falling(m: int, e: int, d: int)
    requires
        m >= 0,
        d < e,
        whole(m, e) >= 1,
    ensures
        whole(m, d) >= 10,
    decreases e - d,
{
    lemma_step(m, e - 1, 1);
    if d < e - 1 {
        lemma_falling(m, e - 1, d);
    }
}

/// At most one power of ten leads.
proof fn lemma_lead(m: int, e: int)
    requires
        m >= 0,
        leads(m, e),
    ensures
        lead(m) == e,
{
    let k: int = lead(m);
    assert(leads(m, k));
    if k < e {
        lemma_falling(m, e, k);
    } else if e < k {
        lemma_falling(m, k, e);
    }
}

/// A power of ten that goes into a finite magnitude is bounded.
proof fn lemma_upper(m: int, e: int)
    requires
        0 <= m < INFINITY,
        whole(m, e) >= 1,
    ensures
        e < 1030,
{
    lemma_whole(m, e, 1);
    if e >= 1030 {
        let top: int = INFINITY as int;
        crate::float_math::lemma_scaled_monotone(m, top);
        crate::float_math::lemma_scaled(2046, HIDDEN as int);
        vstd::arithmetic::power2::lemma2_to64();
        vstd::arithmetic::power2::lemma2_to64_rest();
        lemma_pow2_adds(52, 2046);
        lemma_pow2_adds(e as nat, 1074);
        vstd::arithmetic::power2::lemma_pow2_strictly_increases(2098, (e + 1074) as nat);
        lemma_ten_exceeds_two(e as nat);
        reveal(pow);
        let p: int = pow(10, e as nat);
        let q: int = pow2(e as nat) as int;
        let u: int = pow2(1074) as int;
        assert(p * u >= q * u) by (nonlinear_arith)
            requires
                p >= q,
                u >= 0,
        ;
        assert(scaled(m) * 1 == scaled(m)) by (nonlinear_arith);
        assert(1 * (p * u) == p * u) by (nonlinear_arith);
    }
}

/// A power of ten that does not go into a positive magnitude is bounded.
proof fn lemma_lower(m: int, e: int)
    requires
        0 < m,
        whole(m, e) < 1,
    ensures
        e > -1080,
{
    lemma_whole(m, e, 1);
    if e <= -1080 {
        crate::float_math::lemma_scaled_monotone(0, m);
        lemma_ten_exceeds_two((-e) as nat);
        vstd::arithmetic::power2::lemma_pow2_strictly_increases(1074, (-e) as nat);
        reveal(pow);
        let p: int = pow(10, (-e) as nat);
        let s: int = scaled(m);
        let u: int = pow2(1074) as int;
        assert(s * p >= p) by (nonlinear_arith)
            requires
                s >= 1,
                p >= 0,
        ;
        assert(1 * (1 * u) == u) by (nonlinear_arith);
    }
}

// ---------------------------------------------------------------------
// The computation
// ---------------------------------------------------------------------

/// Where `n` times ten to the power `e` stands relative to `factor` times a
/// magnitude.
fn order_multiple(n: u64, e: i64, factor: u32, m: u64) -> (place: Place)
    requires
        m < INFINITY,
        -3000 <= e <= 3000,
    ensures
        place == int_place(n * tens_den(e as int), factor * tens_num(m as int, e as int)),
{
    let (s, power): (u64, i64) = parts(m);
    let mut multiple: Big = Big::from_u64(n);
    let mut given: Big = Big::from_u64(s);
    given.scale(factor, 0);
    if e > 0 {
        multiple.scale_often(10, e as u128);
    } else {
        given.scale_often(10, (-e) as u128);
    }
    if power > 1074 {
        given.double_often((power - 1074) as u32);
    } else {
        multiple.double_often((1074 - power) as u32);
    }
    proof {
        vstd::arithmetic::power::lemma_pow0(10);
        let x: int = pow(10, not_below_zero(e as int));
        let y: int = pow(10, not_below_zero(-(e as int)));
        let f: int = factor as int;
        let g: nat = if power > 1074 {
            1074
        } else {
            power as nat
        };
        let common: int = pow2(g) as int;
        let a: int = pow2((1074 - g) as nat) as int;
        let b: int = pow2((power - g) as nat) as int;
        lemma_pow2_adds((1074 - g) as nat, g);
        lemma_pow2_adds((power - g) as nat, g);
        lemma_pow2_pos(g);
        vstd::arithmetic::power2::lemma2_to64();
        let left: int = multiple@ as int;
        let right: int = given@ as int;
        assert(left == n * x * a) by {
            assert(n * 1 == n) by (nonlinear_arith);
            assert(n * x * 1 == n * x) by (nonlinear_arith);
        }
        assert(right == s * f * y * b) by {
            assert(s * f * 1 == s * f) by (nonlinear_arith);
            assert(s * f * y * 1 == s * f * y) by (nonlinear_arith);
        }
        assert(n * (x * (a * common)) == left * common) by (nonlinear_arith)
            requires
                left == n * x * a,
        ;
        assert(f * (s * (b * common) * y) == right * common) by (nonlinear_arith)
            requires
                right == s * f * y * b,
        ;
        assert((left < right ==> left * common < right * common) && (left > right ==> left * common
            > right * common)) by (nonlinear_arith)
            requires
                common > 0,
        ;
    }
    multiple.order(&given)
}

/// Whether ten to the power `e` goes into a magnitude `n` times.
fn goes_in(m: u64, n: u64, e: i64) -> (result: bool)
    requires
        m < INFINITY,
        -3000 <= e <= 3000,
    ensures
        result == (whole(m as int, e as int) >= n),
{
    proof {
        lemma_whole(m as int, e as int, n as int);
    }
    order_multiple(n, e, 1, m) != Place::After
}

/// The power of ten that the first digit of a magnitude counts.
fn find_lead(m: u64) -> (e: i64)
    requires
        0 < m < INFINITY,
    ensures
        e == lead(m as int),
        leads(m as int, e as int),
        -1100 <= e <= 1100,
{
    let mut e: i64 = 0;
    if goes_in(m, 1, 0) {
        while goes_in(m, 10, e)
            invariant
                0 < m < INFINITY,
                0 <= e <= 1100,
                whole(m as int, e as int) >= 1,
            decreases 1100 - e,
        {
            proof {
                lemma_step(m as int, e as int, 1);
                lemma_upper(m as int, e + 1);
            }
            e = e + 1;
        }
    } else {
        while !goes_in(m, 1, e)
            invariant
                0 < m < INFINITY,
                -1100 <= e <= 0,
                whole(m as int, e as int) < 10,
            decreases e + 1100,
        {
            proof {
                lemma_step(m as int, e - 1, 1);
                lemma_lower(m as int, e as int);
            }
            e = e - 1;
        }
    }
    proof {
        lemma_lead(m as int, e as int);
    }
    e
}

/// The digit that follows `above`, which counts ten to the power `e + 1`.
fn extend(m: u64, above: u64, e: i64) -> (n: u64)
    requires
        m < INFINITY,
        -2000 <= e <= 2000,
        above == whole(m as int, e + 1),
        above < 0x100_0000_0000_0000,
    ensures
        n == whole(m as int, e as int),
        n <= 10 * above + 9,
{
    proof {
        lemma_step(m as int, e as int, above as int);
        lemma_step(m as int, e as int, above + 1);
    }
    let mut n: u64 = 10 * above;
    while n < 10 * above + 9 && goes_in(m, n + 1, e)
        invariant
            m < INFINITY,
            -2000 <= e <= 2000,
            above < 0x100_0000_0000_0000,
            10 * above <= n <= 10 * above + 9,
            n <= whole(m as int, e as int) <= 10 * above + 9,
        decreases 10 * above + 9 - n,
    {
        n = n + 1;
    }
    n
}

/// Whether `n` times ten to the power `e` reads back as the magnitude.
fn check_back(m: u64, n: u64, e: i64) -> (result: bool)
    requires
        m < INFINITY,
        -2000 <= e <= 2000,
    ensures
        result == reads_back(m as int, n as int, e as int),
{
    is_nearest_decimal(Big::from_u64(n), e as i128, m)
}

/// The digits of a magnitude up to its unit, cut off there.
fn cut_digits(m: u64) -> (result: Digits)
    requires
        0 < m < INFINITY,
    ensures
        result.unit == unit(m as int),
        result.digits == whole(m as int, result.unit as int),
        result.digits < 0x200_0000_0000_0000,
        -1200 <= result.unit <= 1200,
{
    let start: i64 = find_lead(m);
    proof {
        lemma_step(m as int, start as int, 1);
        lemma_whole(m as int, start + 1, 0);
        lemma_pow17();
    }
    let mut e: i64 = start;
    let mut n: u64 = extend(m, 0, start);
    let mut left: u32 = 16;
    while left > 0 && !check_back(m, n, e) && !check_back(m, n + 1, e)
        invariant
            0 < m < INFINITY,
            -1100 <= start <= 1100,
            left <= 16,
            e == start - (16 - left),
            n == whole(m as int, e as int),
            n < pow(10, (17 - left) as nat) <= 100_000_000_000_000_000,
            unit(m as int) == unit_from(m as int, e as int, left as nat),
        decreases left,
    {
        proof {
            lemma_pow17();
            reveal(pow);
            vstd::arithmetic::power::lemma_pow_increases(10, (18 - left) as nat, 17);
        }
        n = extend(m, n, e - 1);
        e = e - 1;
        left = left - 1;
    }
    Digits { digits: n, unit: e }
}

proof fn lemma_pow17()
    ensures
        pow(10, 17) == 100_000_000_000_000_000,
        pow(10, 1) == 10,
{
    reveal_with_fuel(pow, 18);
}

/// Where a magnitude stands relative to the middle between two multiples.
fn order_middle(m: u64, cut: &Digits) -> (place: Place)
    requires
        m < INFINITY,
        cut.digits == whole(m as int, cut.unit as int),
        cut.digits < 0x200_0000_0000_0000,
        -2000 <= cut.unit <= 2000,
    ensures
        place == beside_middle(m as int, cut.unit as int),
{
    match order_multiple(2 * cut.digits + 1, cut.unit, 2, m) {
        Place::Before => Place::After,
        Place::Same => Place::Same,
        Place::After => Place::Before,
    }
}

/// The digits of a finite magnitude: correctly rounded to as few as read back.
pub fn round_digits(m: u64) -> (result: Digits)
    requires
        m < INFINITY,
    ensures
        (result.digits as int, result.unit as int) == rounded_digits(m as int),
        -1200 <= result.unit <= 1200,
{
    if m == 0 {
        return Digits { digits: 0, unit: 0 };
    }
    let cut: Digits = cut_digits(m);
    let digits: u64 = match order_middle(m, &cut) {
        Place::Before => cut.digits,
        Place::Same => cut.digits + cut.digits % 2,
        Place::After => cut.digits + 1,
    };
    Digits { digits, unit: cut.unit }
}

/// The digits of a finite magnitude: the nearest of those that read back with as
/// few as possible.
pub fn read_digits(m: u64) -> (result: Digits)
    requires
        m < INFINITY,
    ensures
        (result.digits as int, result.unit as int) == readable_digits(m as int),
        -1200 <= result.unit <= 1200,
{
    if m == 0 {
        return Digits { digits: 0, unit: 0 };
    }
    let cut: Digits = cut_digits(m);
    let below: bool = check_back(m, cut.digits, cut.unit);
    let above: bool = check_back(m, cut.digits + 1, cut.unit);
    let digits: u64 = if below && (!above || order_middle(m, &cut) == Place::Before) {
        cut.digits
    } else {
        cut.digits + 1
    };
    Digits { digits, unit: cut.unit }
}

} // verus!

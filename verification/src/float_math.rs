//! IEEE 754 arithmetic on bit patterns, each result rounded to the nearest
//! number, a tie to the one with the even pattern.

use vstd::arithmetic::power2::{
    lemma_pow2_adds, lemma_pow2_pos, lemma_pow2_strictly_increases, lemma_pow2_unfold, pow2,
};
use vstd::prelude::*;

use crate::float::{HIDDEN, INFINITY, SIGN};

#[allow(unused_imports)]
use crate::float::{finite, magnitude, nan, negative, zero};

verus! {

/// A pattern that is not a number.
pub const NAN: u64 = 0x7ff8_0000_0000_0000;

// ---------------------------------------------------------------------
// Rounding
// ---------------------------------------------------------------------

/// The value of a magnitude, in units of the smallest positive number; the
/// pattern of infinity counts as the number that would follow the largest one.
pub open spec fn scaled(m: int) -> int {
    if m < HIDDEN {
        m
    } else {
        (HIDDEN + m % HIDDEN as int) * pow2((m / HIDDEN as int - 1) as nat)
    }
}

/// Whether `m` is the magnitude nearest to `num / den` such units, of two that
/// are equally near the even one.
pub open spec fn is_nearest(num: int, den: int, m: int) -> bool {
    &&& 0 <= m <= INFINITY
    &&& m < INFINITY ==> 2 * num < den * (scaled(m) + scaled(m + 1)) || (2 * num == den * (scaled(m)
        + scaled(m + 1)) && m % 2 == 0)
    &&& m > 0 ==> 2 * num > den * (scaled(m - 1) + scaled(m)) || (2 * num == den * (scaled(m - 1)
        + scaled(m)) && m % 2 == 0)
}

/// The magnitude nearest to `num / den` units.
pub open spec fn nearest(num: int, den: int) -> int {
    choose|m: int| is_nearest(num, den, m)
}

/// The value of a significand and its power.
pub proof fn lemma_scaled(e: int, s: int)
    requires
        0 <= e,
        0 <= s <= 2 * HIDDEN,
        e == 0 || s >= HIDDEN,
    ensures
        scaled(e * HIDDEN + s) == s * pow2(e as nat),
{
    let m: int = e * HIDDEN + s;
    vstd::arithmetic::power2::lemma2_to64();
    if s < HIDDEN {
        assert(e * HIDDEN == 0) by (nonlinear_arith)
            requires
                e == 0,
        ;
        assert(s * pow2(0) == s) by (nonlinear_arith)
            requires
                pow2(0) == 1,
        ;
    } else if s < 2 * HIDDEN {
        vstd::arithmetic::div_mod::lemma_fundamental_div_mod_converse(
            m,
            HIDDEN as int,
            e + 1,
            s - HIDDEN,
        );
    } else {
        vstd::arithmetic::div_mod::lemma_fundamental_div_mod_converse(m, HIDDEN as int, e + 2, 0);
        lemma_pow2_unfold((e + 1) as nat);
        assert(HIDDEN * pow2((e + 1) as nat) == s * pow2(e as nat)) by (nonlinear_arith)
            requires
                s == 2 * HIDDEN,
                pow2((e + 1) as nat) == 2 * pow2(e as nat),
        ;
    }
}

proof fn lemma_scaled_step(m: int)
    requires
        m >= 0,
    ensures
        scaled(m) < scaled(m + 1),
{
    let (e, s): (int, int) = if m < HIDDEN {
        (0, m)
    } else {
        (m / HIDDEN as int - 1, HIDDEN + m % HIDDEN as int)
    };
    assert(e * HIDDEN + s == m && 0 <= s < 2 * HIDDEN && 0 <= e && (e == 0 || s >= HIDDEN)) by {
        if m >= HIDDEN {
            vstd::arithmetic::div_mod::lemma_fundamental_div_mod(m, HIDDEN as int);
            assert(m / HIDDEN as int >= 1) by (nonlinear_arith)
                requires
                    m >= HIDDEN,
                    m == HIDDEN * (m / HIDDEN as int) + m % HIDDEN as int,
                    0 <= m % (HIDDEN as int) < HIDDEN,
            ;
            assert(e * HIDDEN + s == m) by (nonlinear_arith)
                requires
                    e == m / HIDDEN as int - 1,
                    s == HIDDEN + m % HIDDEN as int,
                    m == HIDDEN * (m / HIDDEN as int) + m % HIDDEN as int,
            ;
        }
    }
    lemma_scaled(e, s);
    lemma_scaled(e, s + 1);
    lemma_pow2_pos(e as nat);
    assert(s * pow2(e as nat) < (s + 1) * pow2(e as nat)) by (nonlinear_arith)
        requires
            pow2(e as nat) > 0,
    ;
}

/// A larger magnitude has a larger value.
pub proof fn lemma_scaled_monotone(m: int, n: int)
    requires
        0 <= m <= n,
    ensures
        scaled(m) <= scaled(n),
        m < n ==> scaled(m) < scaled(n),
    decreases n - m,
{
    if m < n {
        lemma_scaled_monotone(m, n - 1);
        lemma_scaled_step(n - 1);
    }
}

/// At most one magnitude is nearest.
pub proof fn lemma_nearest_unique(num: int, den: int, m: int, n: int)
    requires
        den > 0,
        is_nearest(num, den, m),
        is_nearest(num, den, n),
    ensures
        m == n,
{
    lemma_nearest_ordered(num, den, m, n);
    lemma_nearest_ordered(num, den, n, m);
}

proof fn lemma_nearest_ordered(num: int, den: int, m: int, n: int)
    requires
        den > 0,
        is_nearest(num, den, m),
        is_nearest(num, den, n),
    ensures
        m >= n,
{
    if m < n {
        lemma_scaled_monotone(m, n - 1);
        lemma_scaled_monotone(m + 1, n);
        let low: int = scaled(m) + scaled(m + 1);
        let high: int = scaled(n - 1) + scaled(n);
        if n == m + 1 {
            assert(m % 2 == 0 && n % 2 == 0);
        } else {
            assert(low < high);
            assert(den * low < den * high) by (nonlinear_arith)
                requires
                    low < high,
                    den > 0,
            ;
        }
    }
}

/// What a bracket of one step and the comparison with its middle decide.
proof fn lemma_rounded(num: int, den: int, s: int, e: int, up: bool)
    requires
        den > 0,
        0 <= e,
        0 <= s < 2 * HIDDEN,
        e == 0 || s >= HIDDEN,
        s * pow2(e as nat) * den <= num,
        num < (s + 1) * pow2(e as nat) * den,
        up <==> 2 * num > (2 * s + 1) * pow2(e as nat) * den || (2 * num == (2 * s + 1) * pow2(
            e as nat,
        ) * den && s % 2 == 1),
    ensures
        ({
            let m: int = e * HIDDEN + s + if up {
                1int
            } else {
                0
            };
            is_nearest(
                num,
                den,
                if m > INFINITY {
                    INFINITY as int
                } else {
                    m
                },
            )
        }),
{
    let u: int = pow2(e as nat) as int;
    let low: int = e * HIDDEN + s;
    lemma_pow2_pos(e as nat);
    lemma_scaled(e, s);
    lemma_scaled(e, s + 1);
    let a: int = scaled(low);
    let b: int = scaled(low + 1);
    assert(e * HIDDEN >= 0) by (nonlinear_arith)
        requires
            e >= 0,
    ;
    assert(low % 2 == s % 2) by (nonlinear_arith)
        requires
            low == e * HIDDEN + s,
            HIDDEN == 2 * 0x8_0000_0000_0000,
    ;
    assert(den * (a + b) == (2 * s + 1) * u * den) by (nonlinear_arith)
        requires
            a == s * u,
            b == (s + 1) * u,
    ;
    assert(den * a == s * u * den) by (nonlinear_arith)
        requires
            a == s * u,
    ;
    assert(den * b == (s + 1) * u * den) by (nonlinear_arith)
        requires
            b == (s + 1) * u,
    ;
    let m: int = if up {
        low + 1
    } else {
        low
    };
    if m > INFINITY {
        let top: int = INFINITY as int;
        lemma_scaled_monotone(top, low);
        lemma_scaled_monotone(top - 1, top);
        let c: int = scaled(top - 1) + scaled(top);
        assert(c < 2 * a);
        assert(den * c < 2 * (den * a)) by (nonlinear_arith)
            requires
                c < 2 * a,
                den > 0,
        ;
    } else if up {
        lemma_scaled_step(low + 1);
        let c: int = scaled(low + 1) + scaled(low + 2);
        assert(2 * (den * b) < den * c) by (nonlinear_arith)
            requires
                2 * b < c,
                den > 0,
        ;
    } else if low > 0 {
        lemma_scaled_step(low - 1);
        let c: int = scaled(low - 1) + scaled(low);
        assert(den * c < 2 * (den * a)) by (nonlinear_arith)
            requires
                c < 2 * a,
                den > 0,
        ;
    }
}

/// Two to the power `k`.
fn two_to(k: u32) -> (result: u128)
    requires
        k < 128,
    ensures
        result == pow2(k as nat),
        result >= 1,
{
    let mut result: u128 = 1;
    let mut i: u32 = 0;
    proof {
        vstd::arithmetic::power2::lemma2_to64();
        vstd::arithmetic::power2::lemma2_to64_rest();
        lemma_pow2_adds(63, 64);
        assert(pow2(127) == 0x8000_0000_0000_0000_0000_0000_0000_0000);
    }
    while i < k
        invariant
            i <= k < 128,
            result == pow2(i as nat),
            result >= 1,
            pow2(127) == 0x8000_0000_0000_0000_0000_0000_0000_0000,
        decreases k - i,
    {
        proof {
            lemma_pow2_unfold((i + 1) as nat);
            if i < 126 {
                lemma_pow2_strictly_increases((i + 1) as nat, 127);
            }
        }
        result = result * 2;
        i = i + 1;
    }
    result
}

/// The number of binary digits.
fn bit_length(n: u128) -> (len: u32)
    requires
        0 < n,
    ensures
        1 <= len <= 128,
        pow2((len - 1) as nat) <= n < pow2(len as nat),
{
    let mut rest: u128 = n;
    let mut len: u32 = 1;
    proof {
        vstd::arithmetic::power2::lemma2_to64();
        lemma_pow2_adds(64, 64);
        assert(n * pow2(0) == n) by (nonlinear_arith)
            requires
                pow2(0) == 1,
        ;
    }
    while rest > 1
        invariant
            rest >= 1,
            1 <= len,
            pow2(0) == 1,
            pow2(1) == 2,
            pow2(128) == 0x1_0000_0000_0000_0000_0000_0000_0000_0000,
            rest * pow2((len - 1) as nat) <= n,
            n < (rest + 1) * pow2((len - 1) as nat),
            len <= 128,
        decreases rest,
    {
        proof {
            lemma_pow2_unfold(len as nat);
            let u: int = pow2((len - 1) as nat) as int;
            let half: int = rest as int / 2;
            assert(half * (2 * u) <= n && n < (half + 1) * (2 * u)) by (nonlinear_arith)
                requires
                    rest * u <= n,
                    n < (rest + 1) * u,
                    half == rest as int / 2,
                    u >= 0,
            ;
            if len == 128 {
                assert(half * (2 * u) >= 2 * u) by (nonlinear_arith)
                    requires
                        half >= 1,
                        u >= 0,
                ;
            }
        }
        rest = rest / 2;
        len = len + 1;
    }
    proof {
        lemma_pow2_unfold(len as nat);
        let u: int = pow2((len - 1) as nat) as int;
        assert(u <= n && n < 2 * u) by (nonlinear_arith)
            requires
                rest == 1,
                rest * u <= n,
                n < (rest + 1) * u,
        ;
    }
    len
}

/// The numerator of `p / q` times two to the power `t`.
pub open spec fn ratio_num(p: int, t: int) -> int {
    if t >= 0 {
        p * pow2(t as nat)
    } else {
        p
    }
}

/// The denominator of `p / q` times two to the power `t`.
pub open spec fn ratio_den(q: int, t: int) -> int {
    if t >= 0 {
        q
    } else {
        q * pow2((-t) as nat)
    }
}

proof fn lemma_ratio_positive(p: int, q: int, t: int)
    requires
        p > 0,
        q > 0,
    ensures
        ratio_num(p, t) > 0,
        ratio_den(q, t) > 0,
{
    if t >= 0 {
        lemma_pow2_pos(t as nat);
        assert(p * pow2(t as nat) > 0) by (nonlinear_arith)
            requires
                p > 0,
                pow2(t as nat) > 0,
        ;
    } else {
        lemma_pow2_pos((-t) as nat);
        assert(q * pow2((-t) as nat) > 0) by (nonlinear_arith)
            requires
                q > 0,
                pow2((-t) as nat) > 0,
        ;
    }
}

/// Halving a ratio.
proof fn lemma_ratio_half(p: int, q: int, x: int, k: int)
    ensures
        ratio_num(p, x) < 2 * k * ratio_den(q, x) <==> ratio_num(p, x - 1) < k * ratio_den(
            q,
            x - 1,
        ),
{
    if x >= 1 {
        lemma_pow2_unfold(x as nat);
        let a: int = ratio_num(p, x - 1);
        assert(ratio_num(p, x) == 2 * a) by (nonlinear_arith)
            requires
                ratio_num(p, x) == p * pow2(x as nat),
                a == p * pow2((x - 1) as nat),
                pow2(x as nat) == 2 * pow2((x - 1) as nat),
        ;
        assert(2 * k * q == 2 * (k * q)) by (nonlinear_arith);
    } else {
        lemma_pow2_unfold((1 - x) as nat);
        vstd::arithmetic::power2::lemma2_to64();
        let b: int = ratio_den(q, x);
        if x == 0 {
            assert(p * pow2(0) == p) by (nonlinear_arith)
                requires
                    pow2(0) == 1,
            ;
            assert(q * pow2(1) == 2 * q) by (nonlinear_arith)
                requires
                    pow2(1) == 2,
            ;
        } else {
            assert(ratio_den(q, x - 1) == 2 * b) by (nonlinear_arith)
                requires
                    ratio_den(q, x - 1) == q * pow2((1 - x) as nat),
                    b == q * pow2((-x) as nat),
                    pow2((1 - x) as nat) == 2 * pow2((-x) as nat),
            ;
        }
        assert(ratio_den(q, x - 1) == 2 * b);
        assert(k * (2 * b) == 2 * k * b) by (nonlinear_arith);
    }
}

proof fn lemma_ratio_smaller(p: int, q: int, x: int, y: int, k: int)
    requires
        p > 0,
        q > 0,
        k > 0,
        y <= x,
        ratio_num(p, x) < k * ratio_den(q, x),
    ensures
        ratio_num(p, y) < k * ratio_den(q, y),
    decreases x - y,
{
    if y < x {
        lemma_ratio_positive(p, q, x);
        assert(k * ratio_den(q, x) <= 2 * k * ratio_den(q, x)) by (nonlinear_arith)
            requires
                k > 0,
                ratio_den(q, x) > 0,
        ;
        lemma_ratio_half(p, q, x, k);
        lemma_ratio_smaller(p, q, x - 1, y, k);
    }
}

/// The numerator and denominator at a power, as far as they are needed.
fn ratio_at(p: u128, q: u128, x: i64, lp: u32, lq: u32) -> (parts: (u128, u128))
    requires
        0 < p < pow2(lp as nat),
        0 < q < pow2(lq as nat),
        lp <= 120,
        lq <= 54,
        x >= 0 ==> lp + x <= 120,
        x < 0 ==> lq - x <= 126,
    ensures
        parts.0 == ratio_num(p as int, x as int),
        parts.1 == ratio_den(q as int, x as int),
        parts.0 > 0,
        parts.1 > 0,
        parts.1 < 0x8000_0000_0000_0000_0000_0000_0000_0000,
{
    proof {
        lemma_ratio_positive(p as int, q as int, x as int);
        vstd::arithmetic::power2::lemma2_to64();
        vstd::arithmetic::power2::lemma2_to64_rest();
        lemma_pow2_adds(63, 64);
        if lq < 127 {
            lemma_pow2_strictly_increases(lq as nat, 127);
        }
    }
    if x >= 0 {
        let f: u128 = two_to(x as u32);
        proof {
            lemma_pow2_adds(lp as nat, x as nat);
            if lp + x < 127 {
                lemma_pow2_strictly_increases((lp + x) as nat, 127);
            }
            assert(p * f <= pow2(lp as nat) * pow2(x as nat)) by (nonlinear_arith)
                requires
                    p < pow2(lp as nat),
                    f == pow2(x as nat),
                    f >= 1,
            ;
        }
        (p * f, q)
    } else {
        let f: u128 = two_to((-x) as u32);
        proof {
            lemma_pow2_adds(lq as nat, (-x) as nat);
            if lq - x < 127 {
                lemma_pow2_strictly_increases((lq - x) as nat, 127);
            }
            assert(q * f <= pow2(lq as nat) * pow2((-x) as nat)) by (nonlinear_arith)
                requires
                    q < pow2(lq as nat),
                    f == pow2((-x) as nat),
                    f >= 1,
            ;
        }
        (p, q * f)
    }
}

/// The factor between a ratio at two powers.
proof fn lemma_ratio_factor(p: int, q: int, t: int, x: int) -> (f: int)
    requires
        x <= t,
    ensures
        f > 0,
        ratio_num(p, t) == ratio_num(p, x) * f,
        pow2((t - x) as nat) * ratio_den(q, t) == ratio_den(q, x) * f,
{
    let u: int = pow2((t - x) as nat) as int;
    lemma_pow2_pos((t - x) as nat);
    if x >= 0 {
        lemma_pow2_adds(x as nat, (t - x) as nat);
        assert(p * pow2(t as nat) == p * pow2(x as nat) * u) by (nonlinear_arith)
            requires
                pow2(t as nat) == pow2(x as nat) * u,
        ;
        assert(u * q == q * u) by (nonlinear_arith);
        u
    } else if t >= 0 {
        let f: int = pow2(t as nat) as int;
        lemma_pow2_pos(t as nat);
        lemma_pow2_adds(t as nat, (-x) as nat);
        assert(u * q == q * pow2((-x) as nat) * f) by (nonlinear_arith)
            requires
                u == f * pow2((-x) as nat),
        ;
        f
    } else {
        lemma_pow2_adds((t - x) as nat, (-t) as nat);
        assert(u * (q * pow2((-t) as nat)) == q * pow2((-x) as nat) * 1) by (nonlinear_arith)
            requires
                pow2((-x) as nat) == u * pow2((-t) as nat),
        ;
        1
    }
}

/// The bracket at one power, carried over to another.
proof fn lemma_bracket(num: int, den: int, a: int, b: int, u: int, f: int, s: int, rem: int)
    requires
        f > 0,
        b > 0,
        num == a * f,
        u * den == b * f,
        a == s * b + rem,
        0 <= rem < b,
    ensures
        s * u * den <= num,
        num < (s + 1) * u * den,
        2 * num > (2 * s + 1) * u * den <==> 2 * rem > b,
        2 * num == (2 * s + 1) * u * den <==> 2 * rem == b,
{
    assert(s * u * den == s * b * f) by (nonlinear_arith)
        requires
            u * den == b * f,
    ;
    assert((s + 1) * u * den == (s + 1) * b * f) by (nonlinear_arith)
        requires
            u * den == b * f,
    ;
    assert((2 * s + 1) * u * den == (2 * s + 1) * b * f) by (nonlinear_arith)
        requires
            u * den == b * f,
    ;
    assert(s * b * f <= a * f) by (nonlinear_arith)
        requires
            s * b <= a,
            f > 0,
    ;
    assert(a * f < (s + 1) * b * f) by (nonlinear_arith)
        requires
            a < s * b + b,
            f > 0,
    ;
    let gap: int = 2 * rem - b;
    assert(2 * (a * f) - (2 * s + 1) * b * f == gap * f) by (nonlinear_arith)
        requires
            a == s * b + rem,
            gap == 2 * rem - b,
    ;
    assert(gap > 0 <==> gap * f > 0) by (nonlinear_arith)
        requires
            f > 0,
    ;
    assert(gap == 0 <==> gap * f == 0) by (nonlinear_arith)
        requires
            f > 0,
    ;
}

/// The magnitude of a significand and its power, and one more if it is rounded
/// up; infinity where that is too large.
fn packed(s: u128, e: i64, up: bool) -> (m: u64)
    requires
        0 <= e <= 20_000,
        s < 2 * HIDDEN,
    ensures
        ({
            let exact: int = e * HIDDEN + s + if up {
                1int
            } else {
                0
            };
            m == if exact > INFINITY {
                INFINITY as int
            } else {
                exact
            }
        }),
{
    proof {
        assert(0 <= e * HIDDEN <= 20_000 * HIDDEN) by (nonlinear_arith)
            requires
                0 <= e <= 20_000,
        ;
    }
    let exact: u128 = e as u128 * HIDDEN as u128 + s + if up {
        1
    } else {
        0
    };
    if exact > INFINITY as u128 {
        INFINITY
    } else {
        exact as u64
    }
}

/// The magnitude nearest to `p / q` times two to the power `t`.
#[verifier::rlimit(40)]
pub fn nearest_ratio(p: u128, q: u128, t: i64) -> (m: u64)
    requires
        0 < p < 0x100_0000_0000_0000_0000_0000_0000_0000,
        0 < q < 0x40_0000_0000_0000,
        -9_000 <= t <= 9_000,
    ensures
        m == nearest(ratio_num(p as int, t as int), ratio_den(q as int, t as int)),
        is_nearest(ratio_num(p as int, t as int), ratio_den(q as int, t as int), m as int),
{
    let ghost num: int = ratio_num(p as int, t as int);
    let ghost den: int = ratio_den(q as int, t as int);
    let lp: u32 = bit_length(p);
    let lq: u32 = bit_length(q);
    proof {
        vstd::arithmetic::power2::lemma2_to64();
        vstd::arithmetic::power2::lemma2_to64_rest();
        lemma_pow2_adds(60, 60);
        lemma_ratio_positive(p as int, q as int, t as int);
        if lp > 120 {
            if lp - 1 > 120 {
                lemma_pow2_strictly_increases(120, (lp - 1) as nat);
            }
        }
        if lq > 54 {
            if lq - 1 > 54 {
                lemma_pow2_strictly_increases(54, (lq - 1) as nat);
            }
        }
    }
    let x0: i64 = 53 + lq as i64 - lp as i64;
    let (a0, b0): (u128, u128) = ratio_at(p, q, x0, lp, lq);
    proof {
        lemma_first_quotient(p as int, q as int, lp as int, lq as int);
    }
    let x1: i64 = if a0 / b0 >= 2 * HIDDEN as u128 {
        x0 - 1
    } else {
        x0
    };
    proof {
        let s0: int = a0 as int / b0 as int;
        lemma_quotient_below(a0 as int, b0 as int, 2 * HIDDEN as int);
        lemma_ratio_half(p as int, q as int, x0 as int, 2 * HIDDEN as int);
        lemma_ratio_half(p as int, q as int, x0 as int, HIDDEN as int);
    }
    let x: i64 = if t < x1 {
        t
    } else {
        x1
    };
    let e: i64 = t - x;
    proof {
        lemma_ratio_smaller(p as int, q as int, x1 as int, x as int, 2 * HIDDEN as int);
    }
    if x < 0 && lq as i64 - x > 126 {
        proof {
            lemma_tiny(p as int, q as int, lq as int, x as int);
            let b: int = ratio_den(q as int, x as int);
            let f: int = lemma_ratio_factor(p as int, q as int, t as int, x as int);
            lemma_bracket(num, den, p as int, b, pow2(e as nat) as int, f, 0, p as int);
            lemma_rounded(num, den, 0, e as int, false);
            lemma_nearest_unique(num, den, 0, nearest(num, den));
        }
        return 0;
    }
    let (a, b): (u128, u128) = ratio_at(p, q, x, lp, lq);
    let s: u128 = a / b;
    let rem: u128 = a % b;
    let up: bool = rem > b - rem || (rem == b - rem && s % 2 == 1);
    proof {
        lemma_quotient_below(a as int, b as int, 2 * HIDDEN as int);
        if e > 0 {
            lemma_quotient_below(a as int, b as int, HIDDEN as int);
        }
        vstd::arithmetic::div_mod::lemma_fundamental_div_mod(a as int, b as int);
        assert(a == s * b + rem) by (nonlinear_arith)
            requires
                a == b * s + rem,
        ;
        let f: int = lemma_ratio_factor(p as int, q as int, t as int, x as int);
        lemma_bracket(
            num,
            den,
            a as int,
            b as int,
            pow2(e as nat) as int,
            f,
            s as int,
            rem as int,
        );
        lemma_rounded(num, den, s as int, e as int, up);
    }
    let m: u64 = packed(s, e, up);
    proof {
        lemma_nearest_unique(num, den, m as int, nearest(num, den));
    }
    m
}

/// A quotient is below a bound where the dividend is below that many divisors.
pub proof fn lemma_quotient_below(a: int, b: int, k: int)
    requires
        a >= 0,
        b > 0,
    ensures
        a < k * b <==> a / b < k,
{
    vstd::arithmetic::div_mod::lemma_fundamental_div_mod(a, b);
    let s: int = a / b;
    let r: int = a % b;
    assert(a < k * b <==> s < k) by (nonlinear_arith)
        requires
            a == b * s + r,
            0 <= r < b,
    ;
}

/// The first quotient has 53 or 54 binary digits.
proof fn lemma_first_quotient(p: int, q: int, lp: int, lq: int)
    requires
        1 <= lp,
        1 <= lq,
        pow2((lp - 1) as nat) <= p < pow2(lp as nat),
        pow2((lq - 1) as nat) <= q < pow2(lq as nat),
    ensures
        ratio_num(p, 53 + lq - lp) < 4 * HIDDEN * ratio_den(q, 53 + lq - lp),
        ratio_num(p, 53 + lq - lp) >= HIDDEN * ratio_den(q, 53 + lq - lp),
{
    let x: int = 53 + lq - lp;
    vstd::arithmetic::power2::lemma2_to64();
    vstd::arithmetic::power2::lemma2_to64_rest();
    lemma_pow2_pos((lq - 1) as nat);
    lemma_pow2_pos((lp - 1) as nat);
    lemma_pow2_adds(54, (lq - 1) as nat);
    lemma_pow2_adds(52, lq as nat);
    if x >= 0 {
        let f: int = pow2(x as nat) as int;
        lemma_pow2_pos(x as nat);
        lemma_pow2_adds(lp as nat, x as nat);
        lemma_pow2_adds((lp - 1) as nat, x as nat);
        assert(p * f < pow2(54) * pow2((lq - 1) as nat)) by (nonlinear_arith)
            requires
                p < pow2(lp as nat),
                f > 0,
                pow2(lp as nat) * f == pow2(54) * pow2((lq - 1) as nat),
        ;
        assert(pow2(54) * pow2((lq - 1) as nat) <= pow2(54) * q) by (nonlinear_arith)
            requires
                pow2((lq - 1) as nat) <= q,
                pow2(54) >= 0,
        ;
        assert(p * f >= pow2(52) * pow2(lq as nat)) by (nonlinear_arith)
            requires
                p >= pow2((lp - 1) as nat),
                f > 0,
                pow2((lp - 1) as nat) * f == pow2(52) * pow2(lq as nat),
        ;
        assert(pow2(52) * pow2(lq as nat) >= pow2(52) * q) by (nonlinear_arith)
            requires
                pow2(lq as nat) >= q,
                pow2(52) >= 0,
        ;
    } else {
        let f: int = pow2((-x) as nat) as int;
        lemma_pow2_pos((-x) as nat);
        lemma_pow2_adds((53 + lq) as nat, (-x) as nat);
        lemma_pow2_adds((52 + lq) as nat, (-x) as nat);
        assert(pow2(54) * (q * f) >= pow2(54) * pow2((lq - 1) as nat) * f) by (nonlinear_arith)
            requires
                pow2((lq - 1) as nat) <= q,
                f > 0,
                pow2(54) >= 0,
        ;
        assert(pow2(52) * (q * f) <= pow2(52) * pow2(lq as nat) * f) by (nonlinear_arith)
            requires
                pow2(lq as nat) >= q,
                f > 0,
                pow2(52) >= 0,
        ;
        assert(pow2(54) * pow2((lq - 1) as nat) * f == pow2(lp as nat));
        assert(pow2(52) * pow2(lq as nat) * f == pow2((lp - 1) as nat));
    }
}

/// A ratio so small that not even half the smallest number is reached.
proof fn lemma_tiny(p: int, q: int, lq: int, x: int)
    requires
        0 < p < 0x100_0000_0000_0000_0000_0000_0000_0000,
        1 <= lq,
        pow2((lq - 1) as nat) <= q,
        x < 0,
        lq - x > 126,
    ensures
        2 * p < ratio_den(q, x),
        ratio_num(p, x) == p,
{
    vstd::arithmetic::power2::lemma2_to64();
    vstd::arithmetic::power2::lemma2_to64_rest();
    lemma_pow2_adds(63, 63);
    lemma_pow2_adds((lq - 1) as nat, (-x) as nat);
    if lq - 1 - x > 126 {
        lemma_pow2_strictly_increases(126, (lq - 1 - x) as nat);
    }
    lemma_pow2_pos((-x) as nat);
    assert(q * pow2((-x) as nat) >= pow2((lq - 1) as nat) * pow2((-x) as nat)) by (nonlinear_arith)
        requires
            q >= pow2((lq - 1) as nat),
            pow2((-x) as nat) > 0,
    ;
}

// ---------------------------------------------------------------------
// Arithmetic
// ---------------------------------------------------------------------

/// The pattern of a magnitude with a sign.
pub open spec fn signed(minus: bool, m: int) -> u64 {
    if minus {
        (m + SIGN) as u64
    } else {
        m as u64
    }
}

/// The value of a finite pattern, in units of the smallest positive number.
pub open spec fn units(bits: u64) -> int {
    if negative(bits) {
        -scaled(magnitude(bits))
    } else {
        scaled(magnitude(bits))
    }
}

/// The float nearest to an integer.
pub open spec fn float_of_int(n: int) -> u64 {
    if n == 0 {
        0
    } else {
        signed(n < 0, nearest((if n < 0 {
            -n
        } else {
            n
        }) * pow2(1074), 1))
    }
}

/// The pattern with the other sign.
pub open spec fn negated(bits: u64) -> u64 {
    signed(!negative(bits), magnitude(bits))
}

/// The pattern without its sign.
pub open spec fn absolute(bits: u64) -> u64 {
    magnitude(bits) as u64
}

/// The IEEE sum.
pub open spec fn float_sum(a: u64, b: u64) -> u64 {
    if nan(a) || nan(b) {
        NAN
    } else if !finite(a) {
        if !finite(b) && negative(a) != negative(b) {
            NAN
        } else {
            a
        }
    } else if !finite(b) {
        b
    } else {
        let sum: int = units(a) + units(b);
        if sum == 0 {
            signed(negative(a) && negative(b), 0)
        } else if sum < 0 {
            signed(true, nearest(-sum, 1))
        } else {
            signed(false, nearest(sum, 1))
        }
    }
}

/// The IEEE difference.
pub open spec fn float_difference(a: u64, b: u64) -> u64 {
    float_sum(a, negated(b))
}

/// The IEEE quotient.
pub open spec fn float_quotient(a: u64, b: u64) -> u64 {
    let minus: bool = negative(a) != negative(b);
    if nan(a) || nan(b) || (!finite(a) && !finite(b)) || (zero(a) && zero(b)) {
        NAN
    } else if !finite(a) || zero(b) {
        signed(minus, INFINITY as int)
    } else if !finite(b) || zero(a) {
        signed(minus, 0)
    } else {
        signed(minus, nearest(scaled(magnitude(a)) * pow2(1074), scaled(magnitude(b))))
    }
}

/// The pattern of a magnitude with a sign.
fn with_sign(minus: bool, m: u64) -> (bits: u64)
    requires
        m < SIGN,
    ensures
        bits == signed(minus, m as int),
        negative(bits) == minus,
        magnitude(bits) == m,
{
    if minus {
        m + SIGN
    } else {
        m
    }
}

/// The significand and power of a finite magnitude.
pub fn parts(m: u64) -> (result: (u64, i64))
    requires
        m < INFINITY,
    ensures
        result.0 < 2 * HIDDEN,
        0 <= result.1 <= 2046,
        result.1 == 0 || result.0 >= HIDDEN,
        m == result.1 * HIDDEN + result.0,
        scaled(m as int) == result.0 * pow2(result.1 as nat),
        m > 0 ==> result.0 > 0,
{
    let (s, e): (u64, i64) = if m < HIDDEN {
        (m, 0)
    } else {
        (HIDDEN + m % HIDDEN, (m / HIDDEN) as i64 - 1)
    };
    proof {
        if m >= HIDDEN {
            vstd::arithmetic::div_mod::lemma_fundamental_div_mod(m as int, HIDDEN as int);
            assert(m as int == e * HIDDEN + s) by (nonlinear_arith)
                requires
                    m as int == HIDDEN as int * (m as int / HIDDEN as int) + m as int
                        % HIDDEN as int,
                    e == m as int / HIDDEN as int - 1,
                    s == HIDDEN + m as int % HIDDEN as int,
            ;
        }
        lemma_scaled(e as int, s as int);
    }
    (s, e)
}

/// The float nearest to an integer.
pub fn from_integer(n: i128) -> (bits: u64)
    requires
        -0x100_0000_0000_0000_0000_0000_0000_0000 < n < 0x100_0000_0000_0000_0000_0000_0000_0000,
    ensures
        bits == float_of_int(n as int),
        !nan(bits),
{
    if n == 0 {
        return 0;
    }
    let size: u128 = if n < 0 {
        (-n) as u128
    } else {
        n as u128
    };
    let m: u64 = nearest_ratio(size, 1, 1074);
    with_sign(n < 0, m)
}

/// The pattern with the other sign.
pub fn negate(bits: u64) -> (result: u64)
    ensures
        result == negated(bits),
{
    if bits >= SIGN {
        bits - SIGN
    } else {
        bits + SIGN
    }
}

/// The larger of two finite magnitudes of very different size is the one that
/// is nearest to their sum and to their difference.
proof fn lemma_far_apart(ma: int, sa: int, ea: int, small: int)
    requires
        0 <= ma < INFINITY,
        ma == ea * HIDDEN + sa,
        HIDDEN <= sa < 2 * HIDDEN,
        ea >= 1,
        0 <= small,
        8 * small < pow2(ea as nat),
    ensures
        is_nearest(sa * pow2(ea as nat) + small, 1, ma),
        is_nearest(sa * pow2(ea as nat) - small, 1, ma),
        sa * pow2(ea as nat) - small > 0,
{
    let u: int = pow2(ea as nat) as int;
    lemma_pow2_pos(ea as nat);
    lemma_scaled(ea, sa);
    lemma_scaled(ea, sa + 1);
    let here: int = sa * u;
    let above: int = (sa + 1) * u;
    assert(above == here + u) by (nonlinear_arith)
        requires
            above == (sa + 1) * u,
            here == sa * u,
    ;
    assert(here >= u) by (nonlinear_arith)
        requires
            here == sa * u,
            sa >= 1,
            u > 0,
    ;
    let below: int = scaled(ma - 1);
    if sa > HIDDEN {
        lemma_scaled(ea, sa - 1);
        assert(below == here - u) by (nonlinear_arith)
            requires
                below == (sa - 1) * u,
                here == sa * u,
        ;
    } else {
        lemma_pow2_unfold(ea as nat);
        let h: int = pow2((ea - 1) as nat) as int;
        lemma_scaled(ea - 1, 2 * HIDDEN - 1);
        assert(ma - 1 == (ea - 1) * HIDDEN + (2 * HIDDEN - 1)) by (nonlinear_arith)
            requires
                ma == ea * HIDDEN + sa,
                sa == HIDDEN,
        ;
        assert(below == here - h) by (nonlinear_arith)
            requires
                below == (2 * HIDDEN - 1) * h,
                here == sa * u,
                sa == HIDDEN,
                u == 2 * h,
        ;
        assert(u == 2 * h);
    }
    assert(4 * small < 2 * (here - below));
}

/// The IEEE sum of finite patterns, the first of no smaller power than the
/// second.
#[verifier::rlimit(40)]
fn finite_sum(a: u64, b: u64) -> (sum: u64)
    requires
        finite(a),
        finite(b),
        magnitude(a) >= magnitude(b),
    ensures
        sum == float_sum(a, b),
{
    let ma: u64 = a % SIGN;
    let mb: u64 = b % SIGN;
    let minus_a: bool = a >= SIGN;
    let minus_b: bool = b >= SIGN;
    let (sa, ea): (u64, i64) = parts(ma);
    let (sb, eb): (u64, i64) = parts(mb);
    let ghost ua: int = pow2(ea as nat) as int;
    let ghost ub: int = pow2(eb as nat) as int;
    proof {
        lemma_pow2_pos(ea as nat);
        lemma_pow2_pos(eb as nat);
        lemma_scaled_monotone(mb as int, ma as int);
        if ea < eb {
            assert(ma < mb) by (nonlinear_arith)
                requires
                    ma == ea * HIDDEN + sa,
                    mb == eb * HIDDEN + sb,
                    ea + 1 <= eb,
                    sa < 2 * HIDDEN,
                    sb >= HIDDEN,
            ;
        }
    }
    let gap: i64 = ea - eb;
    if gap > 64 {
        proof {
            vstd::arithmetic::power2::lemma2_to64();
            lemma_pow2_adds(eb as nat, 64);
            lemma_pow2_strictly_increases((eb + 64) as nat, ea as nat);
            let small: int = sb * ub;
            assert(8 * small < ua) by (nonlinear_arith)
                requires
                    small == sb * ub,
                    sb < 2 * HIDDEN,
                    ub > 0,
                    ub * 0x1_0000_0000_0000_0000 < ua,
            ;
            assert(small >= 0) by (nonlinear_arith)
                requires
                    small == sb * ub,
                    sb >= 0,
                    ub > 0,
            ;
            lemma_far_apart(ma as int, sa as int, ea as int, small);
            lemma_nearest_unique(sa * ua + small, 1, ma as int, nearest(sa * ua + small, 1));
            lemma_nearest_unique(sa * ua - small, 1, ma as int, nearest(sa * ua - small, 1));
            if minus_a == minus_b {
                assert(units(a) + units(b) == if minus_a {
                    -(sa * ua + small)
                } else {
                    sa * ua + small
                });
            } else {
                assert(units(a) + units(b) == if minus_a {
                    -(sa * ua - small)
                } else {
                    sa * ua - small
                });
            }
        }
        return a;
    }
    let factor: u128 = two_to(gap as u32);
    proof {
        vstd::arithmetic::power2::lemma2_to64();
        if gap < 64 {
            lemma_pow2_strictly_increases(gap as nat, 64);
        }
        lemma_pow2_adds(eb as nat, gap as nat);
        assert(sa * factor <= 2 * HIDDEN * 0x1_0000_0000_0000_0000) by (nonlinear_arith)
            requires
                sa < 2 * HIDDEN,
                1 <= factor <= 0x1_0000_0000_0000_0000,
        ;
    }
    let big: u128 = sa as u128 * factor;
    proof {
        assert(big * ub == sa * ua) by (nonlinear_arith)
            requires
                big == sa * factor,
                ua == ub * factor,
        ;
        if big < sb {
            assert(sa * ua < sb * ub) by (nonlinear_arith)
                requires
                    big * ub == sa * ua,
                    big < sb,
                    ub > 0,
            ;
        }
    }
    let n: u128 = if minus_a == minus_b {
        big + sb as u128
    } else {
        big - sb as u128
    };
    let ghost total: int = units(a) + units(b);
    proof {
        assert(n * ub == if minus_a == minus_b {
            sa * ua + sb * ub
        } else {
            sa * ua - sb * ub
        }) by (nonlinear_arith)
            requires
                big * ub == sa * ua,
                n == if minus_a == minus_b {
                    big + sb
                } else {
                    big - sb
                },
        ;
        assert(total == if minus_a {
            -(n * ub)
        } else {
            n * ub
        });
    }
    if n == 0 {
        proof {
            assert(total == 0);
        }
        return with_sign(minus_a && minus_b, 0);
    }
    proof {
        assert(n * ub > 0) by (nonlinear_arith)
            requires
                n > 0,
                ub > 0,
        ;
    }
    let m: u64 = nearest_ratio(n, 1, eb);
    with_sign(minus_a, m)
}

/// The IEEE sum.
pub fn add_floats(a: u64, b: u64) -> (sum: u64)
    ensures
        sum == float_sum(a, b),
{
    let ma: u64 = a % SIGN;
    let mb: u64 = b % SIGN;
    if ma > INFINITY || mb > INFINITY {
        return NAN;
    }
    if ma == INFINITY {
        if mb == INFINITY && (a >= SIGN) != (b >= SIGN) {
            return NAN;
        }
        return a;
    }
    if mb == INFINITY {
        return b;
    }
    if ma >= mb {
        finite_sum(a, b)
    } else {
        finite_sum(b, a)
    }
}

/// The IEEE difference.
pub fn subtract_floats(a: u64, b: u64) -> (difference: u64)
    ensures
        difference == float_difference(a, b),
{
    add_floats(a, negate(b))
}

/// Ratios that are the same are rounded the same.
proof fn lemma_same_ratio(num: int, den: int, p: int, q: int, k: int, m: int)
    requires
        k > 0,
        num == p * k,
        den == q * k,
        is_nearest(p, q, m),
    ensures
        is_nearest(num, den, m),
{
    let up: int = scaled(m) + scaled(m + 1);
    let down: int = scaled(m - 1) + scaled(m);
    assert(den * up == q * up * k && den * down == q * down * k) by (nonlinear_arith)
        requires
            den == q * k,
    ;
    let x: int = q * up;
    let y: int = q * down;
    assert((2 * p < x ==> 2 * (p * k) < x * k) && (2 * p == x ==> 2 * (p * k) == x * k) && (2 * p
        > y ==> 2 * (p * k) > y * k) && (2 * p == y ==> 2 * (p * k) == y * k))
        by (nonlinear_arith)
        requires
            k > 0,
    ;
}

/// The IEEE quotient.
#[verifier::rlimit(40)]
pub fn divide_floats(a: u64, b: u64) -> (quotient: u64)
    ensures
        quotient == float_quotient(a, b),
{
    let ma: u64 = a % SIGN;
    let mb: u64 = b % SIGN;
    let minus: bool = (a >= SIGN) != (b >= SIGN);
    if ma > INFINITY || mb > INFINITY || (ma == INFINITY && mb == INFINITY) || (ma == 0 && mb == 0) {
        return NAN;
    }
    if ma == INFINITY || mb == 0 {
        return with_sign(minus, INFINITY);
    }
    if mb == INFINITY || ma == 0 {
        return with_sign(minus, 0);
    }
    let (sa, ea): (u64, i64) = parts(ma);
    let (sb, eb): (u64, i64) = parts(mb);
    let t: i64 = ea - eb + 1074;
    let m: u64 = nearest_ratio(sa as u128, sb as u128, t);
    proof {
        let num: int = scaled(ma as int) * pow2(1074);
        let den: int = scaled(mb as int);
        let p: int = ratio_num(sa as int, t as int);
        let q: int = ratio_den(sb as int, t as int);
        lemma_pow2_adds(ea as nat, 1074);
        lemma_pow2_pos(eb as nat);
        lemma_pow2_pos((ea + 1074) as nat);
        let top: int = pow2((ea + 1074) as nat) as int;
        assert(num == sa * top) by (nonlinear_arith)
            requires
                num == sa * pow2(ea as nat) * pow2(1074),
                top == pow2(ea as nat) * pow2(1074),
        ;
        assert(den > 0) by (nonlinear_arith)
            requires
                den == sb * pow2(eb as nat),
                sb > 0,
                pow2(eb as nat) > 0,
        ;
        if t >= 0 {
            let k: int = pow2(eb as nat) as int;
            lemma_pow2_adds(t as nat, eb as nat);
            assert(num == p * k) by (nonlinear_arith)
                requires
                    num == sa * top,
                    top == pow2(t as nat) * k,
                    p == sa * pow2(t as nat),
            ;
            lemma_same_ratio(num, den, p, q, k, m as int);
        } else {
            lemma_pow2_adds((-t) as nat, (ea + 1074) as nat);
            assert(den == q * top) by (nonlinear_arith)
                requires
                    den == sb * pow2(eb as nat),
                    pow2(eb as nat) == pow2((-t) as nat) * top,
                    q == sb * pow2((-t) as nat),
            ;
            lemma_same_ratio(num, den, p, q, top, m as int);
        }
        lemma_nearest_unique(num, den, m as int, nearest(num, den));
    }
    with_sign(minus, m)
}

// ---------------------------------------------------------------------
// Integers
// ---------------------------------------------------------------------

/// The integer that is left of a float when its fraction is cut off; none
/// unless the float is within the range of 64 bits.
pub open spec fn float_cut(bits: u64) -> Option<int> {
    let size: int = scaled(magnitude(bits));
    let whole: int = size / pow2(1074) as int;
    let end: int = 0x8000_0000_0000_0000 * pow2(1074) as int;
    if !finite(bits) || size > end || (size == end && !negative(bits)) {
        None
    } else if negative(bits) {
        Some(-whole)
    } else {
        Some(whole)
    }
}

/// The quotient of products with a common factor.
proof fn lemma_common_factor(s: int, u: int, k: int)
    requires
        s >= 0,
        u > 0,
        k > 0,
    ensures
        (s * u) / (u * k) == s / k,
        u * k > 0,
{
    vstd::arithmetic::div_mod::lemma_fundamental_div_mod(s, k);
    let q: int = s / k;
    let r: int = s % k;
    assert(u * k > 0) by (nonlinear_arith)
        requires
            u > 0,
            k > 0,
    ;
    assert(s * u == q * (u * k) + r * u && 0 <= r * u && r * u < u * k) by (nonlinear_arith)
        requires
            s == k * q + r,
            0 <= r < k,
            u > 0,
    ;
    vstd::arithmetic::div_mod::lemma_fundamental_div_mod_converse(s * u, u * k, q, r * u);
}

/// The integer that is left of a float when its fraction is cut off.
pub fn cut_float(bits: u64) -> (result: Option<i64>)
    ensures
        match result {
            Some(n) => float_cut(bits) == Some(n as int),
            None => float_cut(bits) is None,
        },
{
    let m: u64 = bits % SIGN;
    if m >= INFINITY {
        return None;
    }
    let (s, e): (u64, i64) = parts(m);
    let ghost unit: int = pow2(1074) as int;
    let ghost size: int = scaled(m as int);
    proof {
        lemma_pow2_pos(1074);
        vstd::arithmetic::power2::lemma2_to64();
        vstd::arithmetic::power2::lemma2_to64_rest();
    }
    let whole: u128;
    if e >= 1074 {
        let k: i64 = e - 1074;
        proof {
            lemma_pow2_adds(k as nat, 1074);
            lemma_pow2_pos(k as nat);
            let v: int = s * pow2(k as nat);
            assert(size == v * unit) by (nonlinear_arith)
                requires
                    size == s * pow2(e as nat),
                    pow2(e as nat) == pow2(k as nat) * unit,
                    v == s * pow2(k as nat),
            ;
            vstd::arithmetic::div_mod::lemma_div_multiples_vanish(v, unit);
            assert(size / unit == v) by {
                assert(v * unit == unit * v) by (nonlinear_arith);
            }
            assert(size > 0x8000_0000_0000_0000 * unit <==> v > 0x8000_0000_0000_0000)
                by (nonlinear_arith)
                requires
                    size == v * unit,
                    unit > 0,
            ;
            assert(size == 0x8000_0000_0000_0000 * unit <==> v == 0x8000_0000_0000_0000)
                by (nonlinear_arith)
                requires
                    size == v * unit,
                    unit > 0,
            ;
            if k > 63 {
                if k > 64 {
                    lemma_pow2_strictly_increases(64, k as nat);
                }
                assert(v > 0x8000_0000_0000_0000) by (nonlinear_arith)
                    requires
                        v == s * pow2(k as nat),
                        s >= HIDDEN,
                        pow2(k as nat) >= 0x1_0000_0000_0000_0000,
                ;
            } else {
                if k < 63 {
                    lemma_pow2_strictly_increases(k as nat, 63);
                }
                assert(v <= 0x1_0000_0000_0000_0000_0000_0000_0000_0000 - 1) by (nonlinear_arith)
                    requires
                        v == s * pow2(k as nat),
                        s < 2 * HIDDEN,
                        pow2(k as nat) <= 0x8000_0000_0000_0000,
                ;
            }
        }
        if k > 63 {
            return None;
        }
        whole = s as u128 * two_to(k as u32);
        if whole > 0x8000_0000_0000_0000 {
            return None;
        }
    } else {
        let k: i64 = 1074 - e;
        proof {
            lemma_pow2_adds(e as nat, k as nat);
            lemma_pow2_pos(k as nat);
            lemma_pow2_pos(e as nat);
            let u: int = pow2(e as nat) as int;
            lemma_common_factor(s as int, u, pow2(k as nat) as int);
            assert(size < 0x8000_0000_0000_0000 * unit) by (nonlinear_arith)
                requires
                    size == s * u,
                    s < 2 * HIDDEN,
                    unit == u * pow2(k as nat),
                    pow2(k as nat) >= 1,
                    u > 0,
            ;
            if k >= 64 {
                if k > 64 {
                    lemma_pow2_strictly_increases(64, k as nat);
                }
                vstd::arithmetic::div_mod::lemma_basic_div(s as int, pow2(k as nat) as int);
            }
        }
        if k >= 64 {
            whole = 0;
        } else {
            whole = s as u128 / two_to(k as u32);
            proof {
                let d: int = pow2(k as nat) as int;
                assert(s as int / d <= s) by (nonlinear_arith)
                    requires
                        d >= 1,
                        s >= 0,
                ;
            }
        }
    }
    if bits >= SIGN {
        Some((-(whole as i128)) as i64)
    } else if whole > 0x7fff_ffff_ffff_ffff {
        None
    } else {
        Some(whole as i64)
    }
}

} // verus!

//! Numbers written down as text.

use vstd::arithmetic::power::pow;
use vstd::arithmetic::power2::pow2;
use vstd::prelude::*;

use crate::big::Big;
use crate::float::{HIDDEN, INFINITY, SIGN};
use crate::order::Place;

#[allow(unused_imports)]
use crate::float::{finite, magnitude, negative};
#[allow(unused_imports)]
use crate::float_math::{is_nearest, scaled};

verus! {

// ---------------------------------------------------------------------
// White space
// ---------------------------------------------------------------------

/// Whether a character is white space.
pub open spec fn space(c: char) -> bool {
    let n: int = c as int;
    9 <= n <= 13 || n == 0x20 || n == 0x85 || n == 0xa0 || n == 0x1680 || 0x2000 <= n <= 0x200a || n
        == 0x2028 || n == 0x2029 || n == 0x202f || n == 0x205f || n == 0x3000
}

/// The text without white space in front.
pub open spec fn trimmed_start(text: Seq<char>) -> Seq<char>
    decreases text.len(),
{
    if text.len() > 0 && space(text[0]) {
        trimmed_start(text.drop_first())
    } else {
        text
    }
}

/// The text without white space behind.
pub open spec fn trimmed_end(text: Seq<char>) -> Seq<char>
    decreases text.len(),
{
    if text.len() > 0 && space(text.last()) {
        trimmed_end(text.drop_last())
    } else {
        text
    }
}

/// The text without white space about it.
pub open spec fn trimmed(text: Seq<char>) -> Seq<char> {
    trimmed_end(trimmed_start(text))
}

fn is_space(c: char) -> (result: bool)
    ensures
        result == space(c),
{
    let n: u32 = c as u32;
    (9 <= n && n <= 13) || n == 0x20 || n == 0x85 || n == 0xa0 || n == 0x1680 || (0x2000 <= n && n
        <= 0x200a) || n == 0x2028 || n == 0x2029 || n == 0x202f || n == 0x205f || n == 0x3000
}

/// The bounds of a text without the white space about it.
fn trim(chars: &Vec<char>) -> (bounds: (usize, usize))
    ensures
        bounds.0 <= bounds.1 <= chars@.len(),
        chars@.subrange(bounds.0 as int, bounds.1 as int) == trimmed(chars@),
{
    let ghost all: Seq<char> = chars@;
    let mut start: usize = 0;
    proof {
        assert(all.skip(0) =~= all);
    }
    while start < chars.len() && is_space(chars[start])
        invariant
            start <= chars.len(),
            all == chars@,
            trimmed_start(all.skip(start as int)) == trimmed_start(all),
        decreases chars.len() - start,
    {
        proof {
            assert(all.skip(start as int).drop_first() =~= all.skip(start as int + 1));
        }
        start = start + 1;
    }
    let mut end: usize = chars.len();
    proof {
        assert(trimmed_start(all) == all.skip(start as int));
        assert(all.subrange(start as int, end as int) =~= all.skip(start as int));
    }
    while end > start && is_space(chars[end - 1])
        invariant
            start <= end <= chars.len(),
            all == chars@,
            trimmed_end(all.subrange(start as int, end as int)) == trimmed(all),
        decreases end - start,
    {
        proof {
            assert(all.subrange(start as int, end as int).drop_last() =~= all.subrange(
                start as int,
                end as int - 1,
            ));
        }
        end = end - 1;
    }
    (start, end)
}

// ---------------------------------------------------------------------
// Digits
// ---------------------------------------------------------------------

/// Whether a character is a decimal digit.
pub open spec fn is_digit(c: char) -> bool {
    '0' as int <= c as int <= '9' as int
}

/// How many digits stand from a position on.
pub open spec fn digits_from(text: Seq<char>, i: int) -> int
    decreases text.len() - i,
{
    if 0 <= i < text.len() && is_digit(text[i]) {
        1 + digits_from(text, i + 1)
    } else {
        0
    }
}

/// The number that digits stand for.
pub open spec fn digits_value(text: Seq<char>) -> nat
    decreases text.len(),
{
    if text.len() == 0 {
        0
    } else {
        10 * digits_value(text.drop_last()) + (text.last() as int - '0' as int) as nat
    }
}

fn digit_at(c: char) -> (result: bool)
    ensures
        result == is_digit(c),
{
    let n: u32 = c as u32;
    48 <= n && n <= 57
}

/// The position behind the digits from a position on.
fn past_digits(chars: &Vec<char>, from: usize, end: usize) -> (at: usize)
    requires
        from <= end <= chars@.len(),
    ensures
        from <= at <= end,
        at - from == digits_from(chars@.take(end as int), from as int),
        forall|k: int| from <= k < at ==> is_digit(#[trigger] chars@[k]),
{
    let ghost text: Seq<char> = chars@.take(end as int);
    let mut at: usize = from;
    while at < end && digit_at(chars[at])
        invariant
            from <= at <= end <= chars@.len(),
            text == chars@.take(end as int),
            at - from + digits_from(text, at as int) == digits_from(text, from as int),
            forall|k: int| from <= k < at ==> is_digit(#[trigger] chars@[k]),
        decreases end - at,
    {
        at = at + 1;
    }
    at
}

// ---------------------------------------------------------------------
// Integers
// ---------------------------------------------------------------------

/// Whether a text begins with a sign.
pub open spec fn has_sign(text: Seq<char>) -> bool {
    text.len() > 0 && (text[0] == '+' || text[0] == '-')
}

/// The text behind its sign.
pub open spec fn past_sign(text: Seq<char>) -> Seq<char> {
    if has_sign(text) {
        text.drop_first()
    } else {
        text
    }
}

/// The integer that a text writes down: an optional sign and digits, within the
/// range of 64 bits.
pub open spec fn int_of_text(text: Seq<char>) -> Option<int> {
    let digits: Seq<char> = past_sign(text);
    let size: int = digits_value(digits) as int;
    let n: int = if has_sign(text) && text[0] == '-' {
        -size
    } else {
        size
    };
    if digits.len() > 0 && digits_from(digits, 0) == digits.len() && i64::MIN <= n <= i64::MAX {
        Some(n)
    } else {
        None
    }
}

/// The value of digits, or a bound where it is larger.
fn bounded_value(chars: &Vec<char>, from: usize, to: usize, bound: u128) -> (value: u128)
    requires
        from <= to <= chars@.len(),
        forall|k: int| from <= k < to ==> is_digit(#[trigger] chars@[k]),
        bound <= 0x100_0000_0000_0000_0000_0000,
    ensures
        value == if digits_value(chars@.subrange(from as int, to as int)) > bound {
            bound as nat
        } else {
            digits_value(chars@.subrange(from as int, to as int))
        },
{
    let ghost all: Seq<char> = chars@;
    let mut value: u128 = 0;
    let mut i: usize = from;
    proof {
        assert(all.subrange(from as int, from as int) =~= Seq::<char>::empty());
    }
    while i < to
        invariant
            from <= i <= to <= chars@.len(),
            all == chars@,
            bound <= 0x100_0000_0000_0000_0000_0000,
            forall|k: int| from <= k < to ==> is_digit(#[trigger] chars@[k]),
            value <= bound,
            value == if digits_value(all.subrange(from as int, i as int)) > bound {
                bound as nat
            } else {
                digits_value(all.subrange(from as int, i as int))
            },
        decreases to - i,
    {
        let d: u128 = (chars[i] as u32 - 48) as u128;
        proof {
            let upto: Seq<char> = all.subrange(from as int, i as int + 1);
            assert(upto.drop_last() =~= all.subrange(from as int, i as int));
            assert(upto.last() == all[i as int]);
        }
        let next: u128 = value * 10 + d;
        value = if next > bound {
            bound
        } else {
            next
        };
        i = i + 1;
    }
    value
}

/// The integer that a text writes down, white space about it aside.
pub fn parse_integer(text: &str) -> (result: Option<i64>)
    ensures
        match result {
            Some(n) => int_of_text(trimmed(text@)) == Some(n as int),
            None => int_of_text(trimmed(text@)) is None,
        },
{
    let chars: Vec<char> = crate::text::chars_of(text);
    let (start, end): (usize, usize) = trim(&chars);
    let ghost body: Seq<char> = trimmed(text@);
    let signed: bool = start < end && (chars[start] == '+' || chars[start] == '-');
    let minus: bool = start < end && chars[start] == '-';
    let from: usize = if signed {
        start + 1
    } else {
        start
    };
    let at: usize = past_digits(&chars, from, end);
    let ghost digits: Seq<char> = chars@.subrange(from as int, end as int);
    proof {
        assert(past_sign(body) =~= digits);
        lemma_digits_shift(chars@.take(end as int), from as int, digits, 0);
    }
    if at == from || at < end {
        return None;
    }
    let size: u128 = bounded_value(&chars, from, end, 0x1_0000_0000_0000_0000);
    if minus {
        if size > 0x8000_0000_0000_0000 {
            None
        } else {
            Some((-(size as i128)) as i64)
        }
    } else if size > 0x7fff_ffff_ffff_ffff {
        None
    } else {
        Some(size as i64)
    }
}

/// The digits from a position on are those of the text from there on.
proof fn lemma_digits_shift(text: Seq<char>, from: int, part: Seq<char>, k: int)
    requires
        0 <= from,
        0 <= k,
        from + part.len() == text.len(),
        forall|i: int| 0 <= i < part.len() ==> #[trigger] part[i] == text[from + i],
    ensures
        digits_from(text, from + k) == digits_from(part, k),
    decreases part.len() - k,
{
    if k < part.len() {
        assert(part[k] == text[from + k]);
        if is_digit(part[k]) {
            lemma_digits_shift(text, from, part, k + 1);
        }
    }
}

// ---------------------------------------------------------------------
// Floats
// ---------------------------------------------------------------------

/// A decimal number: digits, and the power of ten of the last of them.
pub struct Decimal {
    pub minus: bool,
    pub digits: nat,
    pub exponent: int,
}

/// The exponent behind an `e`: an optional sign and digits.
#[verifier::opaque]
pub open spec fn exponent_of_text(text: Seq<char>) -> Option<int> {
    let digits: Seq<char> = past_sign(text);
    if digits.len() > 0 && digits_from(digits, 0) == digits.len() {
        Some(
            if has_sign(text) && text[0] == '-' {
                -(digits_value(digits) as int)
            } else {
                digits_value(digits) as int
            },
        )
    } else {
        None
    }
}

/// Where the fraction starts in a text without a sign.
#[verifier::opaque]
pub open spec fn fraction_start(body: Seq<char>) -> int {
    let whole: int = digits_from(body, 0);
    if whole < body.len() && body[whole] == '.' {
        whole + 1
    } else {
        whole
    }
}

/// How many digits the fraction has.
#[verifier::opaque]
pub open spec fn fraction_width(body: Seq<char>) -> int {
    if fraction_start(body) > digits_from(body, 0) {
        digits_from(body, fraction_start(body))
    } else {
        0
    }
}

/// The digits in front of the point and behind it.
#[verifier::opaque]
pub open spec fn mantissa(body: Seq<char>) -> Seq<char> {
    body.take(digits_from(body, 0)) + body.subrange(
        fraction_start(body),
        fraction_start(body) + fraction_width(body),
    )
}

/// The decimal number that a text writes down: an optional sign, digits with an
/// optional point, and an optional exponent.
pub open spec fn decimal_of_text(text: Seq<char>) -> Option<Decimal> {
    let minus: bool = has_sign(text) && text[0] == '-';
    let body: Seq<char> = past_sign(text);
    let width: int = fraction_width(body);
    let after: int = fraction_start(body) + width;
    let digits: nat = digits_value(mantissa(body));
    if mantissa(body).len() == 0 {
        None
    } else if after == body.len() {
        Some(Decimal { minus, digits, exponent: -width })
    } else if body[after] == 'e' || body[after] == 'E' {
        match exponent_of_text(body.skip(after + 1)) {
            None => None,
            Some(e) => Some(Decimal { minus, digits, exponent: e - width }),
        }
    } else {
        None
    }
}

/// The number, zero for a negative one.
pub open spec fn not_below_zero(n: int) -> nat {
    if n > 0 {
        n as nat
    } else {
        0
    }
}

/// The numerator of a decimal number, in units of the smallest positive float.
pub open spec fn decimal_num(digits: nat, exponent: int) -> int {
    digits * pow(10, not_below_zero(exponent)) * pow2(1074)
}

/// The denominator of a decimal number.
pub open spec fn decimal_den(exponent: int) -> int {
    pow(10, not_below_zero(-exponent))
}

/// Whether a text, white space about it aside, writes down a number of which a
/// finite float is the nearest one.
pub open spec fn names_float(text: Seq<char>, bits: u64) -> bool {
    match decimal_of_text(trimmed(text)) {
        None => false,
        Some(d) => finite(bits) && is_nearest(
            decimal_num(d.digits, d.exponent),
            decimal_den(d.exponent),
            magnitude(bits),
        ) && (d.minus == negative(bits) || magnitude(bits) == 0),
    }
}

/// Ten to a power is at least two to it.
pub proof fn lemma_ten_exceeds_two(k: nat)
    ensures
        pow(10, k) >= pow2(k) >= 1,
    decreases k,
{
    vstd::arithmetic::power2::lemma_pow2(k);
    vstd::arithmetic::power2::lemma_pow2_pos(k);
    reveal(pow);
    if k > 0 {
        lemma_ten_exceeds_two((k - 1) as nat);
        vstd::arithmetic::power2::lemma_pow2_unfold(k);
    }
}

/// The value of digits is below ten to the power of their number.
proof fn lemma_digits_bound(text: Seq<char>)
    requires
        forall|k: int| 0 <= k < text.len() ==> is_digit(#[trigger] text[k]),
    ensures
        digits_value(text) < pow(10, text.len()),
    decreases text.len(),
{
    reveal(pow);
    if text.len() > 0 {
        assert forall|k: int| 0 <= k < text.drop_last().len() implies is_digit(
            #[trigger] text.drop_last()[k],
        ) by {
            assert(is_digit(text[k]));
        }
        lemma_digits_bound(text.drop_last());
        assert(is_digit(text[text.len() - 1]));
    }
}

/// A decimal number that large is nearest to no finite float.
proof fn lemma_too_large(digits: nat, exponent: int, m: int)
    requires
        digits > 0,
        exponent >= 1024,
        0 <= m < INFINITY,
    ensures
        !is_nearest(decimal_num(digits, exponent), decimal_den(exponent), m),
{
    let top: int = INFINITY as int;
    crate::float_math::lemma_scaled_monotone(m, top);
    crate::float_math::lemma_scaled_monotone(m + 1, top);
    crate::float_math::lemma_scaled(2046, HIDDEN as int);
    vstd::arithmetic::power2::lemma2_to64();
    vstd::arithmetic::power2::lemma2_to64_rest();
    vstd::arithmetic::power2::lemma_pow2_adds(52, 2046);
    vstd::arithmetic::power2::lemma_pow2_adds(1024, 1074);
    lemma_ten_exceeds_two(exponent as nat);
    if exponent > 1024 {
        vstd::arithmetic::power2::lemma_pow2_strictly_increases(1024, exponent as nat);
    }
    vstd::arithmetic::power::lemma_pow0(10);
    let t: int = pow(10, exponent as nat);
    let u: int = pow2(1074) as int;
    vstd::arithmetic::power2::lemma_pow2_pos(1074);
    assert(digits * t * u >= pow2(1024) * u) by (nonlinear_arith)
        requires
            digits >= 1,
            t >= pow2(1024),
            u > 0,
            pow2(1024) >= 0,
    ;
    assert(scaled(top) == pow2(2098));
    assert(2046 * HIDDEN + HIDDEN == top);
    let sum: int = scaled(m) + scaled(m + 1);
    assert(1 * sum == sum) by (nonlinear_arith);
}

/// A decimal number that small is nearest to zero.
proof fn lemma_too_small(num: int, den: int, m: int)
    requires
        0 <= m,
        0 <= 2 * num < den,
    ensures
        is_nearest(num, den, m) <==> m == 0,
{
    if m > 0 {
        crate::float_math::lemma_scaled_monotone(0, m - 1);
        crate::float_math::lemma_scaled_monotone(m - 1, m);
        let sum: int = scaled(m - 1) + scaled(m);
        assert(den * sum >= den) by (nonlinear_arith)
            requires
                sum >= 1,
                den > 0,
        ;
    } else {
        crate::float_math::lemma_scaled_monotone(0, 1);
        let sum: int = scaled(0) + scaled(1);
        assert(den * sum >= den) by (nonlinear_arith)
            requires
                sum >= 1,
                den > 0,
        ;
    }
}

proof fn lemma_tiny_decimal(digits: nat, width: nat, exponent: int)
    requires
        digits < pow(10, width),
        exponent <= -(width + 1100),
    ensures
        0 <= 2 * decimal_num(digits, exponent) < decimal_den(exponent),
{
    let k: nat = (-exponent) as nat;
    let rest: nat = (k - width) as nat;
    vstd::arithmetic::power::lemma_pow0(10);
    vstd::arithmetic::power::lemma_pow_adds(10, width, rest);
    lemma_ten_exceeds_two(rest);
    lemma_ten_exceeds_two(width);
    vstd::arithmetic::power2::lemma_pow2_unfold(1075);
    vstd::arithmetic::power2::lemma_pow2_strictly_increases(1075, rest);
    let w: int = pow(10, width);
    let r: int = pow(10, rest);
    let u: int = pow2(1074) as int;
    vstd::arithmetic::power2::lemma_pow2_pos(1074);
    assert(digits * 1 * u == digits * u) by (nonlinear_arith);
    assert(0 <= 2 * (digits * u) < w * r) by (nonlinear_arith)
        requires
            0 <= digits < w,
            u > 0,
            2 * u < r,
    ;
}

/// The digits of two ranges as a big number.
fn big_digits(chars: &Vec<char>, a: usize, b: usize, c: usize, d: usize) -> (big: Big)
    requires
        a <= b <= chars@.len(),
        c <= d <= chars@.len(),
        forall|k: int| a <= k < b ==> is_digit(#[trigger] chars@[k]),
        forall|k: int| c <= k < d ==> is_digit(#[trigger] chars@[k]),
    ensures
        big@ == digits_value(
            chars@.subrange(a as int, b as int) + chars@.subrange(c as int, d as int),
        ),
        big@ < pow(10, (b - a + (d - c)) as nat),
{
    let ghost all: Seq<char> = chars@;
    let ghost first: Seq<char> = all.subrange(a as int, b as int);
    let mut big: Big = Big::from_word(0);
    let mut i: usize = a;
    proof {
        assert(all.subrange(a as int, a as int) =~= Seq::<char>::empty());
    }
    while i < b
        invariant
            a <= i <= b <= chars@.len(),
            all == chars@,
            forall|k: int| a <= k < b ==> is_digit(#[trigger] chars@[k]),
            big@ == digits_value(all.subrange(a as int, i as int)),
        decreases b - i,
    {
        let d: u32 = chars[i] as u32 - 48;
        proof {
            let upto: Seq<char> = all.subrange(a as int, i as int + 1);
            assert(upto.drop_last() =~= all.subrange(a as int, i as int));
            assert(upto.last() == all[i as int]);
        }
        big.scale(10, d);
        i = i + 1;
    }
    let mut j: usize = c;
    proof {
        assert(first + all.subrange(c as int, c as int) =~= first);
    }
    while j < d
        invariant
            c <= j <= d <= chars@.len(),
            all == chars@,
            forall|k: int| c <= k < d ==> is_digit(#[trigger] chars@[k]),
            big@ == digits_value(first + all.subrange(c as int, j as int)),
        decreases d - j,
    {
        let e: u32 = chars[j] as u32 - 48;
        proof {
            let upto: Seq<char> = first + all.subrange(c as int, j as int + 1);
            assert(upto.drop_last() =~= first + all.subrange(c as int, j as int));
            assert(upto.last() == all[j as int]);
        }
        big.scale(10, e);
        j = j + 1;
    }
    proof {
        let run: Seq<char> = first + all.subrange(c as int, d as int);
        assert forall|k: int| 0 <= k < run.len() implies is_digit(#[trigger] run[k]) by {
            if k < b - a {
                assert(run[k] == all[a + k]);
            } else {
                assert(run[k] == all[c + (k - (b - a))]);
            }
        }
        lemma_digits_bound(run);
    }
    big
}

/// Where twice a decimal number stands relative to a sum of two neighbouring
/// floats, given as `sum` times two to the power `power`.
fn order_decimal(twice: &Big, sum: u64, power: u32, tens: u128) -> (place: Place)
    ensures
        place == crate::order::int_place(
            twice@ as int,
            pow(10, tens as nat) * (sum * pow2(power as nat)),
        ),
{
    let mut other: Big = Big::from_u64(sum);
    other.double_often(power);
    other.scale_often(10, tens);
    proof {
        let x: int = sum * pow2(power as nat);
        let t: int = pow(10, tens as nat);
        assert(x * t == t * x) by (nonlinear_arith);
    }
    twice.order(&other)
}

/// Whether a finite magnitude is the one nearest to a decimal number.
pub fn is_nearest_decimal(digits: Big, exponent: i128, m: u64) -> (result: bool)
    requires
        m < INFINITY,
        -0x1_0000_0000_0000_0000_0000 < exponent < 0x1_0000_0000_0000_0000_0000,
    ensures
        result == is_nearest(
            decimal_num(digits@, exponent as int),
            decimal_den(exponent as int),
            m as int,
        ),
{
    let ghost num: int = decimal_num(digits@, exponent as int);
    let ghost den: int = decimal_den(exponent as int);
    let ghost given: int = digits@ as int;
    let up: u128 = if exponent > 0 {
        exponent as u128
    } else {
        0
    };
    let tens: u128 = if exponent < 0 {
        (-exponent) as u128
    } else {
        0
    };
    let mut twice: Big = digits;
    twice.scale_often(10, up);
    twice.double_often(1075);
    proof {
        vstd::arithmetic::power2::lemma_pow2_unfold(1075);
        let t: int = pow(10, up as nat);
        assert(twice@ == 2 * num) by (nonlinear_arith)
            requires
                twice@ == given * t * (2 * pow2(1074)),
                num == given * t * pow2(1074),
        ;
    }
    let (s, e): (u64, i64) = crate::float_math::parts(m);
    proof {
        crate::float_math::lemma_scaled(e as int, s as int);
        crate::float_math::lemma_scaled(e as int, s + 1);
        let u: int = pow2(e as nat) as int;
        assert(s * u + (s + 1) * u == (2 * s + 1) * u) by (nonlinear_arith);
    }
    let above: Place = order_decimal(&twice, 2 * s + 1, e as u32, tens);
    if above == Place::After || (above == Place::Same && m % 2 == 1) {
        return false;
    }
    if m == 0 {
        return true;
    }
    let below: Place = if s == HIDDEN && e > 0 {
        proof {
            crate::float_math::lemma_scaled(e - 1, 2 * HIDDEN - 1);
            vstd::arithmetic::power2::lemma_pow2_unfold(e as nat);
            let h: int = pow2((e - 1) as nat) as int;
            assert(m - 1 == (e - 1) * HIDDEN + (2 * HIDDEN - 1)) by (nonlinear_arith)
                requires
                    m == e * HIDDEN + s,
                    s == HIDDEN,
            ;
            assert((2 * HIDDEN - 1) * h + s * (2 * h) == (4 * HIDDEN - 1) * h) by (nonlinear_arith)
                requires
                    s == HIDDEN,
            ;
        }
        order_decimal(&twice, 4 * HIDDEN - 1, (e - 1) as u32, tens)
    } else {
        proof {
            crate::float_math::lemma_scaled(e as int, s - 1);
            let u: int = pow2(e as nat) as int;
            assert((s - 1) * u + s * u == (2 * s - 1) * u) by (nonlinear_arith);
        }
        order_decimal(&twice, 2 * s - 1, e as u32, tens)
    };
    below == Place::After || (below == Place::Same && m % 2 == 0)
}

/// A decimal number that is zero is nearest to zero.
proof fn lemma_zero_decimal(exponent: int, m: int)
    requires
        0 <= m,
    ensures
        is_nearest(decimal_num(0, exponent), decimal_den(exponent), m) <==> m == 0,
{
    lemma_ten_exceeds_two(not_below_zero(-exponent));
    let t: int = pow(10, not_below_zero(exponent));
    let u: int = pow2(1074) as int;
    assert(0 * t * u == 0) by (nonlinear_arith);
    lemma_too_small(decimal_num(0, exponent), decimal_den(exponent), m);
}

/// Whether a finite magnitude is the one nearest to a decimal number of which
/// the exponent may be cut off where it decides alone.
fn decides(
    digits: Big,
    width: usize,
    exponent: i128,
    m: u64,
    Ghost(given): Ghost<int>,
) -> (result: bool)
    requires
        m < INFINITY,
        digits@ < pow(10, width as nat),
        given == exponent || (exponent >= 1024 && given >= exponent) || (exponent <= -(width + 1100)
            && given <= exponent),
    ensures
        result == is_nearest(decimal_num(digits@, given), decimal_den(given), m as int),
{
    let none: Big = Big::from_word(0);
    if digits.order(&none) == Place::Same {
        proof {
            lemma_zero_decimal(given, m as int);
        }
        return m == 0;
    }
    if exponent >= 1024 {
        proof {
            lemma_too_large(digits@, given, m as int);
        }
        return false;
    }
    if exponent <= -(width as i128 + 1100) {
        proof {
            lemma_tiny_decimal(digits@, width as nat, given);
            lemma_too_small(decimal_num(digits@, given), decimal_den(given), m as int);
        }
        return m == 0;
    }
    is_nearest_decimal(digits, exponent, m)
}

/// The largest exponent that is told from larger ones.
pub const MOST: i128 = 0x1_0000_0000_0000_0000_0000;

/// Where the digits in front of the point end, and where those behind it start
/// and end.
fn scan_mantissa(chars: &Vec<char>, from: usize, end: usize) -> (bounds: (usize, usize, usize))
    requires
        from <= end <= chars@.len(),
    ensures
        ({
            let body: Seq<char> = chars@.subrange(from as int, end as int);
            let (whole_end, fraction_from, fraction_end) = bounds;
            &&& from <= whole_end <= fraction_from <= fraction_end <= end
            &&& fraction_start(body) == fraction_from - from
            &&& fraction_width(body) == fraction_end - fraction_from
            &&& mantissa(body) == chars@.subrange(from as int, whole_end as int) + chars@.subrange(
                fraction_from as int,
                fraction_end as int,
            )
            &&& forall|k: int| from <= k < whole_end ==> is_digit(#[trigger] chars@[k])
            &&& forall|k: int| fraction_from <= k < fraction_end ==> is_digit(#[trigger] chars@[k])
        }),
{
    let ghost all: Seq<char> = chars@;
    let ghost body: Seq<char> = all.subrange(from as int, end as int);
    let whole_end: usize = past_digits(chars, from, end);
    proof {
        reveal(fraction_start);
        reveal(fraction_width);
        reveal(mantissa);
        lemma_digits_shift(all.take(end as int), from as int, body, 0);
    }
    let point: bool = whole_end < end && chars[whole_end] == '.';
    let fraction_from: usize = if point {
        whole_end + 1
    } else {
        whole_end
    };
    let fraction_end: usize = if point {
        past_digits(chars, fraction_from, end)
    } else {
        fraction_from
    };
    proof {
        assert(whole_end < end ==> body[whole_end - from] == all[whole_end as int]);
        lemma_digits_shift(all.take(end as int), from as int, body, (fraction_from - from) as int);
        assert(mantissa(body) =~= all.subrange(from as int, whole_end as int) + all.subrange(
            fraction_from as int,
            fraction_end as int,
        ));
    }
    (whole_end, fraction_from, fraction_end)
}

/// The exponent that a text writes down, cut off at the largest one.
fn scan_exponent(chars: &Vec<char>, from: usize, end: usize) -> (exponent: Option<i128>)
    requires
        from <= end <= chars@.len(),
    ensures
        match exponent {
            None => exponent_of_text(chars@.subrange(from as int, end as int)) is None,
            Some(e) => {
                let given: Option<int> = exponent_of_text(
                    chars@.subrange(from as int, end as int),
                );
                given is Some && -MOST <= e <= MOST && (given->Some_0 == e || (e == MOST
                    && given->Some_0 >= e) || (e == -MOST && given->Some_0 <= e))
            },
        },
{
    let ghost all: Seq<char> = chars@;
    let ghost text: Seq<char> = all.subrange(from as int, end as int);
    let signed: bool = from < end && (chars[from] == '+' || chars[from] == '-');
    let minus: bool = from < end && chars[from] == '-';
    let start: usize = if signed {
        from + 1
    } else {
        from
    };
    let stop: usize = past_digits(chars, start, end);
    let ghost digits: Seq<char> = all.subrange(start as int, end as int);
    proof {
        reveal(exponent_of_text);
        assert(past_sign(text) =~= digits);
        lemma_digits_shift(all.take(end as int), start as int, digits, 0);
    }
    if stop == start || stop < end {
        return None;
    }
    let size: u128 = bounded_value(chars, start, end, MOST as u128);
    if minus {
        Some(-(size as i128))
    } else {
        Some(size as i128)
    }
}

/// Whether a text, white space about it aside, writes down a number of which a
/// finite float is the nearest one.
pub fn text_names_float(text: &str, bits: u64) -> (result: bool)
    ensures
        result == names_float(text@, bits),
{
    let chars: Vec<char> = crate::text::chars_of(text);
    let (start, end): (usize, usize) = trim(&chars);
    let ghost all: Seq<char> = chars@;
    let ghost whole_text: Seq<char> = trimmed(text@);
    let signed: bool = start < end && (chars[start] == '+' || chars[start] == '-');
    let minus: bool = start < end && chars[start] == '-';
    let from: usize = if signed {
        start + 1
    } else {
        start
    };
    let ghost body: Seq<char> = all.subrange(from as int, end as int);
    proof {
        assert(past_sign(whole_text) =~= body);
    }
    let (whole_end, fraction_from, fraction_end): (usize, usize, usize) = scan_mantissa(
        &chars,
        from,
        end,
    );
    let first: usize = whole_end - from;
    let width: usize = fraction_end - fraction_from;
    if first == 0 && width == 0 {
        return false;
    }
    let mut exponent: i128 = 0;
    let ghost mut given: int = 0;
    if fraction_end < end {
        proof {
            assert(body[fraction_end - from] == all[fraction_end as int]);
            assert(body.skip(fraction_end - from + 1) =~= all.subrange(
                fraction_end as int + 1,
                end as int,
            ));
        }
        if chars[fraction_end] != 'e' && chars[fraction_end] != 'E' {
            return false;
        }
        match scan_exponent(&chars, fraction_end + 1, end) {
            None => {
                return false;
            },
            Some(e) => {
                exponent = e;
                proof {
                    given = exponent_of_text(body.skip(fraction_end - from + 1))->Some_0;
                }
            },
        }
    }
    let m: u64 = bits % SIGN;
    if m >= INFINITY || (minus != (bits >= SIGN) && m != 0) {
        return false;
    }
    let digits: Big = big_digits(&chars, from, whole_end, fraction_from, fraction_end);
    decides(digits, first + width, exponent - width as i128, m, Ghost(given - width))
}

} // verus!

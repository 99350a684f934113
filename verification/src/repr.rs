//! How Python writes texts, numbers and calendar values down: `repr`.

use unicode_general_category::get_general_category;
use vstd::prelude::*;

use crate::datetime::{div_rem_euclid, Date, DateTime, Time, TimeDelta, SECONDS_PER_DAY};
use crate::float::is_nan;
use crate::shortest::{read_digits, round_digits, Digits};
use crate::text::{chars_of, decimal_width, push_decimal, push_padded, push_signed};
use crate::value::{Float, Number};

#[allow(unused_imports)]
use crate::float::{finite, magnitude, nan, negative};
#[allow(unused_imports)]
use crate::shortest::{readable_digits, rounded_digits};
#[allow(unused_imports)]
use crate::text::{decimal, signed_decimal, zero_padded, zeros};

verus! {

// ---------------------------------------------------------------------
// Characters
// ---------------------------------------------------------------------

/// The abbreviated name of the general category that the Unicode tables give a
/// character.
pub uninterp spec fn category(c: char) -> Seq<char>;

/// `unicode_general_category::get_general_category` looks the category of a
/// character up in fixed tables, and `GeneralCategory::abbreviation` gives its name
/// of two letters: the same character has the same name always. What the tables say
/// is left unsaid.
#[verifier::external_body]
fn category_of(c: char) -> (result: &'static str)
    ensures
        result@ == category(c),
{
    get_general_category(c).abbreviation()
}

/// Whether Python escapes a character of a category: a control or format character,
/// a surrogate, one for private use or without an assignment, a separator of lines or
/// paragraphs, and every space but the plain one.
pub open spec fn escaped(c: char, category: Seq<char>) -> bool {
    c != ' ' && (category == seq!['C', 'c'] || category == seq!['C', 'f'] || category == seq![
        'C',
        's',
    ] || category == seq!['C', 'o'] || category == seq!['C', 'n'] || category == seq!['Z', 'l']
        || category == seq!['Z', 'p'] || category == seq!['Z', 's'])
}

/// Whether Python escapes a character of a category.
pub fn is_escaped(c: char, category: &str) -> (result: bool)
    ensures
        result == escaped(c, category@),
{
    if c == ' ' || category.unicode_len() != 2 {
        return false;
    }
    let group: char = category.get_char(0);
    let kind: char = category.get_char(1);
    proof {
        assert(category@ =~= seq![group, kind]);
        assert(seq![group, kind][0] == group && seq![group, kind][1] == kind);
        assert forall|x: char, y: char| category@ == #[trigger] seq![x, y] implies x == group && y
            == kind by {
            assert(seq![x, y][0] == x && seq![x, y][1] == y);
        }
    }
    match group {
        'C' => kind == 'c' || kind == 'f' || kind == 's' || kind == 'o' || kind == 'n',
        'Z' => kind == 'l' || kind == 'p' || kind == 's',
        _ => false,
    }
}

/// Whether Python escapes a character.
pub fn is_non_printable(c: char) -> (result: bool)
    ensures
        result == escaped(c, category(c)),
{
    is_escaped(c, category_of(c))
}

/// The hexadecimal digit `n`, for `n` in `0..16`.
pub open spec fn hex_digit(n: int) -> char {
    if n < 10 {
        ('0' as int + n) as char
    } else {
        ('a' as int + (n - 10)) as char
    }
}

/// The last `width` hexadecimal digits of `n`.
pub open spec fn hex(n: nat, width: nat) -> Seq<char>
    decreases width,
{
    if width == 0 {
        seq![]
    } else {
        hex(n / 16, (width - 1) as nat).push(hex_digit((n % 16) as int))
    }
}

/// The escape of a code point: `\xhh`, `\uhhhh` or `\Uhhhhhhhh`.
pub open spec fn escape(c: char) -> Seq<char> {
    if (c as int) < 0x100 {
        seq!['\\', 'x'] + hex(c as nat, 2)
    } else if (c as int) < 0x1_0000 {
        seq!['\\', 'u'] + hex(c as nat, 4)
    } else {
        seq!['\\', 'U'] + hex(c as nat, 8)
    }
}

fn push_hex(out: &mut String, n: u32, width: usize)
    ensures
        final(out)@ == old(out)@ + hex(n as nat, width as nat),
    decreases width,
{
    if width > 0 {
        push_hex(out, n / 16, width - 1);
        let digit: u8 = (n % 16) as u8;
        let c: char = if digit < 10 {
            (48u8 + digit) as char
        } else {
            (87u8 + digit) as char
        };
        out.push(c);
    }
    assert(out@ =~= old(out)@ + hex(n as nat, width as nat));
}

/// Appends the escape of a code point.
pub fn escape_non_printable(out: &mut String, c: char)
    ensures
        final(out)@ == old(out)@ + escape(c),
{
    let code: u32 = c as u32;
    out.push('\\');
    if code < 0x100 {
        out.push('x');
        push_hex(out, code, 2);
    } else if code < 0x1_0000 {
        out.push('u');
        push_hex(out, code, 4);
    } else {
        out.push('U');
        push_hex(out, code, 8);
    }
    assert(out@ =~= old(out)@ + escape(c));
}

// ---------------------------------------------------------------------
// Texts
// ---------------------------------------------------------------------

/// The quote that Python puts about a text: the double one only where the text
/// holds the single one and not the double one.
pub open spec fn quote_of(text: Seq<char>) -> char {
    if text.contains('\'') && !text.contains('"') {
        '"'
    } else {
        '\''
    }
}

/// One character of a text between quotes.
pub open spec fn char_repr(c: char, quote: char) -> Seq<char> {
    if c == '\\' {
        seq!['\\', '\\']
    } else if c == '\t' {
        seq!['\\', 't']
    } else if c == '\n' {
        seq!['\\', 'n']
    } else if c == '\r' {
        seq!['\\', 'r']
    } else if c == quote {
        seq!['\\', c]
    } else if escaped(c, category(c)) {
        escape(c)
    } else {
        seq![c]
    }
}

/// The characters of a text between quotes.
pub open spec fn chars_repr(text: Seq<char>, quote: char) -> Seq<char>
    decreases text.len(),
{
    if text.len() == 0 {
        seq![]
    } else {
        chars_repr(text.drop_last(), quote) + char_repr(text.last(), quote)
    }
}

/// Python's `repr` of a text.
pub open spec fn str_repr(text: Seq<char>) -> Seq<char> {
    seq![quote_of(text)] + chars_repr(text, quote_of(text)) + seq![quote_of(text)]
}

fn push_char_repr(out: &mut String, c: char, quote: char)
    ensures
        final(out)@ == old(out)@ + char_repr(c, quote),
{
    if c == '\\' {
        out.push('\\');
        out.push('\\');
    } else if c == '\t' {
        out.push('\\');
        out.push('t');
    } else if c == '\n' {
        out.push('\\');
        out.push('n');
    } else if c == '\r' {
        out.push('\\');
        out.push('r');
    } else if c == quote {
        out.push('\\');
        out.push(c);
    } else if is_non_printable(c) {
        escape_non_printable(out, c);
    } else {
        out.push(c);
    }
    assert(out@ =~= old(out)@ + char_repr(c, quote));
}

/// Whether a character occurs.
pub fn occurs(chars: &Vec<char>, wanted: char) -> (result: bool)
    ensures
        result == chars@.contains(wanted),
{
    let mut i: usize = 0;
    while i < chars.len()
        invariant
            i <= chars.len(),
            forall|k: int| 0 <= k < i ==> #[trigger] chars@[k] != wanted,
        decreases chars.len() - i,
    {
        if chars[i] == wanted {
            proof {
                assert(chars@[i as int] == wanted);
            }
            return true;
        }
        i = i + 1;
    }
    false
}

/// Appends Python's `repr` of a text.
pub fn push_str_repr(out: &mut String, text: &str)
    ensures
        final(out)@ == old(out)@ + str_repr(text@),
{
    let chars: Vec<char> = chars_of(text);
    let ghost before: Seq<char> = out@;
    let quote: char = if occurs(&chars, '\'') && !occurs(&chars, '"') {
        '"'
    } else {
        '\''
    };
    out.push(quote);
    let mut i: usize = 0;
    proof {
        assert(text@.take(0) =~= Seq::<char>::empty());
        assert(out@ =~= before + (seq![quote] + chars_repr(text@.take(0), quote)));
    }
    while i < chars.len()
        invariant
            i <= chars.len(),
            chars@ == text@,
            out@ == before + (seq![quote] + chars_repr(text@.take(i as int), quote)),
        decreases chars.len() - i,
    {
        push_char_repr(out, chars[i], quote);
        proof {
            let upto: Seq<char> = text@.take(i as int + 1);
            assert(upto.drop_last() =~= text@.take(i as int));
            assert(upto.last() == chars@[i as int]);
            assert(out@ =~= before + (seq![quote] + chars_repr(upto, quote)));
        }
        i = i + 1;
    }
    out.push(quote);
    proof {
        assert(text@.take(i as int) =~= text@);
        assert(out@ =~= before + str_repr(text@));
    }
}

/// Python's `repr` of a text.
pub fn python_repr_str(text: &str) -> (result: String)
    ensures
        result@ == str_repr(text@),
{
    let mut out: String = String::new();
    push_str_repr(&mut out, text);
    proof {
        assert(out@ =~= str_repr(text@));
    }
    out
}

// ---------------------------------------------------------------------
// Numbers
// ---------------------------------------------------------------------

/// The number without the zeros at its end.
pub open spec fn stripped(n: nat) -> nat
    decreases n,
{
    if n == 0 || n % 10 != 0 {
        n
    } else {
        stripped(n / 10)
    }
}

/// The scientific form of digits, the first in front of the point.
pub open spec fn scientific(digits: Seq<char>, exponent: int) -> Seq<char> {
    digits.take(1) + (if digits.len() == 1 {
        seq![]
    } else {
        seq!['.'] + digits.skip(1)
    }) + (if exponent < 0 {
        seq!['e', '-'] + zero_padded((-exponent) as nat, 2)
    } else {
        seq!['e', '+'] + zero_padded(exponent as nat, 2)
    })
}

/// Digits with `point` of them in front of the point.
pub open spec fn positional(digits: Seq<char>, point: int) -> Seq<char> {
    if point <= 0 {
        seq!['0', '.'] + zeros(-point) + digits
    } else if point >= digits.len() {
        digits + zeros(point - digits.len()) + seq!['.', '0']
    } else {
        digits.take(point) + seq!['.'] + digits.skip(point)
    }
}

/// The digits of a float, the point placed as Python places it: `point` digits
/// in front of it, or the scientific form where that is out of bounds.
pub open spec fn placed(digits: Seq<char>, point: int) -> Seq<char> {
    if point <= -4 || point > 16 {
        scientific(digits, point - 1)
    } else {
        positional(digits, point)
    }
}

/// The digits of a decimal number, its digits and its unit given.
pub open spec fn significant(number: (int, int)) -> Seq<char> {
    decimal(stripped(number.0 as nat))
}

/// How many digits of a decimal number stand in front of its point, its digits
/// and its unit given.
pub open spec fn point_of(number: (int, int)) -> int {
    decimal(number.0 as nat).len() + number.1
}

/// A minus sign where there is one.
pub open spec fn sign_text(minus: bool) -> Seq<char> {
    if minus {
        seq!['-']
    } else {
        seq![]
    }
}

/// Python's `repr` of a float.
pub open spec fn float_repr(f: Float) -> Seq<char> {
    if nan(f.bits) {
        seq!['n', 'a', 'n']
    } else if !finite(f.bits) {
        if negative(f.bits) {
            seq!['-', 'i', 'n', 'f']
        } else {
            seq!['i', 'n', 'f']
        }
    } else {
        let number: (int, int) = rounded_digits(magnitude(f.bits));
        sign_text(negative(f.bits)) + placed(significant(number), point_of(number))
    }
}

/// Python's `repr` of a number.
pub open spec fn number_text(n: Number) -> Seq<char> {
    match n {
        Number::Float(f) => float_repr(f),
        _ => signed_decimal(n.integer()),
    }
}

/// Appends `count` zeros.
fn push_zeros(out: &mut String, count: usize)
    ensures
        final(out)@ == old(out)@ + zeros(count as int),
{
    let ghost before: Seq<char> = out@;
    let mut i: usize = 0;
    proof {
        assert(out@ =~= before + zeros(0));
    }
    while i < count
        invariant
            i <= count,
            out@ == before + zeros(i as int),
        decreases count - i,
    {
        out.push('0');
        i = i + 1;
        proof {
            assert(out@ =~= before + zeros(i as int));
        }
    }
}

/// Appends the digits `from..to`.
fn push_digits(out: &mut String, digits: &Vec<char>, from: usize, to: usize)
    requires
        from <= to <= digits@.len(),
    ensures
        final(out)@ == old(out)@ + digits@.subrange(from as int, to as int),
{
    let ghost before: Seq<char> = out@;
    let mut i: usize = from;
    proof {
        assert(out@ =~= before + digits@.subrange(from as int, from as int));
    }
    while i < to
        invariant
            from <= i <= to <= digits@.len(),
            out@ == before + digits@.subrange(from as int, i as int),
        decreases to - i,
    {
        out.push(digits[i]);
        i = i + 1;
        proof {
            assert(out@ =~= before + digits@.subrange(from as int, i as int));
        }
    }
}

fn strip_zeros(n: u64) -> (result: u64)
    ensures
        result == stripped(n as nat),
{
    let mut rest: u64 = n;
    while rest != 0 && rest % 10 == 0
        invariant
            stripped(rest as nat) == stripped(n as nat),
        decreases rest,
    {
        rest = rest / 10;
    }
    rest
}

/// Appends the scientific form of digits.
fn push_scientific(out: &mut String, digits: &Vec<char>, exponent: i64)
    requires
        digits@.len() > 0,
        -0x8000_0001 <= exponent <= 0x8000_0000,
    ensures
        final(out)@ == old(out)@ + scientific(digits@, exponent as int),
{
    let ghost before: Seq<char> = out@;
    let len: usize = digits.len();
    push_digits(out, digits, 0, 1);
    if len > 1 {
        out.push('.');
        push_digits(out, digits, 1, len);
    }
    let ghost mantissa: Seq<char> = digits@.take(1) + (if digits@.len() == 1 {
        seq![]
    } else {
        seq!['.'] + digits@.skip(1)
    });
    proof {
        assert(digits@.take(1) =~= digits@.subrange(0, 1));
        assert(digits@.skip(1) =~= digits@.subrange(1, len as int));
        assert(out@ =~= before + mantissa);
    }
    out.push('e');
    if exponent < 0 {
        out.push('-');
        push_padded(out, (-exponent) as u64, 2);
    } else {
        out.push('+');
        push_padded(out, exponent as u64, 2);
    }
    proof {
        assert(out@ =~= before + scientific(digits@, exponent as int));
    }
}

/// Appends digits with `point` of them in front of the point.
fn push_positional(out: &mut String, digits: &Vec<char>, point: i64)
    requires
        digits@.len() > 0,
        -0x8000_0000 <= point <= 0x8000_0000,
    ensures
        final(out)@ == old(out)@ + positional(digits@, point as int),
{
    let ghost before: Seq<char> = out@;
    let len: usize = digits.len();
    proof {
        assert(digits@ =~= digits@.subrange(0, len as int));
    }
    if point <= 0 {
        out.push('0');
        out.push('.');
        push_zeros(out, (-point) as usize);
        push_digits(out, digits, 0, len);
        proof {
            assert(out@ =~= before + positional(digits@, point as int));
        }
    } else if point as usize >= len {
        push_digits(out, digits, 0, len);
        push_zeros(out, point as usize - len);
        out.push('.');
        out.push('0');
        proof {
            assert(out@ =~= before + positional(digits@, point as int));
        }
    } else {
        push_digits(out, digits, 0, point as usize);
        out.push('.');
        push_digits(out, digits, point as usize, len);
        proof {
            assert(digits@.take(point as int) =~= digits@.subrange(0, point as int));
            assert(digits@.skip(point as int) =~= digits@.subrange(point as int, len as int));
            assert(out@ =~= before + positional(digits@, point as int));
        }
    }
}

/// Appends the digits of a float, the point placed as Python places it.
fn push_placed(out: &mut String, digits: &Vec<char>, point: i64)
    requires
        digits@.len() > 0,
        -0x8000_0000 <= point <= 0x8000_0000,
    ensures
        final(out)@ == old(out)@ + placed(digits@, point as int),
{
    if point <= -4 || point > 16 {
        push_scientific(out, digits, point - 1);
    } else {
        push_positional(out, digits, point);
    }
}

/// The digits of a decimal number, and how many stand in front of its point.
fn split_digits(number: &Digits) -> (result: (Vec<char>, i64))
    requires
        -1200 <= number.unit <= 1200,
    ensures
        result.0@ == significant((number.digits as int, number.unit as int)),
        result.1 == point_of((number.digits as int, number.unit as int)),
        result.0@.len() > 0,
        -2000 <= result.1 <= 2000,
{
    let mut text: String = String::new();
    push_decimal(&mut text, strip_zeros(number.digits));
    let digits: Vec<char> = chars_of(text.as_str());
    proof {
        assert(digits@ =~= decimal(stripped(number.digits as nat)));
    }
    let width: usize = decimal_width(number.digits);
    (digits, number.unit + width as i64)
}

/// Appends Python's `repr` of a float.
pub fn push_float_repr(out: &mut String, f: Float)
    ensures
        final(out)@ == old(out)@ + float_repr(f),
{
    let ghost before: Seq<char> = out@;
    if is_nan(f.bits) {
        out.push('n');
        out.push('a');
        out.push('n');
    } else if !crate::float::is_finite(f.bits) {
        if f.bits >= crate::float::SIGN {
            out.push('-');
        }
        out.push('i');
        out.push('n');
        out.push('f');
    } else {
        let number: Digits = round_digits(f.bits % crate::float::SIGN);
        let (digits, point): (Vec<char>, i64) = split_digits(&number);
        if f.bits >= crate::float::SIGN {
            out.push('-');
        }
        proof {
            assert(out@ =~= before + sign_text(negative(f.bits)));
        }
        push_placed(out, &digits, point);
    }
    proof {
        assert(out@ =~= before + float_repr(f));
    }
}

/// Python's `repr` of a float.
pub fn python_float_repr(f: Float) -> (result: String)
    ensures
        result@ == float_repr(f),
{
    let mut out: String = String::new();
    push_float_repr(&mut out, f);
    proof {
        assert(out@ =~= float_repr(f));
    }
    out
}

/// A float written out in full, with a point if it is finite.
pub open spec fn plain_float(f: Float) -> Seq<char> {
    if nan(f.bits) {
        "nan"@
    } else if !finite(f.bits) {
        sign_text(negative(f.bits)) + "inf"@
    } else {
        let number: (int, int) = readable_digits(magnitude(f.bits));
        sign_text(negative(f.bits)) + positional(significant(number), point_of(number))
    }
}

/// A float written out in full, with a point if it is finite.
pub fn plain_float_text(f: Float) -> (result: String)
    ensures
        result@ == plain_float(f),
{
    let mut out: String = String::new();
    if is_nan(f.bits) {
        out.append("nan");
        proof {
            assert(out@ =~= plain_float(f));
        }
        return out;
    }
    if f.bits >= crate::float::SIGN {
        out.push('-');
    }
    proof {
        assert(out@ =~= sign_text(negative(f.bits)));
    }
    if !crate::float::is_finite(f.bits) {
        out.append("inf");
        return out;
    }
    let number: Digits = read_digits(f.bits % crate::float::SIGN);
    let (digits, point): (Vec<char>, i64) = split_digits(&number);
    push_positional(&mut out, &digits, point);
    out
}

/// Appends Python's `repr` of a number.
pub fn push_number_repr(out: &mut String, n: &Number)
    ensures
        final(out)@ == old(out)@ + number_text(*n),
{
    match n {
        Number::Float(f) => push_float_repr(out, *f),
        Number::Int(i) => push_signed(out, *i),
        Number::Uint(u) => push_decimal(out, *u),
    }
}

/// Python's `repr` of a number.
pub fn number_repr(n: &Number) -> (result: String)
    ensures
        result@ == number_text(*n),
{
    let mut out: String = String::new();
    push_number_repr(&mut out, n);
    proof {
        assert(out@ =~= number_text(*n));
    }
    out
}

// ---------------------------------------------------------------------
// Calendar values
// ---------------------------------------------------------------------

/// A number behind a comma.
pub open spec fn next_field(n: int) -> Seq<char> {
    seq![',', ' '] + signed_decimal(n)
}

/// The seconds and microseconds that a `repr` gives: none where both are zero,
/// the seconds alone where there are no microseconds.
pub open spec fn small_fields(second: int, microsecond: int) -> Seq<char> {
    (if second != 0 || microsecond != 0 {
        next_field(second)
    } else {
        seq![]
    }) + (if microsecond != 0 {
        next_field(microsecond)
    } else {
        seq![]
    })
}

/// The time zone that a `repr` gives: none for a naive value.
pub open spec fn zone_field(offset: Option<i32>) -> Seq<char> {
    match offset {
        None => seq![],
        Some(seconds) => if seconds == 0 {
            ", tzinfo=datetime.timezone.utc"@
        } else {
            let days: int = seconds as int / SECONDS_PER_DAY as int;
            ", tzinfo=datetime.timezone(datetime.timedelta("@ + (if days == 0 {
                seq![]
            } else {
                "days="@ + signed_decimal(days) + seq![',', ' ']
            }) + "seconds="@ + signed_decimal(seconds as int % SECONDS_PER_DAY as int) + seq![
                ')',
                ')',
            ]
        },
    }
}

/// Python's `repr` of a date.
pub open spec fn date_text(date: Date) -> Seq<char> {
    "datetime.date("@ + signed_decimal(date.spec_year() as int) + next_field(
        date.spec_month() as int,
    ) + next_field(date.spec_day() as int) + seq![')']
}

/// Python's `repr` of a datetime.
pub open spec fn datetime_text(value: DateTime) -> Seq<char> {
    "datetime.datetime("@ + signed_decimal(value.spec_date().spec_year() as int) + next_field(
        value.spec_date().spec_month() as int,
    ) + next_field(value.spec_date().spec_day() as int) + next_field(value.spec_hour() as int)
        + next_field(value.spec_minute() as int) + small_fields(
        value.spec_second() as int,
        value.spec_microsecond() as int,
    ) + zone_field(value.spec_utc_offset_seconds()) + seq![')']
}

/// Python's `repr` of a time of day.
pub open spec fn time_text(value: Time) -> Seq<char> {
    "datetime.time("@ + signed_decimal(value.spec_hour() as int) + next_field(
        value.spec_minute() as int,
    ) + small_fields(value.spec_second() as int, value.spec_microsecond() as int) + zone_field(
        value.spec_utc_offset_seconds(),
    ) + seq![')']
}

/// A named part of a duration's `repr`, behind a comma unless it is the first;
/// nothing for a part that is zero.
pub open spec fn delta_part(name: Seq<char>, n: int, first: bool) -> Seq<char> {
    if n == 0 {
        seq![]
    } else {
        (if first {
            seq![]
        } else {
            seq![',', ' ']
        }) + name + signed_decimal(n)
    }
}

/// Python's `repr` of a duration.
pub open spec fn delta_text(value: TimeDelta) -> Seq<char> {
    let days: int = value.spec_days();
    let seconds: int = value.spec_seconds();
    let micros: int = value.spec_subsecond_microseconds() as int;
    "datetime.timedelta("@ + (if days == 0 && seconds == 0 && micros == 0 {
        seq!['0']
    } else {
        delta_part("days="@, days, true) + delta_part("seconds="@, seconds, days == 0)
            + delta_part("microseconds="@, micros, days == 0 && seconds == 0)
    }) + seq![')']
}

fn push_next_field(out: &mut String, n: i64)
    ensures
        final(out)@ == old(out)@ + next_field(n as int),
{
    out.push(',');
    out.push(' ');
    push_signed(out, n);
    assert(out@ =~= old(out)@ + next_field(n as int));
}

fn push_small_fields(out: &mut String, second: i64, microsecond: i64)
    ensures
        final(out)@ == old(out)@ + small_fields(second as int, microsecond as int),
{
    if second != 0 || microsecond != 0 {
        push_next_field(out, second);
    }
    if microsecond != 0 {
        push_next_field(out, microsecond);
    }
    assert(out@ =~= old(out)@ + small_fields(second as int, microsecond as int));
}

fn push_zone_field(out: &mut String, offset: Option<i32>)
    ensures
        final(out)@ == old(out)@ + zone_field(offset),
{
    let ghost before: Seq<char> = out@;
    match offset {
        None => {},
        Some(seconds) => {
            if seconds == 0 {
                out.append(", tzinfo=datetime.timezone.utc");
            } else {
                let (days, rest) = div_rem_euclid(seconds as i64, SECONDS_PER_DAY);
                out.append(", tzinfo=datetime.timezone(datetime.timedelta(");
                if days != 0 {
                    out.append("days=");
                    push_signed(out, days);
                    out.push(',');
                    out.push(' ');
                }
                out.append("seconds=");
                push_signed(out, rest);
                out.push(')');
                out.push(')');
            }
        },
    }
    proof {
        assert(out@ =~= before + zone_field(offset));
    }
}

/// Appends Python's `repr` of a date.
pub fn push_date_repr(out: &mut String, date: Date)
    ensures
        final(out)@ == old(out)@ + date_text(date),
{
    let ghost before: Seq<char> = out@;
    out.append("datetime.date(");
    push_signed(out, date.year() as i64);
    push_next_field(out, date.month() as i64);
    push_next_field(out, date.day() as i64);
    out.push(')');
    proof {
        assert(out@ =~= before + date_text(date));
    }
}

/// Appends Python's `repr` of a datetime.
pub fn push_datetime_repr(out: &mut String, value: DateTime)
    ensures
        final(out)@ == old(out)@ + datetime_text(value),
{
    let ghost before: Seq<char> = out@;
    let date: Date = value.date();
    out.append("datetime.datetime(");
    push_signed(out, date.year() as i64);
    push_next_field(out, date.month() as i64);
    push_next_field(out, date.day() as i64);
    push_next_field(out, value.hour() as i64);
    push_next_field(out, value.minute() as i64);
    push_small_fields(out, value.second() as i64, value.microsecond() as i64);
    push_zone_field(out, value.utc_offset_seconds());
    out.push(')');
    proof {
        assert(out@ =~= before + datetime_text(value));
    }
}

/// Python's `repr` of a datetime.
pub fn datetime_repr(value: DateTime) -> (result: String)
    ensures
        result@ == datetime_text(value),
{
    let mut out: String = String::new();
    push_datetime_repr(&mut out, value);
    proof {
        assert(out@ =~= datetime_text(value));
    }
    out
}

/// Appends Python's `repr` of a time of day.
pub fn push_time_repr(out: &mut String, value: Time)
    ensures
        final(out)@ == old(out)@ + time_text(value),
{
    let ghost before: Seq<char> = out@;
    out.append("datetime.time(");
    push_signed(out, value.hour() as i64);
    push_next_field(out, value.minute() as i64);
    push_small_fields(out, value.second() as i64, value.microsecond() as i64);
    push_zone_field(out, value.utc_offset_seconds());
    out.push(')');
    proof {
        assert(out@ =~= before + time_text(value));
    }
}

fn push_delta_part(out: &mut String, name: &str, n: i64, first: bool)
    ensures
        final(out)@ == old(out)@ + delta_part(name@, n as int, first),
{
    let ghost before: Seq<char> = out@;
    if n != 0 {
        if !first {
            out.push(',');
            out.push(' ');
        }
        out.append(name);
        push_signed(out, n);
    }
    proof {
        assert(out@ =~= before + delta_part(name@, n as int, first));
    }
}

/// Appends Python's `repr` of a duration.
pub fn push_delta_repr(out: &mut String, value: TimeDelta)
    ensures
        final(out)@ == old(out)@ + delta_text(value),
{
    let ghost before: Seq<char> = out@;
    let days: i64 = value.days();
    let seconds: i64 = value.seconds();
    let micros: i64 = value.microseconds();
    out.append("datetime.timedelta(");
    if days == 0 && seconds == 0 && micros == 0 {
        out.push('0');
    } else {
        push_delta_part(out, "days=", days, true);
        push_delta_part(out, "seconds=", seconds, days == 0);
        push_delta_part(out, "microseconds=", micros, days == 0 && seconds == 0);
    }
    out.push(')');
    proof {
        assert(out@ =~= before + delta_text(value));
    }
}

} // verus!

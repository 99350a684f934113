//! Calendar values: [`Date`], [`DateTime`], [`Time`] and [`TimeDelta`].
//!
//! They hold what Python's `datetime` module holds, within the same bounds.
//! Two datetimes compare by instant, a naive one being read as UTC. Two times
//! compare by wall clock when both are naive, by the clock shifted by the
//! offset when both are aware, and are never equal when only one is naive.

use vstd::prelude::*;

use crate::float_math::{add_floats, divide_floats, from_integer};
use crate::text::{push_decimal, push_padded, push_signed};

#[allow(unused_imports)]
use crate::float_math::{float_of_int, float_quotient, float_sum};
#[allow(unused_imports)]
use crate::text::{decimal, signed_decimal, zero_padded};

verus! {

/// Microseconds in one second.
pub const MICROS_PER_SECOND: i64 = 1_000_000;

/// A million, as the bit pattern of a float.
pub const MILLION: u64 = 0x412e_8480_0000_0000;

/// Seconds in one day.
pub const SECONDS_PER_DAY: i64 = 86_400;

/// Days from `0001-01-01` to the Unix epoch.
pub const DAYS_FROM_YEAR_ONE_TO_EPOCH: i64 = 719_162;

/// The first year of the calendar.
pub const MIN_YEAR: i32 = 1;

/// The last year of the calendar.
pub const MAX_YEAR: i32 = 9999;

/// The ordinal of the calendar's first day.
pub const MIN_ORDINAL: i64 = 1;

/// The ordinal of the calendar's last day.
pub const MAX_ORDINAL: i64 = 3_652_059;

/// The least number of days in a duration.
pub const TIMEDELTA_MIN_DAYS: i64 = -999_999_999;

/// The greatest number of days in a duration.
pub const TIMEDELTA_MAX_DAYS: i64 = 999_999_999;

// ---------------------------------------------------------------------
// The calendar
// ---------------------------------------------------------------------

/// Whether `year` is a leap year of the proleptic Gregorian calendar.
pub open spec fn leap(year: int) -> bool {
    year % 4 == 0 && (year % 100 != 0 || year % 400 == 0)
}

/// The number of days in a month; zero for what is no month.
pub open spec fn month_length(year: int, month: int) -> int {
    if month == 1 || month == 3 || month == 5 || month == 7 || month == 8 || month == 10 || month
        == 12 {
        31
    } else if month == 4 || month == 6 || month == 9 || month == 11 {
        30
    } else if month == 2 {
        if leap(year) {
            29
        } else {
            28
        }
    } else {
        0
    }
}

/// Whether the three numbers are a date of the years `1..=9999`.
pub open spec fn valid_date(year: int, month: int, day: int) -> bool {
    MIN_YEAR <= year <= MAX_YEAR && 1 <= day <= month_length(year, month)
}

/// The number of days of the years before `year`.
pub open spec fn days_before_year(year: int) -> int {
    (year - 1) * 365 + (year - 1) / 4 - (year - 1) / 100 + (year - 1) / 400
}

/// The number of days of the months of `year` before `month`.
pub open spec fn days_before_month(year: int, month: int) -> int
    decreases month,
{
    if month <= 1 {
        0
    } else {
        days_before_month(year, month - 1) + month_length(year, month - 1)
    }
}

/// The number of a date, `0001-01-01` being the first.
pub open spec fn ordinal_of(year: int, month: int, day: int) -> int {
    days_before_year(year) + days_before_month(year, month) + day
}

/// What lies before each month, written out.
proof fn lemma_days_before_month(year: int)
    ensures
        days_before_month(year, 1) == 0,
        days_before_month(year, 2) == 31,
        forall|month: int|
            3 <= month <= 12 ==> #[trigger] days_before_month(year, month) == (153 * (month - 3)
                + 2) / 5 + 59 + if leap(year) {
                1int
            } else {
                0
            },
        days_before_month(year, 13) == if leap(year) {
            366int
        } else {
            365
        },
{
    reveal_with_fuel(days_before_month, 14);
    assert forall|month: int| 3 <= month <= 12 implies #[trigger] days_before_month(year, month)
        == (153 * (month - 3) + 2) / 5 + 59 + if leap(year) {
        1int
    } else {
        0
    } by {
        assert(month == 3 || month == 4 || month == 5 || month == 6 || month == 7 || month == 8
            || month == 9 || month == 10 || month == 11 || month == 12);
    }
}

/// The quotient grows by one at the multiples of the divisor.
proof fn lemma_quotient_step(n: int, divisor: int)
    requires
        divisor > 1,
    ensures
        (n + 1) / divisor == n / divisor + if (n + 1) % divisor == 0 {
            1int
        } else {
            0
        },
{
    let quotient: int = n / divisor;
    let remainder: int = n % divisor;
    vstd::arithmetic::div_mod::lemma_fundamental_div_mod(n, divisor);
    if remainder + 1 < divisor {
        vstd::arithmetic::div_mod::lemma_fundamental_div_mod_converse(
            n + 1,
            divisor,
            quotient,
            remainder + 1,
        );
    } else {
        assert(n + 1 == (quotient + 1) * divisor + 0) by (nonlinear_arith)
            requires
                n == divisor * quotient + remainder,
                remainder + 1 == divisor,
        ;
        vstd::arithmetic::div_mod::lemma_fundamental_div_mod_converse(
            n + 1,
            divisor,
            quotient + 1,
            0,
        );
    }
}

/// A year is followed by the next after its number of days.
proof fn lemma_next_year(year: int)
    ensures
        days_before_year(year + 1) == days_before_year(year) + if leap(year) {
            366int
        } else {
            365
        },
{
    lemma_quotient_step(year - 1, 4);
    lemma_quotient_step(year - 1, 100);
    lemma_quotient_step(year - 1, 400);
    assert(year % 400 == 0 ==> year % 100 == 0);
    assert(year % 100 == 0 ==> year % 4 == 0);
}

/// The days before a year grow with the year.
proof fn lemma_years_ordered(year: int, other: int)
    requires
        year < other,
    ensures
        days_before_year(year) + 365 <= days_before_year(other),
        leap(year) ==> days_before_year(year) + 366 <= days_before_year(other),
    decreases other - year,
{
    lemma_next_year(year);
    if year + 1 < other {
        lemma_years_ordered(year + 1, other);
    }
}

/// A date lies inside its year.
proof fn lemma_within_year(year: int, month: int, day: int)
    requires
        valid_date(year, month, day),
    ensures
        1 <= days_before_month(year, month) + day,
        days_before_month(year, month) + day <= 365 + if leap(year) {
            1int
        } else {
            0
        },
{
    lemma_days_before_month(year);
}

/// The months of one year do not overlap.
proof fn lemma_months_ordered(year: int, month: int, day: int, later: int)
    requires
        valid_date(year, month, day),
        month < later <= 12,
    ensures
        days_before_month(year, month) + day <= days_before_month(year, later),
    decreases later - month,
{
    lemma_days_before_month(year);
}

/// Different dates have different ordinals, and later dates have greater ones.
pub proof fn lemma_ordinal_ordered(
    year: int,
    month: int,
    day: int,
    other_year: int,
    other_month: int,
    other_day: int,
)
    requires
        valid_date(year, month, day),
        valid_date(other_year, other_month, other_day),
    ensures
        ordinal_of(year, month, day) < ordinal_of(other_year, other_month, other_day) <==> (year
            < other_year || (year == other_year && (month < other_month || (month == other_month
            && day < other_day)))),
        ordinal_of(year, month, day) == ordinal_of(other_year, other_month, other_day) <==> (year
            == other_year && month == other_month && day == other_day),
{
    lemma_within_year(year, month, day);
    lemma_within_year(other_year, other_month, other_day);
    if year < other_year {
        lemma_years_ordered(year, other_year);
    } else if other_year < year {
        lemma_years_ordered(other_year, year);
    } else if month < other_month {
        lemma_months_ordered(year, month, day, other_month);
    } else if other_month < month {
        lemma_months_ordered(year, other_month, other_day, month);
    }
}

/// Every date has an ordinal in `1..=3_652_059`.
pub proof fn lemma_ordinal_range(year: int, month: int, day: int)
    requires
        valid_date(year, month, day),
    ensures
        MIN_ORDINAL <= ordinal_of(year, month, day) <= MAX_ORDINAL,
{
    lemma_within_year(year, month, day);
    if year > 1 {
        lemma_years_ordered(1, year);
    }
    if year < 9999 {
        lemma_years_ordered(year, 9999);
    }
}

/// Whether `year` is a leap year.
fn is_leap_year(year: i32) -> (result: bool)
    requires
        year >= 0,
    ensures
        result == leap(year as int),
{
    year % 4 == 0 && (year % 100 != 0 || year % 400 == 0)
}

/// The number of days in `month` of `year`, zero if there is no such month.
fn days_in_month(year: i32, month: u8) -> (days: u8)
    requires
        year >= 0,
    ensures
        days == month_length(year as int, month as int),
{
    match month {
        1 | 3 | 5 | 7 | 8 | 10 | 12 => 31,
        4 | 6 | 9 | 11 => 30,
        2 => if is_leap_year(year) {
            29
        } else {
            28
        },
        _ => 0,
    }
}

/// Days from `1970-01-01` to a date, negative before the epoch.
fn days_from_civil(year: i32, month: u8, day: u8) -> (days: i64)
    requires
        valid_date(year as int, month as int, day as int),
    ensures
        days == ordinal_of(year as int, month as int, day as int) - DAYS_FROM_YEAR_ONE_TO_EPOCH - 1,
{
    let shifted_year: u32 = if month <= 2 {
        (year - 1) as u32
    } else {
        year as u32
    };
    let era: u32 = shifted_year / 400;
    let year_of_era: u32 = shifted_year - era * 400;
    let month_position: u32 = if month > 2 {
        month as u32 - 3
    } else {
        month as u32 + 9
    };
    let day_of_year: u32 = (153 * month_position + 2) / 5 + day as u32 - 1;
    let day_of_era: u32 = year_of_era * 365 + year_of_era / 4 - year_of_era / 100 + day_of_year;
    proof {
        lemma_days_before_month(year as int);
        let y: int = shifted_year as int;
        assert(era * 146_097 + year_of_era * 365 + year_of_era / 4 - year_of_era / 100 == y * 365
            + y / 4 - y / 100 + y / 400);
        lemma_next_year(y);
    }
    era as i64 * 146_097 + day_of_era as i64 - 719_468
}

/// The date a number of days from `1970-01-01`: the inverse of
/// `days_from_civil`.
fn civil_from_days(days: i64) -> (date: (i32, u8, u8))
    requires
        MIN_ORDINAL <= days + DAYS_FROM_YEAR_ONE_TO_EPOCH + 1 <= MAX_ORDINAL,
    ensures
        valid_date(date.0 as int, date.1 as int, date.2 as int),
        ordinal_of(date.0 as int, date.1 as int, date.2 as int) == days
            + DAYS_FROM_YEAR_ONE_TO_EPOCH + 1,
{
    let from_year_one: u32 = (days + DAYS_FROM_YEAR_ONE_TO_EPOCH) as u32;
    let eras: u32 = from_year_one / 146_097;
    let day_of_era: u32 = from_year_one % 146_097;
    let centuries: u32 = if day_of_era == 146_096 {
        3
    } else {
        day_of_era / 36_524
    };
    let day_of_century: u32 = day_of_era - centuries * 36_524;
    let quads: u32 = day_of_century / 1_461;
    let day_of_quad: u32 = day_of_century % 1_461;
    let years: u32 = if day_of_quad == 1_460 {
        3
    } else {
        day_of_quad / 365
    };
    let mut day_of_year: u32 = day_of_quad - years * 365;
    let year: i32 = (eras * 400 + centuries * 100 + quads * 4 + years + 1) as i32;
    proof {
        let y: int = year as int - 1;
        assert(centuries <= 3);
        assert(quads <= 24);
        assert(years <= 3);
        assert(y / 400 == eras);
        assert(y / 100 == eras * 4 + centuries);
        assert(y / 4 == eras * 100 + centuries * 25 + quads);
        assert(days_before_year(year as int) + day_of_year == from_year_one);
        assert(day_of_year < 365 + if leap(year as int) {
            1int
        } else {
            0
        });
        lemma_days_before_month(year as int);
        if year > 9999 {
            lemma_years_ordered(9999, year as int);
        }
    }
    let ghost start: u32 = day_of_year;
    let mut month: u8 = 1;
    while month < 12 && day_of_year >= days_in_month(year, month) as u32
        invariant
            1 <= month <= 12,
            1 <= year <= 9999,
            days_before_month(year as int, month as int) + day_of_year == start,
            start < days_before_month(year as int, 13),
        decreases 12 - month,
    {
        day_of_year = day_of_year - days_in_month(year, month) as u32;
        month = month + 1;
    }
    proof {
        lemma_days_before_month(year as int);
    }
    (year, month, (day_of_year + 1) as u8)
}

/// Floored division and its non-negative remainder.
pub(crate) fn div_rem_euclid(value: i64, divisor: i64) -> (result: (i64, i64))
    requires
        divisor > 0,
    ensures
        result.0 == value as int / divisor as int,
        result.1 == value as int % divisor as int,
{
    proof {
        assert(i64::MIN <= value as int / divisor as int <= i64::MAX) by (nonlinear_arith)
            requires
                divisor > 0,
        ;
        vstd::arithmetic::div_mod::lemma_fundamental_div_mod(value as int, divisor as int);
    }
    let quotient: i64 = value.checked_div_euclid(divisor).unwrap();
    let remainder: i64 = value.checked_rem_euclid(divisor).unwrap();
    (quotient, remainder)
}

// ---------------------------------------------------------------------
// Dates
// ---------------------------------------------------------------------

/// A Python `datetime.date`: a year, month and day of the years `1..=9999`.
#[derive(Debug, Clone, Copy, PartialEq, Eq, PartialOrd, Ord, Hash, Structural)]
pub struct Date {
    year: i32,
    month: u8,
    day: u8,
}

impl Date {
    #[verifier::type_invariant]
    spec fn well_formed(self) -> bool {
        self.valid()
    }

    /// Whether the fields are a date of the calendar.
    pub open spec fn valid(self) -> bool {
        valid_date(self.spec_year() as int, self.spec_month() as int, self.spec_day() as int)
    }

    /// The year.
    pub closed spec fn spec_year(self) -> i32 {
        self.year
    }

    /// The month.
    pub closed spec fn spec_month(self) -> u8 {
        self.month
    }

    /// The day of the month.
    pub closed spec fn spec_day(self) -> u8 {
        self.day
    }

    /// The number of the date, `0001-01-01` being the first.
    pub open spec fn spec_ordinal(self) -> int {
        ordinal_of(self.spec_year() as int, self.spec_month() as int, self.spec_day() as int)
    }

    /// `YYYY-MM-DD`.
    pub open spec fn spec_isoformat(self) -> Seq<char> {
        zero_padded(self.spec_year() as nat, 4).push('-') + zero_padded(
            self.spec_month() as nat,
            2,
        ).push('-') + zero_padded(self.spec_day() as nat, 2)
    }

    /// A date is determined by its three fields.
    pub proof fn lemma_fields(self, other: Self)
        requires
            self.spec_year() == other.spec_year(),
            self.spec_month() == other.spec_month(),
            self.spec_day() == other.spec_day(),
        ensures
            self == other,
    {
    }

    /// Builds a date; `None` unless the three numbers are a date of the years
    /// `1..=9999`.
    pub fn new(year: i32, month: u8, day: u8) -> (date: Option<Self>)
        ensures
            date.is_some() == valid_date(year as int, month as int, day as int),
            date matches Some(d) ==> d.spec_year() == year && d.spec_month() == month
                && d.spec_day() == day,
    {
        if year >= MIN_YEAR && year <= MAX_YEAR && day >= 1 && day <= days_in_month(year, month) {
            Some(Self { year, month, day })
        } else {
            None
        }
    }

    /// The year.
    pub fn year(self) -> (year: i32)
        ensures
            year == self.spec_year(),
            MIN_YEAR <= year <= MAX_YEAR,
    {
        proof {
            use_type_invariant(self);
        }
        self.year
    }

    /// The month, `1..=12`.
    pub fn month(self) -> (month: u8)
        ensures
            month == self.spec_month(),
            1 <= month <= 12,
    {
        proof {
            use_type_invariant(self);
        }
        self.month
    }

    /// The day of the month.
    pub fn day(self) -> (day: u8)
        ensures
            day == self.spec_day(),
            self.valid(),
    {
        proof {
            use_type_invariant(self);
        }
        self.day
    }

    /// Days since `0001-01-01`, counting that day as the first.
    pub fn ordinal(self) -> (ordinal: i64)
        ensures
            ordinal == self.spec_ordinal(),
            self.valid(),
            MIN_ORDINAL <= ordinal <= MAX_ORDINAL,
    {
        proof {
            use_type_invariant(self);
            lemma_ordinal_range(self.year as int, self.month as int, self.day as int);
        }
        days_from_civil(self.year, self.month, self.day) + DAYS_FROM_YEAR_ONE_TO_EPOCH + 1
    }

    /// The date with this ordinal; `None` outside `1..=3_652_059`.
    pub fn from_ordinal(ordinal: i64) -> (date: Option<Self>)
        ensures
            date.is_some() == (MIN_ORDINAL <= ordinal <= MAX_ORDINAL),
            date matches Some(d) ==> d.valid() && d.spec_ordinal() == ordinal,
    {
        if ordinal < MIN_ORDINAL || ordinal > MAX_ORDINAL {
            return None;
        }
        let (year, month, day) = civil_from_days(ordinal - DAYS_FROM_YEAR_ONE_TO_EPOCH - 1);
        Some(Self { year, month, day })
    }

    /// Python's `date.isoformat()`: `YYYY-MM-DD`.
    pub fn isoformat(self) -> (text: String)
        ensures
            text@ == self.spec_isoformat(),
    {
        proof {
            use_type_invariant(self);
        }
        let mut text: String = String::new();
        push_padded(&mut text, self.year as u64, 4);
        text.push('-');
        push_padded(&mut text, self.month as u64, 2);
        text.push('-');
        push_padded(&mut text, self.day as u64, 2);
        assert(text@ =~= self.spec_isoformat());
        text
    }

    /// Python's `str(date)`, which is its `isoformat()`.
    pub fn python_str(self) -> (text: String)
        ensures
            text@ == self.spec_isoformat(),
    {
        self.isoformat()
    }
}

/// A date is the one that its ordinal names: no two dates share an ordinal.
pub proof fn lemma_ordinal_identifies_date(date: Date, other: Date)
    requires
        date.valid(),
        other.valid(),
    ensures
        date.spec_ordinal() == other.spec_ordinal() <==> date == other,
{
    lemma_ordinal_ordered(
        date.spec_year() as int,
        date.spec_month() as int,
        date.spec_day() as int,
        other.spec_year() as int,
        other.spec_month() as int,
        other.spec_day() as int,
    );
}

// ---------------------------------------------------------------------
// Times of day
// ---------------------------------------------------------------------

/// Whether the numbers are a time of day, and the offset, if there is one,
/// stays within a day in either direction.
pub open spec fn valid_time(
    hour: int,
    minute: int,
    second: int,
    microsecond: int,
    utc_offset_seconds: Option<i32>,
) -> bool {
    &&& 0 <= hour <= 23
    &&& 0 <= minute <= 59
    &&& 0 <= second <= 59
    &&& 0 <= microsecond <= 999_999
    &&& utc_offset_seconds matches Some(offset) ==> -86_400 < offset < 86_400
}

/// `HH:MM:SS`.
pub open spec fn clock(hour: nat, minute: nat, second: nat) -> Seq<char> {
    zero_padded(hour, 2).push(':') + zero_padded(minute, 2).push(':') + zero_padded(second, 2)
}

/// `.ffffff`; nothing for a whole second.
pub open spec fn fraction(microsecond: nat) -> Seq<char> {
    if microsecond == 0 {
        seq![]
    } else {
        seq!['.'] + zero_padded(microsecond, 6)
    }
}

/// `HH:MM:SS[.ffffff]`, and the offset where there is one: `+HH:MM`, with
/// `:SS` behind it unless it is a whole number of minutes.
pub open spec fn time_fields(
    hour: nat,
    minute: nat,
    second: nat,
    microsecond: nat,
    utc_offset_seconds: Option<i32>,
) -> Seq<char> {
    clock(hour, minute, second) + fraction(microsecond) + offset_suffix(utc_offset_seconds)
}

/// The rendering of an offset from UTC; nothing for a naive value.
pub open spec fn offset_suffix(utc_offset_seconds: Option<i32>) -> Seq<char> {
    match utc_offset_seconds {
        None => seq![],
        Some(offset) => {
            let magnitude: nat = if offset < 0 {
                (-offset) as nat
            } else {
                offset as nat
            };
            seq![
                if offset < 0 {
                    '-'
                } else {
                    '+'
                },
            ] + zero_padded(magnitude / 3600, 2).push(':') + zero_padded(magnitude / 60 % 60, 2) + (
            if magnitude % 60 == 0 {
                seq![]
            } else {
                seq![':'] + zero_padded(magnitude % 60, 2)
            })
        },
    }
}

/// The offset, zero for a naive value.
pub open spec fn offset_or_zero(utc_offset_seconds: Option<i32>) -> int {
    match utc_offset_seconds {
        None => 0,
        Some(offset) => offset as int,
    }
}

/// Whether the fields are within the bounds of [`valid_time`].
fn time_in_range(
    hour: u8,
    minute: u8,
    second: u8,
    microsecond: u32,
    utc_offset_seconds: Option<i32>,
) -> (result: bool)
    ensures
        result == valid_time(
            hour as int,
            minute as int,
            second as int,
            microsecond as int,
            utc_offset_seconds,
        ),
{
    let offset_in_range: bool = match utc_offset_seconds {
        None => true,
        Some(offset) => -86_400 < offset && offset < 86_400,
    };
    hour <= 23 && minute <= 59 && second <= 59 && microsecond <= 999_999 && offset_in_range
}

/// Appends `HH:MM:SS`.
fn push_clock(out: &mut String, hour: u8, minute: u8, second: u8)
    ensures
        final(out)@ == old(out)@ + clock(hour as nat, minute as nat, second as nat),
{
    push_padded(out, hour as u64, 2);
    out.push(':');
    push_padded(out, minute as u64, 2);
    out.push(':');
    push_padded(out, second as u64, 2);
    assert(out@ =~= old(out)@ + clock(hour as nat, minute as nat, second as nat));
}

/// Appends `.ffffff` unless the microsecond is zero.
fn push_fraction(out: &mut String, microsecond: u32)
    ensures
        final(out)@ == old(out)@ + fraction(microsecond as nat),
{
    if microsecond != 0 {
        out.push('.');
        push_padded(out, microsecond as u64, 6);
    }
    assert(out@ =~= old(out)@ + fraction(microsecond as nat));
}

/// Appends an offset from UTC, nothing for a naive value.
fn push_offset(out: &mut String, utc_offset_seconds: Option<i32>)
    requires
        utc_offset_seconds matches Some(offset) ==> -86_400 < offset < 86_400,
    ensures
        final(out)@ == old(out)@ + offset_suffix(utc_offset_seconds),
{
    if let Some(offset) = utc_offset_seconds {
        let sign: char = if offset < 0 {
            '-'
        } else {
            '+'
        };
        let magnitude: u64 = if offset < 0 {
            (-offset) as u64
        } else {
            offset as u64
        };
        out.push(sign);
        push_padded(out, magnitude / 3600, 2);
        out.push(':');
        push_padded(out, magnitude / 60 % 60, 2);
        if magnitude % 60 != 0 {
            out.push(':');
            push_padded(out, magnitude % 60, 2);
        }
    }
    assert(out@ =~= old(out)@ + offset_suffix(utc_offset_seconds));
}

/// Appends the time of day that [`DateTime`] and [`Time`] render alike.
fn render_time_fields(
    out: &mut String,
    hour: u8,
    minute: u8,
    second: u8,
    microsecond: u32,
    utc_offset_seconds: Option<i32>,
)
    requires
        utc_offset_seconds matches Some(offset) ==> -86_400 < offset < 86_400,
    ensures
        final(out)@ == old(out)@ + time_fields(
            hour as nat,
            minute as nat,
            second as nat,
            microsecond as nat,
            utc_offset_seconds,
        ),
{
    push_clock(out, hour, minute, second);
    push_fraction(out, microsecond);
    push_offset(out, utc_offset_seconds);
    assert(out@ =~= old(out)@ + time_fields(
        hour as nat,
        minute as nat,
        second as nat,
        microsecond as nat,
        utc_offset_seconds,
    ));
}

// ---------------------------------------------------------------------
// Datetimes
// ---------------------------------------------------------------------

/// A Python `datetime.datetime`: a date, a time of day, and an offset from UTC
/// in whole seconds unless it is naive.
#[derive(Debug, Clone, Copy, PartialEq, Eq, PartialOrd, Ord, Hash, Structural)]
pub struct DateTime {
    date: Date,
    hour: u8,
    minute: u8,
    second: u8,
    microsecond: u32,
    utc_offset_seconds: Option<i32>,
}

impl DateTime {
    #[verifier::type_invariant]
    spec fn well_formed(self) -> bool {
        self.valid()
    }

    /// Whether the fields are within their bounds.
    pub open spec fn valid(self) -> bool {
        self.spec_date().valid() && valid_time(
            self.spec_hour() as int,
            self.spec_minute() as int,
            self.spec_second() as int,
            self.spec_microsecond() as int,
            self.spec_utc_offset_seconds(),
        )
    }

    /// The date.
    pub closed spec fn spec_date(self) -> Date {
        self.date
    }

    /// The hour.
    pub closed spec fn spec_hour(self) -> u8 {
        self.hour
    }

    /// The minute.
    pub closed spec fn spec_minute(self) -> u8 {
        self.minute
    }

    /// The second.
    pub closed spec fn spec_second(self) -> u8 {
        self.second
    }

    /// The microsecond.
    pub closed spec fn spec_microsecond(self) -> u32 {
        self.microsecond
    }

    /// The offset from UTC, `None` for a naive value.
    pub closed spec fn spec_utc_offset_seconds(self) -> Option<i32> {
        self.utc_offset_seconds
    }

    /// Microseconds from `1970-01-01T00:00:00Z`, a naive value being read as
    /// UTC.
    pub open spec fn spec_instant(self) -> int {
        ((self.spec_date().spec_ordinal() - 1 - DAYS_FROM_YEAR_ONE_TO_EPOCH) * SECONDS_PER_DAY
            + self.spec_hour() * 3600 + self.spec_minute() * 60 + self.spec_second()
            - offset_or_zero(self.spec_utc_offset_seconds())) * MICROS_PER_SECOND
            + self.spec_microsecond()
    }

    /// The ordinal of the day on which the instant falls in UTC.
    pub open spec fn spec_utc_ordinal(self) -> int {
        self.spec_instant() / (SECONDS_PER_DAY * MICROS_PER_SECOND) + DAYS_FROM_YEAR_ONE_TO_EPOCH
            + 1
    }

    /// The date and the time of day with `separator` between them.
    pub open spec fn spec_rendered(self, separator: char) -> Seq<char> {
        self.spec_date().spec_isoformat().push(separator) + time_fields(
            self.spec_hour() as nat,
            self.spec_minute() as nat,
            self.spec_second() as nat,
            self.spec_microsecond() as nat,
            self.spec_utc_offset_seconds(),
        )
    }

    /// The normalized value: the same instant with the offset zero.
    pub open spec fn is_utc_of(self, other: Self) -> bool {
        &&& self.valid()
        &&& self.spec_utc_offset_seconds() == Some(0i32)
        &&& self.spec_instant() == other.spec_instant()
    }

    /// The value normalized to UTC, `None` where it falls outside the
    /// calendar.
    pub open spec fn spec_to_utc(self) -> Option<Self> {
        if MIN_ORDINAL <= self.spec_utc_ordinal() <= MAX_ORDINAL {
            Some(choose|utc: Self| utc.is_utc_of(self))
        } else {
            None
        }
    }

    /// A datetime is determined by its fields.
    pub proof fn lemma_fields(self, other: Self)
        requires
            self.spec_date() == other.spec_date(),
            self.spec_hour() == other.spec_hour(),
            self.spec_minute() == other.spec_minute(),
            self.spec_second() == other.spec_second(),
            self.spec_microsecond() == other.spec_microsecond(),
            self.spec_utc_offset_seconds() == other.spec_utc_offset_seconds(),
        ensures
            self == other,
    {
    }

    /// Builds a datetime; `None` if a field of the time of day is out of range
    /// or the offset is not strictly within a day.
    pub fn new(
        date: Date,
        hour: u8,
        minute: u8,
        second: u8,
        microsecond: u32,
        utc_offset_seconds: Option<i32>,
    ) -> (datetime: Option<Self>)
        ensures
            datetime.is_some() == valid_time(
                hour as int,
                minute as int,
                second as int,
                microsecond as int,
                utc_offset_seconds,
            ),
            datetime matches Some(d) ==> {
                &&& d.spec_date() == date
                &&& d.spec_hour() == hour
                &&& d.spec_minute() == minute
                &&& d.spec_second() == second
                &&& d.spec_microsecond() == microsecond
                &&& d.spec_utc_offset_seconds() == utc_offset_seconds
            },
    {
        proof {
            use_type_invariant(date);
        }
        if time_in_range(hour, minute, second, microsecond, utc_offset_seconds) {
            Some(Self { date, hour, minute, second, microsecond, utc_offset_seconds })
        } else {
            None
        }
    }

    /// The date.
    pub fn date(self) -> (date: Date)
        ensures
            date == self.spec_date(),
    {
        self.date
    }

    /// The hour, `0..=23`.
    pub fn hour(self) -> (hour: u8)
        ensures
            hour == self.spec_hour(),
            hour <= 23,
    {
        proof {
            use_type_invariant(self);
        }
        self.hour
    }

    /// The minute, `0..=59`.
    pub fn minute(self) -> (minute: u8)
        ensures
            minute == self.spec_minute(),
            minute <= 59,
    {
        proof {
            use_type_invariant(self);
        }
        self.minute
    }

    /// The second, `0..=59`.
    pub fn second(self) -> (second: u8)
        ensures
            second == self.spec_second(),
            second <= 59,
    {
        proof {
            use_type_invariant(self);
        }
        self.second
    }

    /// The microsecond, `0..=999_999`.
    pub fn microsecond(self) -> (microsecond: u32)
        ensures
            microsecond == self.spec_microsecond(),
            microsecond <= 999_999,
    {
        proof {
            use_type_invariant(self);
        }
        self.microsecond
    }

    /// The offset from UTC in whole seconds, `None` for a naive value.
    pub fn utc_offset_seconds(self) -> (offset: Option<i32>)
        ensures
            offset == self.spec_utc_offset_seconds(),
            offset matches Some(seconds) ==> -86_400 < seconds < 86_400,
    {
        proof {
            use_type_invariant(self);
        }
        self.utc_offset_seconds
    }

    /// Microseconds from `1970-01-01T00:00:00Z`, a naive value being read as
    /// UTC.
    pub fn instant(self) -> (instant: i64)
        ensures
            instant == self.spec_instant(),
            -62_135_683_200_000_000 < instant < 253_402_387_200_000_000,
            self.valid(),
    {
        proof {
            use_type_invariant(self);
        }
        let offset: i64 = match self.utc_offset_seconds {
            None => 0,
            Some(seconds) => seconds as i64,
        };
        let seconds_of_day: i64 = self.hour as i64 * 3600 + self.minute as i64 * 60
            + self.second as i64 - offset;
        let days: i64 = self.date.ordinal() - 1 - DAYS_FROM_YEAR_ONE_TO_EPOCH;
        (days * SECONDS_PER_DAY + seconds_of_day) * MICROS_PER_SECOND + self.microsecond as i64
    }

    /// The value normalized to UTC: aware, with the offset zero, at the same
    /// instant. `None` where that falls outside the years `1..=9999`.
    pub fn to_utc(self) -> (utc: Option<Self>)
        ensures
            utc == self.spec_to_utc(),
            utc matches Some(u) ==> u.is_utc_of(self),
    {
        let instant: i64 = self.instant();
        let (days, micros_of_day) = div_rem_euclid(instant, 86_400_000_000);
        let date: Date = match Date::from_ordinal(days + DAYS_FROM_YEAR_ONE_TO_EPOCH + 1) {
            None => {
                return None;
            },
            Some(date) => date,
        };
        let micros: u64 = micros_of_day as u64;
        let seconds_of_day: u64 = micros / 1_000_000;
        let utc: Self = Self {
            date,
            hour: (seconds_of_day / 3600) as u8,
            minute: (seconds_of_day / 60 % 60) as u8,
            second: (seconds_of_day % 60) as u8,
            microsecond: (micros % 1_000_000) as u32,
            utc_offset_seconds: Some(0),
        };
        proof {
            lemma_split_day(micros_of_day as int);
            assert(utc.is_utc_of(self));
            let chosen: Self = choose|other: Self| other.is_utc_of(self);
            lemma_utc_identified(utc, chosen);
        }
        Some(utc)
    }

    /// Python's `datetime.isoformat()`.
    pub fn isoformat(self) -> (text: String)
        ensures
            text@ == self.spec_rendered('T'),
    {
        self.rendered('T')
    }

    /// Python's `str(datetime)`: a space where `isoformat()` has a `T`.
    pub fn python_str(self) -> (text: String)
        ensures
            text@ == self.spec_rendered(' '),
    {
        self.rendered(' ')
    }

    /// What `isoformat` and `python_str` share.
    fn rendered(self, separator: char) -> (text: String)
        ensures
            text@ == self.spec_rendered(separator),
    {
        proof {
            use_type_invariant(self);
        }
        let mut text: String = self.date.isoformat();
        text.push(separator);
        render_time_fields(
            &mut text,
            self.hour,
            self.minute,
            self.second,
            self.microsecond,
            self.utc_offset_seconds,
        );
        text
    }
}

/// The hour, minute, second and microsecond of a microsecond of the day.
proof fn lemma_split_day(micros: int)
    requires
        0 <= micros < 86_400_000_000,
    ensures
        ({
            let seconds: int = micros / 1_000_000;
            &&& 0 <= seconds / 3600 <= 23
            &&& 0 <= seconds / 60 % 60 <= 59
            &&& 0 <= seconds % 60 <= 59
            &&& (seconds / 3600 * 3600 + seconds / 60 % 60 * 60 + seconds % 60) * 1_000_000
                + micros % 1_000_000 == micros
        }),
{
    let seconds: int = micros / 1_000_000;
    assert(seconds / 60 / 60 == seconds / 3600);
}

/// A value whose offset is zero is the one that its instant names.
pub proof fn lemma_utc_identified(utc: DateTime, other: DateTime)
    requires
        utc.valid(),
        other.valid(),
        utc.spec_utc_offset_seconds() == Some(0i32),
        other.spec_utc_offset_seconds() == Some(0i32),
        utc.spec_instant() == other.spec_instant(),
    ensures
        utc == other,
{
    let day: int = utc.spec_date().spec_ordinal();
    let other_day: int = other.spec_date().spec_ordinal();
    let seconds: int = utc.spec_hour() * 3600 + utc.spec_minute() * 60 + utc.spec_second();
    let other_seconds: int = other.spec_hour() * 3600 + other.spec_minute() * 60
        + other.spec_second();
    assert(day == other_day);
    assert(seconds == other_seconds);
    lemma_ordinal_identifies_date(utc.spec_date(), other.spec_date());
}

/// Normalizing keeps the instant, and a normalized value is its own
/// normalization.
pub proof fn lemma_to_utc_idempotent(datetime: DateTime, utc: DateTime)
    requires
        datetime.valid(),
        utc.is_utc_of(datetime),
    ensures
        utc.spec_to_utc() == Some(utc),
        datetime.spec_to_utc() == Some(utc),
{
    let day: int = utc.spec_date().spec_ordinal();
    lemma_ordinal_range(
        utc.spec_date().spec_year() as int,
        utc.spec_date().spec_month() as int,
        utc.spec_date().spec_day() as int,
    );
    assert(utc.spec_utc_ordinal() == day);
    assert(utc.is_utc_of(utc));
    let of_utc: DateTime = choose|other: DateTime| other.is_utc_of(utc);
    let of_datetime: DateTime = choose|other: DateTime| other.is_utc_of(datetime);
    lemma_utc_identified(utc, of_utc);
    lemma_utc_identified(utc, of_datetime);
}

// ---------------------------------------------------------------------
// Times
// ---------------------------------------------------------------------

/// A Python `datetime.time`: a time of day, and an offset from UTC in whole
/// seconds unless it is naive.
#[derive(Debug, Clone, Copy, PartialEq, Eq, PartialOrd, Ord, Hash, Structural)]
pub struct Time {
    hour: u8,
    minute: u8,
    second: u8,
    microsecond: u32,
    utc_offset_seconds: Option<i32>,
}

impl Time {
    #[verifier::type_invariant]
    spec fn well_formed(self) -> bool {
        self.valid()
    }

    /// Whether the fields are within their bounds.
    pub open spec fn valid(self) -> bool {
        valid_time(
            self.spec_hour() as int,
            self.spec_minute() as int,
            self.spec_second() as int,
            self.spec_microsecond() as int,
            self.spec_utc_offset_seconds(),
        )
    }

    /// The hour.
    pub closed spec fn spec_hour(self) -> u8 {
        self.hour
    }

    /// The minute.
    pub closed spec fn spec_minute(self) -> u8 {
        self.minute
    }

    /// The second.
    pub closed spec fn spec_second(self) -> u8 {
        self.second
    }

    /// The microsecond.
    pub closed spec fn spec_microsecond(self) -> u32 {
        self.microsecond
    }

    /// The offset from UTC, `None` for a naive value.
    pub closed spec fn spec_utc_offset_seconds(self) -> Option<i32> {
        self.utc_offset_seconds
    }

    /// Microseconds since midnight on the wall clock.
    pub open spec fn spec_wall_micros(self) -> int {
        (self.spec_hour() * 3600 + self.spec_minute() * 60 + self.spec_second())
            * MICROS_PER_SECOND + self.spec_microsecond()
    }

    /// Microseconds since midnight, shifted by the offset; not reduced to one
    /// day.
    pub open spec fn spec_sort_instant(self) -> int {
        self.spec_wall_micros() - offset_or_zero(self.spec_utc_offset_seconds())
            * MICROS_PER_SECOND
    }

    /// Whole seconds since midnight on the wall clock.
    pub open spec fn spec_hash_seconds_of_day(self) -> int {
        (self.spec_hour() * 60 + self.spec_minute()) * 60 + self.spec_second()
    }

    /// The rendering of the time of day.
    pub open spec fn spec_isoformat(self) -> Seq<char> {
        time_fields(
            self.spec_hour() as nat,
            self.spec_minute() as nat,
            self.spec_second() as nat,
            self.spec_microsecond() as nat,
            self.spec_utc_offset_seconds(),
        )
    }

    /// A time is determined by its fields.
    pub proof fn lemma_fields(self, other: Self)
        requires
            self.spec_hour() == other.spec_hour(),
            self.spec_minute() == other.spec_minute(),
            self.spec_second() == other.spec_second(),
            self.spec_microsecond() == other.spec_microsecond(),
            self.spec_utc_offset_seconds() == other.spec_utc_offset_seconds(),
        ensures
            self == other,
    {
    }

    /// Builds a time; `None` if a field is out of range or the offset is not
    /// strictly within a day.
    pub fn new(
        hour: u8,
        minute: u8,
        second: u8,
        microsecond: u32,
        utc_offset_seconds: Option<i32>,
    ) -> (time: Option<Self>)
        ensures
            time.is_some() == valid_time(
                hour as int,
                minute as int,
                second as int,
                microsecond as int,
                utc_offset_seconds,
            ),
            time matches Some(t) ==> {
                &&& t.spec_hour() == hour
                &&& t.spec_minute() == minute
                &&& t.spec_second() == second
                &&& t.spec_microsecond() == microsecond
                &&& t.spec_utc_offset_seconds() == utc_offset_seconds
            },
    {
        if time_in_range(hour, minute, second, microsecond, utc_offset_seconds) {
            Some(Self { hour, minute, second, microsecond, utc_offset_seconds })
        } else {
            None
        }
    }

    /// The hour, `0..=23`.
    pub fn hour(self) -> (hour: u8)
        ensures
            hour == self.spec_hour(),
            hour <= 23,
    {
        proof {
            use_type_invariant(self);
        }
        self.hour
    }

    /// The minute, `0..=59`.
    pub fn minute(self) -> (minute: u8)
        ensures
            minute == self.spec_minute(),
            minute <= 59,
    {
        proof {
            use_type_invariant(self);
        }
        self.minute
    }

    /// The second, `0..=59`.
    pub fn second(self) -> (second: u8)
        ensures
            second == self.spec_second(),
            second <= 59,
    {
        proof {
            use_type_invariant(self);
        }
        self.second
    }

    /// The microsecond, `0..=999_999`.
    pub fn microsecond(self) -> (microsecond: u32)
        ensures
            microsecond == self.spec_microsecond(),
            microsecond <= 999_999,
    {
        proof {
            use_type_invariant(self);
        }
        self.microsecond
    }

    /// The offset from UTC in whole seconds, `None` for a naive value.
    pub fn utc_offset_seconds(self) -> (offset: Option<i32>)
        ensures
            offset == self.spec_utc_offset_seconds(),
            offset matches Some(seconds) ==> -86_400 < seconds < 86_400,
    {
        proof {
            use_type_invariant(self);
        }
        self.utc_offset_seconds
    }

    /// Microseconds since midnight on the wall clock.
    fn wall_micros_of_day(self) -> (micros: i64)
        ensures
            micros == self.spec_wall_micros(),
            0 <= micros < 86_400_000_000,
    {
        proof {
            use_type_invariant(self);
        }
        (self.hour as i64 * 3600 + self.minute as i64 * 60 + self.second as i64) * MICROS_PER_SECOND
            + self.microsecond as i64
    }

    /// Microseconds since midnight, shifted by the offset.
    fn adjusted_micros_of_day(self) -> (micros: i64)
        ensures
            micros == self.spec_sort_instant(),
    {
        proof {
            use_type_invariant(self);
        }
        let offset: i64 = match self.utc_offset_seconds {
            None => 0,
            Some(seconds) => seconds as i64,
        };
        self.wall_micros_of_day() - offset * MICROS_PER_SECOND
    }

    /// What two times of the same awareness are ordered and compared by.
    pub fn sort_instant(self) -> (micros: i64)
        ensures
            micros == self.spec_sort_instant(),
    {
        if self.utc_offset_seconds.is_some() {
            self.adjusted_micros_of_day()
        } else {
            self.wall_micros_of_day()
        }
    }

    /// Whole seconds since midnight on the wall clock, without the microsecond
    /// and the offset: what a time is hashed by.
    pub fn hash_seconds_of_day(self) -> (seconds: i64)
        ensures
            seconds == self.spec_hash_seconds_of_day(),
            0 <= seconds < 86_400,
    {
        proof {
            use_type_invariant(self);
        }
        (self.hour as i64 * 60 + self.minute as i64) * 60 + self.second as i64
    }

    /// Python's `time.isoformat()`.
    pub fn isoformat(self) -> (text: String)
        ensures
            text@ == self.spec_isoformat(),
    {
        proof {
            use_type_invariant(self);
        }
        let mut text: String = String::new();
        render_time_fields(
            &mut text,
            self.hour,
            self.minute,
            self.second,
            self.microsecond,
            self.utc_offset_seconds,
        );
        assert(text@ =~= self.spec_isoformat());
        text
    }

    /// Python's `str(time)`, which is its `isoformat()`.
    pub fn python_str(self) -> (text: String)
        ensures
            text@ == self.spec_isoformat(),
    {
        self.isoformat()
    }
}

/// Python's `time.__eq__`: a naive time is never equal to an aware one, and two
/// of the same awareness are equal when their shifted clocks agree.
pub open spec fn same_time(a: Time, b: Time) -> bool {
    a.spec_utc_offset_seconds().is_some() == b.spec_utc_offset_seconds().is_some()
        && a.spec_sort_instant() == b.spec_sort_instant()
}

/// Whether two times are equal in Python's sense.
pub fn times_equal(a: Time, b: Time) -> (result: bool)
    ensures
        result == same_time(a, b),
{
    match (a.utc_offset_seconds, b.utc_offset_seconds) {
        (None, None) => a.wall_micros_of_day() == b.wall_micros_of_day(),
        (Some(_), Some(_)) => a.adjusted_micros_of_day() == b.adjusted_micros_of_day(),
        _ => false,
    }
}

/// Equality of times is an equivalence.
pub proof fn lemma_same_time_equivalence(a: Time, b: Time, c: Time)
    ensures
        same_time(a, a),
        same_time(a, b) ==> same_time(b, a),
        same_time(a, b) && same_time(b, c) ==> same_time(a, c),
{
}

// ---------------------------------------------------------------------
// Durations
// ---------------------------------------------------------------------

/// A Python `datetime.timedelta`: an exact signed duration.
#[derive(Debug, Clone, Copy, PartialEq, Eq, PartialOrd, Ord, Hash, Structural)]
pub struct TimeDelta {
    total_seconds: i64,
    subsecond_microseconds: u32,
}

impl TimeDelta {
    #[verifier::type_invariant]
    spec fn well_formed(self) -> bool {
        self.valid()
    }

    /// Whether the parts are within their bounds.
    pub open spec fn valid(self) -> bool {
        &&& TIMEDELTA_MIN_DAYS <= self.spec_days() <= TIMEDELTA_MAX_DAYS
        &&& self.spec_subsecond_microseconds() < 1_000_000
    }

    /// Whole seconds, rounded toward the past.
    pub closed spec fn spec_whole_seconds(self) -> i64 {
        self.total_seconds
    }

    /// The microseconds beyond the whole seconds.
    pub closed spec fn spec_subsecond_microseconds(self) -> u32 {
        self.subsecond_microseconds
    }

    /// Python's `timedelta.days`.
    pub open spec fn spec_days(self) -> int {
        self.spec_whole_seconds() as int / SECONDS_PER_DAY as int
    }

    /// Python's `timedelta.seconds`.
    pub open spec fn spec_seconds(self) -> int {
        self.spec_whole_seconds() as int % SECONDS_PER_DAY as int
    }

    /// The exact length in microseconds.
    pub open spec fn spec_total_micros(self) -> int {
        self.spec_whole_seconds() * MICROS_PER_SECOND + self.spec_subsecond_microseconds()
    }

    /// `[D day[s], ]H:MM:SS[.ffffff]`.
    pub open spec fn spec_python_str(self) -> Seq<char> {
        (if self.spec_days() == 0 {
            seq![]
        } else if self.spec_days() == 1 || self.spec_days() == -1 {
            signed_decimal(self.spec_days()) + " day, "@
        } else {
            signed_decimal(self.spec_days()) + " days, "@
        }) + decimal((self.spec_seconds() / 3600) as nat).push(':') + zero_padded(
            (self.spec_seconds() / 60 % 60) as nat,
            2,
        ).push(':') + zero_padded((self.spec_seconds() % 60) as nat, 2) + (
        if self.spec_subsecond_microseconds() == 0 {
            seq![]
        } else {
            seq!['.'] + zero_padded(self.spec_subsecond_microseconds() as nat, 6)
        })
    }

    /// A duration is determined by its fields.
    pub proof fn lemma_fields(self, other: Self)
        requires
            self.spec_whole_seconds() == other.spec_whole_seconds(),
            self.spec_subsecond_microseconds() == other.spec_subsecond_microseconds(),
        ensures
            self == other,
    {
    }

    /// Builds a duration from Python's normalized parts; `None` if a part is
    /// out of its range.
    pub fn new(days: i64, seconds: i64, microseconds: i64) -> (delta: Option<Self>)
        ensures
            delta.is_some() == (TIMEDELTA_MIN_DAYS <= days <= TIMEDELTA_MAX_DAYS && 0 <= seconds
                < SECONDS_PER_DAY && 0 <= microseconds < MICROS_PER_SECOND),
            delta matches Some(d) ==> {
                &&& d.spec_days() == days
                &&& d.spec_seconds() == seconds
                &&& d.spec_subsecond_microseconds() == microseconds
            },
    {
        if seconds < 0 || seconds >= SECONDS_PER_DAY || microseconds < 0 || microseconds
            >= MICROS_PER_SECOND {
            return None;
        }
        if days < TIMEDELTA_MIN_DAYS || days > TIMEDELTA_MAX_DAYS {
            return None;
        }
        Some(
            Self {
                total_seconds: days * SECONDS_PER_DAY + seconds,
                subsecond_microseconds: microseconds as u32,
            },
        )
    }

    /// Python's `timedelta.days`.
    pub fn days(self) -> (days: i64)
        ensures
            days == self.spec_days(),
            TIMEDELTA_MIN_DAYS <= days <= TIMEDELTA_MAX_DAYS,
    {
        proof {
            use_type_invariant(self);
        }
        let (days, _) = div_rem_euclid(self.total_seconds, SECONDS_PER_DAY);
        days
    }

    /// Python's `timedelta.seconds`, `0..86_400`.
    pub fn seconds(self) -> (seconds: i64)
        ensures
            seconds == self.spec_seconds(),
            0 <= seconds < SECONDS_PER_DAY,
    {
        let (_, seconds) = div_rem_euclid(self.total_seconds, SECONDS_PER_DAY);
        seconds
    }

    /// Python's `timedelta.microseconds`, `0..1_000_000`.
    pub fn microseconds(self) -> (microseconds: i64)
        ensures
            microseconds == self.spec_subsecond_microseconds(),
            0 <= microseconds < MICROS_PER_SECOND,
    {
        proof {
            use_type_invariant(self);
        }
        self.subsecond_microseconds as i64
    }

    /// The whole seconds of the duration, rounded toward the past.
    pub fn whole_seconds(self) -> (seconds: i64)
        ensures
            seconds == self.spec_whole_seconds(),
            self.valid(),
    {
        proof {
            use_type_invariant(self);
        }
        self.total_seconds
    }

    /// The whole span in seconds, as a float.
    pub open spec fn spec_total_seconds(self) -> u64 {
        float_sum(
            float_of_int(self.spec_whole_seconds() as int),
            float_quotient(float_of_int(self.spec_subsecond_microseconds() as int), MILLION),
        )
    }

    /// The whole span in seconds, as the bit pattern of a float.
    pub fn total_seconds(self) -> (bits: u64)
        ensures
            bits == self.spec_total_seconds(),
    {
        let micros: i128 = self.microseconds() as i128;
        add_floats(
            from_integer(self.whole_seconds() as i128),
            divide_floats(from_integer(micros), MILLION),
        )
    }

    /// Python's `str(timedelta)`.
    pub fn python_str(self) -> (text: String)
        ensures
            text@ == self.spec_python_str(),
    {
        let days: i64 = self.days();
        let seconds: u64 = self.seconds() as u64;
        let microseconds: u64 = self.microseconds() as u64;
        let mut text: String = String::new();
        if days != 0 {
            push_signed(&mut text, days);
            if days == 1 || days == -1 {
                text.append(" day, ");
            } else {
                text.append(" days, ");
            }
        }
        push_decimal(&mut text, seconds / 3600);
        text.push(':');
        push_padded(&mut text, seconds / 60 % 60, 2);
        text.push(':');
        push_padded(&mut text, seconds % 60, 2);
        if microseconds != 0 {
            text.push('.');
            push_padded(&mut text, microseconds, 6);
        }
        assert(text@ =~= self.spec_python_str());
        text
    }
}

/// A duration is determined by its parts.
pub proof fn lemma_delta_identified(delta: TimeDelta, other: TimeDelta)
    requires
        delta.valid(),
        other.valid(),
    ensures
        delta.spec_total_micros() == other.spec_total_micros() <==> delta == other,
        delta.spec_days() == other.spec_days() && delta.spec_seconds() == other.spec_seconds()
            && delta.spec_subsecond_microseconds() == other.spec_subsecond_microseconds() <==> delta
            == other,
{
}

} // verus!

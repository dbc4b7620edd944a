//! Civil date arithmetic in the proleptic Gregorian calendar.
//!
//! `days_from_civil` / `civil_from_days` are Howard Hinnant's closed-form
//! algorithms, which shift the year to start in March so that the leap day
//! falls at the end of a 146097-day / 400-year era. Their contracts are stated
//! against the plain definition of a day number: the days of the whole years
//! between 1970 and the date's year, plus the days of the whole months before
//! the date's month, plus the day of the month.
use vstd::prelude::*;

use crate::text::{
    all_digits, chars_of, decimal_digits, format_integer, formatted_integer, lemma_digit_is_plain, lemma_parse_digits,
    lemma_split_join, lemma_split_single, lemma_trim_unchanged, lemma_zero_padded, parse_i32,
    parse_u32, parsed_i32, parsed_u32, split, split_on, string_of, trim, trimmed, zero_padded,
};

verus! {

/// Month names, January first, for the date picker.
pub const MONTH_NAMES: [&'static str; 12] = [
    "January",
    "February",
    "March",
    "April",
    "May",
    "June",
    "July",
    "August",
    "September",
    "October",
    "November",
    "December",
];

/// Weekday initials, Monday first (matching [`weekday_index`]).
pub const WEEKDAY_INITIALS: [&'static str; 7] = ["M", "T", "W", "T", "F", "S", "S"];

// ---------------------------------------------------------------------------
// The calendar, as plain definitions.
// ---------------------------------------------------------------------------

/// The Gregorian leap rule.
pub open spec fn spec_is_leap_year(year: int) -> bool {
    (year % 4 == 0 && year % 100 != 0) || year % 400 == 0
}

/// Days in `month` (1..=12) of `year`.
pub open spec fn month_length(year: int, month: int) -> int {
    if month == 2 {
        if spec_is_leap_year(year) {
            29
        } else {
            28
        }
    } else if month == 4 || month == 6 || month == 9 || month == 11 {
        30
    } else {
        31
    }
}

/// Days in `year`.
pub open spec fn year_length(year: int) -> int {
    if spec_is_leap_year(year) {
        366
    } else {
        365
    }
}

/// A month number forced into 1..=12.
pub open spec fn clamp_month(month: int) -> int {
    if month < 1 {
        1
    } else if month > 12 {
        12
    } else {
        month
    }
}

/// `(year, month, day)` names a day that exists.
pub open spec fn is_valid_date(year: int, month: int, day: int) -> bool {
    1 <= month <= 12 && 1 <= day <= month_length(year, month)
}

/// Days of the whole months of `year` before `month`.
pub open spec fn days_before_month(year: int, month: int) -> int
    decreases month,
{
    if month <= 1 {
        0
    } else {
        days_before_month(year, month - 1) + month_length(year, month - 1)
    }
}

/// Days from 1970-01-01 to the first of January of `year` (negative before).
pub open spec fn days_before_year(year: int) -> int
    decreases (if year >= 1970 { year - 1970 } else { 1970 - year }),
{
    if year == 1970 {
        0
    } else if year > 1970 {
        days_before_year(year - 1) + year_length(year - 1)
    } else {
        days_before_year(year + 1) - year_length(year)
    }
}

/// Days from 1970-01-01 to `(year, month, day)`.
pub open spec fn days_since_epoch(year: int, month: int, day: int) -> int {
    days_before_year(year) + days_before_month(year, month) + day - 1
}

/// Leap years among the years 1..=n (counted negatively below zero).
pub open spec fn leap_days_through(n: int) -> int {
    n / 4 - n / 100 + n / 400
}

/// Month index in a year that starts in March: March is 0, February is 11.
pub open spec fn march_month_index(month: int) -> int {
    if month > 2 {
        month - 3
    } else {
        month + 9
    }
}

/// The closed form `days_from_civil` evaluates, for any month and day
/// numbers: years are counted from March, so January and February belong to
/// the previous year, and months past December or before January run on into
/// the neighbouring years.
pub open spec fn civil_day_number(year: int, month: int, day: int) -> int {
    let y = if month <= 2 {
        year - 1
    } else {
        year
    };
    365 * y + leap_days_through(y) + (153 * march_month_index(month) + 2) / 5 + day - 1 - 719468
}

/// `date` is the date of day number `days`: some year whose `as i32`
/// narrowing is `date.year` has a real `(month, day)` with that day number.
pub open spec fn is_date_of_day(date: CivilDate, days: int) -> bool {
    exists|year: int|
        #[verifier::truncate] (year as i32) == date.year && is_valid_date(
            year,
            date.month as int,
            date.day as int,
        ) && days_since_epoch(year, date.month as int, date.day as int) == days
}

/// The least and greatest day numbers whose dates have a year that fits in
/// an `i32`.
pub open spec fn first_i32_day() -> int {
    days_since_epoch(i32::MIN as int, 1, 1)
}

pub open spec fn last_i32_day() -> int {
    days_since_epoch(i32::MAX as int, 12, 31)
}

// ---------------------------------------------------------------------------
// Executable calendar.
// ---------------------------------------------------------------------------

/// A calendar date in the proleptic Gregorian calendar.
#[derive(Clone, Copy, PartialEq, Eq, Debug, Structural)]
pub struct CivilDate {
    pub year: i32,
    /// 1..=12
    pub month: u32,
    /// 1..=31
    pub day: u32,
}

impl CivilDate {
    /// The date with `month` clamped into 1..=12 and `day` into the days of
    /// that month.
    pub fn new(year: i32, month: u32, day: u32) -> (r: Self)
        ensures
            r.year == year,
            r.month == clamp_month(month as int),
            r.day as int == if day < 1 {
                1
            } else if day > month_length(year as int, r.month as int) {
                month_length(year as int, r.month as int)
            } else {
                day as int
            },
            is_valid_date(r.year as int, r.month as int, r.day as int),
    {
        let month = clamp_u32(month, 1, 12);
        let last = days_in_month(year, month);
        Self { year, month, day: clamp_u32(day, 1, last) }
    }

    /// This date as plain integers.
    pub open spec fn valid(self) -> bool {
        is_valid_date(self.year as int, self.month as int, self.day as int)
    }
}

fn clamp_u32(v: u32, lo: u32, hi: u32) -> (r: u32)
    requires
        lo <= hi,
    ensures
        r == if v < lo {
            lo
        } else if v > hi {
            hi
        } else {
            v
        },
{
    if v < lo {
        lo
    } else if v > hi {
        hi
    } else {
        v
    }
}

/// Is `year` a leap year?
pub fn is_leap_year(year: i32) -> (r: bool)
    ensures
        r == spec_is_leap_year(year as int),
{
    let r4 = year % 4;
    let r100 = year % 100;
    let r400 = year % 400;
    proof {
        if year < 0 {
            assert(r4 == -((-year) % 4) && r100 == -((-year) % 100) && r400 == -((-year) % 400));
            lemma_mod_negate(year as int, 4);
            lemma_mod_negate(year as int, 100);
            lemma_mod_negate(year as int, 400);
        }
    }
    let by_four = r4 == 0;
    let not_by_hundred = r100 != 0;
    let by_four_hundred = r400 == 0;
    (by_four && not_by_hundred) || by_four_hundred
}

/// Days in `month` of `year`, with the month clamped into 1..=12.
pub fn days_in_month(year: i32, month: u32) -> (r: u32)
    ensures
        r as int == month_length(year as int, clamp_month(month as int)),
{
    let m = clamp_u32(month, 1, 12);
    if m == 2 && is_leap_year(year) {
        29
    } else {
        match m {
            2 => 28,
            4 | 6 | 9 | 11 => 30,
            _ => 31,
        }
    }
}


/// Days since 1970-01-01 for a proleptic Gregorian date (Hinnant).
pub fn days_from_civil(date: CivilDate) -> (r: i64)
    ensures
        r as int == civil_day_number(date.year as int, date.month as int, date.day as int),
        1 <= date.month <= 12 ==> r as int == days_since_epoch(
            date.year as int,
            date.month as int,
            date.day as int,
        ),
{
    let m = date.month as i64;
    let d = date.day as i64;
    // Shift the year to start in March, so the leap day is last.
    let y = date.year as i64 - if m <= 2 {
        1i64
    } else {
        0i64
    };
    let era = (if y >= 0 {
        y
    } else {
        y - 399
    }) / 400;
    assert(era as int == (y as int) / 400);
    let yoe = y - era * 400;  // [0, 399]
    let mp = m + if m > 2 {
        -3i64
    } else {
        9i64
    };
    let doy = (153 * mp + 2) / 5 + d - 1;  // [0, 365] for a real date
    let doe = yoe * 365 + yoe / 4 - yoe / 100 + doy;  // [0, 146096]
    proof {
        lemma_era_split(y as int);
        if 1 <= date.month <= 12 {
            lemma_civil_day_number(date.year as int, date.month as int, date.day as int);
        }
    }
    era * 146_097 + doe - 719_468
}

/// Inverse of [`days_from_civil`]: the date whose day number is `days`. The
/// year is narrowed to an `i32` as an `as` cast narrows it, so it is exact for
/// every day whose year fits.
#[verifier::rlimit(60)]
pub fn civil_from_days(days: i64) -> (r: CivilDate)
    requires
        days <= i64::MAX - 719_468,
    ensures
        is_date_of_day(r, days as int),
        first_i32_day() <= days <= last_i32_day() ==> r.valid() && days_since_epoch(
            r.year as int,
            r.month as int,
            r.day as int,
        ) == days,
{
    let z = days + 719_468;
    let era = (if z >= 0 {
        z
    } else {
        z - 146_096
    }) / 146_097;
    assert(era as int == (z as int) / 146_097);
    let doe = z - era * 146_097;  // [0, 146096]
    let yoe = (doe - doe / 1460 + doe / 36524 - doe / 146_096) / 365;  // [0, 399]
    proof {
        lemma_year_of_era(doe as int);
    }
    let y = yoe + era * 400;
    let doy = doe - (365 * yoe + yoe / 4 - yoe / 100);  // [0, 365]
    let mp = (5 * doy + 2) / 153;  // [0, 11], March-based
    proof {
        lemma_month_of_year(doy as int);
    }
    let d = doy - (153 * mp + 2) / 5 + 1;
    let m = mp + if mp < 10 {
        3i64
    } else {
        -9i64
    };
    let full_year = y + if m <= 2 {
        1i64
    } else {
        0i64
    };
    proof {
        lemma_civil_from_era_parts(
            z as int,
            era as int,
            doe as int,
            yoe as int,
            y as int,
            doy as int,
            mp as int,
            d as int,
            m as int,
            full_year as int,
        );
        if first_i32_day() <= days <= last_i32_day() {
            lemma_year_of_day(full_year as int, m as int, d as int);
        }
    }
    assert(is_valid_date(full_year as int, m as int, d as int) && days_since_epoch(
        full_year as int,
        m as int,
        d as int,
    ) == days);
    assert(#[verifier::truncate] (full_year as int as i32) == full_year as i32);
    let r = CivilDate { year: #[verifier::truncate] (full_year as i32), month: m as u32, day: d as u32 };
    assert(#[verifier::truncate] (full_year as int as i32) == r.year);
    assert(r.month as int == m as int && r.day as int == d as int);
    assert(is_valid_date(full_year as int, r.month as int, r.day as int) && days_since_epoch(
        full_year as int,
        r.month as int,
        r.day as int,
    ) == days);
    r
}

/// Day of the week as 0 = Monday .. 6 = Sunday. 1970-01-01 was a Thursday, so
/// the epoch lands on index 3.
pub fn weekday_index(date: CivilDate) -> (r: usize)
    ensures
        r as int == (civil_day_number(date.year as int, date.month as int, date.day as int) + 3)
            % 7,
        r < 7,
{
    let shifted = days_from_civil(date) + 3;
    let rem = shifted % 7;
    proof {
        if shifted < 0 {
            assert(rem == -((-shifted) % 7));
            lemma_mod_negate(shifted as int, 7);
        }
    }
    let euclid = if rem < 0 {
        rem + 7
    } else {
        rem
    };
    euclid as usize
}

// ---------------------------------------------------------------------------
// Date text.
// ---------------------------------------------------------------------------

/// `YYYY-MM-DD`, as `format!("{:04}-{:02}-{:02}")` writes a date.
pub open spec fn date_text(date: CivilDate) -> Seq<char> {
    formatted_integer(date.year as int, 4) + seq!['-'] + formatted_integer(date.month as int, 2)
        + seq!['-'] + formatted_integer(date.day as int, 2)
}

/// The date `parse_date` reads from `text`: after trimming, exactly three
/// `-`-separated fields, each trimmed and read as an integer (the year as an
/// `i32`, month and day as `u32`), naming a day that exists.
pub open spec fn parsed_date(text: Seq<char>) -> Option<CivilDate> {
    let fields = split(trim(text), '-');
    if fields.len() != 3 {
        None
    } else {
        match (
            parsed_i32(trim(fields[0])),
            parsed_u32(trim(fields[1])),
            parsed_u32(trim(fields[2])),
        ) {
            (Some(year), Some(month), Some(day)) => if is_valid_date(
                year as int,
                month as int,
                day as int,
            ) {
                Some(CivilDate { year, month, day })
            } else {
                None
            },
            _ => None,
        }
    }
}

/// `YYYY-MM-DD`.
pub fn format_date(date: CivilDate) -> (r: String)
    ensures
        r@ == date_text(date),
{
    let mut text = format_integer(date.year as i64, 4);
    text.push('-');
    let mut month = format_integer(date.month as i64, 2);
    text.append(&mut month);
    text.push('-');
    let mut day = format_integer(date.day as i64, 2);
    text.append(&mut day);
    assert(text@ =~= date_text(date));
    string_of(&text)
}

/// Parse `YYYY-MM-DD`, rejecting out-of-range months and days rather than
/// silently clamping - a half-typed date must not move the map's terminator.
pub fn parse_date(text: &str) -> (r: Option<CivilDate>)
    ensures
        r == parsed_date(text@),
        r matches Some(d) ==> day_exists(d),
{
    proof {
        law_parsed_dates_exist(text@);
    }
    let chars = chars_of(text);
    let fields = split_on(&trimmed(&chars), '-');
    if fields.len() != 3 {
        return None;
    }
    let year = parse_i32(&trimmed(&fields[0]));
    let month = parse_u32(&trimmed(&fields[1]));
    let day = parse_u32(&trimmed(&fields[2]));
    match (year, month, day) {
        (Some(year), Some(month), Some(day)) => {
            if 1 <= month && month <= 12 && 1 <= day && day <= days_in_month(year, month) {
                Some(CivilDate { year, month, day })
            } else {
                None
            }
        },
        _ => None,
    }
}

/// `d` names a day of the calendar: a month of the year, and a day of that
/// month - thirty days hath September, April, June and November; February
/// has 28, or 29 in a year divisible by 4 but not by 100, or by 400; the
/// rest have 31.
pub open spec fn day_exists(d: CivilDate) -> bool {
    &&& 1 <= d.month <= 12
    &&& 1 <= d.day <= 31
    &&& (d.month == 4 || d.month == 6 || d.month == 9 || d.month == 11) ==> d.day <= 30
    &&& d.month == 2 ==> (d.day <= 28 || (d.day == 29 && ((d.year % 4 == 0 && d.year % 100 != 0)
        || d.year % 400 == 0)))
}

/// A date read from text is a day that exists: no month past 12, and no day
/// past the end of its month in its year.
pub proof fn law_parsed_dates_exist(text: Seq<char>)
    ensures
        parsed_date(text) matches Some(d) ==> day_exists(d),
{
}

/// Every day that exists, in a year of 0 or later, is read back from its
/// own text: `parse_date` rejects no real day.
pub proof fn law_existing_days_read_back(d: CivilDate)
    requires
        day_exists(d),
        d.year >= 0,
    ensures
        parsed_date(date_text(d)) == Some(d),
{
    assert(is_valid_date(d.year as int, d.month as int, d.day as int));
    law_date_text_round_trip(d);
}

/// A real date with a year of 0 or later reads back from its own text:
/// `parse_date(&format_date(d)) == Some(d)`.
pub proof fn law_date_text_round_trip(date: CivilDate)
    requires
        date.valid(),
        date.year >= 0,
    ensures
        parsed_date(date_text(date)) == Some(date),
{
    let y = zero_padded(decimal_digits(date.year as nat), 4);
    let m = zero_padded(decimal_digits(date.month as nat), 2);
    let d = zero_padded(decimal_digits(date.day as nat), 2);
    lemma_zero_padded(date.year as nat, 4);
    lemma_zero_padded(date.month as nat, 2);
    lemma_zero_padded(date.day as nat, 2);
    assert(formatted_integer(date.year as int, 4) == y);
    assert(formatted_integer(date.month as int, 2) == m);
    assert(formatted_integer(date.day as int, 2) == d);
    lemma_plain_digits(y);
    lemma_plain_digits(m);
    lemma_plain_digits(d);
    let text = date_text(date);
    assert(text =~= y + seq!['-'] + (m + seq!['-'] + d));
    lemma_digit_is_plain(y[0]);
    lemma_digit_is_plain(d.last());
    assert(text[0] == y[0]);
    assert(text.last() == d.last());
    lemma_trim_unchanged(text);
    lemma_split_join(y, '-', m + seq!['-'] + d);
    lemma_split_join(m, '-', d);
    lemma_split_single(y, '-');
    lemma_split_single(m, '-');
    lemma_split_single(d, '-');
    let fields = split(text, '-');
    assert(fields =~= seq![y, m, d]);
    lemma_parse_digits(y, true, i32::MIN as int, i32::MAX as int);
    lemma_parse_digits(m, false, 0, u32::MAX as int);
    lemma_parse_digits(d, false, 0, u32::MAX as int);
    assert(parsed_i32(y) == Some(date.year));
    assert(parsed_u32(m) == Some(date.month));
    assert(parsed_u32(d) == Some(date.day));
}

/// A string of digits is its own trim, holds no `-`, and is read as the
/// number it spells.
proof fn lemma_plain_digits(s: Seq<char>)
    requires
        s.len() >= 1,
        all_digits(s),
    ensures
        trim(s) == s,
        forall|i: int| 0 <= i < s.len() ==> s[i] != '-',
        s[0] != '+' && s[0] != '-',
{
    lemma_digit_is_plain(s[0]);
    lemma_digit_is_plain(s.last());
    lemma_trim_unchanged(s);
    assert forall|i: int| 0 <= i < s.len() implies s[i] != '-' by {
        lemma_digit_is_plain(s[i]);
    }
}

// ---------------------------------------------------------------------------
// Arithmetic facts about the calendar.
// ---------------------------------------------------------------------------

/// The remainder of `-n` from the remainder of `n`.
pub proof fn lemma_mod_negate(n: int, k: int)
    requires
        k > 0,
    ensures
        (n % k == 0) == ((-n) % k == 0),
        n % k != 0 ==> (-n) % k == k - n % k,
{
    vstd::arithmetic::div_mod::lemma_fundamental_div_mod(n, k);
    vstd::arithmetic::div_mod::lemma_fundamental_div_mod(-n, k);
    let q = n / k;
    let r = n % k;
    assert(n == k * q + r);
    assert(-n == (-q) * k - r) by (nonlinear_arith)
        requires
            n == k * q + r,
    ;
    assert(-n == (-q - 1) * k + (k - r)) by (nonlinear_arith)
        requires
            -n == (-q) * k - r,
    ;
    if r == 0 {
        vstd::arithmetic::div_mod::lemma_fundamental_div_mod_converse(-n, k, -q, 0);
    } else {
        vstd::arithmetic::div_mod::lemma_fundamental_div_mod_converse(-n, k, -q - 1, k - r);
    }
}

/// Counting leap years steps by one exactly at a leap year.
proof fn lemma_leap_step(n: int)
    ensures
        leap_days_through(n) - leap_days_through(n - 1) == if spec_is_leap_year(n) {
            1int
        } else {
            0int
        },
{
}

/// The year starts in closed form.
proof fn lemma_days_before_year(year: int)
    ensures
        days_before_year(year) == 365 * (year - 1970) + leap_days_through(year - 1)
            - leap_days_through(1969),
    decreases (if year >= 1970 { year - 1970 } else { 1970 - year }),
{
    if year > 1970 {
        lemma_days_before_year(year - 1);
        lemma_leap_step(year - 1);
    } else if year < 1970 {
        lemma_days_before_year(year + 1);
        lemma_leap_step(year);
    }
}

/// The month starts in closed form: from March on, a month starts
/// `(153 * k + 2) / 5` days after the first of March, `k` counting from March.
pub proof fn lemma_days_before_month(year: int, month: int)
    requires
        1 <= month <= 12,
    ensures
        days_before_month(year, month) == if month == 1 {
            0
        } else if month == 2 {
            31
        } else {
            (153 * (month - 3) + 2) / 5 + 59 + if spec_is_leap_year(year) {
                1int
            } else {
                0int
            }
        },
{
    reveal_with_fuel(days_before_month, 13);
}

/// On real months the closed form is the day number.
pub proof fn lemma_civil_day_number(year: int, month: int, day: int)
    requires
        1 <= month <= 12,
    ensures
        civil_day_number(year, month, day) == days_since_epoch(year, month, day),
{
    lemma_days_before_year(year);
    lemma_days_before_month(year, month);
    lemma_leap_step(year);
}


/// Splitting a March-based year into 400-year eras keeps the leap count.
proof fn lemma_era_split(y: int)
    ensures
        146097 * (y / 400) + 365 * (y % 400) + (y % 400) / 4 - (y % 400) / 100 == 365 * y
            + leap_days_through(y),
{
    let q = y / 400;
    let r = y % 400;
    assert(y == 400 * q + r && 0 <= r < 400);
    lemma_div_of_multiple_plus(100 * q, r, 4);
    lemma_div_of_multiple_plus(4 * q, r, 100);
    lemma_div_of_multiple_plus(q, r, 400);
    assert(4 * (100 * q) + r == y && 100 * (4 * q) + r == y);
}

/// Division by `k` passes over a multiple of `k`.
proof fn lemma_div_of_multiple_plus(a: int, b: int, k: int)
    requires
        k > 0,
    ensures
        (k * a + b) / k == a + b / k,
{
    vstd::arithmetic::div_mod::lemma_fundamental_div_mod(b, k);
    vstd::arithmetic::mul::lemma_mul_is_distributive_add(k, a, b / k);
    vstd::arithmetic::div_mod::lemma_div_multiples_vanish_fancy(a + b / k, b % k, k);
}


/// The pieces `civil_from_days` computes name the date of day `z - 719468`.
proof fn lemma_civil_from_era_parts(
    z: int,
    era: int,
    doe: int,
    yoe: int,
    y: int,
    doy: int,
    mp: int,
    d: int,
    m: int,
    full_year: int,
)
    requires
        era == z / 146097,
        doe == z - era * 146097,
        yoe == (doe - doe / 1460 + doe / 36524 - doe / 146096) / 365,
        y == yoe + era * 400,
        doy == doe - (365 * yoe + yoe / 4 - yoe / 100),
        mp == (5 * doy + 2) / 153,
        d == doy - (153 * mp + 2) / 5 + 1,
        m == mp + if mp < 10 {
            3int
        } else {
            -9int
        },
        full_year == y + if m <= 2 {
            1int
        } else {
            0int
        },
    ensures
        is_valid_date(full_year, m, d),
        days_since_epoch(full_year, m, d) == z - 719468,
{
    lemma_year_of_era(doe);
    lemma_leap_step(yoe + 1);
    let leap = spec_is_leap_year(yoe + 1);
    assert(0 <= doy <= 364 + if leap {
        1int
    } else {
        0int
    });
    assert(y % 400 == yoe && y / 400 == era);
    lemma_leap_period(y + 1, yoe + 1);
    lemma_month_of_year(doy);
    lemma_month_and_day(doy, mp, d, m, full_year, leap);
    lemma_era_split(y);
    lemma_civil_day_number(full_year, m, d);
}

/// Leap years repeat every 400 years.
proof fn lemma_leap_period(a: int, b: int)
    requires
        a % 400 == b % 400,
    ensures
        spec_is_leap_year(a) == spec_is_leap_year(b),
{
    vstd::arithmetic::div_mod::lemma_mod_mod(a, 4, 100);
    vstd::arithmetic::div_mod::lemma_mod_mod(b, 4, 100);
    vstd::arithmetic::div_mod::lemma_mod_mod(a, 100, 4);
    vstd::arithmetic::div_mod::lemma_mod_mod(b, 100, 4);
}

/// The month and day `civil_from_days` reads off a day of a March-based
/// year are a real date of the January-based year they land in.
proof fn lemma_month_and_day(doy: int, mp: int, d: int, m: int, year: int, leap: bool)
    requires
        0 <= doy <= 364 + if leap {
            1int
        } else {
            0int
        },
        0 <= mp <= 11,
        (153 * mp + 2) / 5 <= doy < (153 * (mp + 1) + 2) / 5,
        d == doy - (153 * mp + 2) / 5 + 1,
        m == mp + if mp < 10 {
            3int
        } else {
            -9int
        },
        m <= 2 ==> spec_is_leap_year(year) == leap,
    ensures
        is_valid_date(year, m, d),
        march_month_index(m) == mp,
{
    assert(mp == 0 || mp == 1 || mp == 2 || mp == 3 || mp == 4 || mp == 5 || mp == 6 || mp == 7
        || mp == 8 || mp == 9 || mp == 10 || mp == 11);
}

/// The year of a 400-year era that a day of the era falls in.
proof fn lemma_year_of_era(doe: int)
    requires
        0 <= doe <= 146096,
    ensures
        ({
            let yoe = (doe - doe / 1460 + doe / 36524 - doe / 146096) / 365;
            &&& 0 <= yoe <= 399
            &&& 365 * yoe + leap_days_through(yoe) <= doe
            &&& doe < 365 * (yoe + 1) + leap_days_through(yoe + 1)
        }),
{
}

/// The March-based month that a day of a March-based year falls in.
proof fn lemma_month_of_year(doy: int)
    requires
        0 <= doy <= 365,
    ensures
        ({
            let mp = (5 * doy + 2) / 153;
            &&& 0 <= mp <= 11
            &&& (153 * mp + 2) / 5 <= doy
            &&& doy < (153 * (mp + 1) + 2) / 5
        }),
{
}

/// Consecutive years start `year_length` days apart.
pub proof fn lemma_next_year_start(year: int)
    ensures
        days_before_year(year + 1) == days_before_year(year) + year_length(year),
{
    if year < 1970 {
        assert(days_before_year(year) == days_before_year(year + 1) - year_length(year));
    }
}

/// Years start in order.
proof fn lemma_year_starts_ordered(a: int, b: int)
    requires
        a < b,
    ensures
        days_before_year(a) + year_length(a) <= days_before_year(b),
    decreases b - a,
{
    lemma_next_year_start(a);
    if a + 1 < b {
        lemma_year_starts_ordered(a + 1, b);
    }
}

/// A valid date lies inside its own year.
proof fn lemma_date_in_year(year: int, month: int, day: int)
    requires
        is_valid_date(year, month, day),
    ensures
        days_before_year(year) <= days_since_epoch(year, month, day),
        days_since_epoch(year, month, day) < days_before_year(year) + year_length(year),
{
    lemma_days_before_month(year, month);
}

/// A valid date whose day number lies between the first and the last day of
/// the `i32` years has an `i32` year.
proof fn lemma_year_of_day(year: int, month: int, day: int)
    requires
        is_valid_date(year, month, day),
        first_i32_day() <= days_since_epoch(year, month, day) <= last_i32_day(),
    ensures
        i32::MIN <= year <= i32::MAX,
{
    lemma_date_in_year(year, month, day);
    lemma_date_in_year(i32::MIN as int, 1, 1);
    lemma_date_in_year(i32::MAX as int, 12, 31);
    if year < i32::MIN {
        lemma_year_starts_ordered(year, i32::MIN as int);
    }
    if year > i32::MAX {
        lemma_year_starts_ordered(i32::MAX as int, year);
    }
}


/// Two real dates with the same day number are the same date.
proof fn lemma_day_number_injective(y1: int, m1: int, d1: int, y2: int, m2: int, d2: int)
    requires
        is_valid_date(y1, m1, d1),
        is_valid_date(y2, m2, d2),
        days_since_epoch(y1, m1, d1) == days_since_epoch(y2, m2, d2),
    ensures
        y1 == y2 && m1 == m2 && d1 == d2,
{
    lemma_date_in_year(y1, m1, d1);
    lemma_date_in_year(y2, m2, d2);
    if y1 < y2 {
        lemma_year_starts_ordered(y1, y2);
    } else if y2 < y1 {
        lemma_year_starts_ordered(y2, y1);
    } else {
        lemma_days_before_month(y1, m1);
        lemma_days_before_month(y2, m2);
    }
}

/// Every real date with an `i32` year comes back unchanged from its own day
/// number: `civil_from_days(days_from_civil(d)) == d`.
pub proof fn law_date_round_trip(date: CivilDate, back: CivilDate)
    requires
        date.valid(),
        is_date_of_day(back, days_since_epoch(date.year as int, date.month as int, date.day as int)),
    ensures
        back == date,
{
    let days = days_since_epoch(date.year as int, date.month as int, date.day as int);
    let year = choose|year: int|
        #[verifier::truncate] (year as i32) == back.year && is_valid_date(
            year,
            back.month as int,
            back.day as int,
        ) && days_since_epoch(year, back.month as int, back.day as int) == days;
    lemma_day_number_injective(
        year,
        back.month as int,
        back.day as int,
        date.year as int,
        date.month as int,
        date.day as int,
    );
}

/// Every day number whose date has an `i32` year comes back unchanged from
/// its own date: `days_from_civil(civil_from_days(n)) == n`.
pub proof fn law_day_round_trip(days: int, date: CivilDate)
    requires
        first_i32_day() <= days <= last_i32_day(),
        is_date_of_day(date, days),
    ensures
        date.valid(),
        civil_day_number(date.year as int, date.month as int, date.day as int) == days,
{
    let year = choose|year: int|
        #[verifier::truncate] (year as i32) == date.year && is_valid_date(
            year,
            date.month as int,
            date.day as int,
        ) && days_since_epoch(year, date.month as int, date.day as int) == days;
    lemma_year_of_day(year, date.month as int, date.day as int);
    lemma_civil_day_number(date.year as int, date.month as int, date.day as int);
}

} // verus!

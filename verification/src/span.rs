//! The calendar side of building a calibration corpus: the run of
//! consecutive UTC days a span covers, the text those days are written in,
//! and the schedule of cycle censuses the negatives are drawn from.
use vstd::prelude::*;

use crate::clock::{
    days_before_month, days_since_epoch, is_valid_date, lemma_days_before_month,
    lemma_next_year_start, month_length, spec_is_leap_year, year_length,
};
use crate::text::{
    chars_of, format_integer, formatted_integer, parse_i32_result, parse_u32_result,
    parsed_i32_result, parsed_u32_result, split, split_on, string_of, IntErrorKind,
};

verus! {

/// A UTC calendar day as `(year, month, day)`.
pub type Day = (i32, u32, u32);

/// Why a span's first day could not be read.
#[derive(Clone, Copy, PartialEq, Eq, Debug, Structural)]
pub enum SpanError {
    /// Not three `-`-separated fields.
    NotYmd,
    BadYear(IntErrorKind),
    BadMonth(IntErrorKind),
    BadDay(IntErrorKind),
    /// A month outside 1..=12 or a day outside 1..=31.
    OutOfRange,
}

// ---------------------------------------------------------------------------
// Definitions.
// ---------------------------------------------------------------------------

/// The month lengths the span walk counts with: the real ones for 1..=12,
/// and February's for any other month number.
pub open spec fn span_month_length(year: int, month: int) -> int {
    if month == 1 || month == 3 || month == 5 || month == 7 || month == 8 || month == 10 || month
        == 12 {
        31
    } else if month == 4 || month == 6 || month == 9 || month == 11 {
        30
    } else if spec_is_leap_year(year) {
        29
    } else {
        28
    }
}

/// The day after `day`, as the span walk steps: the next day of the month,
/// else the first of the next month, else the first of January.
pub open spec fn next_day(day: (int, int, int)) -> (int, int, int) {
    if day.2 + 1 > span_month_length(day.0, day.1) {
        if day.1 + 1 > 12 {
            (day.0 + 1, 1, 1)
        } else {
            (day.0, day.1 + 1, 1)
        }
    } else {
        (day.0, day.1, day.2 + 1)
    }
}

/// The day `k` steps after `start`.
pub open spec fn nth_day(start: (int, int, int), k: nat) -> (int, int, int)
    decreases k,
{
    if k == 0 {
        start
    } else {
        next_day(nth_day(start, (k - 1) as nat))
    }
}

/// The first day of a span, read from `YYYY-MM-DD` text: exactly three
/// `-`-separated fields, untrimmed, read as an `i32` year and `u32` month and
/// day, the month in 1..=12 and the day in 1..=31.
pub open spec fn span_start(from: Seq<char>) -> Result<(int, int, int), SpanError> {
    let fields = split(from, '-');
    if fields.len() != 3 {
        Err(SpanError::NotYmd)
    } else {
        match parsed_i32_result(fields[0]) {
            Err(e) => Err(SpanError::BadYear(e)),
            Ok(y) => match parsed_u32_result(fields[1]) {
                Err(e) => Err(SpanError::BadMonth(e)),
                Ok(m) => match parsed_u32_result(fields[2]) {
                    Err(e) => Err(SpanError::BadDay(e)),
                    Ok(d) => if 1 <= m <= 12 && 1 <= d <= 31 {
                        Ok((y as int, m as int, d as int))
                    } else {
                        Err(SpanError::OutOfRange)
                    },
                },
            },
        }
    }
}

/// How many days a span of `days` covers: at least one.
pub open spec fn span_length(days: u32) -> nat {
    if days == 0 {
        1
    } else {
        days as nat
    }
}

pub open spec fn as_day(t: (int, int, int)) -> Day {
    (t.0 as i32, t.1 as u32, t.2 as u32)
}

/// The `n` consecutive days from `start`.
pub open spec fn spanned_days(start: (int, int, int), n: nat) -> Seq<Day> {
    Seq::new(n, |k: int| as_day(nth_day(start, k as nat)))
}

/// The walk over a span never carries the year past `i32::MAX` (it steps
/// once past the last day it returns).
pub open spec fn span_fits(from: Seq<char>, days: u32) -> bool {
    match span_start(from) {
        Ok(start) => nth_day(start, span_length(days)).0 <= i32::MAX,
        Err(_) => true,
    }
}

/// `YYYY-MM-DD` for a day.
pub open spec fn day_text(day: Day) -> Seq<char> {
    formatted_integer(day.0 as int, 4) + seq!['-'] + formatted_integer(day.1 as int, 2) + seq!['-']
        + formatted_integer(day.2 as int, 2)
}

// ---------------------------------------------------------------------------
// The span.
// ---------------------------------------------------------------------------

/// Days in `month` of `year` as the span walk counts them.
pub fn days_in_month(year: i32, month: u32) -> (r: u32)
    ensures
        r as int == span_month_length(year as int, month as int),
{
    match month {
        1 | 3 | 5 | 7 | 8 | 10 | 12 => 31,
        4 | 6 | 9 | 11 => 30,
        _ => {
            let leap = crate::clock::is_leap_year(year);
            if leap {
                29
            } else {
                28
            }
        },
    }
}

/// The first day of a span, read from `YYYY-MM-DD` text.
fn read_span_start(from: &str) -> (r: Result<Day, SpanError>)
    ensures
        match r {
            Ok(day) => span_start(from@) == Ok::<(int, int, int), SpanError>(
                (day.0 as int, day.1 as int, day.2 as int),
            ),
            Err(e) => span_start(from@) == Err::<(int, int, int), SpanError>(e),
        },
{
    let fields = split_on(&chars_of(from), '-');
    if fields.len() != 3 {
        return Err(SpanError::NotYmd);
    }
    let y = match parse_i32_result(&fields[0]) {
        Ok(v) => v,
        Err(e) => return Err(SpanError::BadYear(e)),
    };
    let m = match parse_u32_result(&fields[1]) {
        Ok(v) => v,
        Err(e) => return Err(SpanError::BadMonth(e)),
    };
    let d = match parse_u32_result(&fields[2]) {
        Ok(v) => v,
        Err(e) => return Err(SpanError::BadDay(e)),
    };
    if !(1 <= m && m <= 12) || !(1 <= d && d <= 31) {
        return Err(SpanError::OutOfRange);
    }
    Ok((y, m, d))
}

/// Years only move forward along a span.
proof fn lemma_years_forward(start: (int, int, int), k: nat, j: nat)
    requires
        k <= j,
    ensures
        nth_day(start, k).0 <= nth_day(start, j).0,
    decreases j - k,
{
    if k < j {
        lemma_years_forward(start, k, (j - 1) as nat);
    }
}

/// Along a span the month stays in 1..=12 and the day in 1..=31.
proof fn lemma_span_ranges(start: (int, int, int), k: nat)
    requires
        1 <= start.1 <= 12,
        1 <= start.2 <= 31,
    ensures
        1 <= nth_day(start, k).1 <= 12,
        1 <= nth_day(start, k).2 <= 31,
    decreases k,
{
    if k > 0 {
        lemma_span_ranges(start, (k - 1) as nat);
    }
}

/// The consecutive UTC days a span covers: the day `from` names, then one
/// day after another, `days` of them (at least one).
pub fn day_span(from: &str, days: u32) -> (r: Result<Vec<Day>, SpanError>)
    requires
        span_fits(from@, days),
    ensures
        match r {
            Ok(v) => span_start(from@) is Ok && v@ == spanned_days(
                span_start(from@)->Ok_0,
                span_length(days),
            ),
            Err(e) => span_start(from@) == Err::<(int, int, int), SpanError>(e),
        },
{
    let start = match read_span_start(from) {
        Ok(day) => day,
        Err(e) => return Err(e),
    };
    let ghost s = (start.0 as int, start.1 as int, start.2 as int);
    let n: u32 = if days > 1 {
        days
    } else {
        1
    };
    let (mut y, mut m, mut d) = start;
    let mut out: Vec<Day> = Vec::new();
    let mut i: u32 = 0;
    while i < n
        invariant
            n as nat == span_length(days),
            i <= n,
            (y as int, m as int, d as int) == nth_day(s, i as nat),
            out@ == spanned_days(s, i as nat),
            1 <= s.1 <= 12,
            1 <= s.2 <= 31,
            nth_day(s, n as nat).0 <= i32::MAX,
        decreases n - i,
    {
        out.push((y, m, d));
        proof {
            lemma_span_ranges(s, i as nat);
            lemma_years_forward(s, (i + 1) as nat, n as nat);
        }
        d += 1;
        if d > days_in_month(y, m) {
            d = 1;
            m += 1;
            if m > 12 {
                m = 1;
                y += 1;
            }
        }
        i += 1;
        assert(out@ =~= spanned_days(s, i as nat));
    }
    Ok(out)
}

/// Does the walk over the span `from`, `days` keep its years inside `i32`?
/// The check a caller makes before [`day_span`].
pub fn day_span_fits(from: &str, days: u32) -> (r: bool)
    ensures
        r == span_fits(from@, days),
{
    let start = match read_span_start(from) {
        Ok(day) => day,
        Err(_) => return true,
    };
    let ghost s = (start.0 as int, start.1 as int, start.2 as int);
    let n: u32 = if days > 1 {
        days
    } else {
        1
    };
    let (mut y, mut m, mut d) = (start.0 as i64, start.1, start.2);
    let mut i: u32 = 0;
    while i < n
        invariant
            n as nat == span_length(days),
            i <= n,
            (y as int, m as int, d as int) == nth_day(s, i as nat),
            1 <= s.1 <= 12,
            1 <= s.2 <= 31,
            i32::MIN <= y <= i32::MAX as int + i,
        decreases n - i,
    {
        proof {
            lemma_span_ranges(s, i as nat);
        }
        d += 1;
        let length: u32 = match m {
            1 | 3 | 5 | 7 | 8 | 10 | 12 => 31,
            4 | 6 | 9 | 11 => 30,
            _ => if leap_year_i64(y) {
                29
            } else {
                28
            },
        };
        if d > length {
            d = 1;
            m += 1;
            if m > 12 {
                m = 1;
                y += 1;
            }
        }
        i += 1;
    }
    y <= i32::MAX as i64
}

/// The leap rule on a wide year.
fn leap_year_i64(year: i64) -> (r: bool)
    ensures
        r == spec_is_leap_year(year as int),
{
    let r4 = year % 4;
    let r100 = year % 100;
    let r400 = year % 400;
    proof {
        if year < 0 {
            assert(r4 == -((-year) % 4) && r100 == -((-year) % 100) && r400 == -((-year) % 400));
            crate::clock::lemma_mod_negate(year as int, 4);
            crate::clock::lemma_mod_negate(year as int, 100);
            crate::clock::lemma_mod_negate(year as int, 400);
        }
    }
    (r4 == 0 && r100 != 0) || r400 == 0
}

/// `YYYY-MM-DD` for a day.
pub fn fmt_day(day: Day) -> (r: String)
    ensures
        r@ == day_text(day),
{
    let mut text = format_integer(day.0 as i64, 4);
    text.push('-');
    let mut month = format_integer(day.1 as i64, 2);
    text.append(&mut month);
    text.push('-');
    let mut d = format_integer(day.2 as i64, 2);
    text.append(&mut d);
    assert(text@ =~= day_text(day));
    string_of(&text)
}

/// From a real first day, a span is a run of real days, each one day number
/// after the last.
pub proof fn law_span_is_consecutive(start: (int, int, int), k: nat)
    requires
        is_valid_date(start.0, start.1, start.2),
    ensures
        is_valid_date(nth_day(start, k).0, nth_day(start, k).1, nth_day(start, k).2),
        days_since_epoch(nth_day(start, k).0, nth_day(start, k).1, nth_day(start, k).2)
            == days_since_epoch(start.0, start.1, start.2) + k,
    decreases k,
{
    if k > 0 {
        law_span_is_consecutive(start, (k - 1) as nat);
        lemma_next_day(nth_day(start, (k - 1) as nat));
    }
}

/// The next day of a real day is a real day, one day number later.
proof fn lemma_next_day(day: (int, int, int))
    requires
        is_valid_date(day.0, day.1, day.2),
    ensures
        is_valid_date(next_day(day).0, next_day(day).1, next_day(day).2),
        days_since_epoch(next_day(day).0, next_day(day).1, next_day(day).2) == days_since_epoch(
            day.0,
            day.1,
            day.2,
        ) + 1,
{
    let (y, m, d) = day;
    assert(span_month_length(y, m) == month_length(y, m));
    if d + 1 > month_length(y, m) {
        if m == 12 {
            lemma_next_year_start(y);
            lemma_days_before_month(y, 12);
            lemma_days_before_month(y + 1, 1);
        } else {
            assert(days_before_month(y, m + 1) == days_before_month(y, m) + month_length(y, m));
        }
    }
}


// ---------------------------------------------------------------------------
// The negatives schedule.
// ---------------------------------------------------------------------------

/// UTC hours the negatives schedule walks. Es occurrence and D-region
/// absorption both vary strongly through the day, so a negatives set drawn
/// from one hour would measure the false-positive rate of one ionosphere.
pub const SCHEDULE_HOURS: [u32; 8] = [0, 3, 6, 9, 12, 15, 18, 21];

/// How many bands the negatives schedule cycles through.
pub const NEGATIVE_BAND_COUNT: usize = 5;

/// Which cycle census the `i`-th negatives fetch asks for: a day of the span,
/// a UTC hour, a band, and an even minute (WSPR-2 transmits on even minutes,
/// so an odd minute holds only stragglers and would look like a dead cycle).
#[derive(Clone, Copy, PartialEq, Eq, Debug, Structural)]
pub struct CensusSlot {
    pub day_index: usize,
    pub hour: u32,
    pub band_index: usize,
    pub minute: u32,
}

pub open spec fn census_slot_of(i: int, n_days: int) -> CensusSlot {
    CensusSlot {
        day_index: (i % n_days) as usize,
        hour: (3 * ((3 * i) % 8)) as u32,
        band_index: (i % NEGATIVE_BAND_COUNT as int) as usize,
        minute: (2 * (((i % 0x1_0000_0000) * 7) % 30)) as u32,
    }
}

/// The `i`-th cycle census of a negatives run over `n_days` days. The hour
/// is picked with `3 * i`, and the minute computed in `u32` from the low 32
/// bits of `i`, so `i` is one for which both products fit.
pub fn census_slot(i: usize, n_days: usize) -> (r: CensusSlot)
    requires
        n_days >= 1,
        i * 3 <= usize::MAX,
        (i as int % 0x1_0000_0000) * 7 <= u32::MAX,
    ensures
        r == census_slot_of(i as int, n_days as int),
{
    let hour = SCHEDULE_HOURS[(i * 3) % SCHEDULE_HOURS.len()];
    assert(hour == 3 * ((3 * i) % 8));
    let low = (i as u64 % 0x1_0000_0000) as u32;
    CensusSlot {
        day_index: i % n_days,
        hour,
        band_index: i % NEGATIVE_BAND_COUNT,
        minute: 2 * ((low * 7) % 30),
    }
}

/// Consecutive censuses differ in hour and in band, and in day whenever the
/// span has more than one.
pub proof fn law_consecutive_censuses_differ(i: int, n_days: int)
    requires
        i >= 0,
        1 <= n_days <= usize::MAX,
    ensures
        census_slot_of(i, n_days).hour != census_slot_of(i + 1, n_days).hour,
        census_slot_of(i, n_days).band_index != census_slot_of(i + 1, n_days).band_index,
        n_days > 1 ==> census_slot_of(i, n_days).day_index != census_slot_of(
            i + 1,
            n_days,
        ).day_index,
{
    if n_days > 1 {
        vstd::arithmetic::div_mod::lemma_fundamental_div_mod(i, n_days);
        vstd::arithmetic::div_mod::lemma_fundamental_div_mod(i + 1, n_days);
        if i % n_days == (i + 1) % n_days {
            let q = i / n_days;
            let q1 = (i + 1) / n_days;
            assert(n_days * (q1 - q) == 1) by (nonlinear_arith)
                requires
                    i == n_days * q + i % n_days,
                    i + 1 == n_days * q1 + (i + 1) % n_days,
                    i % n_days == (i + 1) % n_days,
            ;
            assert(false) by (nonlinear_arith)
                requires
                    n_days * (q1 - q) == 1,
                    n_days > 1,
            ;
        }
        assert(0 <= i % n_days < n_days && 0 <= (i + 1) % n_days < n_days);
    }
}

/// The census cycle as the archive query spells it:
/// `Y-MM-DD HH:MM`, the year unpadded.
pub open spec fn census_cycle_text(day: Day, hour: u32, minute: u32) -> Seq<char> {
    formatted_integer(day.0 as int, 0) + seq!['-'] + formatted_integer(day.1 as int, 2) + seq!['-']
        + formatted_integer(day.2 as int, 2) + seq![' '] + formatted_integer(hour as int, 2) + seq![
        ':',
    ] + formatted_integer(minute as int, 2)
}

/// The census cycle as the archive query spells it.
pub fn census_cycle(day: Day, hour: u32, minute: u32) -> (r: String)
    ensures
        r@ == census_cycle_text(day, hour, minute),
{
    let mut text = format_integer(day.0 as i64, 0);
    text.push('-');
    let mut part = format_integer(day.1 as i64, 2);
    text.append(&mut part);
    text.push('-');
    let mut part = format_integer(day.2 as i64, 2);
    text.append(&mut part);
    text.push(' ');
    let mut part = format_integer(hour as i64, 2);
    text.append(&mut part);
    text.push(':');
    let mut part = format_integer(minute as i64, 2);
    text.append(&mut part);
    assert(text@ =~= census_cycle_text(day, hour, minute));
    string_of(&text)
}

} // verus!

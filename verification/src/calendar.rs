use vstd::prelude::*;

use crate::text::{
    four_digits, lemma_four_digits_then, lemma_same_then, lemma_two_digits_then,
    lemma_zero_padded_four, lemma_zero_padded_two, push_zero_padded, string_of, text_before,
    two_digits, zero_padded,
};

verus! {

/// Gregorian leap years: divisible by 4 but not by 100, or divisible by 400.
pub open spec fn leap(year: int) -> bool {
    (year % 4 == 0 && year % 100 != 0) || year % 400 == 0
}

/// Whether `year` is a leap year of the Gregorian calendar.
pub fn is_leap_year(year: u32) -> (b: bool)
    ensures
        b == leap(year as int),
{
    (year % 4 == 0 && year % 100 != 0) || (year % 400 == 0)
}

fn is_leap_year_wide(year: u64) -> (b: bool)
    ensures
        b == leap(year as int),
{
    (year % 4 == 0 && year % 100 != 0) || (year % 400 == 0)
}

/// The number of days in `year`.
pub open spec fn year_length(year: int) -> int {
    if leap(year) {
        366
    } else {
        365
    }
}

/// The number of days from 1970-01-01 to the first day of `year`.
pub open spec fn days_before_year(year: int) -> int
    decreases year - 1970,
{
    if year <= 1970 {
        0
    } else {
        days_before_year(year - 1) + year_length(year - 1)
    }
}

/// The number of days in month `month` (1 to 12) of `year`.
pub open spec fn month_length(year: int, month: int) -> int {
    if month == 2 {
        if leap(year) {
            29
        } else {
            28
        }
    } else if month == 4 || month == 6 || month == 9 || month == 11 {
        30
    } else {
        31
    }
}

/// The number of days from the first of January of `year` to the first day of `month`.
pub open spec fn days_before_month(year: int, month: int) -> int {
    let common: int = if month <= 1 {
        0
    } else if month == 2 {
        31
    } else if month == 3 {
        59
    } else if month == 4 {
        90
    } else if month == 5 {
        120
    } else if month == 6 {
        151
    } else if month == 7 {
        181
    } else if month == 8 {
        212
    } else if month == 9 {
        243
    } else if month == 10 {
        273
    } else if month == 11 {
        304
    } else {
        334
    };
    if month > 2 && leap(year) {
        common + 1
    } else {
        common
    }
}

/// `year-month-day` is a date of the Gregorian calendar on or after 1970-01-01.
pub open spec fn valid_date(year: int, month: int, day: int) -> bool {
    &&& year >= 1970
    &&& 1 <= month <= 12
    &&& 1 <= day <= month_length(year, month)
}

/// The number of days from 1970-01-01 to `year-month-day`.
pub open spec fn days_since_epoch(year: int, month: int, day: int) -> int {
    days_before_year(year) + days_before_month(year, month) + day - 1
}

/// `year-month-day` is the date that lies `days` days after 1970-01-01.
pub open spec fn is_date_of_day(days: int, year: int, month: int, day: int) -> bool {
    valid_date(year, month, day) && days_since_epoch(year, month, day) == days
}

/// The date that lies `days` days after 1970-01-01.
pub open spec fn date_of_day(days: int) -> (int, int, int) {
    choose|year: int, month: int, day: int| is_date_of_day(days, year, month, day)
}

/// A timestamp written as `YYYY-MM-DD HH:MM:SS` (UTC): each field in decimal with zeros in
/// front, four places for the year and two for the others.
pub open spec fn timestamp_text(secs: nat) -> Seq<char> {
    let date = date_of_day((secs / 86400) as int);
    let t = secs % 86400;
    zero_padded(date.0 as nat, 4) + seq!['-'] + zero_padded(date.1 as nat, 2) + seq!['-']
        + zero_padded(date.2 as nat, 2) + seq![' '] + zero_padded(t / 3600, 2) + seq![':']
        + zero_padded((t % 3600) / 60, 2) + seq![':'] + zero_padded(t % 60, 2)
}

/// The count of leap years before `n + 1`, up to a constant.
spec fn leaps_through(n: int) -> int {
    n / 4 - n / 100 + n / 400
}

proof fn lemma_days_before_year_closed(year: int)
    requires
        year >= 1970,
    ensures
        days_before_year(year) == 365 * (year - 1970) + leaps_through(year - 1) - leaps_through(
            1969,
        ),
    decreases year - 1970,
{
    if year > 1970 {
        lemma_days_before_year_closed(year - 1);
        lemma_leaps_step(year - 1);
    }
}

proof fn lemma_leaps_step(m: int)
    ensures
        leaps_through(m) - leaps_through(m - 1) == if leap(m) {
            1int
        } else {
            0int
        },
{
    assert(m / 4 - (m - 1) / 4 == if m % 4 == 0 {
        1int
    } else {
        0int
    });
    assert(m / 100 - (m - 1) / 100 == if m % 100 == 0 {
        1int
    } else {
        0int
    });
    assert(m / 400 - (m - 1) / 400 == if m % 400 == 0 {
        1int
    } else {
        0int
    });
    assert(m % 400 == 0 ==> m % 100 == 0);
    assert(m % 100 == 0 ==> m % 4 == 0);
}

proof fn lemma_leaps_shift(m: int)
    ensures
        leaps_through(m + 400) == leaps_through(m) + 97,
{
    assert((m + 400) / 4 == m / 4 + 100);
    assert((m + 400) / 100 == m / 100 + 4);
    assert((m + 400) / 400 == m / 400 + 1);
}

/// Four hundred years hold 146097 days.
proof fn lemma_four_centuries(year: int)
    requires
        year >= 1970,
    ensures
        days_before_year(year + 400) == days_before_year(year) + 146097,
{
    lemma_days_before_year_closed(year);
    lemma_days_before_year_closed(year + 400);
    lemma_leaps_shift(year - 1);
}

proof fn lemma_cycles(c: int)
    requires
        c >= 0,
    ensures
        days_before_year(1970 + 400 * c) == 146097 * c,
    decreases c,
{
    if c > 0 {
        lemma_cycles(c - 1);
        lemma_four_centuries(1970 + 400 * (c - 1));
    }
}

proof fn lemma_days_before_year_grows(a: int, b: int)
    requires
        1970 <= a < b,
    ensures
        days_before_year(a) + year_length(a) <= days_before_year(b),
    decreases b - a,
{
    if a + 1 < b {
        lemma_days_before_year_grows(a, b - 1);
    }
}

proof fn lemma_within_year(year: int, month: int, day: int)
    requires
        valid_date(year, month, day),
    ensures
        0 <= days_before_month(year, month) + day - 1 < year_length(year),
{
}

/// How many of the `n` years from `start` on are leap years.
pub open spec fn leap_count(start: int, n: nat) -> nat
    decreases n,
{
    if n == 0 {
        0
    } else {
        leap_count(start, (n - 1) as nat) + if leap(start + n - 1) {
            1nat
        } else {
            0nat
        }
    }
}

proof fn lemma_leap_count_closed(start: int, n: nat)
    ensures
        leap_count(start, n) == leaps_through(start + n - 1) - leaps_through(start - 1),
    decreases n,
{
    if n > 0 {
        lemma_leap_count_closed(start, (n - 1) as nat);
        lemma_leaps_step(start + n - 1);
    }
}

/// Any 400 consecutive years hold exactly 97 leap years, and any 4 consecutive years at most one.
pub proof fn lemma_leap_years_in_cycles(start: int)
    ensures
        leap_count(start, 400) == 97,
        leap_count(start, 4) <= 1,
{
    lemma_leap_count_closed(start, 400);
    lemma_leaps_shift(start - 1);
    lemma_at_most_one_leap_in_four(start);
}

proof fn lemma_at_most_one_leap_in_four(start: int)
    ensures
        leap_count(start, 4) <= 1,
{
    assert(leap_count(start, 0) == 0);
    assert(leap_count(start, 1) == if leap(start) {
        1nat
    } else {
        0nat
    });
    assert(leap_count(start, 2) == leap_count(start, 1) + if leap(start + 1) {
        1nat
    } else {
        0nat
    });
    assert(leap_count(start, 3) == leap_count(start, 2) + if leap(start + 2) {
        1nat
    } else {
        0nat
    });
    assert(leap_count(start, 4) == leap_count(start, 3) + if leap(start + 3) {
        1nat
    } else {
        0nat
    });
    let r = start % 4;
    assert(leap(start) ==> r == 0);
    assert(leap(start + 1) ==> r == 3);
    assert(leap(start + 2) ==> r == 2);
    assert(leap(start + 3) ==> r == 1);
}

/// A day count names at most one date: two dates on or after 1970-01-01 that lie the same
/// number of days after it are the same date.
pub proof fn lemma_date_of_day_unique(y1: int, m1: int, d1: int, y2: int, m2: int, d2: int)
    requires
        valid_date(y1, m1, d1),
        valid_date(y2, m2, d2),
        days_since_epoch(y1, m1, d1) == days_since_epoch(y2, m2, d2),
    ensures
        y1 == y2 && m1 == m2 && d1 == d2,
{
    lemma_within_year(y1, m1, d1);
    lemma_within_year(y2, m2, d2);
    if y1 < y2 {
        lemma_days_before_year_grows(y1, y2);
    } else if y2 < y1 {
        lemma_days_before_year_grows(y2, y1);
    }
    assert(y1 == y2);
}

fn year_days(year: u64) -> (n: u64)
    ensures
        n == year_length(year as int),
{
    if is_leap_year_wide(year) {
        366
    } else {
        365
    }
}

/// The date `days` days after 1970-01-01, as `(year, month, day)`.
fn date_from_days(days: u64) -> (r: (u64, u64, u64))
    ensures
        is_date_of_day(days as int, r.0 as int, r.1 as int, r.2 as int),
{
    let cycles = days / 146097;
    let mut remaining = days % 146097;
    let mut year: u64 = 1970 + 400 * cycles;
    proof {
        lemma_cycles(cycles as int);
    }
    while remaining >= year_days(year)
        invariant
            1970 + 400 * cycles <= year,
            cycles == days / 146097,
            remaining <= days % 146097,
            days_before_year(year as int) + remaining == days,
            (year - (1970 + 400 * cycles)) * 365 <= days % 146097 - remaining,
        decreases remaining,
    {
        let len = year_days(year);
        remaining = remaining - len;
        year = year + 1;
    }
    let ghost offset = remaining;
    let mut month: u64 = 1;
    loop
        invariant
            1 <= month <= 12,
            offset < year_length(year as int),
            days_before_month(year as int, month as int) + remaining == offset,
            days_before_year(year as int) + offset == days,
            year >= 1970,
        ensures
            1 <= month <= 12,
            remaining < month_length(year as int, month as int),
            days_before_month(year as int, month as int) + remaining == offset,
            days_before_year(year as int) + offset == days,
            year >= 1970,
        decreases remaining,
    {
        let len: u64 = if month == 2 {
            if is_leap_year_wide(year) {
                29
            } else {
                28
            }
        } else if month == 4 || month == 6 || month == 9 || month == 11 {
            30
        } else {
            31
        };
        assert(len == month_length(year as int, month as int));
        if remaining < len {
            break;
        }
        assert(days_before_month(year as int, (month + 1) as int) == days_before_month(
            year as int,
            month as int,
        ) + len);
        remaining = remaining - len;
        month = month + 1;
    }
    (year, month, remaining + 1)
}

/// Formats a Unix timestamp (seconds since 1970-01-01 00:00:00 UTC) as `YYYY-MM-DD HH:MM:SS`.
pub fn format_unix_utc(secs: u64) -> (r: String)
    ensures
        r@ == timestamp_text(secs as nat),
        ({
            let date = date_of_day((secs / 86400) as int);
            is_date_of_day((secs / 86400) as int, date.0, date.1, date.2)
        }),
{
    let time_of_day = secs % 86400;
    let h = time_of_day / 3600;
    let m = (time_of_day % 3600) / 60;
    let s = time_of_day % 60;
    let (year, month, day) = date_from_days(secs / 86400);
    proof {
        let date = date_of_day((secs / 86400) as int);
        assert(is_date_of_day((secs / 86400) as int, year as int, month as int, day as int));
        lemma_date_of_day_unique(
            date.0,
            date.1,
            date.2,
            year as int,
            month as int,
            day as int,
        );
    }
    let mut v: Vec<char> = Vec::new();
    push_zero_padded(&mut v, year, 4);
    v.push('-');
    push_zero_padded(&mut v, month, 2);
    v.push('-');
    push_zero_padded(&mut v, day, 2);
    v.push(' ');
    push_zero_padded(&mut v, h, 2);
    v.push(':');
    push_zero_padded(&mut v, m, 2);
    v.push(':');
    push_zero_padded(&mut v, s, 2);
    assert(v@ =~= timestamp_text(secs as nat));
    string_of(&v)
}

// ---------------------------------------------------------------------------
// Every day has a date, and later timestamps are written later in dictionary order
// ---------------------------------------------------------------------------

proof fn lemma_next_month(year: int, month: int)
    requires
        1 <= month < 12,
    ensures
        days_before_month(year, month + 1) == days_before_month(year, month) + month_length(
            year,
            month,
        ),
{
}

proof fn lemma_months_in_order(year: int, m1: int, m2: int)
    requires
        1 <= m1 < m2 <= 12,
    ensures
        days_before_month(year, m1) + month_length(year, m1) <= days_before_month(year, m2),
{
}

/// Every day on or after 1970-01-01 has a date.
pub proof fn lemma_date_of_day_exists(days: nat)
    ensures
        is_date_of_day(days as int, date_of_day(days as int).0, date_of_day(days as int).1, date_of_day(days as int).2),
    decreases days,
{
    if days == 0 {
        assert(is_date_of_day(0, 1970, 1, 1));
    } else {
        lemma_date_of_day_exists((days - 1) as nat);
        let (y, m, d) = date_of_day(days - 1);
        if d < month_length(y, m) {
            assert(is_date_of_day(days as int, y, m, d + 1));
        } else if m < 12 {
            lemma_next_month(y, m);
            assert(is_date_of_day(days as int, y, m + 1, 1));
        } else {
            assert(days_before_year(y + 1) == days_before_year(y) + year_length(y));
            assert(is_date_of_day(days as int, y + 1, 1, 1));
        }
    }
}

/// A later day has a later date: dates ordered by year, then month, then day.
proof fn lemma_dates_in_order(y1: int, m1: int, d1: int, y2: int, m2: int, d2: int)
    requires
        valid_date(y1, m1, d1),
        valid_date(y2, m2, d2),
        days_since_epoch(y1, m1, d1) < days_since_epoch(y2, m2, d2),
    ensures
        y1 < y2 || (y1 == y2 && (m1 < m2 || (m1 == m2 && d1 < d2))),
{
    lemma_within_year(y1, m1, d1);
    lemma_within_year(y2, m2, d2);
    if y2 < y1 {
        lemma_days_before_year_grows(y2, y1);
    } else if y1 == y2 && m2 < m1 {
        lemma_months_in_order(y1, m2, m1);
    }
}

/// Dates before 10000-01-01 have years of at most four digits.
proof fn lemma_year_below_ten_thousand(y: int, m: int, d: int)
    requires
        valid_date(y, m, d),
        days_since_epoch(y, m, d) < 2932897,
    ensures
        y < 10000,
{
    lemma_days_before_year_closed(10000);
    lemma_within_year(y, m, d);
    if y > 10000 {
        lemma_days_before_year_grows(10000, y);
    }
}

/// The fields of a timestamp text: year, month, day, hour, minute, second.
pub open spec fn stamp_fields(secs: nat) -> (nat, nat, nat, nat, nat, nat) {
    let date = date_of_day((secs / 86400) as int);
    let t = secs % 86400;
    (date.0 as nat, date.1 as nat, date.2 as nat, t / 3600, (t % 3600) / 60, t % 60)
}

/// Field tuples in order: by the first field, then the second, and so on.
pub open spec fn fields_before(
    f1: (nat, nat, nat, nat, nat, nat),
    f2: (nat, nat, nat, nat, nat, nat),
) -> bool {
    ||| f1.0 < f2.0
    ||| f1.0 == f2.0 && f1.1 < f2.1
    ||| f1.0 == f2.0 && f1.1 == f2.1 && f1.2 < f2.2
    ||| f1.0 == f2.0 && f1.1 == f2.1 && f1.2 == f2.2 && f1.3 < f2.3
    ||| f1.0 == f2.0 && f1.1 == f2.1 && f1.2 == f2.2 && f1.3 == f2.3 && f1.4 < f2.4
    ||| f1.0 == f2.0 && f1.1 == f2.1 && f1.2 == f2.2 && f1.3 == f2.3 && f1.4 == f2.4 && f1.5
        < f2.5
}

spec fn tail_from_second(f: (nat, nat, nat, nat, nat, nat)) -> Seq<char> {
    two_digits(f.5)
}

spec fn tail_from_minute(f: (nat, nat, nat, nat, nat, nat)) -> Seq<char> {
    two_digits(f.4) + (seq![':'] + tail_from_second(f))
}

spec fn tail_from_hour(f: (nat, nat, nat, nat, nat, nat)) -> Seq<char> {
    two_digits(f.3) + (seq![':'] + tail_from_minute(f))
}

spec fn tail_from_day(f: (nat, nat, nat, nat, nat, nat)) -> Seq<char> {
    two_digits(f.2) + (seq![' '] + tail_from_hour(f))
}

spec fn tail_from_month(f: (nat, nat, nat, nat, nat, nat)) -> Seq<char> {
    two_digits(f.1) + (seq!['-'] + tail_from_day(f))
}

spec fn stamp_of(f: (nat, nat, nat, nat, nat, nat)) -> Seq<char> {
    four_digits(f.0) + (seq!['-'] + tail_from_month(f))
}

proof fn lemma_stamp_order(f1: (nat, nat, nat, nat, nat, nat), f2: (nat, nat, nat, nat, nat, nat))
    requires
        f1.0 < 10000 && f1.1 < 100 && f1.2 < 100 && f1.3 < 100 && f1.4 < 100 && f1.5 < 100,
        f2.0 < 10000 && f2.1 < 100 && f2.2 < 100 && f2.3 < 100 && f2.4 < 100 && f2.5 < 100,
        fields_before(f1, f2),
    ensures
        text_before(stamp_of(f1), stamp_of(f2)),
{
    let e = Seq::<char>::empty();
    let eq4 = f1.0 == f2.0 && f1.1 == f2.1 && f1.2 == f2.2 && f1.3 == f2.3 && f1.4 == f2.4;
    if eq4 {
        lemma_two_digits_then(f1.5, f2.5, e, e);
        assert(two_digits(f1.5) + e =~= tail_from_second(f1));
        assert(two_digits(f2.5) + e =~= tail_from_second(f2));
        lemma_same_then(seq![':'], tail_from_second(f1), tail_from_second(f2));
    }
    let eq3 = f1.0 == f2.0 && f1.1 == f2.1 && f1.2 == f2.2 && f1.3 == f2.3;
    if eq3 {
        lemma_two_digits_then(
            f1.4,
            f2.4,
            seq![':'] + tail_from_second(f1),
            seq![':'] + tail_from_second(f2),
        );
        lemma_same_then(seq![':'], tail_from_minute(f1), tail_from_minute(f2));
    }
    let eq2 = f1.0 == f2.0 && f1.1 == f2.1 && f1.2 == f2.2;
    if eq2 {
        lemma_two_digits_then(
            f1.3,
            f2.3,
            seq![':'] + tail_from_minute(f1),
            seq![':'] + tail_from_minute(f2),
        );
        lemma_same_then(seq![' '], tail_from_hour(f1), tail_from_hour(f2));
    }
    let eq1 = f1.0 == f2.0 && f1.1 == f2.1;
    if eq1 {
        lemma_two_digits_then(
            f1.2,
            f2.2,
            seq![' '] + tail_from_hour(f1),
            seq![' '] + tail_from_hour(f2),
        );
        lemma_same_then(seq!['-'], tail_from_day(f1), tail_from_day(f2));
    }
    if f1.0 == f2.0 {
        lemma_two_digits_then(
            f1.1,
            f2.1,
            seq!['-'] + tail_from_day(f1),
            seq!['-'] + tail_from_day(f2),
        );
        lemma_same_then(seq!['-'], tail_from_month(f1), tail_from_month(f2));
    }
    lemma_four_digits_then(
        f1.0,
        f2.0,
        seq!['-'] + tail_from_month(f1),
        seq!['-'] + tail_from_month(f2),
    );
}

proof fn lemma_time_of_day_split(t: nat)
    requires
        t < 86400,
    ensures
        t == 3600 * (t / 3600) + 60 * ((t % 3600) / 60) + t % 60,
        t / 3600 < 24,
        (t % 3600) / 60 < 60,
{
    assert(t == 3600 * (t / 3600) + 60 * ((t % 3600) / 60) + t % 60) by (nonlinear_arith)
        requires
            t < 86400,
    ;
}

#[verifier::spinoff_prover]
#[verifier::rlimit(40)]
proof fn lemma_stamp_fields_small(secs: nat)
    requires
        secs < 253402300800,
    ensures
        ({
            let f = stamp_fields(secs);
            f.0 < 10000 && f.1 < 100 && f.2 < 100 && f.3 < 100 && f.4 < 100 && f.5 < 100
        }),
        timestamp_text(secs) == stamp_of(stamp_fields(secs)),
{
    let days = secs / 86400;
    lemma_date_of_day_exists(days);
    let (y, m, d) = date_of_day(days as int);
    lemma_year_below_ten_thousand(y, m, d);
    let f = stamp_fields(secs);
    lemma_time_of_day_split(secs % 86400);
    lemma_zero_padded_four(f.0);
    lemma_zero_padded_two(f.1);
    lemma_zero_padded_two(f.2);
    lemma_zero_padded_two(f.3);
    lemma_zero_padded_two(f.4);
    lemma_zero_padded_two(f.5);
    assert(timestamp_text(secs) =~= stamp_of(f));
}

proof fn lemma_stamp_fields_in_order(a: nat, b: nat)
    requires
        a < b,
    ensures
        fields_before(stamp_fields(a), stamp_fields(b)),
{
    let da = a / 86400;
    let db = b / 86400;
    lemma_date_of_day_exists(da);
    lemma_date_of_day_exists(db);
    let (y1, m1, d1) = date_of_day(da as int);
    let (y2, m2, d2) = date_of_day(db as int);
    lemma_time_of_day_split(a % 86400);
    lemma_time_of_day_split(b % 86400);
    if da < db {
        lemma_dates_in_order(y1, m1, d1, y2, m2, d2);
    } else {
        assert(da == db);
        assert(a % 86400 < b % 86400);
    }
}

/// What a timestamp text says: the date on or after 1970-01-01 that lies `secs / 86400` days
/// after it, and the hour, minute and second that make up the `secs % 86400` seconds since
/// midnight, written with zeros in front to four places for the year and two for the others.
pub proof fn lemma_timestamp_text_fields(secs: nat)
    ensures
        exists|y: nat, mo: nat, d: nat, h: nat, mi: nat, sec: nat|
            #![trigger zero_padded(y, 4), zero_padded(mo, 2), zero_padded(d, 2), zero_padded(h, 2), zero_padded(mi, 2), zero_padded(sec, 2)]
            {
                &&& valid_date(y as int, mo as int, d as int)
                &&& days_since_epoch(y as int, mo as int, d as int) == secs / 86400
                &&& h < 24 && mi < 60 && sec < 60
                &&& 3600 * h + 60 * mi + sec == secs % 86400
                &&& timestamp_text(secs) == zero_padded(y, 4) + seq!['-'] + zero_padded(mo, 2)
                    + seq!['-'] + zero_padded(d, 2) + seq![' '] + zero_padded(h, 2) + seq![':']
                    + zero_padded(mi, 2) + seq![':'] + zero_padded(sec, 2)
            },
{
    let days = secs / 86400;
    lemma_date_of_day_exists(days);
    lemma_time_of_day_split(secs % 86400);
    let f = stamp_fields(secs);
    assert(valid_date(f.0 as int, f.1 as int, f.2 as int));
    assert(timestamp_text(secs) == zero_padded(f.0, 4) + seq!['-'] + zero_padded(f.1, 2) + seq!['-']
        + zero_padded(f.2, 2) + seq![' '] + zero_padded(f.3, 2) + seq![':'] + zero_padded(f.4, 2)
        + seq![':'] + zero_padded(f.5, 2));
}

/// Later timestamps are written later: for timestamps before 10000-01-01 00:00:00 UTC, the text
/// of the earlier one comes first in dictionary order (so the text also tells timestamps apart).
pub proof fn lemma_timestamp_text_increasing(a: nat, b: nat)
    requires
        a < b < 253402300800,
    ensures
        text_before(timestamp_text(a), timestamp_text(b)),
{
    lemma_stamp_fields_small(a);
    lemma_stamp_fields_small(b);
    lemma_stamp_fields_in_order(a, b);
    lemma_stamp_order(stamp_fields(a), stamp_fields(b));
}

} // verus!

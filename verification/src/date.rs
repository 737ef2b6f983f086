//! Calendar dates and times of day, with the proleptic Gregorian arithmetic
//! the rest of the library is built on: day numbering, adding a span of
//! seconds with full carry across day boundaries, and adding calendar months
//! with the day-of-month clamped to the target month's length.

use vstd::prelude::*;

verus! {

/// A proleptic Gregorian calendar date. Valid dates (see [`Date::wf`]) range
/// from 0000-01-01 to 9999-12-31.
#[derive(Clone, Copy, PartialEq, Eq, Structural, Debug, Hash)]
pub struct Date {
    pub year: u16,
    pub month: u8,
    pub day: u8,
}

/// A time of day with second precision, from 00:00:00 to 23:59:59.
#[derive(Clone, Copy, PartialEq, Eq, Structural, Debug, Hash)]
pub struct Time {
    pub hour: u8,
    pub minute: u8,
    pub second: u8,
}

/// A date paired with a time of day.
#[derive(Clone, Copy, PartialEq, Eq, Structural, Debug, Hash)]
pub struct DateTime {
    pub date: Date,
    pub time: Time,
}

/// The largest year a [`Date`] may hold.
pub const MAX_YEAR: u16 = 9999;

pub open spec fn is_leap_year(y: int) -> bool {
    (y % 4 == 0 && y % 100 != 0) || y % 400 == 0
}

pub open spec fn days_in_year(y: int) -> int {
    if is_leap_year(y) {
        366
    } else {
        365
    }
}

pub open spec fn days_in_month(y: int, m: int) -> int {
    if m == 2 {
        if is_leap_year(y) {
            29
        } else {
            28
        }
    } else if m == 4 || m == 6 || m == 9 || m == 11 {
        30
    } else {
        31
    }
}

impl Date {
    /// A valid calendar date within the supported year range.
    pub open spec fn wf(self) -> bool {
        self.year <= MAX_YEAR && 1 <= self.month <= 12 && 1 <= self.day
            && self.day <= days_in_month(self.year as int, self.month as int)
    }
}

impl Time {
    pub open spec fn wf(self) -> bool {
        self.hour < 24 && self.minute < 60 && self.second < 60
    }
}

impl DateTime {
    pub open spec fn wf(self) -> bool {
        self.date.wf() && self.time.wf()
    }
}

/// Days in all years before year `y`: the day number of 1 January of year `y`,
/// counting 0000-01-01 as day 0.
pub open spec fn days_before_year(y: nat) -> nat
    decreases y,
{
    if y == 0 {
        0
    } else {
        days_before_year((y - 1) as nat) + days_in_year(y - 1) as nat
    }
}

/// Days in the months of year `y` that precede month `m`.
pub open spec fn days_before_month(y: int, m: int) -> int
    decreases m,
{
    if m <= 1 {
        0
    } else {
        days_before_month(y, m - 1) + days_in_month(y, m - 1)
    }
}

/// The day number of a date, counting 0000-01-01 as day 0.
pub open spec fn date_to_days(d: Date) -> int {
    days_before_year(d.year as nat) + days_before_month(d.year as int, d.month as int) + d.day - 1
}

/// Seconds since the start of the day.
pub open spec fn time_to_secs(t: Time) -> int {
    t.hour * 3600 + t.minute * 60 + t.second
}

/// Seconds since 0000-01-01 00:00:00.
pub open spec fn dt_to_secs(dt: DateTime) -> int {
    date_to_days(dt.date) * 86400 + time_to_secs(dt.time)
}

/// Months since January of year 0: a linear scale on which adding calendar
/// months is plain addition.
pub open spec fn month_index(d: Date) -> int {
    d.year * 12 + d.month - 1
}

proof fn lemma_days_before_year_bound(y: nat)
    ensures
        365 * y <= days_before_year(y) <= 366 * y,
    decreases y,
{
    if y > 0 {
        lemma_days_before_year_bound((y - 1) as nat);
    }
}

/// The number of days in the supported date range: valid day numbers are
/// `0 .. MAX_DAYS`.
pub open spec fn spec_max_days() -> int {
    days_before_year((MAX_YEAR + 1) as nat) as int
}

/// The largest second count a valid `DateTime` can reach (23:59:59 on the last
/// supported day).
pub open spec fn spec_max_secs() -> int {
    spec_max_days() * 86400 - 1
}

/// Numeric bounds on the size of the supported range, so that second counts
/// fit comfortably in a `u64`.
pub proof fn lemma_range_bounds()
    ensures
        3650000 <= spec_max_days() <= 3660000,
        spec_max_secs() < 3660000 * 86400,
{
    lemma_days_before_year_bound((MAX_YEAR + 1) as nat);
    let smd = spec_max_days();
    assert(smd * 86400 <= 3660000 * 86400) by (nonlinear_arith)
        requires
            0 <= smd <= 3660000,
    ;
}

pub fn is_leap(y: u16) -> (r: bool)
    ensures
        r == is_leap_year(y as int),
{
    (y % 4 == 0 && y % 100 != 0) || y % 400 == 0
}

pub fn month_len(y: u16, m: u8) -> (r: u8)
    requires
        1 <= m <= 12,
    ensures
        r == days_in_month(y as int, m as int),
{
    if m == 2 {
        if is_leap(y) {
            29
        } else {
            28
        }
    } else if m == 4 || m == 6 || m == 9 || m == 11 {
        30
    } else {
        31
    }
}

/// Days in all years before year `y`, computed by summing year lengths.
pub fn days_before_year_x(y: u16) -> (r: u64)
    requires
        y <= MAX_YEAR + 1,
    ensures
        r == days_before_year(y as nat),
{
    let mut acc: u64 = 0;
    let mut i: u16 = 0;
    while i < y
        invariant
            i <= y,
            acc == days_before_year(i as nat),
        decreases y - i,
    {
        proof {
            lemma_days_before_year_bound(i as nat);
        }
        if is_leap(i) {
            acc = acc + 366;
        } else {
            acc = acc + 365;
        }
        i = i + 1;
    }
    acc
}

/// Days in the months of year `y` before month `m`.
pub fn days_before_month_x(y: u16, m: u8) -> (r: u32)
    requires
        1 <= m <= 13,
    ensures
        r == days_before_month(y as int, m as int),
{
    let mut acc: u32 = 0;
    let mut i: u8 = 1;
    while i < m
        invariant
            1 <= i <= m,
            m <= 13,
            acc == days_before_month(y as int, i as int),
            acc <= 31 * i,
        decreases m - i,
    {
        acc = acc + month_len(y, i) as u32;
        i = i + 1;
    }
    acc
}

/// The day number of a valid date.
pub fn date_to_day_number(d: &Date) -> (r: u64)
    requires
        d.wf(),
    ensures
        r == date_to_days(*d),
        r < spec_max_days(),
{
    proof {
        lemma_date_to_days_in_range(*d);
        lemma_days_before_year_bound(d.year as nat);
    }
    let base = days_before_year_x(d.year);
    let in_year = days_before_month_x(d.year, d.month);
    base + in_year as u64 + (d.day - 1) as u64
}

/// Every valid date's day number lies below `spec_max_days()`, and within its
/// own year's slice of the day-number line.
pub proof fn lemma_date_to_days_in_range(d: Date)
    requires
        d.wf(),
    ensures
        days_before_year(d.year as nat) <= date_to_days(d),
        date_to_days(d) < days_before_year((d.year + 1) as nat),
        date_to_days(d) < spec_max_days(),
{
    lemma_days_before_month_le_year(d.year as int, d.month as int);
    lemma_days_before_month_nonneg(d.year as int, d.month as int);
    lemma_days_before_year_monotone((d.year + 1) as nat, (MAX_YEAR + 1) as nat);
}

proof fn lemma_days_before_month_nonneg(y: int, m: int)
    requires
        m >= 1,
    ensures
        days_before_month(y, m) >= 0,
    decreases m,
{
    if m > 1 {
        lemma_days_before_month_nonneg(y, m - 1);
    }
}

/// The twelve months of a year sum to the year's length.
pub proof fn lemma_year_month_sum(y: int)
    ensures
        days_before_month(y, 13) == days_in_year(y),
{
    reveal_with_fuel(days_before_month, 13);
}

pub proof fn lemma_days_before_month_monotone(y: int, a: int, b: int)
    requires
        1 <= a <= b,
    ensures
        days_before_month(y, a) <= days_before_month(y, b),
    decreases b,
{
    if a < b {
        lemma_days_before_month_monotone(y, a, b - 1);
    }
}

/// Through month `m` plus its length, the months of a year stay within the
/// year's length.
proof fn lemma_days_before_month_le_year(y: int, m: int)
    requires
        1 <= m <= 12,
    ensures
        days_before_month(y, m) + days_in_month(y, m) <= days_in_year(y),
{
    lemma_year_month_sum(y);
    lemma_days_before_month_monotone(y, m + 1, 13);
}

pub proof fn lemma_days_before_year_monotone(a: nat, b: nat)
    requires
        a <= b,
    ensures
        days_before_year(a) <= days_before_year(b),
        a < b ==> days_before_year(a) + 365 <= days_before_year(b),
    decreases b,
{
    if a < b {
        lemma_days_before_year_monotone(a, (b - 1) as nat);
    }
}

} // verus!

verus! {

/// Walks forward through the months of year `y`, consuming `n` remaining days.
pub open spec fn ymd_from_days(y: int, m: int, n: int) -> Date
    decreases 13 - m,
{
    if m >= 12 || n < days_in_month(y, m) {
        Date { year: y as u16, month: m as u8, day: (n + 1) as u8 }
    } else {
        ymd_from_days(y, m + 1, n - days_in_month(y, m))
    }
}

/// Walks forward through the years starting at `y`, consuming `n` remaining
/// days.
pub open spec fn date_from_days_rec(y: nat, n: nat) -> Date
    decreases n,
{
    if n < days_in_year(y as int) {
        ymd_from_days(y as int, 1, n as int)
    } else {
        date_from_days_rec(y + 1, (n - days_in_year(y as int)) as nat)
    }
}

/// The date with the given day number (inverse of [`date_to_days`]).
pub open spec fn date_from_days(n: nat) -> Date {
    date_from_days_rec(0, n)
}

proof fn lemma_ymd_from_days(y: int, m: int, n: int)
    requires
        0 <= y <= MAX_YEAR,
        1 <= m <= 12,
        0 <= n,
        days_before_month(y, m) + n < days_in_year(y),
    ensures
        ({
            let d = ymd_from_days(y, m, n);
            d.wf() && d.year == y && date_to_days(d) == days_before_year(y as nat)
                + days_before_month(y, m) + n
        }),
    decreases 13 - m,
{
    lemma_year_month_sum(y);
    if m >= 12 || n < days_in_month(y, m) {
        if m == 12 {
            assert(days_before_month(y, 13) == days_before_month(y, 12) + days_in_month(y, 12));
        }
    } else {
        lemma_ymd_from_days(y, m + 1, n - days_in_month(y, m));
    }
}

proof fn lemma_date_from_days_rec_roundtrip(y: nat, n: nat)
    requires
        days_before_year(y) + n < spec_max_days(),
    ensures
        ({
            let d = date_from_days_rec(y, n);
            d.wf() && date_to_days(d) == days_before_year(y) + n
        }),
    decreases n,
{
    if y > MAX_YEAR {
        lemma_days_before_year_monotone((MAX_YEAR + 1) as nat, y);
        assert(false);
    }
    if n < days_in_year(y as int) {
        lemma_ymd_from_days(y as int, 1, n as int);
    } else {
        lemma_date_from_days_rec_roundtrip(y + 1, (n - days_in_year(y as int)) as nat);
    }
}

/// Converting a day number to a date and back yields the same number, and the
/// date is valid.
pub proof fn lemma_from_days_roundtrip(n: nat)
    requires
        n < spec_max_days(),
    ensures
        date_from_days(n).wf(),
        date_to_days(date_from_days(n)) == n,
{
    lemma_date_from_days_rec_roundtrip(0, n);
}

/// Strict lexicographic order on (year, month, day).
pub open spec fn date_lex_lt(a: Date, b: Date) -> bool {
    a.year < b.year || (a.year == b.year && (a.month < b.month || (a.month == b.month
        && a.day < b.day)))
}

/// Day numbering respects the (year, month, day) order strictly.
pub proof fn lemma_date_to_days_strict_mono(a: Date, b: Date)
    requires
        a.wf(),
        b.wf(),
        date_lex_lt(a, b),
    ensures
        date_to_days(a) < date_to_days(b),
{
    if a.year < b.year {
        lemma_date_to_days_in_range(a);
        lemma_date_to_days_in_range(b);
        lemma_days_before_year_monotone((a.year + 1) as nat, b.year as nat);
    } else if a.month < b.month {
        assert(days_before_month(a.year as int, a.month as int + 1) == days_before_month(
            a.year as int,
            a.month as int,
        ) + days_in_month(a.year as int, a.month as int));
        lemma_days_before_month_monotone(a.year as int, a.month as int + 1, b.month as int);
    }
}

/// Day numbering is injective on valid dates.
pub proof fn lemma_date_to_days_injective(a: Date, b: Date)
    requires
        a.wf(),
        b.wf(),
        date_to_days(a) == date_to_days(b),
    ensures
        a == b,
{
    if date_lex_lt(a, b) {
        lemma_date_to_days_strict_mono(a, b);
    } else if date_lex_lt(b, a) {
        lemma_date_to_days_strict_mono(b, a);
    }
}

/// The date with day number `n`.
pub fn day_number_to_date(n: u64) -> (r: Date)
    requires
        n < spec_max_days(),
    ensures
        r == date_from_days(n as nat),
        r.wf(),
        date_to_days(r) == n,
{
    proof {
        lemma_from_days_roundtrip(n as nat);
    }
    let mut y: u16 = 0;
    let mut rem: u64 = n;
    loop
        invariant
            days_before_year(y as nat) + rem == n,
            y <= MAX_YEAR,
            n < spec_max_days(),
            date_from_days_rec(y as nat, rem as nat) == date_from_days(n as nat),
        ensures
            days_before_year(y as nat) + rem == n,
            y <= MAX_YEAR,
            rem < days_in_year(y as int),
            date_from_days_rec(y as nat, rem as nat) == date_from_days(n as nat),
        decreases rem,
    {
        let ylen: u64 = if is_leap(y) {
            366
        } else {
            365
        };
        if rem < ylen {
            break ;
        }
        proof {
            if y == MAX_YEAR {
                assert(days_before_year((MAX_YEAR + 1) as nat) == days_before_year(MAX_YEAR as nat)
                    + days_in_year(MAX_YEAR as int));
                assert(false);
            }
        }
        rem = rem - ylen;
        y = y + 1;
    }
    let mut m: u8 = 1;
    let mut rem2: u32 = rem as u32;
    loop
        invariant
            1 <= m <= 12,
            days_before_month(y as int, m as int) + rem2 == rem,
            rem < days_in_year(y as int),
            y <= MAX_YEAR,
            ymd_from_days(y as int, m as int, rem2 as int) == date_from_days(n as nat),
        ensures
            1 <= m <= 12,
            rem2 < days_in_month(y as int, m as int),
            ymd_from_days(y as int, m as int, rem2 as int) == date_from_days(n as nat),
        decreases 12 - m,
    {
        let mlen = month_len(y, m);
        if rem2 < mlen as u32 {
            break ;
        }
        proof {
            lemma_year_month_sum(y as int);
            if m == 12 {
                assert(days_before_month(y as int, 13) == days_before_month(y as int, 12)
                    + days_in_month(y as int, 12));
                assert(false);
            }
        }
        rem2 = rem2 - mlen as u32;
        m = m + 1;
    }
    let r = Date { year: y, month: m, day: (rem2 + 1) as u8 };
    proof {
        lemma_date_to_days_injective(r, date_from_days(n as nat));
    }
    r
}

/// The time of day `s` seconds into a day.
pub open spec fn time_from_secs(s: int) -> Time {
    Time { hour: (s / 3600) as u8, minute: ((s % 3600) / 60) as u8, second: ((s % 3600) % 60) as u8 }
}

/// The instant `s` seconds after 0000-01-01 00:00:00.
pub open spec fn dt_from_secs(s: int) -> DateTime {
    DateTime { date: date_from_days((s / 86400) as nat), time: time_from_secs(s % 86400) }
}

pub proof fn lemma_time_from_secs(s: int)
    requires
        0 <= s < 86400,
    ensures
        time_from_secs(s).wf(),
        time_to_secs(time_from_secs(s)) == s,
{
    assert(0 <= s / 3600 < 24 && 0 <= s % 3600 < 3600) by (nonlinear_arith)
        requires
            0 <= s < 86400,
    ;
    assert(s == 3600 * (s / 3600) + s % 3600) by (nonlinear_arith);
    let r = s % 3600;
    assert(0 <= r / 60 < 60 && 0 <= r % 60 < 60) by (nonlinear_arith)
        requires
            0 <= r < 3600,
    ;
    assert(r == 60 * (r / 60) + r % 60) by (nonlinear_arith);
}

pub proof fn lemma_dt_from_secs(s: int)
    requires
        0 <= s <= spec_max_secs(),
    ensures
        dt_from_secs(s).wf(),
        dt_to_secs(dt_from_secs(s)) == s,
{
    assert(0 <= s / 86400 && 0 <= s % 86400 < 86400) by (nonlinear_arith)
        requires
            0 <= s,
    ;
    assert(s == 86400 * (s / 86400) + s % 86400) by (nonlinear_arith);
    assert(s / 86400 < spec_max_days()) by (nonlinear_arith)
        requires
            0 <= s <= spec_max_days() * 86400 - 1 && s == 86400 * (s / 86400) + s % 86400 && 0 <= s
                % 86400 < 86400,
    ;
    lemma_from_days_roundtrip((s / 86400) as nat);
    lemma_time_from_secs(s % 86400);
}

pub fn time_to_secs_x(t: &Time) -> (r: u32)
    requires
        t.wf(),
    ensures
        r == time_to_secs(*t),
{
    t.hour as u32 * 3600 + t.minute as u32 * 60 + t.second as u32
}

pub fn dt_to_secs_x(dt: &DateTime) -> (r: u64)
    requires
        dt.wf(),
    ensures
        r == dt_to_secs(*dt),
        r <= spec_max_secs(),
{
    let days = date_to_day_number(&dt.date);
    proof {
        let smd = spec_max_days();
        lemma_days_before_year_bound((MAX_YEAR + 1) as nat);
        assert(days * 86400 + 86399 <= smd * 86400 - 1 && smd * 86400 <= 3660000 * 86400) by (nonlinear_arith)
            requires
                0 <= days < smd <= 3660000,
        ;
    }
    days * 86400 + time_to_secs_x(&dt.time) as u64
}

/// The instant `s` seconds after 0000-01-01 00:00:00.
pub fn secs_to_dt(s: u64) -> (r: DateTime)
    requires
        s <= spec_max_secs(),
    ensures
        r == dt_from_secs(s as int),
        r.wf(),
        dt_to_secs(r) == s,
{
    proof {
        lemma_dt_from_secs(s as int);
    }
    let days = s / 86400;
    let rem: u32 = (s % 86400) as u32;
    proof {
        assert(days < spec_max_days() && rem < 86400) by (nonlinear_arith)
            requires
                0 <= s <= spec_max_days() * 86400 - 1 && days == s as int / 86400 && rem == s as int
                    % 86400 && s == 86400 * (s as int / 86400) + s as int % 86400 && 0 <= s as int
                    % 86400 < 86400,
        ;
        assert(s == 86400 * (s as int / 86400) + s as int % 86400) by (nonlinear_arith);
    }
    let date = day_number_to_date(days);
    let hour = (rem / 3600) as u8;
    let r2 = rem % 3600;
    let minute = (r2 / 60) as u8;
    let second = (r2 % 60) as u8;
    proof {
        lemma_time_from_secs((s % 86400) as int);
        assert(rem as int / 3600 == (s as int % 86400) / 3600 && rem as int % 3600 == (s as int
            % 86400) % 3600);
    }
    DateTime { date, time: Time { hour, minute, second } }
}

} // verus!

verus! {

impl Date {
    /// Builds a date after checking it is a valid calendar date in range.
    pub fn new(year: u16, month: u8, day: u8) -> (r: Option<Date>)
        ensures
            ({
                let d = Date { year, month, day };
                if d.wf() {
                    r == Some(d)
                } else {
                    r == None::<Date>
                }
            }),
    {
        if year <= MAX_YEAR && 1 <= month && month <= 12 && 1 <= day && day <= month_len(
            year,
            month,
        ) {
            Some(Date { year, month, day })
        } else {
            None
        }
    }
}

impl Time {
    /// Builds a time of day after checking each component's range.
    pub fn new(hour: u8, minute: u8, second: u8) -> (r: Option<Time>)
        ensures
            ({
                let t = Time { hour, minute, second };
                if t.wf() {
                    r == Some(t)
                } else {
                    r == None::<Time>
                }
            }),
    {
        if hour < 24 && minute < 60 && second < 60 {
            Some(Time { hour, minute, second })
        } else {
            None
        }
    }
}

/// Lexicographic order on (date, time): the order queries sort by.
pub open spec fn dt_lex_le(a: DateTime, b: DateTime) -> bool {
    date_lex_lt(a.date, b.date) || (a.date == b.date && time_to_secs(a.time) <= time_to_secs(
        b.time,
    ))
}

/// On valid instants, comparing second counts and comparing (date, time)
/// lexicographically agree.
pub proof fn lemma_secs_order_is_lex_order(a: DateTime, b: DateTime)
    requires
        a.wf(),
        b.wf(),
    ensures
        (dt_to_secs(a) <= dt_to_secs(b)) == dt_lex_le(a, b),
{
    let da = date_to_days(a.date);
    let db = date_to_days(b.date);
    if date_lex_lt(a.date, b.date) {
        lemma_date_to_days_strict_mono(a.date, b.date);
        assert(da * 86400 + 86400 <= db * 86400) by (nonlinear_arith)
            requires
                da < db,
        ;
    } else if date_lex_lt(b.date, a.date) {
        lemma_date_to_days_strict_mono(b.date, a.date);
        assert(db * 86400 + 86400 <= da * 86400) by (nonlinear_arith)
            requires
                db < da,
        ;
    } else {
        assert(a.date == b.date);
    }
}

/// Compares two valid instants: `a <= b` in second count (equivalently, in
/// (date, time) order).
pub fn dt_le(a: &DateTime, b: &DateTime) -> (r: bool)
    requires
        a.wf(),
        b.wf(),
    ensures
        r == (dt_to_secs(*a) <= dt_to_secs(*b)),
        r == dt_lex_le(*a, *b),
{
    proof {
        lemma_secs_order_is_lex_order(*a, *b);
    }
    dt_to_secs_x(a) <= dt_to_secs_x(b)
}

/// Adds `n` seconds to a valid instant, carrying across minute, hour, day,
/// month and year boundaries.
pub fn add_secs(dt: &DateTime, n: u64) -> (r: DateTime)
    requires
        dt.wf(),
        dt_to_secs(*dt) + n <= spec_max_secs(),
    ensures
        r.wf(),
        dt_to_secs(r) == dt_to_secs(*dt) + n,
        r == dt_from_secs(dt_to_secs(*dt) + n),
{
    proof {
        lemma_range_bounds();
    }
    let base = dt_to_secs_x(dt);
    secs_to_dt(base + n)
}

/// The month index of the latest representable month (December 9999).
pub open spec fn spec_max_month_index() -> int {
    MAX_YEAR * 12 + 11
}

/// The date `k` calendar months after `d`: the month advances on the linear
/// month scale and the day-of-month is clamped to the target month's length,
/// so e.g. 31 January moves to 28 or 29 February.
pub open spec fn add_months_spec(d: Date, k: int) -> Date {
    let mi = month_index(d) + k;
    let y = mi / 12;
    let m = mi % 12 + 1;
    let day = if d.day <= days_in_month(y, m) {
        d.day as int
    } else {
        days_in_month(y, m)
    };
    Date { year: y as u16, month: m as u8, day: day as u8 }
}

pub proof fn lemma_add_months_wf(d: Date, k: int)
    requires
        d.wf(),
        0 <= k,
        month_index(d) + k <= spec_max_month_index(),
    ensures
        add_months_spec(d, k).wf(),
        month_index(add_months_spec(d, k)) == month_index(d) + k,
{
    let mi = month_index(d) + k;
    assert(0 <= mi / 12 <= MAX_YEAR && 0 <= mi % 12 < 12 && mi == 12 * (mi / 12) + mi % 12)
        by (nonlinear_arith)
        requires
            0 <= mi <= MAX_YEAR * 12 + 11,
    ;
}

/// Advances a date by `k` calendar months, clamping the day-of-month.
pub fn add_months(d: &Date, k: u64) -> (r: Date)
    requires
        d.wf(),
        month_index(*d) + k <= spec_max_month_index(),
    ensures
        r == add_months_spec(*d, k as int),
        r.wf(),
        month_index(r) == month_index(*d) + k,
{
    proof {
        lemma_add_months_wf(*d, k as int);
    }
    let mi: u64 = d.year as u64 * 12 + (d.month - 1) as u64 + k;
    let y = (mi / 12) as u16;
    let m = (mi % 12) as u8 + 1;
    proof {
        assert(mi / 12 <= MAX_YEAR && mi % 12 < 12 && mi == 12 * (mi / 12) + mi % 12)
            by (nonlinear_arith)
            requires
                0 <= mi <= MAX_YEAR * 12 + 11,
        ;
    }
    let mlen = month_len(y, m);
    let day = if d.day <= mlen {
        d.day
    } else {
        mlen
    };
    Date { year: y, month: m, day }
}

/// The weekday of a date, with Monday as 0 through Sunday as 6.
pub open spec fn weekday_of(d: Date) -> int {
    (date_to_days(d) + 5) % 7
}

/// The weekday of a valid date, with Monday as 0 through Sunday as 6.
pub fn weekday(d: &Date) -> (r: u8)
    requires
        d.wf(),
    ensures
        r == weekday_of(*d),
        r < 7,
{
    proof {
        lemma_range_bounds();
    }
    ((date_to_day_number(d) + 5) % 7) as u8
}

} // verus!

verus! {

/// A valid instant's second count stays within the representable range.
pub proof fn lemma_dt_to_secs_le_max(dt: DateTime)
    requires
        dt.wf(),
    ensures
        0 <= dt_to_secs(dt) <= spec_max_secs(),
{
    lemma_date_to_days_in_range(dt.date);
    let days = date_to_days(dt.date);
    let smd = spec_max_days();
    assert(days * 86400 >= 0 && days * 86400 + 86399 <= smd * 86400 - 1) by (nonlinear_arith)
        requires
            0 <= days < smd,
    ;
}

/// Second counts are injective on valid instants.
pub proof fn lemma_dt_to_secs_injective(a: DateTime, b: DateTime)
    requires
        a.wf(),
        b.wf(),
        dt_to_secs(a) == dt_to_secs(b),
    ensures
        a == b,
{
    lemma_secs_order_is_lex_order(a, b);
    lemma_secs_order_is_lex_order(b, a);
    if date_lex_lt(a.date, b.date) {
        assert(!dt_lex_le(b, a));
    } else if date_lex_lt(b.date, a.date) {
        assert(!dt_lex_le(a, b));
    } else {
        assert(a.date == b.date);
        assert(time_to_secs(a.time) == time_to_secs(b.time));
    }
}

/// A valid instant converted to its second count and back is itself.
pub proof fn lemma_dt_secs_roundtrip(dt: DateTime)
    requires
        dt.wf(),
    ensures
        dt_from_secs(dt_to_secs(dt)) == dt,
{
    lemma_dt_to_secs_le_max(dt);
    lemma_dt_from_secs(dt_to_secs(dt));
    lemma_dt_to_secs_injective(dt, dt_from_secs(dt_to_secs(dt)));
}

} // verus!

verus! {

/// The largest valid day number, as a run-time value.
pub fn max_day_number() -> (r: u64)
    ensures
        r == spec_max_days() - 1,
{
    days_before_year_x(MAX_YEAR + 1) - 1
}

/// The largest valid second count, as a run-time value.
pub fn max_secs_x() -> (r: u64)
    ensures
        r == spec_max_secs(),
{
    proof {
        lemma_range_bounds();
        let smd = spec_max_days();
        assert(smd * 86400 <= 3660000 * 86400) by (nonlinear_arith)
            requires
                0 <= smd <= 3660000,
        ;
    }
    days_before_year_x(MAX_YEAR + 1) * 86400 - 1
}

/// The inclusive window covering one calendar day: 00:00:00 to 23:59:59.
pub fn day_bounds(d: &Date) -> (r: (DateTime, DateTime))
    requires
        d.wf(),
    ensures
        r.0 == (DateTime { date: *d, time: Time { hour: 0, minute: 0, second: 0 } }),
        r.1 == (DateTime { date: *d, time: Time { hour: 23, minute: 59, second: 59 } }),
        r.0.wf(),
        r.1.wf(),
{
    (
        DateTime { date: *d, time: Time { hour: 0, minute: 0, second: 0 } },
        DateTime { date: *d, time: Time { hour: 23, minute: 59, second: 59 } },
    )
}

/// The inclusive window covering the ISO week (Monday through Sunday) that
/// holds the date, clamped to the representable range at both ends.
pub fn week_bounds(d: &Date) -> (r: (DateTime, DateTime))
    requires
        d.wf(),
    ensures
        r.0.wf(),
        r.1.wf(),
        ({
            let n = date_to_days(*d);
            let lo = if n - weekday_of(*d) >= 0 {
                n - weekday_of(*d)
            } else {
                0
            };
            let hi = if lo + 6 <= spec_max_days() - 1 {
                lo + 6
            } else {
                spec_max_days() - 1
            };
            date_to_days(r.0.date) == lo && r.0.time == (Time { hour: 0, minute: 0, second: 0 })
                && date_to_days(r.1.date) == hi && r.1.time == (Time {
                hour: 23,
                minute: 59,
                second: 59,
            })
        }),
{
    let n = date_to_day_number(d);
    let wd = weekday(d) as u64;
    let lo = if n >= wd {
        n - wd
    } else {
        0
    };
    let maxd = max_day_number();
    proof {
        lemma_range_bounds();
    }
    let hi = if lo + 6 <= maxd {
        lo + 6
    } else {
        maxd
    };
    let monday = day_number_to_date(lo);
    let sunday = day_number_to_date(hi);
    (
        DateTime { date: monday, time: Time { hour: 0, minute: 0, second: 0 } },
        DateTime { date: sunday, time: Time { hour: 23, minute: 59, second: 59 } },
    )
}

/// The inclusive window covering the calendar month that holds the date: the
/// 1st at 00:00:00 through the month's last day at 23:59:59.
pub fn month_bounds(d: &Date) -> (r: (DateTime, DateTime))
    requires
        d.wf(),
    ensures
        r.0 == (DateTime {
            date: Date { year: d.year, month: d.month, day: 1 },
            time: Time { hour: 0, minute: 0, second: 0 },
        }),
        r.1 == (DateTime {
            date: Date {
                year: d.year,
                month: d.month,
                day: days_in_month(d.year as int, d.month as int) as u8,
            },
            time: Time { hour: 23, minute: 59, second: 59 },
        }),
        r.0.wf(),
        r.1.wf(),
{
    let last = month_len(d.year, d.month);
    (
        DateTime {
            date: Date { year: d.year, month: d.month, day: 1 },
            time: Time { hour: 0, minute: 0, second: 0 },
        },
        DateTime {
            date: Date { year: d.year, month: d.month, day: last },
            time: Time { hour: 23, minute: 59, second: 59 },
        },
    )
}

} // verus!

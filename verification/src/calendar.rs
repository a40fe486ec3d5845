//! Calendar dates, timestamps and durations, modeled as plain values.
//!
//! A `Date` is a proleptic Gregorian calendar day between the years 1 and
//! 9999. A `Timestamp` is a date plus a minute of the day plus the UTC offset
//! of the local time zone at the moment it was taken; the library never reads
//! a clock itself, callers inject every timestamp. A `Duration` is a signed
//! number of minutes.

use vstd::prelude::*;

verus! {

/// A calendar date (proleptic Gregorian), valid between years 1 and 9999.
#[derive(Clone, Copy, PartialEq, Eq, Structural, Debug)]
pub struct Date {
    pub year: u32,
    pub month: u8,
    pub day: u8,
}

/// A point in local time with minute resolution: a calendar date, a minute of
/// the day, and the local time zone's offset from UTC in minutes.
#[derive(Clone, Copy, PartialEq, Eq, Structural, Debug)]
pub struct Timestamp {
    pub date: Date,
    pub minute: u16,
    pub offset_min: i16,
}

/// An elapsed time in whole minutes.
#[derive(Clone, Copy, PartialEq, Eq, Structural, Debug)]
pub struct Duration {
    pub minutes: i64,
}

pub open spec fn is_leap_year(y: int) -> bool {
    y % 4 == 0 && (y % 100 != 0 || y % 400 == 0)
}

pub open spec fn days_in_month(y: int, m: int) -> int {
    if m == 1 { 31 }
    else if m == 2 { if is_leap_year(y) { 29 } else { 28 } }
    else if m == 3 { 31 }
    else if m == 4 { 30 }
    else if m == 5 { 31 }
    else if m == 6 { 30 }
    else if m == 7 { 31 }
    else if m == 8 { 31 }
    else if m == 9 { 30 }
    else if m == 10 { 31 }
    else if m == 11 { 30 }
    else { 31 }
}

impl Date {
    pub open spec fn valid(self) -> bool {
        &&& 1 <= self.year <= 9999
        &&& 1 <= self.month <= 12
        &&& 1 <= self.day <= days_in_month(self.year as int, self.month as int)
    }

    /// Lexicographic order on (year, month, day): the calendar order.
    pub open spec fn lt(self, other: Date) -> bool {
        ||| self.year < other.year
        ||| (self.year == other.year && self.month < other.month)
        ||| (self.year == other.year && self.month == other.month && self.day < other.day)
    }
}

/// Days in the year `y` before the first day of month `m`.
pub open spec fn days_before_month(y: int, m: int) -> int
    decreases m,
{
    if m <= 1 { 0 } else { days_before_month(y, m - 1) + days_in_month(y, m - 1) }
}

pub open spec fn days_in_year(y: int) -> int {
    if is_leap_year(y) { 366 } else { 365 }
}

/// Days before the first day of year `y`, counted from 0001-01-01.
pub open spec fn days_before_year(y: int) -> int
    decreases y,
{
    if y <= 1 { 0 } else { days_before_year(y - 1) + days_in_year(y - 1) }
}

/// The rank of a date on the time line: 0001-01-01 has index 0 and each
/// following day is one higher.
pub open spec fn day_index(d: Date) -> int {
    days_before_year(d.year as int) + days_before_month(d.year as int, d.month as int) + d.day - 1
}

/// How many days the supported years 1 to 9999 hold; every valid date's
/// `day_index` lies below this.
pub open spec fn num_supported_days() -> int {
    days_before_year(10000)
}

/// The calendar day after `d`.
pub open spec fn next_date(d: Date) -> Date {
    if d.day < days_in_month(d.year as int, d.month as int) {
        Date { year: d.year, month: d.month, day: (d.day + 1) as u8 }
    } else if d.month < 12 {
        Date { year: d.year, month: (d.month + 1) as u8, day: 1 }
    } else {
        Date { year: (d.year + 1) as u32, month: 1, day: 1 }
    }
}

/// The calendar day before `d`.
pub open spec fn prev_date(d: Date) -> Date {
    if d.day > 1 {
        Date { year: d.year, month: d.month, day: (d.day - 1) as u8 }
    } else if d.month > 1 {
        Date {
            year: d.year,
            month: (d.month - 1) as u8,
            day: days_in_month(d.year as int, d.month - 1) as u8,
        }
    } else {
        Date { year: (d.year - 1) as u32, month: 12, day: 31 }
    }
}

/// The date `n` days before `d`.
pub open spec fn sub_days(d: Date, n: nat) -> Date
    decreases n,
{
    if n == 0 {
        d
    } else {
        prev_date(sub_days(d, (n - 1) as nat))
    }
}

pub fn is_leap_year_exec(y: u32) -> (r: bool)
    ensures
        r == is_leap_year(y as int),
{
    y % 4 == 0 && (y % 100 != 0 || y % 400 == 0)
}

pub fn days_in_month_exec(y: u32, m: u8) -> (r: u8)
    ensures
        r as int == days_in_month(y as int, m as int),
{
    if m == 1 { 31 }
    else if m == 2 { if is_leap_year_exec(y) { 29 } else { 28 } }
    else if m == 3 { 31 }
    else if m == 4 { 30 }
    else if m == 5 { 31 }
    else if m == 6 { 30 }
    else if m == 7 { 31 }
    else if m == 8 { 31 }
    else if m == 9 { 30 }
    else if m == 10 { 31 }
    else if m == 11 { 30 }
    else { 31 }
}

impl Date {
    /// The next calendar day.
    pub fn succ(&self) -> (r: Date)
        requires
            self.valid(),
            *self != (Date { year: 9999, month: 12, day: 31 }),
        ensures
            r == next_date(*self),
            r.valid(),
    {
        let dim = days_in_month_exec(self.year, self.month);
        if self.day < dim {
            Date { year: self.year, month: self.month, day: self.day + 1 }
        } else if self.month < 12 {
            Date { year: self.year, month: self.month + 1, day: 1 }
        } else {
            Date { year: self.year + 1, month: 1, day: 1 }
        }
    }

    /// `true` when `self` is before `other` in calendar order.
    pub fn before(&self, other: &Date) -> (r: bool)
        ensures
            r == self.lt(*other),
    {
        self.year < other.year
            || (self.year == other.year && self.month < other.month)
            || (self.year == other.year && self.month == other.month && self.day < other.day)
    }

    /// The calendar day before `self`.
    pub fn pred(&self) -> (r: Date)
        requires
            self.valid(),
            *self != (Date { year: 1, month: 1, day: 1 }),
        ensures
            r.valid(),
            r == prev_date(*self),
            next_date(r) == *self,
    {
        if self.day > 1 {
            Date { year: self.year, month: self.month, day: self.day - 1 }
        } else if self.month > 1 {
            let dim = days_in_month_exec(self.year, self.month - 1);
            Date { year: self.year, month: self.month - 1, day: dim }
        } else {
            Date { year: self.year - 1, month: 12, day: 31 }
        }
    }

    /// The date `n` days before `self`.
    pub fn back_days(&self, n: u32) -> (r: Date)
        requires
            self.valid(),
            n <= day_index(*self),
        ensures
            r.valid(),
            r == sub_days(*self, n as nat),
            add_days(r, n as nat) == *self,
            day_index(r) == day_index(*self) - n,
    {
        let mut curr: Date = *self;
        let mut k: u32 = 0;
        while k < n
            invariant
                self.valid(),
                n <= day_index(*self),
                k <= n,
                curr.valid(),
                curr == sub_days(*self, k as nat),
                add_days(curr, k as nat) == *self,
                day_index(curr) == day_index(*self) - k,
            decreases n - k,
        {
            proof {
                if curr == (Date { year: 1, month: 1, day: 1 }) {
                    assert(day_index(curr) == 0);
                }
            }
            let prev = curr.pred();
            proof {
                lemma_day_index_next(prev);
                lemma_add_days_shift(prev, k as nat);
            }
            curr = prev;
            k = k + 1;
        }
        curr
    }

    /// The rank of this date on the time line (0001-01-01 is 0).
    pub fn index(&self) -> (r: u32)
        requires
            self.valid(),
        ensures
            r as int == day_index(*self),
            r < 3_660_000,
    {
        let mut acc: u32 = 0;
        let mut y: u32 = 1;
        while y < self.year
            invariant
                self.valid(),
                y <= self.year,
                acc as int == days_before_year(y as int),
                acc <= 366 * (y - 1),
            decreases self.year - y,
        {
            if is_leap_year_exec(y) {
                acc = acc + 366;
            } else {
                acc = acc + 365;
            }
            y = y + 1;
        }
        let mut m: u8 = 1;
        while m < self.month
            invariant
                self.valid(),
                1 <= m <= self.month,
                acc as int == days_before_year(self.year as int) + days_before_month(
                    self.year as int,
                    m as int,
                ),
                acc <= 366 * (self.year - 1) + 31 * (m - 1),
            decreases self.month - m,
        {
            proof {
                assert(days_before_month(self.year as int, m as int + 1) == days_before_month(
                    self.year as int,
                    m as int,
                ) + days_in_month(self.year as int, m as int));
            }
            acc = acc + days_in_month_exec(self.year, m) as u32;
            m = m + 1;
        }
        acc + self.day as u32 - 1
    }
}

/// The date `n` days after `d`.
pub open spec fn add_days(d: Date, n: nat) -> Date
    decreases n,
{
    if n == 0 {
        d
    } else {
        next_date(add_days(d, (n - 1) as nat))
    }
}

pub proof fn lemma_add_days_shift(d: Date, n: nat)
    ensures
        add_days(next_date(d), n) == add_days(d, n + 1),
    decreases n,
{
    if n == 0 {
        assert(add_days(d, 1) == next_date(add_days(d, 0)));
    } else {
        lemma_add_days_shift(d, (n - 1) as nat);
        assert(add_days(next_date(d), n) == next_date(add_days(next_date(d), (n - 1) as nat)));
        assert(add_days(d, n + 1) == next_date(add_days(d, n)));
    }
}

/// A year's days are the days of its twelve months.
proof fn lemma_year_months(y: int)
    ensures
        days_before_month(y, 13) == days_in_year(y),
{
    reveal_with_fuel(days_before_month, 14);
}

/// Stepping to the next calendar day raises the day index by one.
pub proof fn lemma_day_index_next(d: Date)
    requires
        d.valid(),
    ensures
        day_index(next_date(d)) == day_index(d) + 1,
        next_date(d).valid() || d == (Date { year: 9999, month: 12, day: 31 }),
{
    let y = d.year as int;
    let m = d.month as int;
    if d.day < days_in_month(y, m) {
    } else if d.month < 12 {
        assert(days_before_month(y, m + 1) == days_before_month(y, m) + days_in_month(y, m));
    } else {
        lemma_year_months(y);
        assert(days_before_month(y, 13) == days_before_month(y, 12) + days_in_month(y, 12));
    }
}

/// The last supported date has the largest day index of any valid date.
pub proof fn lemma_max_date_index()
    ensures
        day_index(Date { year: 9999, month: 12, day: 31 }) == num_supported_days() - 1,
        num_supported_days() == 3652059,
        forall|d: Date| d.valid() ==> day_index(d) < num_supported_days(),
{
    assert(days_before_year(10000) == 3652059) by {
        lemma_days_before_year_bound(10000);
    }
    lemma_year_months(9999);
    assert forall|d: Date| d.valid() implies day_index(d) < num_supported_days() by {
        lemma_date_index_in_year(d);
        lemma_days_before_year_monotone(d.year as int + 1, 10000);
    }
}

/// A date's index lies before the first day of the following year.
proof fn lemma_date_index_in_year(d: Date)
    requires
        d.valid(),
    ensures
        days_before_year(d.year as int) <= day_index(d) < days_before_year(d.year as int + 1),
{
    let y = d.year as int;
    lemma_days_before_month_monotone(y, d.month as int, 13);
    lemma_year_months(y);
    assert(days_before_month(y, d.month as int + 1)
        == days_before_month(y, d.month as int) + days_in_month(y, d.month as int));
    lemma_days_before_month_monotone(y, d.month as int + 1, 13);
    lemma_days_before_month_nonneg(y, d.month as int);
}

proof fn lemma_days_before_month_nonneg(y: int, m: int)
    ensures
        days_before_month(y, m) >= 0,
    decreases m,
{
    if m > 1 {
        lemma_days_before_month_nonneg(y, m - 1);
    }
}

proof fn lemma_days_before_month_monotone(y: int, m1: int, m2: int)
    requires
        m1 <= m2,
    ensures
        days_before_month(y, m1) <= days_before_month(y, m2),
    decreases m2 - m1,
{
    if m1 < m2 {
        lemma_days_before_month_monotone(y, m1, m2 - 1);
    }
}

proof fn lemma_days_before_year_monotone(y1: int, y2: int)
    requires
        1 <= y1 <= y2,
    ensures
        days_before_year(y1) <= days_before_year(y2),
    decreases y2 - y1,
{
    if y1 < y2 {
        lemma_days_before_year_monotone(y1, y2 - 1);
    }
}

proof fn lemma_days_before_year_bound(y: int)
    requires
        1 <= y,
    ensures
        days_before_year(y) == 365 * (y - 1) + (y - 1) / 4 - (y - 1) / 100 + (y - 1) / 400,
    decreases y,
{
    if y > 1 {
        lemma_days_before_year_bound(y - 1);
        lemma_leap_count_step(y - 1);
    }
}

/// One more year adds one more 4th-year, 100th-year, 400th-year count exactly
/// when the year just passed is divisible by 4, 100, 400.
proof fn lemma_leap_count_step(y: int)
    requires
        1 <= y,
    ensures
        y / 4 == (y - 1) / 4 + (if y % 4 == 0 { 1int } else { 0 }),
        y / 100 == (y - 1) / 100 + (if y % 100 == 0 { 1int } else { 0 }),
        y / 400 == (y - 1) / 400 + (if y % 400 == 0 { 1int } else { 0 }),
{
    lemma_div_step(y, 4);
    lemma_div_step(y, 100);
    lemma_div_step(y, 400);
}

proof fn lemma_div_step(y: int, k: int)
    requires
        1 <= y,
        2 <= k,
    ensures
        y / k == (y - 1) / k + (if y % k == 0 { 1int } else { 0 }),
{
    let q = (y - 1) / k;
    let r = (y - 1) % k;
    vstd::arithmetic::div_mod::lemma_fundamental_div_mod(y - 1, k);
    vstd::arithmetic::div_mod::lemma_mod_bound(y - 1, k);
    if r == k - 1 {
        assert(y == (q + 1) * k + 0) by (nonlinear_arith)
            requires
                y - 1 == k * q + r,
                r == k - 1,
        ;
        vstd::arithmetic::div_mod::lemma_fundamental_div_mod_converse(y, k, q + 1, 0);
    } else {
        assert(y == q * k + (r + 1)) by (nonlinear_arith)
            requires
                y - 1 == k * q + r,
        ;
        vstd::arithmetic::div_mod::lemma_fundamental_div_mod_converse(y, k, q, r + 1);
    }
}

impl Timestamp {
    pub open spec fn valid(self) -> bool {
        &&& self.date.valid()
        &&& self.minute < 1440
        &&& -1439 <= self.offset_min <= 1439
    }

    /// The moment this timestamp denotes, as minutes since 0001-01-01 00:00
    /// UTC: the local minute count corrected by the local offset.
    pub open spec fn instant(self) -> int {
        day_index(self.date) * 1440 + self.minute - self.offset_min
    }
}

impl Duration {
    pub fn zero() -> (r: Duration)
        ensures
            r.minutes == 0,
    {
        Duration { minutes: 0 }
    }
}

/// Calendar order is transitive.
pub proof fn lemma_date_lt_trans(a: Date, b: Date, c: Date)
    requires
        a.lt(b),
        b.lt(c),
    ensures
        a.lt(c),
{
}

/// `true` when `a` denotes a moment no later than `b`.
pub fn instant_le(a: &Timestamp, b: &Timestamp) -> (r: bool)
    requires
        a.valid(),
        b.valid(),
    ensures
        r == (a.instant() <= b.instant()),
{
    let ia = a.date.index();
    let ib = b.date.index();
    let ma: i64 = ia as i64 * 1440 + a.minute as i64 - a.offset_min as i64;
    let mb: i64 = ib as i64 * 1440 + b.minute as i64 - b.offset_min as i64;
    ma <= mb
}

/// The elapsed whole minutes from `a` to `b`.
pub fn minutes_between(a: &Timestamp, b: &Timestamp) -> (r: Duration)
    requires
        a.valid(),
        b.valid(),
        a.instant() <= b.instant(),
    ensures
        r.minutes == b.instant() - a.instant(),
{
    let ia = a.date.index();
    let ib = b.date.index();
    let start: i64 = ia as i64 * 1440 + a.minute as i64 - a.offset_min as i64;
    let end: i64 = ib as i64 * 1440 + b.minute as i64 - b.offset_min as i64;
    Duration { minutes: end - start }
}

} // verus!

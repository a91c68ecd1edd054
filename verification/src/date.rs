//! Calendar dates.
//!
//! A `Date` stores a Gregorian `year-month-day` (years 1600 through 9999)
//! together with its day number: the count of days since 1600-01-01, which
//! was a Saturday.  Comparisons, windows and week-day arithmetic all work on
//! day numbers, so no calendar reasoning leaks into the callers.

use vstd::prelude::*;

verus! {

/// Gregorian leap-year rule.
pub open spec fn spec_leap(y: int) -> bool {
    (y % 4 == 0 && y % 100 != 0) || y % 400 == 0
}

/// Length of month `m` of year `y`, months numbered 1 through 12.
pub open spec fn spec_days_in_month(y: int, m: int) -> int {
    if m == 2 {
        if spec_leap(y) {
            29
        } else {
            28
        }
    } else if m == 4 || m == 6 || m == 9 || m == 11 {
        30
    } else {
        31
    }
}

/// Days of year `y` that lie before month `m`.
pub open spec fn spec_days_before_month(y: int, m: int) -> int
    decreases m,
{
    if m <= 1 {
        0
    } else {
        spec_days_before_month(y, m - 1) + spec_days_in_month(y, m - 1)
    }
}

/// Length of year `y`.
pub open spec fn spec_year_len(y: int) -> int {
    spec_days_before_month(y, 13)
}

/// Days between 1600-01-01 and the first day of year `y`.
pub open spec fn spec_days_before_year(y: int) -> int
    decreases y,
{
    if y <= 1600 {
        0
    } else {
        spec_days_before_year(y - 1) + spec_year_len(y - 1)
    }
}

/// Day number of `y-m-d`: days since 1600-01-01.
pub open spec fn spec_day_number(y: int, m: int, d: int) -> int {
    spec_days_before_year(y) + spec_days_before_month(y, m) + (d - 1)
}

pub open spec fn valid_ymd(y: int, m: int, d: int) -> bool {
    1600 <= y <= 9999 && 1 <= m <= 12 && 1 <= d <= spec_days_in_month(y, m)
}

/// First day number past the supported range.
pub open spec fn day_number_limit() -> int {
    spec_days_before_year(10000)
}

/// A year's length is 365, or 366 in a leap year.
pub proof fn lemma_year_len(y: int)
    ensures
        spec_year_len(y) == if spec_leap(y) {
            366int
        } else {
            365int
        },
{
    reveal_with_fuel(spec_days_before_month, 14);
}

/// Day counts before successive years grow by whole year lengths.
pub proof fn lemma_dby_step(y: int)
    requires
        y >= 1600,
    ensures
        spec_days_before_year(y + 1) == spec_days_before_year(y) + spec_year_len(y),
{
}

/// Day counts before years are bounded by 366 days a year.
pub proof fn lemma_dby_bounds(y: int)
    requires
        1600 <= y,
    ensures
        365 * (y - 1600) <= spec_days_before_year(y) <= 366 * (y - 1600),
    decreases y,
{
    if y > 1600 {
        lemma_dby_bounds(y - 1);
        lemma_year_len(y - 1);
    }
}

/// The view of a `Date`: its calendar fields.
pub ghost struct DateV {
    pub year: int,
    pub month: int,
    pub day: int,
}

impl DateV {
    pub open spec fn valid(self) -> bool {
        valid_ymd(self.year, self.month, self.day)
    }

    /// Days since 1600-01-01.
    pub open spec fn dn(self) -> int {
        spec_day_number(self.year, self.month, self.day)
    }
}

/// A Gregorian calendar date between years 1600 and 9999.
#[derive(Debug, Clone, Copy, PartialEq, Eq, Structural)]
pub struct Date {
    year: u32,
    month: u8,
    day: u8,
    dn: i64,
}

impl View for Date {
    type V = DateV;

    closed spec fn view(&self) -> DateV {
        DateV { year: self.year as int, month: self.month as int, day: self.day as int }
    }
}

/// Whether year `y` is a leap year.
pub fn leap_year(y: u32) -> (r: bool)
    ensures
        r == spec_leap(y as int),
{
    (y % 4 == 0 && y % 100 != 0) || y % 400 == 0
}

/// Length of month `m` of year `y`.
pub fn days_in_month(y: u32, m: u8) -> (r: u8)
    ensures
        r as int == spec_days_in_month(y as int, m as int),
{
    if m == 2 {
        if leap_year(y) {
            29
        } else {
            28
        }
    } else if m == 4 || m == 6 || m == 9 || m == 11 {
        30
    } else {
        31
    }
}

fn year_len(y: u32) -> (r: u16)
    ensures
        r as int == spec_year_len(y as int),
{
    proof {
        lemma_year_len(y as int);
    }
    if leap_year(y) {
        366
    } else {
        365
    }
}

/// Day number of a valid calendar triple.
fn compute_dn(y: u32, m: u8, d: u8) -> (dn: i64)
    requires
        valid_ymd(y as int, m as int, d as int),
    ensures
        dn as int == spec_day_number(y as int, m as int, d as int),
        0 <= dn < day_number_limit(),
{
    let mut acc: i64 = 0;
    let mut i: u32 = 1600;
    while i < y
        invariant
            1600 <= i <= y <= 9999,
            acc as int == spec_days_before_year(i as int),
            0 <= acc <= 366 * (i - 1600),
        decreases y - i,
    {
        proof {
            lemma_dby_step(i as int);
            lemma_year_len(i as int);
        }
        acc = acc + year_len(i) as i64;
        i = i + 1;
    }
    let mut j: u8 = 1;
    while j < m
        invariant
            1 <= j <= m <= 12,
            y as int == y,
            acc as int == spec_days_before_year(y as int) + spec_days_before_month(
                y as int,
                j as int,
            ),
            acc <= 366 * (y - 1600) + 31 * j,
        decreases m - j,
    {
        acc = acc + days_in_month(y, j) as i64;
        j = j + 1;
    }
    proof {
        lemma_dby_bounds(y as int);
        lemma_dby_bounds(10000);
        lemma_dby_step(y as int);
        lemma_year_len(y as int);
        lemma_dbm_nonneg(y as int, m as int);
        assert(spec_days_before_month(y as int, m as int) + spec_days_in_month(y as int, m as int)
            <= spec_year_len(y as int)) by {
            lemma_dbm_le(y as int, m as int);
        }
        assert(spec_days_before_year(y as int + 1) <= spec_days_before_year(10000)) by {
            lemma_dby_monotone(y as int + 1, 10000);
        }
    }
    acc + (d as i64 - 1)
}

/// Days before a month, plus that month, never exceed the year.
proof fn lemma_dbm_le(y: int, m: int)
    requires
        1 <= m <= 12,
    ensures
        spec_days_before_month(y, m) + spec_days_in_month(y, m) <= spec_year_len(y),
    decreases 13 - m,
{
    if m == 12 {
        reveal_with_fuel(spec_days_before_month, 14);
    } else {
        lemma_dbm_le(y, m + 1);
        assert(spec_days_before_month(y, m + 1) == spec_days_before_month(y, m)
            + spec_days_in_month(y, m));
    }
}

/// Day counts before years are monotone.
pub proof fn lemma_dby_monotone(a: int, b: int)
    requires
        1600 <= a <= b,
    ensures
        spec_days_before_year(a) <= spec_days_before_year(b),
    decreases b - a,
{
    if a < b {
        lemma_dby_monotone(a, b - 1);
        lemma_dby_step(b - 1);
        lemma_year_len(b - 1);
    }
}

impl Date {
    /// Validity: the calendar fields are a real date and the stored day
    /// number agrees with them.
    pub open spec fn wf(self) -> bool {
        self@.valid() && self.spec_dn() == self@.dn()
    }

    /// The stored day number.
    pub closed spec fn spec_dn(self) -> int {
        self.dn as int
    }

    /// Builds a date, rejecting invalid calendar triples.
    pub fn from_ymd(year: u32, month: u8, day: u8) -> (r: Option<Date>)
        ensures
            match r {
                Some(x) => valid_ymd(year as int, month as int, day as int) && x.wf() && x@ == (
                DateV { year: year as int, month: month as int, day: day as int }),
                None => !valid_ymd(year as int, month as int, day as int),
            },
    {
        if 1600 <= year && year <= 9999 && 1 <= month && month <= 12 && 1 <= day && day
            <= days_in_month(year, month) {
            let dn = compute_dn(year, month, day);
            Some(Date { year, month, day, dn })
        } else {
            None
        }
    }

    pub fn year(&self) -> (r: u32)
        ensures
            r as int == self@.year,
    {
        self.year
    }

    pub fn month(&self) -> (r: u8)
        ensures
            r as int == self@.month,
    {
        self.month
    }

    pub fn day(&self) -> (r: u8)
        ensures
            r as int == self@.day,
    {
        self.day
    }

    /// Days since 1600-01-01.
    pub fn day_number(&self) -> (r: i64)
        requires
            self.wf(),
        ensures
            r as int == self@.dn(),
            0 <= r < day_number_limit(),
    {
        proof {
            dn_in_range(self@);
        }
        self.dn
    }

    /// `self` is on or before `other` in time.
    pub fn le(&self, other: &Date) -> (r: bool)
        requires
            self.wf(),
            other.wf(),
        ensures
            r == (self@.dn() <= other@.dn()),
    {
        self.dn <= other.dn
    }

    /// `self` is strictly before `other` in time.
    pub fn lt(&self, other: &Date) -> (r: bool)
        requires
            self.wf(),
            other.wf(),
        ensures
            r == (self@.dn() < other@.dn()),
    {
        self.dn < other.dn
    }

    /// The date `delta` days away, `None` outside the supported years.
    pub fn add_days(&self, delta: i64) -> (r: Option<Date>)
        requires
            self.wf(),
            -0x7000_0000 <= delta <= 0x7000_0000,
        ensures
            match r {
                Some(x) => x.wf() && x@.dn() == self@.dn() + delta,
                None => !(0 <= self@.dn() + delta < day_number_limit()),
            },
    {
        proof {
            dn_in_range(self@);
            lemma_dby_bounds(10000);
        }
        let target = self.dn + delta;
        Date::from_day_number(target)
    }

    /// The date with the given day number, `None` outside the supported
    /// range.
    pub fn from_day_number(dn: i64) -> (r: Option<Date>)
        ensures
            match r {
                Some(x) => x.wf() && x@.dn() == dn as int && 0 <= dn < day_number_limit(),
                None => !(0 <= dn && (dn as int) < day_number_limit()),
            },
    {
        proof {
            lemma_dby_bounds(10000);
        }
        if dn < 0 {
            return None;
        }
        let limit = {
            let mut acc: i64 = 0;
            let mut i: u32 = 1600;
            while i < 10000
                invariant
                    1600 <= i <= 10000,
                    acc as int == spec_days_before_year(i as int),
                    0 <= acc <= 366 * (i - 1600),
                decreases 10000 - i,
            {
                proof {
                    lemma_dby_step(i as int);
                    lemma_year_len(i as int);
                }
                acc = acc + year_len(i) as i64;
                i = i + 1;
            }
            acc
        };
        if dn >= limit {
            return None;
        }
        let mut y: u32 = 1600;
        let mut rem: i64 = dn;
        loop
            invariant
                1600 <= y <= 9999,
                0 <= rem,
                dn as int == spec_days_before_year(y as int) + rem,
                dn < day_number_limit(),
            ensures
                1600 <= y <= 9999,
                0 <= rem,
                dn as int == spec_days_before_year(y as int) + rem,
                rem < spec_year_len(y as int),
            decreases rem,
        {
            let len = year_len(y) as i64;
            if rem < len {
                break ;
            }
            proof {
                lemma_year_len(y as int);
                lemma_dby_step(y as int);
                if y == 9999 {
                    assert(spec_days_before_year(10000) <= dn);
                    assert(false);
                }
            }
            rem = rem - len;
            y = y + 1;
        }
        let mut m: u8 = 1;
        while rem >= days_in_month(y, m) as i64
            invariant
                1600 <= y <= 9999,
                1 <= m <= 12,
                0 <= rem,
                0 <= dn < day_number_limit(),
                rem + spec_days_before_month(y as int, m as int) < spec_year_len(y as int),
                dn as int == spec_days_before_year(y as int) + spec_days_before_month(
                    y as int,
                    m as int,
                ) + rem,
            decreases 12 - m,
        {
            proof {
                if m == 12 {
                    reveal_with_fuel(spec_days_before_month, 14);
                    assert(false);
                }
            }
            rem = rem - days_in_month(y, m) as i64;
            m = m + 1;
        }
        proof {
            lemma_dbm_le(y as int, m as int);
        }
        let d: u8 = (rem + 1) as u8;
        Some(Date { year: y, month: m, day: d, dn })
    }
}

/// A valid date's day number lies in the supported range.
pub proof fn dn_in_range(v: DateV)
    requires
        v.valid(),
    ensures
        0 <= v.dn() < day_number_limit(),
{
    lemma_dby_bounds(v.year);
    lemma_dby_step(v.year);
    lemma_year_len(v.year);
    lemma_dbm_le(v.year, v.month);
    lemma_dby_monotone(v.year + 1, 10000);
    assert(spec_days_before_month(v.year, v.month) >= 0) by {
        lemma_dbm_nonneg(v.year, v.month);
    }
}

proof fn lemma_dbm_nonneg(y: int, m: int)
    ensures
        spec_days_before_month(y, m) >= 0,
    decreases m,
{
    if m > 1 {
        lemma_dbm_nonneg(y, m - 1);
    }
}

} // verus!

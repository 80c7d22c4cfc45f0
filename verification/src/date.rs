//! The calendar model and the date operations.

use vstd::arithmetic::div_mod::{
    lemma_fundamental_div_mod, lemma_fundamental_div_mod_converse_mod,
};
use vstd::prelude::*;

verus! {

/// A proleptic Gregorian calendar date: a plain (year, month, day) triple.
/// Construction performs no validation; see [`date_valid`] for the
/// well-formedness predicate that the counting routine relies on.
#[derive(Debug, Clone, Copy, PartialEq, Eq, Structural)]
pub struct Date {
    pub year: i32,
    pub month: i32,
    pub day: i32,
}

/// The Gregorian leap-year rule: divisible by 4 and not by 100, or
/// divisible by 400.
pub open spec fn is_leap_spec(year: int) -> bool {
    (year % 4 == 0 && year % 100 != 0) || year % 400 == 0
}

/// The length of `month` in `year`: 29 or 28 for February, 30 for April,
/// June, September and November, and 31 for every other value, out-of-range
/// months included.
pub open spec fn days_in_month_spec(year: int, month: int) -> int {
    if month == 2 {
        if is_leap_spec(year) {
            29
        } else {
            28
        }
    } else if month == 4 || month == 6 || month == 9 || month == 11 {
        30
    } else {
        31
    }
}

/// A well-formed calendar date: the month is in range and the day exists in
/// that month of that year.
pub open spec fn date_valid(d: Date) -> bool {
    &&& 1 <= d.month <= 12
    &&& 1 <= d.day <= days_in_month_spec(d.year as int, d.month as int)
}

/// Strict lexicographic order on (year, month, day) triples.
pub open spec fn date_lt(a: Date, b: Date) -> bool {
    ||| a.year < b.year
    ||| (a.year == b.year && a.month < b.month)
    ||| (a.year == b.year && a.month == b.month && a.day < b.day)
}

/// The successor of a date: the next day of the same month when one exists,
/// otherwise the first day of the next month, otherwise January 1 of the
/// next year.
pub open spec fn next_day_spec(d: Date) -> Date {
    if d.day < days_in_month_spec(d.year as int, d.month as int) {
        Date { year: d.year, month: d.month, day: (d.day + 1) as i32 }
    } else if d.month < 12 {
        Date { year: d.year, month: (d.month + 1) as i32, day: 1 }
    } else {
        Date { year: (d.year + 1) as i32, month: 1, day: 1 }
    }
}

/// A positive divisor divides an integer exactly when it divides its
/// negation.
proof fn lemma_mod_neg_zero(m: int, k: int)
    requires
        0 < k,
    ensures
        ((-m) % k == 0) == (m % k == 0),
{
    let q = m / k;
    let r = m % k;
    lemma_fundamental_div_mod(m, k);
    if r == 0 {
        assert(-m == (-q) * k + 0) by (nonlinear_arith)
            requires
                m == k * q + r,
                r == 0,
        ;
        lemma_fundamental_div_mod_converse_mod(-m, k, -q, 0);
    } else {
        assert(-m == (-q - 1) * k + (k - r)) by (nonlinear_arith)
            requires
                m == k * q + r,
        ;
        lemma_fundamental_div_mod_converse_mod(-m, k, -q - 1, k - r);
    }
}

/// Whether `k` divides `y`. Rust's `%` truncates toward zero while the
/// mathematical `%` is Euclidean, so the test runs on the absolute value,
/// where the two agree; divisibility does not depend on the sign.
fn divisible(y: i32, k: i32) -> (r: bool)
    requires
        1 < k,
    ensures
        r == ((y as int) % (k as int) == 0),
{
    let wide: i64 = y as i64;
    let magnitude: i64 = if wide >= 0 {
        wide
    } else {
        -wide
    };
    proof {
        if wide < 0 {
            lemma_mod_neg_zero(y as int, k as int);
        }
    }
    magnitude % (k as i64) == 0
}

impl Date {
    pub fn new(year: i32, month: i32, day: i32) -> (d: Date)
        ensures
            d == (Date { year, month, day }),
    {
        Date { year, month, day }
    }

    pub fn is_leap_year(&self) -> (r: bool)
        ensures
            r == is_leap_spec(self.year as int),
    {
        (divisible(self.year, 4) && !divisible(self.year, 100)) || divisible(self.year, 400)
    }

    pub fn days_in_month(&self) -> (n: i32)
        ensures
            n == days_in_month_spec(self.year as int, self.month as int),
    {
        if self.month == 2 {
            if self.is_leap_year() {
                29
            } else {
                28
            }
        } else if self.month == 4 || self.month == 6 || self.month == 9 || self.month == 11 {
            30
        } else {
            31
        }
    }

    pub fn next_day(&self) -> (d: Date)
        requires
            self.day >= days_in_month_spec(self.year as int, self.month as int) && self.month >= 12
                ==> self.year < i32::MAX,
        ensures
            d == next_day_spec(*self),
    {
        if self.day < self.days_in_month() {
            Date::new(self.year, self.month, self.day + 1)
        } else if self.month < 12 {
            Date::new(self.year, self.month + 1, 1)
        } else {
            Date::new(self.year + 1, 1, 1)
        }
    }

    pub fn is_before(&self, other: &Date) -> (r: bool)
        ensures
            r == date_lt(*self, *other),
    {
        if self.year != other.year {
            self.year < other.year
        } else if self.month != other.month {
            self.month < other.month
        } else {
            self.day < other.day
        }
    }
}

} // verus!

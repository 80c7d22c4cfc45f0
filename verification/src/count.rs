//! A closed-form day count for valid dates, the lemmas that tie it to the
//! day-by-day successor, and the counting routine itself.

use crate::date::{
    date_lt, date_valid, days_in_month_spec, is_leap_spec, next_day_spec, Date,
};
use vstd::arithmetic::div_mod::{
    lemma_fundamental_div_mod, lemma_fundamental_div_mod_converse,
    lemma_fundamental_div_mod_converse_mod,
};
use vstd::prelude::*;

verus! {

/// The number of days in all years strictly before `y`, counted from an
/// arbitrary fixed origin: 365 per year plus one per leap year. Division
/// here is Euclidean, which for these positive divisors is floor division,
/// so the formula is exact for negative years as well.
pub open spec fn days_before_year(y: int) -> int {
    365 * (y - 1) + (y - 1) / 4 - (y - 1) / 100 + (y - 1) / 400
}

/// The number of days in the months of `year` strictly before `month`,
/// for `month` between 1 and 12.
pub open spec fn days_before_month(year: int, month: int) -> int {
    let base: int = if month <= 1 {
        0
    } else if month == 2 {
        31
    } else if month == 3 {
        59
    } else if month == 4 {
        90
    } else if month == 5 {
        120
    } else if month == 6 {
        151
    } else if month == 7 {
        181
    } else if month == 8 {
        212
    } else if month == 9 {
        243
    } else if month == 10 {
        273
    } else if month == 11 {
        304
    } else {
        334
    };
    if month >= 3 && is_leap_spec(year) {
        base + 1
    } else {
        base
    }
}

/// The position of a valid date on the time line, in days from the fixed
/// origin; the day-by-day successor advances it by exactly one.
pub open spec fn day_number(d: Date) -> int {
    days_before_year(d.year as int) + days_before_month(d.year as int, d.month as int) + d.day - 1
}

/// What the counting routine returns: the distance in days when the start
/// lies strictly before the end, and 0 otherwise — never a negative count.
pub open spec fn days_between_spec(start: Date, end: Date) -> int {
    if date_lt(start, end) {
        day_number(end) - day_number(start)
    } else {
        0
    }
}

/// Stepping the dividend down by one lowers the floor quotient exactly at
/// the multiples of the divisor.
proof fn lemma_div_step(y: int, k: int)
    requires
        0 < k,
    ensures
        y / k - (y - 1) / k == if y % k == 0 {
            1int
        } else {
            0int
        },
{
    let q = y / k;
    let r = y % k;
    lemma_fundamental_div_mod(y, k);
    if r == 0 {
        assert(y - 1 == (q - 1) * k + (k - 1)) by (nonlinear_arith)
            requires
                y == k * q + r,
                r == 0,
        ;
        lemma_fundamental_div_mod_converse(y - 1, k, q - 1, k - 1);
    } else {
        assert(y - 1 == q * k + (r - 1)) by (nonlinear_arith)
            requires
                y == k * q + r,
        ;
        lemma_fundamental_div_mod_converse(y - 1, k, q, r - 1);
    }
}

/// An integer divisible by a product is divisible by each factor.
proof fn lemma_divides_factor(y: int, j: int, c: int)
    requires
        0 < j,
        0 < c,
        y % (j * c) == 0,
    ensures
        y % j == 0,
{
    let q = y / (j * c);
    assert(0 < j * c) by (nonlinear_arith)
        requires
            0 < j,
            0 < c,
    ;
    lemma_fundamental_div_mod(y, j * c);
    assert(y == (c * q) * j + 0) by (nonlinear_arith)
        requires
            y == (j * c) * q + y % (j * c),
            y % (j * c) == 0,
    ;
    lemma_fundamental_div_mod_converse_mod(y, j, c * q, 0);
}

/// Crossing from year `y` to year `y + 1` adds 366 days in a leap year and
/// 365 otherwise.
proof fn lemma_days_before_year_step(y: int)
    ensures
        days_before_year(y + 1) == days_before_year(y) + if is_leap_spec(y) {
            366int
        } else {
            365int
        },
{
    lemma_div_step(y, 4);
    lemma_div_step(y, 100);
    lemma_div_step(y, 400);
    if y % 400 == 0 {
        lemma_divides_factor(y, 100, 4);
        lemma_divides_factor(y, 4, 100);
    }
    if y % 100 == 0 {
        lemma_divides_factor(y, 4, 25);
    }
}

/// The year count grows by at least 365 days per year.
proof fn lemma_days_before_year_mono(y1: int, y2: int)
    requires
        y1 <= y2,
    ensures
        days_before_year(y1) + 365 * (y2 - y1) <= days_before_year(y2),
    decreases y2 - y1,
{
    if y1 < y2 {
        lemma_days_before_year_mono(y1, y2 - 1);
        lemma_days_before_year_step(y2 - 1);
    }
}

/// A valid date of year `y` sits between the year boundaries on the time
/// line.
proof fn lemma_day_number_year_range(d: Date)
    requires
        date_valid(d),
    ensures
        days_before_year(d.year as int) <= day_number(d),
        day_number(d) < days_before_year(d.year as int + 1),
{
    lemma_days_before_year_step(d.year as int);
}

/// The successor of a valid date is valid, lies strictly later, and sits
/// exactly one day further along the time line. The year bound only rules
/// out wrapping past the last representable December 31.
pub proof fn lemma_day_number_next(d: Date)
    requires
        date_valid(d),
        d.day >= days_in_month_spec(d.year as int, d.month as int) && d.month >= 12
            ==> d.year < i32::MAX,
    ensures
        date_valid(next_day_spec(d)),
        date_lt(d, next_day_spec(d)),
        day_number(next_day_spec(d)) == day_number(d) + 1,
{
    if !(d.day < days_in_month_spec(d.year as int, d.month as int)) && !(d.month < 12) {
        lemma_days_before_year_step(d.year as int);
    }
}

/// On valid dates the day count is strictly monotone with respect to the
/// lexicographic order.
proof fn lemma_day_number_mono(a: Date, b: Date)
    requires
        date_valid(a),
        date_valid(b),
        date_lt(a, b),
    ensures
        day_number(a) < day_number(b),
{
    if a.year < b.year {
        lemma_day_number_year_range(a);
        lemma_day_number_year_range(b);
        lemma_days_before_year_mono(a.year as int + 1, b.year as int);
    }
}

/// On valid dates the lexicographic order and the day-count order agree.
pub proof fn lemma_date_lt_iff_day_number_lt(a: Date, b: Date)
    requires
        date_valid(a),
        date_valid(b),
    ensures
        date_lt(a, b) <==> day_number(a) < day_number(b),
{
    if date_lt(a, b) {
        lemma_day_number_mono(a, b);
    } else if date_lt(b, a) {
        lemma_day_number_mono(b, a);
    }
}

/// Counts how many single-day steps advance `start_date` until it is no
/// longer before `end_date`: the distance in days when the start is
/// earlier, and 0 when the dates are equal or given in reverse order.
pub fn days_between_dates(start_date: Date, end_date: Date) -> (days: i32)
    requires
        date_valid(start_date),
        date_valid(end_date),
        days_between_spec(start_date, end_date) <= i32::MAX,
    ensures
        days == days_between_spec(start_date, end_date),
{
    let mut days: i32 = 0;
    let mut current_date = start_date;

    proof {
        lemma_date_lt_iff_day_number_lt(start_date, end_date);
    }
    while current_date.is_before(&end_date)
        invariant
            date_valid(current_date),
            date_valid(end_date),
            days == day_number(current_date) - day_number(start_date),
            day_number(start_date) <= day_number(current_date),
            date_lt(start_date, end_date) ==> day_number(current_date) <= day_number(end_date),
            !date_lt(start_date, end_date) ==> current_date == start_date,
            days_between_spec(start_date, end_date) <= i32::MAX,
        decreases day_number(end_date) - day_number(current_date),
    {
        proof {
            lemma_date_lt_iff_day_number_lt(current_date, end_date);
            lemma_day_number_next(current_date);
        }
        current_date = current_date.next_day();
        days += 1;
    }
    proof {
        lemma_date_lt_iff_day_number_lt(current_date, end_date);
    }
    days
}

} // verus!

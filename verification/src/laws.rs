//! General laws of the day-counting routine, stated over the same spec
//! functions that its contract uses.

use crate::count::{
    day_number, days_between_spec, lemma_date_lt_iff_day_number_lt, lemma_day_number_next,
};
use crate::date::{date_lt, date_valid, days_in_month_spec, next_day_spec, Date};
use vstd::prelude::*;

verus! {

/// The count from any date to itself is zero.
pub proof fn lemma_days_between_self(d: Date)
    ensures
        days_between_spec(d, d) == 0,
{
}

/// Reversed-order clamping: whenever `d1` lies strictly before `d2`,
/// counting from `d2` back to `d1` yields zero, never a negative number.
pub proof fn lemma_days_between_reversed(d1: Date, d2: Date)
    requires
        date_lt(d1, d2),
    ensures
        days_between_spec(d2, d1) == 0,
{
}

/// Advancing the end of a span by one day lengthens the count by exactly
/// one, so the count never decreases as the end date moves forward. The
/// year bound only rules out an end date whose successor would not be
/// representable.
pub proof fn lemma_days_between_next_end(s: Date, e: Date)
    requires
        date_valid(s),
        date_valid(e),
        date_lt(s, e),
        e.day >= days_in_month_spec(e.year as int, e.month as int) && e.month >= 12
            ==> e.year < i32::MAX,
    ensures
        days_between_spec(s, next_day_spec(e)) == days_between_spec(s, e) + 1,
{
    lemma_day_number_next(e);
    lemma_date_lt_iff_day_number_lt(s, e);
    lemma_date_lt_iff_day_number_lt(s, next_day_spec(e));
}

} // verus!

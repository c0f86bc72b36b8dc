//! The proleptic Gregorian calendar stated plainly, and what it says of
//! the day-number arithmetic in `timestamp`: `days_from_civil` counts the
//! days of a valid date from 1970-01-01, and `civil_from_days` undoes it.

use vstd::prelude::*;
use crate::timestamp::{civil_from_days, days_from_civil, march_month, march_year};

verus! {

pub open spec fn is_leap(y: int) -> bool {
    (y % 4 == 0 && y % 100 != 0) || y % 400 == 0
}

pub open spec fn year_length(y: int) -> int {
    if is_leap(y) {
        366
    } else {
        365
    }
}

pub open spec fn days_in_month(y: int, m: int) -> int {
    if m == 2 {
        if is_leap(y) {
            29
        } else {
            28
        }
    } else if m == 4 || m == 6 || m == 9 || m == 11 {
        30
    } else {
        31
    }
}

pub open spec fn valid_date(y: int, m: int, d: int) -> bool {
    1 <= m <= 12 && 1 <= d <= days_in_month(y, m)
}

/// Days in the months of year `y` before month `m`.
pub open spec fn days_before_month(y: int, m: int) -> int
    decreases m,
{
    if m <= 1 {
        0
    } else {
        days_before_month(y, m - 1) + days_in_month(y, m - 1)
    }
}

/// Days from 1970-01-01 to January 1st of year `y` (negative before 1970).
pub open spec fn days_before_year(y: int) -> int
    decreases (if y >= 1970 {
        y - 1970
    } else {
        1970 - y
    }),
{
    if y == 1970 {
        0
    } else if y > 1970 {
        days_before_year(y - 1) + year_length(y - 1)
    } else {
        days_before_year(y + 1) - year_length(y)
    }
}

/// The day number of date `y-m-d`, counted from 1970-01-01.
pub open spec fn calendar_days(y: int, m: int, d: int) -> int {
    days_before_year(y) + days_before_month(y, m) + d - 1
}

/// Day number of March 1st of year `y`, in Hinnant's closed form.
spec fn march_first(y: int) -> int {
    365 * y + y / 4 - y / 100 + y / 400 - 719468
}

proof fn lemma_march_first_step(y: int)
    ensures
        march_first(y + 1) == march_first(y) + 365 + (if is_leap(y + 1) {
            1int
        } else {
            0
        }),
{
}

proof fn lemma_days_before_year_step(y: int)
    ensures
        days_before_year(y + 1) == days_before_year(y) + year_length(y),
    decreases (if y >= 1970 {
        y - 1970
    } else {
        1970 - y
    }),
{
    if y >= 1970 {
    } else {
        assert(days_before_year(y) == days_before_year(y + 1) - year_length(y));
    }
}

/// March 1st of `y` is `59 + leap(y)` days into year `y`.
proof fn lemma_march_first(y: int)
    ensures
        march_first(y) == days_before_year(y) + 59 + (if is_leap(y) {
            1int
        } else {
            0
        }),
    decreases (if y >= 1970 {
        y - 1970
    } else {
        1970 - y
    }),
{
    if y == 1970 {
        assert(march_first(1970) == 59);
    } else if y > 1970 {
        lemma_march_first(y - 1);
        lemma_march_first_step(y - 1);
        lemma_days_before_year_step(y - 1);
    } else {
        lemma_march_first(y + 1);
        lemma_march_first_step(y);
        lemma_days_before_year_step(y);
    }
}

/// The era form of `days_from_civil` is the closed form.
proof fn lemma_era_form(y2: int)
    ensures
        ({
            let era = y2 / 400;
            let yoe = y2 - era * 400;
            era * 146097 + yoe * 365 + yoe / 4 - yoe / 100 - 719468 == march_first(y2)
        }),
{
    let era = y2 / 400;
    let yoe = y2 - era * 400;
    assert(0 <= yoe < 400);
    assert(y2 == era * 400 + yoe);
    assert(y2 / 4 == era * 100 + yoe / 4);
    assert(y2 / 100 == era * 4 + yoe / 100);
    assert(y2 / 400 == era);
}

proof fn lemma_month_offsets(y: int, m: int)
    requires
        1 <= m <= 12,
    ensures
        m >= 3 ==> days_before_month(y, m) == 59 + (if is_leap(y) {
            1int
        } else {
            0
        }) + (153 * (m - 3) + 2) / 5,
        m == 1 ==> days_before_month(y, m) == 0,
        m == 2 ==> days_before_month(y, m) == 31,
{
    reveal_with_fuel(days_before_month, 13);
}

/// `days_from_civil` counts the days of a valid date from 1970-01-01.
pub proof fn law_days_from_civil_counts_days(y: int, m: int, d: int)
    requires
        valid_date(y, m, d),
    ensures
        days_from_civil(y, m, d) == calendar_days(y, m, d),
{
    let y2 = march_year(y, m);
    let mp = march_month(m);
    lemma_era_form(y2);
    lemma_march_first(y2);
    lemma_month_offsets(y, m);
    if m <= 2 {
        lemma_days_before_year_step(y - 1);
        assert(mp == m + 9);
        assert((153 * mp + 2) / 5 == if m == 1 {
            306int
        } else {
            337int
        });
    }
}

proof fn lemma_yoe_of(yoe: int, era: int)
    requires
        0 <= yoe <= 399,
    ensures
        (yoe + era * 400) / 400 == era,
        (yoe + era * 400) - ((yoe + era * 400) / 400) * 400 == yoe,
{
}

/// A day number turned into a date and back is the same day number.
pub proof fn law_days_from_civil_undoes_civil_from_days(z: int)
    ensures
        ({
            let (y, m, d) = civil_from_days(z);
            days_from_civil(y, m, d) == z
        }),
{
    let z2 = z + 719468;
    let era = z2 / 146097;
    let doe = z2 - era * 146097;
    assert(0 <= doe < 146097);
    crate::timestamp::lemma_day_of_era_pub(doe);
    let yoe = (doe - doe / 1460 + doe / 36524 - doe / 146096) / 365;
    let doy = doe - (365 * yoe + yoe / 4 - yoe / 100);
    let mp = (5 * doy + 2) / 153;
    lemma_yoe_of(yoe, era);
}

proof fn lemma_leap_shift(a: int, era: int)
    ensures
        is_leap(a + era * 400) == is_leap(a),
{
    assert((a + era * 400) % 4 == a % 4);
    assert((a + era * 400) % 100 == a % 100);
    assert((a + era * 400) % 400 == a % 400);
}

/// Every day number names a valid date.
#[verifier::rlimit(40)]
proof fn lemma_civil_from_days_valid(z: int)
    ensures
        ({
            let (y, m, d) = civil_from_days(z);
            valid_date(y, m, d)
        }),
{
    let z2 = z + 719468;
    let era = z2 / 146097;
    let doe = z2 - era * 146097;
    assert(0 <= doe < 146097);
    crate::timestamp::lemma_day_of_era_pub(doe);
    crate::timestamp::lemma_day_in_month_pub(doe);
    let yoe = (doe - doe / 1460 + doe / 36524 - doe / 146096) / 365;
    lemma_leap_shift(yoe + 1, era);
}

/// Day numbers of New Year grow with the year.
proof fn lemma_days_before_year_monotone(a: int, b: int)
    requires
        a < b,
    ensures
        days_before_year(a) + year_length(a) <= days_before_year(b),
    decreases b - a,
{
    lemma_days_before_year_step(a);
    if a + 1 < b {
        lemma_days_before_year_monotone(a + 1, b);
        lemma_days_before_year_step(a + 1);
    }
}

proof fn lemma_month_table(y: int)
    ensures
        days_before_month(y, 1) == 0,
        days_before_month(y, 2) == 31,
        days_before_month(y, 3) == 59 + (if is_leap(y) { 1int } else { 0 }),
        days_before_month(y, 4) == 90 + (if is_leap(y) { 1int } else { 0 }),
        days_before_month(y, 5) == 120 + (if is_leap(y) { 1int } else { 0 }),
        days_before_month(y, 6) == 151 + (if is_leap(y) { 1int } else { 0 }),
        days_before_month(y, 7) == 181 + (if is_leap(y) { 1int } else { 0 }),
        days_before_month(y, 8) == 212 + (if is_leap(y) { 1int } else { 0 }),
        days_before_month(y, 9) == 243 + (if is_leap(y) { 1int } else { 0 }),
        days_before_month(y, 10) == 273 + (if is_leap(y) { 1int } else { 0 }),
        days_before_month(y, 11) == 304 + (if is_leap(y) { 1int } else { 0 }),
        days_before_month(y, 12) == 334 + (if is_leap(y) { 1int } else { 0 }),
{
    reveal_with_fuel(days_before_month, 13);
}

/// Two valid dates with one day number are one date.
#[verifier::rlimit(40)]
proof fn lemma_calendar_days_injective(y1: int, m1: int, d1: int, y2: int, m2: int, d2: int)
    requires
        valid_date(y1, m1, d1),
        valid_date(y2, m2, d2),
        calendar_days(y1, m1, d1) == calendar_days(y2, m2, d2),
    ensures
        y1 == y2 && m1 == m2 && d1 == d2,
{
    lemma_month_table(y1);
    lemma_month_table(y2);
    if y1 < y2 {
        lemma_days_before_year_monotone(y1, y2);
    } else if y2 < y1 {
        lemma_days_before_year_monotone(y2, y1);
    }
}

/// A valid date turned into a day number and back is the same date.
pub proof fn law_civil_from_days_undoes_days_from_civil(y: int, m: int, d: int)
    requires
        valid_date(y, m, d),
    ensures
        civil_from_days(days_from_civil(y, m, d)) == (y, m, d),
{
    let z = days_from_civil(y, m, d);
    let (y2, m2, d2) = civil_from_days(z);
    lemma_civil_from_days_valid(z);
    law_days_from_civil_undoes_civil_from_days(z);
    law_days_from_civil_counts_days(y, m, d);
    law_days_from_civil_counts_days(y2, m2, d2);
    lemma_calendar_days_injective(y, m, d, y2, m2, d2);
}

/// Day numbers follow the order of valid dates: an earlier date (by year,
/// then month, then day) has a smaller day number.
#[verifier::rlimit(40)]
pub(crate) proof fn lemma_calendar_days_ordered(y1: int, m1: int, d1: int, y2: int, m2: int, d2: int)
    requires
        valid_date(y1, m1, d1),
        valid_date(y2, m2, d2),
        y1 < y2 || (y1 == y2 && (m1 < m2 || (m1 == m2 && d1 < d2))),
    ensures
        calendar_days(y1, m1, d1) < calendar_days(y2, m2, d2),
{
    lemma_month_table(y1);
    lemma_month_table(y2);
    if y1 < y2 {
        lemma_days_before_year_monotone(y1, y2);
    }
}

} // verus!

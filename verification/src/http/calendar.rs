//! The proleptic Gregorian calendar, counted in days from 1970-01-01.
use vstd::arithmetic::div_mod::{lemma_fundamental_div_mod, lemma_fundamental_div_mod_converse};
use vstd::prelude::*;

verus! {

/// Leap years: divisible by 4, except centuries not divisible by 400.
pub open spec fn is_leap_year(y: int) -> bool {
    (y % 4 == 0 && y % 100 != 0) || y % 400 == 0
}

pub open spec fn year_length(y: int) -> int {
    if is_leap_year(y) {
        366
    } else {
        365
    }
}

/// The number of days of month `m` (1..=12) of year `y`.
pub open spec fn days_in_month(y: int, m: int) -> int {
    if m == 2 {
        if is_leap_year(y) {
            29
        } else {
            28
        }
    } else if m == 4 || m == 6 || m == 9 || m == 11 {
        30
    } else {
        31
    }
}

/// A date that exists: a month of 1..=12 and a day within it.
pub open spec fn is_valid_date(y: int, m: int, d: int) -> bool {
    1 <= m <= 12 && 1 <= d <= days_in_month(y, m)
}

/// The days of year `y` before the first of month `m`.
pub open spec fn days_before_month(y: int, m: int) -> int
    decreases m,
{
    if m <= 1 {
        0
    } else {
        days_before_month(y, m - 1) + days_in_month(y, m - 1)
    }
}

/// The number of leap years among the years before `y`, counted from an
/// arbitrary origin (only differences of it matter).
pub open spec fn leap_years_before(y: int) -> int {
    (y - 1) / 4 - (y - 1) / 100 + (y - 1) / 400
}

/// Days from 1970-01-01 to January 1 of year `y` (negative before 1970).
pub open spec fn days_before_year(y: int) -> int {
    365 * (y - 1970) + leap_years_before(y) - leap_years_before(1970)
}

/// The day number of a date: how many days it lies after 1970-01-01.
pub open spec fn days_from_civil(y: int, m: int, d: int) -> int {
    days_before_year(y) + days_before_month(y, m) + d - 1
}

/// `n / k` steps by one exactly where `k` divides `n`.
proof fn lemma_div_step(n: int, k: int)
    requires
        k > 0,
    ensures
        n / k == (n - 1) / k + if n % k == 0 {
            1int
        } else {
            0int
        },
{
    lemma_fundamental_div_mod(n, k);
    let q = n / k;
    let r = n % k;
    assert(n == q * k + r) by (nonlinear_arith)
        requires
            n == k * (n / k) + n % k,
            q == n / k,
            r == n % k,
    ;
    if r == 0 {
        assert(n - 1 == (q - 1) * k + (k - 1)) by (nonlinear_arith)
            requires
                n == q * k + r,
                r == 0,
        ;
        lemma_fundamental_div_mod_converse(n - 1, k, q - 1, k - 1);
    } else {
        lemma_fundamental_div_mod_converse(n - 1, k, q, r - 1);
    }
}

/// Consecutive years begin `year_length` days apart.
pub proof fn lemma_year_step(y: int)
    ensures
        days_before_year(y + 1) == days_before_year(y) + year_length(y),
{
    lemma_div_step(y, 4);
    lemma_div_step(y, 100);
    lemma_div_step(y, 400);
    lemma_fundamental_div_mod(y, 4);
    lemma_fundamental_div_mod(y, 100);
    lemma_fundamental_div_mod(y, 400);
    assert(y % 100 == 0 ==> y % 4 == 0) by {
        if y % 100 == 0 {
            lemma_fundamental_div_mod_converse(y, 4, (y / 100) * 25, 0);
        }
    }
    assert(y % 400 == 0 ==> y % 100 == 0) by {
        if y % 400 == 0 {
            lemma_fundamental_div_mod_converse(y, 100, (y / 400) * 4, 0);
        }
    }
}

/// The months of a year, counted from March, start at `(153 * mp + 2) / 5`
/// days after March 1.
proof fn lemma_march_offsets(y: int, m: int)
    requires
        1 <= m <= 12,
    ensures
        m >= 3 ==> days_before_month(y, m) == days_before_month(y, 3) + (153 * (m - 3) + 2) / 5,
        m <= 2 ==> days_before_month(y, m) + 306 == (153 * (m + 9) + 2) / 5,
        days_before_month(y, 3) == 59 + if is_leap_year(y) {
            1int
        } else {
            0int
        },
{
    reveal_with_fuel(days_before_month, 13);
}

/// Writing `n = 400 * e + r`, the quarter, century and 400-year counts of
/// `n` split accordingly.
proof fn lemma_split_by_400(e: int, r: int)
    requires
        0 <= r < 400,
    ensures
        (400 * e + r) / 4 == 100 * e + r / 4,
        (400 * e + r) / 100 == 4 * e + r / 100,
        (400 * e + r) / 400 == e,
        (400 * e + r) % 4 == r % 4,
        (400 * e + r) % 100 == r % 100,
        (400 * e + r) % 400 == r,
{
    lemma_fundamental_div_mod(r, 4);
    lemma_fundamental_div_mod(r, 100);
    lemma_fundamental_div_mod_converse(400 * e + r, 4, 100 * e + r / 4, r % 4);
    lemma_fundamental_div_mod_converse(400 * e + r, 100, 4 * e + r / 100, r % 100);
    lemma_fundamental_div_mod_converse(400 * e + r, 400, e, r);
}

/// The days from 0000-03-01 to March 1 of year `yy`.
spec fn march_days(yy: int) -> int {
    365 * yy + yy / 4 - yy / 100 + yy / 400
}

proof fn lemma_march_days_split(e: int, r: int)
    requires
        0 <= r < 400,
    ensures
        march_days(400 * e + r) == e * 146097 + 365 * r + r / 4 - r / 100,
{
    lemma_split_by_400(e, r);
}

proof fn lemma_march_days_vs_year(yy: int)
    ensures
        march_days(yy) == 365 * yy + leap_years_before(yy + 1),
        march_days(yy) - 719468 == days_before_year(yy + 1) - 365 + 59,
{
    assert(leap_years_before(1970) == 477);
}

/// Facts about the year of an era that Hinnant's formula picks.
pub(crate) proof fn lemma_year_of_era_bv(doe: u32)
    requires
        doe < 146097,
    ensures
        ({
            let yoe = (doe - doe / 1460 + doe / 36524 - doe / 146096) / 365;
            let doy = doe - (365 * yoe + yoe / 4 - yoe / 100);
            &&& yoe <= 399
            &&& 365 * yoe + yoe / 4 - yoe / 100 <= doe
            &&& doy <= 365
            &&& doy == 365 ==> yoe % 4 == 3 && (yoe % 100 != 99 || yoe == 399)
        }),
{
    assert({
        let yoe = (doe - doe / 1460 + doe / 36524 - doe / 146096) / 365;
        let doy = doe - (365 * yoe + yoe / 4 - yoe / 100);
        &&& yoe <= 399
        &&& 365 * yoe + yoe / 4 - yoe / 100 <= doe
        &&& doy <= 365
        &&& doy == 365 ==> yoe % 4 == 3 && (yoe % 100 != 99 || yoe == 399)
    }) by (bit_vector)
        requires
            doe < 146097,
    ;
}

/// Facts about the month Hinnant's formula picks for a day of a March-based
/// year.
pub(crate) proof fn lemma_month_of_year_bv(doy: u32)
    requires
        doy <= 365,
    ensures
        ({
            let mp = (5 * doy + 2) / 153;
            &&& mp <= 11
            &&& (153 * mp + 2) / 5 <= doy
            &&& doy < (153 * (mp + 1) + 2) / 5
        }),
{
    assert({
        let mp = (5 * doy + 2) / 153;
        &&& mp <= 11
        &&& (153 * mp + 2) / 5 <= doy
        &&& doy < (153 * (mp + 1) + 2) / 5
    }) by (bit_vector)
        requires
            doy <= 365,
    ;
}

/// Hinnant's `civil_from_days` read over the integers.
pub open spec fn civil_from_days_spec(days: int) -> (int, int, int) {
    let z = days + 719468;
    let era = z / 146097;
    let doe = z - era * 146097;
    let yoe = (doe - doe / 1460 + doe / 36524 - doe / 146096) / 365;
    let y = yoe + era * 400;
    let doy = doe - (365 * yoe + yoe / 4 - yoe / 100);
    let mp = (5 * doy + 2) / 153;
    let d = doy - (153 * mp + 2) / 5 + 1;
    let m = if mp < 10 {
        mp + 3
    } else {
        mp - 9
    };
    (
        if m <= 2 {
            y + 1
        } else {
            y
        },
        m,
        d,
    )
}

/// The February that ends the March-based year `yoe` of an era has a 29th
/// exactly when the calendar year after it is a leap year.
proof fn lemma_leap_in_era(era: int, yoe: int)
    requires
        0 <= yoe <= 399,
        yoe % 4 == 3 && (yoe % 100 != 99 || yoe == 399),
    ensures
        is_leap_year(era * 400 + yoe + 1),
{
    lemma_fundamental_div_mod(yoe + 1, 4);
    lemma_fundamental_div_mod(yoe + 1, 100);
    lemma_fundamental_div_mod(yoe, 4);
    lemma_fundamental_div_mod(yoe, 100);
    if yoe < 399 {
        lemma_split_by_400(era, yoe + 1);
    } else {
        lemma_split_by_400(era + 1, 0);
        assert(400 * era + yoe + 1 == 400 * (era + 1) + 0);
    }
}

/// Day `doy` (counted from 0) of the March-based year `yy` is the date that
/// Hinnant's month formula gives, and its day number is counted from the
/// start of that year.
proof fn lemma_march_date(yy: int, doy: int)
    requires
        0 <= doy <= 365,
        doy == 365 ==> is_leap_year(yy + 1),
    ensures
        ({
            let mp = (5 * doy + 2) / 153;
            let d = doy - (153 * mp + 2) / 5 + 1;
            let m = if mp < 10 {
                mp + 3
            } else {
                mp - 9
            };
            let y = if m <= 2 {
                yy + 1
            } else {
                yy
            };
            is_valid_date(y, m, d) && days_from_civil(y, m, d) == march_days(yy) + doy - 719468
        }),
{
    lemma_month_of_year_bv(doy as u32);
    let mp = (5 * doy + 2) / 153;
    let d = doy - (153 * mp + 2) / 5 + 1;
    let m = if mp < 10 {
        mp + 3
    } else {
        mp - 9
    };
    let y = if m <= 2 {
        yy + 1
    } else {
        yy
    };
    lemma_march_days_vs_year(yy);
    lemma_march_offsets(y, m);
    lemma_year_step(yy);
    assert(days_from_civil(y, m, d) == march_days(yy) + doy - 719468);
    assert(is_valid_date(y, m, d));
}

/// The date that `civil_from_days_spec` gives exists, and lies exactly
/// `days` days after 1970-01-01.
pub proof fn lemma_civil_from_days_correct(days: int)
    ensures
        ({
            let (y, m, d) = civil_from_days_spec(days);
            is_valid_date(y, m, d) && days_from_civil(y, m, d) == days
        }),
{
    let z = days + 719468;
    let era = z / 146097;
    lemma_fundamental_div_mod(z, 146097);
    let doe = z - era * 146097;
    assert(0 <= doe < 146097);
    lemma_year_of_era_bv(doe as u32);
    let yoe = (doe - doe / 1460 + doe / 36524 - doe / 146096) / 365;
    let doy = doe - (365 * yoe + yoe / 4 - yoe / 100);
    let yy = era * 400 + yoe;
    if doy == 365 {
        lemma_leap_in_era(era, yoe);
    }
    lemma_march_days_split(era, yoe);
    assert(days == march_days(yy) + doy - 719468);
    lemma_march_date(yy, doy);
}

/// A date's day number lies within its year.
proof fn lemma_date_within_year(y: int, m: int, d: int)
    requires
        is_valid_date(y, m, d),
    ensures
        days_before_year(y) <= days_from_civil(y, m, d) < days_before_year(y) + year_length(y),
        days_before_month(y, m) <= days_from_civil(y, m, d) - days_before_year(y) < days_before_month(
            y,
            m,
        ) + days_in_month(y, m),
{
    reveal_with_fuel(days_before_month, 13);
}

/// Years begin in increasing order.
proof fn lemma_years_increase(y1: int, y2: int)
    requires
        y1 < y2,
    ensures
        days_before_year(y1) + year_length(y1) <= days_before_year(y2),
    decreases y2 - y1,
{
    lemma_year_step(y1);
    if y1 + 1 < y2 {
        lemma_years_increase(y1 + 1, y2);
        lemma_year_step(y1 + 1);
    }
}

/// Within a year, the months begin in increasing order.
proof fn lemma_months_increase(y: int, m1: int, m2: int)
    requires
        1 <= m1 < m2 <= 12,
    ensures
        days_before_month(y, m1) + days_in_month(y, m1) <= days_before_month(y, m2),
    decreases m2 - m1,
{
    if m1 + 1 < m2 {
        lemma_months_increase(y, m1 + 1, m2);
    }
}

/// Two dates that exist and have the same day number are the same date:
/// each day number names one date at most.
pub proof fn lemma_days_from_civil_injective(y1: int, m1: int, d1: int, y2: int, m2: int, d2: int)
    requires
        is_valid_date(y1, m1, d1),
        is_valid_date(y2, m2, d2),
        days_from_civil(y1, m1, d1) == days_from_civil(y2, m2, d2),
    ensures
        y1 == y2 && m1 == m2 && d1 == d2,
{
    lemma_date_within_year(y1, m1, d1);
    lemma_date_within_year(y2, m2, d2);
    if y1 < y2 {
        lemma_years_increase(y1, y2);
    } else if y2 < y1 {
        lemma_years_increase(y2, y1);
    }
    assert(y1 == y2);
    if m1 < m2 {
        lemma_months_increase(y1, m1, m2);
    } else if m2 < m1 {
        lemma_months_increase(y1, m2, m1);
    }
}

/// `civil_from_days_spec(days)` is the one date that lies `days` days after
/// 1970-01-01.
pub proof fn lemma_civil_from_days_unique(days: int, y: int, m: int, d: int)
    requires
        is_valid_date(y, m, d),
        days_from_civil(y, m, d) == days,
    ensures
        civil_from_days_spec(days) == (y, m, d),
{
    lemma_civil_from_days_correct(days);
    let (cy, cm, cd) = civil_from_days_spec(days);
    lemma_days_from_civil_injective(cy, cm, cd, y, m, d);
}

/// The date that lies `days` days after 1970-01-01.
pub open spec fn date_of_day(days: int) -> (int, int, int) {
    choose|date: (int, int, int)|
        is_valid_date(date.0, date.1, date.2) && days_from_civil(date.0, date.1, date.2) == days
}

/// Hinnant's computation finds exactly that date.
pub proof fn lemma_date_of_day(days: int)
    ensures
        date_of_day(days) == civil_from_days_spec(days),
        is_valid_date(date_of_day(days).0, date_of_day(days).1, date_of_day(days).2),
        days_from_civil(date_of_day(days).0, date_of_day(days).1, date_of_day(days).2) == days,
{
    lemma_civil_from_days_correct(days);
    let c = civil_from_days_spec(days);
    assert(is_valid_date(c.0, c.1, c.2) && days_from_civil(c.0, c.1, c.2) == days);
    let date = date_of_day(days);
    lemma_civil_from_days_unique(days, date.0, date.1, date.2);
}

/// Dates keep the order of their day numbers: a later day number belongs
/// to a later year, or a later month of the same year, or a later day of
/// the same month.
pub proof fn lemma_dates_ordered(y1: int, m1: int, d1: int, y2: int, m2: int, d2: int)
    requires
        is_valid_date(y1, m1, d1),
        is_valid_date(y2, m2, d2),
        days_from_civil(y1, m1, d1) < days_from_civil(y2, m2, d2),
    ensures
        y1 < y2 || (y1 == y2 && m1 < m2) || (y1 == y2 && m1 == m2 && d1 < d2),
{
    lemma_date_within_year(y1, m1, d1);
    lemma_date_within_year(y2, m2, d2);
    if y2 < y1 {
        lemma_years_increase(y2, y1);
    }
    if y1 == y2 && m2 < m1 {
        lemma_months_increase(y1, m2, m1);
    }
}

/// The days from 0000-01-01 to 9999-12-31 fall in years with four
/// digits.
pub proof fn lemma_four_digit_year(days: int)
    requires
        -719528 <= days <= 2932896,
    ensures
        0 <= date_of_day(days).0 <= 9999,
{
    lemma_date_of_day(days);
    let (y, m, d) = date_of_day(days);
    lemma_date_within_year(y, m, d);
    assert(days_before_year(0) == -719528);
    assert(days_before_year(10000) == 2932897);
    if y < 0 {
        lemma_years_increase(y, 0);
    }
    if y > 9999 {
        lemma_years_increase(9999, y);
        lemma_year_step(9999);
    }
}

} // verus!

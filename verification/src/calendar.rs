use vstd::prelude::*;

verus! {

/// A leap year of the proleptic Gregorian calendar.
pub open spec fn is_leap_year(y: int) -> bool {
    y % 4 == 0 && (y % 100 != 0 || y % 400 == 0)
}

/// The number of days of month `m` (1 to 12) of year `y`.
pub open spec fn days_in_month(y: int, m: int) -> int {
    if m == 2 {
        if is_leap_year(y) { 29 } else { 28 }
    } else if m == 4 || m == 6 || m == 9 || m == 11 {
        30
    } else {
        31
    }
}

/// The number of days in the months of year `y` before month `m`.
pub open spec fn days_before_month(y: int, m: int) -> int
    decreases m,
{
    if m <= 1 {
        0
    } else {
        days_before_month(y, m - 1) + days_in_month(y, m - 1)
    }
}

/// `a / b` rounded up, for `b > 0`.
pub open spec fn ceil_div(a: int, b: int) -> int {
    -((-a) / b)
}

/// The number of leap years in `[0, y)`, negated when `y < 0` (then it
/// counts the leap years in `[y, 0)`).
pub open spec fn leap_years_before(y: int) -> int {
    ceil_div(y, 4) - ceil_div(y, 100) + ceil_div(y, 400)
}

/// The day number of 1 January of year `y`, counted from 1 January of year 0.
pub open spec fn days_before_year(y: int) -> int {
    365 * y + leap_years_before(y)
}

/// A calendar date: a month from 1 to 12 and a day within that month.
pub open spec fn is_valid_date(y: int, m: int, d: int) -> bool {
    1 <= m <= 12 && 1 <= d <= days_in_month(y, m)
}

/// The number of days from 1970-01-01 to `y-m-d`.
pub open spec fn days_from_epoch(y: int, m: int, d: int) -> int {
    days_before_year(y) - days_before_year(1970) + days_before_month(y, m) + d - 1
}

/// The days before each month, written out.
pub proof fn lemma_days_before_month(y: int)
    ensures
        days_before_month(y, 1) == 0,
        days_before_month(y, 2) == 31,
        days_before_month(y, 3) == 59 + (if is_leap_year(y) { 1int } else { 0 }),
        days_before_month(y, 4) == 90 + (if is_leap_year(y) { 1int } else { 0 }),
        days_before_month(y, 5) == 120 + (if is_leap_year(y) { 1int } else { 0 }),
        days_before_month(y, 6) == 151 + (if is_leap_year(y) { 1int } else { 0 }),
        days_before_month(y, 7) == 181 + (if is_leap_year(y) { 1int } else { 0 }),
        days_before_month(y, 8) == 212 + (if is_leap_year(y) { 1int } else { 0 }),
        days_before_month(y, 9) == 243 + (if is_leap_year(y) { 1int } else { 0 }),
        days_before_month(y, 10) == 273 + (if is_leap_year(y) { 1int } else { 0 }),
        days_before_month(y, 11) == 304 + (if is_leap_year(y) { 1int } else { 0 }),
        days_before_month(y, 12) == 334 + (if is_leap_year(y) { 1int } else { 0 }),
        days_before_month(y, 13) == 365 + (if is_leap_year(y) { 1int } else { 0 }),
{
    reveal_with_fuel(days_before_month, 13);
}

/// Rounding up the quotient grows by one exactly past a multiple.
pub proof fn lemma_ceil_div_step(a: int, b: int)
    requires
        b == 4 || b == 100 || b == 400,
    ensures
        ceil_div(a + 1, b) == ceil_div(a, b) + (if a % b == 0 { 1int } else { 0 }),
{
    if b == 4 {
        assert(ceil_div(a + 1, 4) == ceil_div(a, 4) + (if a % 4 == 0 { 1int } else { 0 }));
    } else if b == 100 {
        assert(ceil_div(a + 1, 100) == ceil_div(a, 100) + (if a % 100 == 0 { 1int } else { 0 }));
    } else {
        assert(ceil_div(a + 1, 400) == ceil_div(a, 400) + (if a % 400 == 0 { 1int } else { 0 }));
    }
}

/// The length of a year.
pub proof fn lemma_year_length(y: int)
    ensures
        days_before_year(y + 1) == days_before_year(y) + 365 + (if is_leap_year(y) { 1int } else { 0 }),
{
    lemma_ceil_div_step(y, 4);
    lemma_ceil_div_step(y, 100);
    lemma_ceil_div_step(y, 400);
    assert(y % 100 == 0 ==> y % 4 == 0);
    assert(y % 400 == 0 ==> y % 100 == 0);
}

/// Hinnant's year-of-era step: within a 400-year era counted from 1 March,
/// `yoe` is the year whose March-based span holds day `doe`.
pub proof fn lemma_year_of_era(doe: int)
    requires
        0 <= doe <= 146096,
    ensures
        ({
            let yoe = (doe - doe / 1460 + doe / 36524 - doe / 146096) / 365;
            let start = 365 * yoe + yoe / 4 - yoe / 100;
            let len = 365 + (if (yoe + 1) % 4 == 0 && ((yoe + 1) % 100 != 0 || yoe == 399) { 1int } else { 0 });
            &&& 0 <= yoe <= 399
            &&& start <= doe < start + len
        }),
{
}


/// Leap years repeat every 400 years.
pub proof fn lemma_leap_in_era(era: int, t: int)
    ensures
        is_leap_year(era * 400 + t) == is_leap_year(t),
{
    assert((era * 400 + t) % 4 == t % 4);
    assert((era * 400 + t) % 100 == t % 100);
    assert((era * 400 + t) % 400 == t % 400);
}

/// A 400-year era holds 146097 days.
pub proof fn lemma_days_before_era_year(era: int, yoe: int)
    requires
        0 <= yoe <= 399,
    ensures
        days_before_year(era * 400 + yoe) == era * 146097 + 365 * yoe + ceil_div(yoe, 4)
            - ceil_div(yoe, 100) + ceil_div(yoe, 400),
{
    assert(ceil_div(era * 400 + yoe, 4) == era * 100 + ceil_div(yoe, 4));
    assert(ceil_div(era * 400 + yoe, 100) == era * 4 + ceil_div(yoe, 100));
    assert(ceil_div(era * 400 + yoe, 400) == era + ceil_div(yoe, 400));
}

/// Counting leap days from 1 January against counting them from 1 March.
pub proof fn lemma_leap_days_shift(yoe: int)
    requires
        0 <= yoe <= 399,
    ensures
        ceil_div(yoe, 4) - ceil_div(yoe, 100) + ceil_div(yoe, 400) + (if is_leap_year(yoe) {
            1int
        } else {
            0
        }) == yoe / 4 - yoe / 100 + 1,
{
}

/// Day `doy` of a year counted from 1 March falls in March-based month `mp`,
/// which starts on day `(153 * mp + 2) / 5`.
pub proof fn lemma_march_month(doy: int)
    requires
        0 <= doy <= 365,
    ensures
        ({
            let mp = (5 * doy + 2) / 153;
            &&& 0 <= mp <= 11
            &&& (153 * mp + 2) / 5 <= doy
            &&& mp < 11 ==> doy < (153 * (mp + 1) + 2) / 5
        }),
{
}

/// The days before month `m` of a year, from the start of its March.
pub proof fn lemma_days_before_month_from_march(y: int, mp: int)
    requires
        0 <= mp <= 11,
    ensures
        ({
            let m = if mp < 10 { mp + 3 } else { mp - 9 };
            let leap = if is_leap_year(y) { 1int } else { 0 };
            &&& mp < 10 ==> days_before_month(y, m) == 59 + leap + (153 * mp + 2) / 5
            &&& mp >= 10 ==> days_before_month(y, m) == (153 * mp + 2) / 5 - 306
            &&& mp < 11 ==> days_in_month(y, m) == (153 * (mp + 1) + 2) / 5 - (153 * mp + 2) / 5
            &&& mp == 11 ==> days_in_month(y, m) == 28 + leap
        }),
{
    lemma_days_before_month(y);
}

/// Hinnant's `civil_from_days`, step by step, for day `doe` of 400-year era
/// `era` (eras and days counted from 0000-03-01): the date it computes is a
/// valid date, and it is that day.
pub proof fn lemma_civil_from_era_day(era: int, doe: int)
    requires
        0 <= doe <= 146096,
    ensures
        ({
            let yoe = (doe - doe / 1460 + doe / 36524 - doe / 146096) / 365;
            let doy = doe - (365 * yoe + yoe / 4 - yoe / 100);
            let mp = (5 * doy + 2) / 153;
            let d = doy - (153 * mp + 2) / 5 + 1;
            let m = if mp < 10 { mp + 3 } else { mp - 9 };
            let y = yoe + era * 400 + (if m <= 2 { 1int } else { 0 });
            &&& 0 <= yoe <= 399
            &&& 0 <= doy <= 365
            &&& 0 <= mp <= 11
            &&& is_valid_date(y, m, d)
            &&& days_from_epoch(y, m, d) == era * 146097 + doe - 719468
        }),
{
    lemma_year_of_era(doe);
    let yoe = (doe - doe / 1460 + doe / 36524 - doe / 146096) / 365;
    let doy = doe - (365 * yoe + yoe / 4 - yoe / 100);
    let mp = (5 * doy + 2) / 153;
    let d = doy - (153 * mp + 2) / 5 + 1;
    let m = if mp < 10 { mp + 3 } else { mp - 9 };
    let y = yoe + era * 400 + (if m <= 2 { 1int } else { 0 });
    lemma_march_month(doy);
    lemma_leap_in_era(era, yoe);
    lemma_leap_in_era(era, yoe + 1);
    assert(is_leap_year(yoe + 1) == ((yoe + 1) % 4 == 0 && ((yoe + 1) % 100 != 0 || yoe == 399)));
    lemma_days_before_month_from_march(y, mp);
    assert(is_valid_date(y, m, d));
    lemma_days_before_era_year(era, yoe);
    lemma_year_length(era * 400 + yoe);
    lemma_leap_days_shift(yoe);
    assert(days_before_year(1970) == 719528);
    assert(days_from_epoch(y, m, d) == era * 146097 + doe - 719468);
}


/// Later years start later.
pub proof fn lemma_days_before_year_monotone(a: int, b: int)
    requires
        a <= b,
    ensures
        days_before_year(a) <= days_before_year(b),
        a < b ==> days_before_year(a + 1) <= days_before_year(b),
    decreases b - a,
{
    if a < b {
        lemma_year_length(a);
        lemma_days_before_year_monotone(a + 1, b);
    }
}

/// Within a year, a valid date's day of the year lies in its month's span.
proof fn lemma_day_of_year_bounds(y: int, m: int, d: int)
    requires
        is_valid_date(y, m, d),
    ensures
        days_before_month(y, m) + d - 1 < days_before_month(y, m + 1),
        days_before_month(y, m + 1) <= days_before_month(y, 13),
        0 <= days_before_month(y, m),
{
    lemma_days_before_month(y);
}

/// Different valid dates are different days.
pub proof fn lemma_days_from_epoch_injective(y1: int, m1: int, d1: int, y2: int, m2: int, d2: int)
    requires
        is_valid_date(y1, m1, d1),
        is_valid_date(y2, m2, d2),
        days_from_epoch(y1, m1, d1) == days_from_epoch(y2, m2, d2),
    ensures
        y1 == y2 && m1 == m2 && d1 == d2,
{
    lemma_day_of_year_bounds(y1, m1, d1);
    lemma_day_of_year_bounds(y2, m2, d2);
    lemma_days_before_month(y1);
    lemma_days_before_month(y2);
    lemma_year_length(y1);
    lemma_year_length(y2);
    if y1 < y2 {
        lemma_days_before_year_monotone(y1, y2);
    } else if y2 < y1 {
        lemma_days_before_year_monotone(y2, y1);
    }
    assert(y1 == y2);
    if m1 < m2 {
        assert(days_before_month(y1, m1 + 1) <= days_before_month(y1, m2));
    } else if m2 < m1 {
        assert(days_before_month(y1, m2 + 1) <= days_before_month(y1, m1));
    }
}

/// The calendar date of the day `days` days after 1970-01-01.
pub open spec fn civil_date(days: int) -> (int, int, int) {
    choose|ymd: (int, int, int)|
        is_valid_date(ymd.0, ymd.1, ymd.2) && days_from_epoch(ymd.0, ymd.1, ymd.2) == days
}

/// Every day has exactly one calendar date.
pub proof fn lemma_civil_date(days: int)
    ensures
        is_valid_date(civil_date(days).0, civil_date(days).1, civil_date(days).2),
        days_from_epoch(civil_date(days).0, civil_date(days).1, civil_date(days).2) == days,
        forall|y: int, m: int, d: int|
            is_valid_date(y, m, d) && days_from_epoch(y, m, d) == days ==> (y, m, d)
                == civil_date(days),
{
    let shifted = days + 719468;
    let era = shifted / 146097;
    let doe = shifted % 146097;
    lemma_civil_from_era_day(era, doe);
    let yoe = (doe - doe / 1460 + doe / 36524 - doe / 146096) / 365;
    let doy = doe - (365 * yoe + yoe / 4 - yoe / 100);
    let mp = (5 * doy + 2) / 153;
    let d = doy - (153 * mp + 2) / 5 + 1;
    let m = if mp < 10 { mp + 3 } else { mp - 9 };
    let y = yoe + era * 400 + (if m <= 2 { 1int } else { 0 });
    let w = (y, m, d);
    assert(is_valid_date(w.0, w.1, w.2) && days_from_epoch(w.0, w.1, w.2) == days);
    assert(exists|ymd: (int, int, int)|
        is_valid_date(ymd.0, ymd.1, ymd.2) && days_from_epoch(ymd.0, ymd.1, ymd.2) == days);
    let c = civil_date(days);
    assert forall|y2: int, m2: int, d2: int|
        is_valid_date(y2, m2, d2) && days_from_epoch(y2, m2, d2) == days implies (y2, m2, d2) == c by {
        lemma_days_from_epoch_injective(y2, m2, d2, c.0, c.1, c.2);
    }
}

} // verus!

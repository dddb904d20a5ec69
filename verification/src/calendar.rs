//! The proleptic Gregorian calendar, counted in days from 1970-01-01.
//!
//! The calendar is stated directly: which years are leap years, how long each
//! month is, and the number of the day on which a date falls. Finding the date
//! of a given day number is then proved against that statement.

use vstd::arithmetic::div_mod::{
    lemma_fundamental_div_mod_converse_div, lemma_fundamental_div_mod_converse_mod,
};
use vstd::prelude::*;

verus! {

/// Every fourth year is a leap year, except the centuries not divisible by 400.
pub open spec fn is_leap_year(y: int) -> bool {
    y % 4 == 0 && (y % 100 != 0 || y % 400 == 0)
}

/// The number of days of year `y`.
pub open spec fn year_len(y: int) -> int {
    if is_leap_year(y) {
        366
    } else {
        365
    }
}

/// The number of days of month `m` of year `y`.
pub open spec fn days_in_month(y: int, m: int) -> int {
    if m == 2 {
        if is_leap_year(y) {
            29
        } else {
            28
        }
    } else if m == 4 || m == 6 || m == 9 || m == 11 {
        30
    } else {
        31
    }
}

/// The number of leap years among the years before `y`, up to a constant.
pub open spec fn leap_years_before(y: int) -> int {
    (y - 1) / 4 - (y - 1) / 100 + (y - 1) / 400
}

/// The number of the first day of year `y`: zero for 1970, negative before.
pub open spec fn days_before_year(y: int) -> int {
    365 * (y - 1970) + leap_years_before(y) - leap_years_before(1970)
}

/// The number of days of year `y` that lie before its month `m`.
pub open spec fn days_before_month(y: int, m: int) -> int
    decreases m,
{
    if m <= 1 {
        0
    } else {
        days_before_month(y, m - 1) + days_in_month(y, m - 1)
    }
}

/// A date of the calendar: a year, a month and a day of the month.
pub struct Date {
    pub year: int,
    pub month: int,
    pub day: int,
}

impl Date {
    /// The month is one of the twelve and the day one of that month's.
    pub open spec fn is_valid(self) -> bool {
        1 <= self.month <= 12 && 1 <= self.day <= days_in_month(self.year, self.month)
    }

    /// The number of days from 1970-01-01 to this date.
    pub open spec fn day_number(self) -> int {
        days_before_year(self.year) + days_before_month(self.year, self.month) + (self.day - 1)
    }
}

/// The date that falls on day number `n`.
pub open spec fn date_of_day(n: int) -> Date {
    choose|d: Date| d.is_valid() && d.day_number() == n
}

/// Counting the multiples of `4` up to `y`, one more is found than up to
/// `y - 1` where `y` is such a multiple; so for `100` and `400`.
#[verifier::spinoff_prover]
#[verifier::rlimit(50)]
proof fn lemma_multiples_step(y: int)
    ensures
        y / 4 - (y - 1) / 4 == if y % 4 == 0 { 1int } else { 0 },
        y / 100 - (y - 1) / 100 == if y % 100 == 0 { 1int } else { 0 },
        y / 400 - (y - 1) / 400 == if y % 400 == 0 { 1int } else { 0 },
{
}

/// A multiple of 400 is one of 100, and a multiple of 100 is one of 4.
#[verifier::spinoff_prover]
#[verifier::rlimit(50)]
proof fn lemma_century_multiples(y: int)
    ensures
        y % 400 == 0 ==> y % 100 == 0,
        y % 100 == 0 ==> y % 4 == 0,
{
    if y % 400 == 0 {
        assert(y == 100 * (4 * (y / 400)));
    }
    if y % 100 == 0 {
        assert(y == 4 * (25 * (y / 100)));
    }
}

/// Day numbers start at 1970-01-01 and each year adds its own length.
#[verifier::spinoff_prover]
#[verifier::rlimit(50)]
pub proof fn lemma_days_before_year_step(y: int)
    ensures
        days_before_year(1970) == 0,
        days_before_year(y + 1) == days_before_year(y) + year_len(y),
{
    lemma_multiples_step(y);
    lemma_century_multiples(y);
}

/// The first days of the years are in the order of the years.
pub proof fn lemma_days_before_year_increases(a: int, b: int)
    requires
        a <= b,
    ensures
        days_before_year(a) + 365 * (b - a) <= days_before_year(b),
    decreases b - a,
{
    if a < b {
        lemma_days_before_year_increases(a, b - 1);
        lemma_days_before_year_step(b - 1);
    }
}

/// The days before each month, written out.
#[verifier::spinoff_prover]
#[verifier::rlimit(50)]
pub proof fn lemma_days_before_month(y: int, m: int)
    requires
        1 <= m <= 13,
    ensures
        days_before_month(y, m) == {
            let leap: int = if is_leap_year(y) {
                1
            } else {
                0
            };
            if m == 1 {
                0
            } else if m == 2 {
                31
            } else if m == 3 {
                59 + leap
            } else if m == 4 {
                90 + leap
            } else if m == 5 {
                120 + leap
            } else if m == 6 {
                151 + leap
            } else if m == 7 {
                181 + leap
            } else if m == 8 {
                212 + leap
            } else if m == 9 {
                243 + leap
            } else if m == 10 {
                273 + leap
            } else if m == 11 {
                304 + leap
            } else if m == 12 {
                334 + leap
            } else {
                365 + leap
            }
        },
{
    reveal_with_fuel(days_before_month, 14);
}

/// The months of a year come one after the other.
pub proof fn lemma_days_before_month_increases(y: int, a: int, b: int)
    requires
        1 <= a <= b <= 13,
    ensures
        days_before_month(y, a) <= days_before_month(y, b),
        a < b ==> days_before_month(y, a) + days_in_month(y, a) <= days_before_month(y, b),
{
    lemma_days_before_month(y, a);
    lemma_days_before_month(y, b);
}

/// A later date has a greater day number.
pub proof fn lemma_day_number_increases(a: Date, b: Date)
    requires
        a.is_valid(),
        b.is_valid(),
        a.year < b.year || (a.year == b.year && (a.month < b.month || (a.month == b.month && a.day
            < b.day))),
    ensures
        a.day_number() < b.day_number(),
{
    lemma_days_before_month(a.year, a.month);
    lemma_days_before_month(a.year, 13);
    lemma_days_before_month(b.year, b.month);
    if a.year < b.year {
        lemma_days_before_year_step(a.year);
        lemma_days_before_year_increases(a.year + 1, b.year);
    } else if a.month < b.month {
        lemma_days_before_month_increases(a.year, a.month, b.month);
    }
}

/// Each day number belongs to one date only.
pub proof fn lemma_date_of_day(n: int, d: Date)
    requires
        d.is_valid(),
        d.day_number() == n,
    ensures
        date_of_day(n) == d,
{
    let c = date_of_day(n);
    assert(c.is_valid() && c.day_number() == n);
    if c != d {
        if c.year < d.year || (c.year == d.year && (c.month < d.month || (c.month == d.month
            && c.day < d.day))) {
            lemma_day_number_increases(c, d);
        } else {
            lemma_day_number_increases(d, c);
        }
    }
}

/// A date as the library hands it out.
#[derive(Clone, Copy, Debug, PartialEq, Eq)]
pub struct CivilDate {
    pub year: i32,
    pub month: u8,
    pub day: u8,
}

impl View for CivilDate {
    type V = Date;

    open spec fn view(&self) -> Date {
        Date { year: self.year as int, month: self.month as int, day: self.day as int }
    }
}

/// The number, counted from 0000-03-01, of the first of March of year `y`.
spec fn march_first(y: int) -> int {
    365 * y + y / 4 - y / 100 + y / 400
}

/// The first of March lies 59 or 60 days into its year, and 306 days before
/// the next year begins.
#[verifier::spinoff_prover]
#[verifier::rlimit(50)]
proof fn lemma_march_first(y: int)
    ensures
        days_before_year(y) + days_before_month(y, 3) == march_first(y) - 719468,
        days_before_year(y + 1) == march_first(y) - 719468 + 306,
{
    lemma_days_before_month(y, 3);
    lemma_multiples_step(y);
    lemma_century_multiples(y);
    assert(leap_years_before(1970) == 477);
    assert(leap_years_before(y + 1) == y / 4 - y / 100 + y / 400);
    let leap: int = if is_leap_year(y) {
        1
    } else {
        0
    };
    assert(leap_years_before(y) + leap == leap_years_before(y + 1));
}

/// Within a 400-year era that starts on a first of March, the day `doe` lies
/// in the year `yoe` of the era, on that year's day `doy`.
#[verifier::spinoff_prover]
#[verifier::rlimit(50)]
proof fn lemma_year_of_era(doe: int)
    requires
        0 <= doe <= 146096,
    ensures
        ({
            let yoe = (doe - doe / 1460 + doe / 36524 - doe / 146096) / 365;
            let doy = doe - (365 * yoe + yoe / 4 - yoe / 100);
            &&& 0 <= yoe <= 399
            &&& 0 <= doy <= 365
            &&& doy == 365 ==> is_leap_year(yoe + 1)
        }),
{
}

/// A date whose day number fits in 32 bits has a year that does so too.
#[verifier::spinoff_prover]
#[verifier::rlimit(50)]
proof fn lemma_year_bounds(date: Date)
    requires
        date.is_valid(),
        -0x8000_0000 <= date.day_number() <= 0x7fff_ffff,
    ensures
        -6_000_000 < date.year < 6_000_000,
{
    lemma_days_before_month(date.year, date.month);
    if date.year >= 1970 {
        lemma_days_before_year_increases(1970, date.year);
    } else {
        lemma_days_before_year_increases(date.year, 1970);
        assert(days_before_year(date.year) <= -365 * (1970 - date.year));
        assert(date.day_number() <= days_before_year(date.year) + 366);
    }
}

/// The day `doy` of a year that starts on a first of March lies in the month
/// `mp` after March, on the day `d` of that month.
#[verifier::spinoff_prover]
#[verifier::rlimit(50)]
proof fn lemma_month_of_year(doy: int)
    requires
        0 <= doy <= 365,
    ensures
        ({
            let mp = (5 * doy + 2) / 153;
            let d = doy - (153 * mp + 2) / 5 + 1;
            &&& 0 <= mp <= 11
            &&& 1 <= d <= 31
            &&& (mp == 1 || mp == 3 || mp == 6 || mp == 8) ==> d <= 30
            &&& mp == 11 ==> d == doy - 336
            &&& (153 * mp + 2) / 5 == if mp == 0 {
                0int
            } else if mp == 1 {
                31
            } else if mp == 2 {
                61
            } else if mp == 3 {
                92
            } else if mp == 4 {
                122
            } else if mp == 5 {
                153
            } else if mp == 6 {
                184
            } else if mp == 7 {
                214
            } else if mp == 8 {
                245
            } else if mp == 9 {
                275
            } else if mp == 10 {
                306
            } else {
                337
            }
        }),
{
}

/// The date that the day `doy` of the year beginning on the first of March
/// of year `march_year` falls on.
spec fn date_in_march_year(march_year: int, doy: int) -> Date {
    let mp = (5 * doy + 2) / 153;
    let month = if mp < 10 {
        mp + 3
    } else {
        mp - 9
    };
    Date {
        year: if month <= 2 {
            march_year + 1
        } else {
            march_year
        },
        month,
        day: doy - (153 * mp + 2) / 5 + 1,
    }
}

/// Counting on from the first of March arrives at a date of the calendar,
/// `doy` days after that first of March.
#[verifier::spinoff_prover]
#[verifier::rlimit(50)]
proof fn lemma_date_in_march_year(march_year: int, doy: int)
    requires
        0 <= doy <= 365,
        doy == 365 ==> is_leap_year(march_year + 1),
    ensures
        date_in_march_year(march_year, doy).is_valid(),
        date_in_march_year(march_year, doy).day_number() == march_first(march_year) - 719468
            + doy,
{
    let date = date_in_march_year(march_year, doy);
    lemma_month_of_year(doy);
    lemma_march_first(march_year);
    lemma_days_before_month(date.year, date.month);
    lemma_days_before_month(march_year, 3);
}

/// A year of an era is a leap year where the year of that number is, and the
/// era's first of March lies 146097 days after that of the era before.
#[verifier::spinoff_prover]
#[verifier::rlimit(50)]
proof fn lemma_year_in_era(era: int, yoe: int)
    requires
        0 <= yoe <= 399,
    ensures
        is_leap_year(yoe + era * 400 + 1) == is_leap_year(yoe + 1),
        march_first(yoe + era * 400) == era * 146097 + 365 * yoe + yoe / 4 - yoe / 100,
{
    let y = yoe + era * 400;
    lemma_fundamental_div_mod_converse_div(y, 4, era * 100 + yoe / 4, yoe % 4);
    lemma_fundamental_div_mod_converse_div(y, 100, era * 4 + yoe / 100, yoe % 100);
    lemma_fundamental_div_mod_converse_div(y, 400, era, yoe);
    lemma_fundamental_div_mod_converse_mod(y + 1, 4, era * 100 + (yoe + 1) / 4, (yoe + 1) % 4);
    lemma_fundamental_div_mod_converse_mod(
        y + 1,
        100,
        era * 4 + (yoe + 1) / 100,
        (yoe + 1) % 100,
    );
    lemma_fundamental_div_mod_converse_mod(y + 1, 400, era + (yoe + 1) / 400, (yoe + 1) % 400);
}

/// The steps that lead from a day number to its date arrive at a date of the
/// calendar, and at the one with that day number.
#[verifier::spinoff_prover]
#[verifier::rlimit(50)]
proof fn lemma_civil_from_days(days: int, era: int, doe: int) -> (date: Date)
    requires
        days + 719468 == era * 146097 + doe,
        0 <= doe <= 146096,
    ensures
        ({
            let yoe = (doe - doe / 1460 + doe / 36524 - doe / 146096) / 365;
            let doy = doe - (365 * yoe + yoe / 4 - yoe / 100);
            &&& 0 <= yoe <= 399
            &&& 0 <= doy <= 365
            &&& date == date_in_march_year(yoe + era * 400, doy)
        }),
        date.is_valid(),
        date.day_number() == days,
{
    let yoe = (doe - doe / 1460 + doe / 36524 - doe / 146096) / 365;
    let doy = doe - (365 * yoe + yoe / 4 - yoe / 100);
    lemma_year_of_era(doe);
    lemma_year_in_era(era, yoe);
    lemma_date_in_march_year(yoe + era * 400, doy);
    date_in_march_year(yoe + era * 400, doy)
}

/// Every day has its date: a date of the calendar with that day number.
pub proof fn lemma_every_day_has_a_date(n: int)
    ensures
        date_of_day(n).is_valid(),
        date_of_day(n).day_number() == n,
{
    let date = lemma_civil_from_days(n, (n + 719468) / 146097, (n + 719468) % 146097);
    lemma_date_of_day(n, date);
}

/// The date of the day with the given number: the one date of the calendar
/// that has this day number.
pub fn civil_from_days(days: i32) -> (date: CivilDate)
    ensures
        date@.is_valid(),
        date@.day_number() == days,
        date@ == date_of_day(days as int),
{
    let z: i64 = days as i64 + 719468;
    let era: i64 = if z >= 0 {
        z / 146097
    } else {
        -((146096 - z) / 146097)
    };
    let doe: i64 = z - era * 146097;
    let ghost model = lemma_civil_from_days(days as int, era as int, doe as int);
    let yoe: i64 = (doe - doe / 1460 + doe / 36524 - doe / 146096) / 365;
    let doy: i64 = doe - (365 * yoe + yoe / 4 - yoe / 100);
    let mp: i64 = (5 * doy + 2) / 153;
    let d: i64 = doy - (153 * mp + 2) / 5 + 1;
    let m: i64 = if mp < 10 {
        mp + 3
    } else {
        mp - 9
    };
    let y: i64 = yoe + era * 400 + if m <= 2 {
        1
    } else {
        0
    };
    let date = CivilDate { year: y as i32, month: m as u8, day: d as u8 };
    proof {
        lemma_year_bounds(model);
        lemma_month_of_year(doy as int);
        assert(date@ == model);
        lemma_date_of_day(days as int, model);
    }
    date
}

} // verus!

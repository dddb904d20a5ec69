//! Canonical text for the temporal and fixed-point values of a result set:
//! scaled decimals, dates, times of day and instants with or without an offset.

use crate::calendar::{civil_from_days, date_of_day, CivilDate, Date};
use crate::text::{
    decimal, lemma_zero_padded_step, magnitude, pow10, push_decimal, push_signed_decimal,
    push_signed_zero_padded, push_zero_padded, signed_decimal, signed_zero_padded, zero_padded,
};
use vstd::prelude::*;

verus! {

/// The text of the fixed-point number `value / 10^scale`: an optional minus
/// sign, the integer part, and, unless `scale` is zero, a point followed by the
/// fraction in exactly `scale` digits.
pub open spec fn decimal_text(value: int, scale: nat) -> Seq<char> {
    if scale == 0 {
        signed_decimal(value)
    } else {
        let abs = if value < 0 {
            -value
        } else {
            value
        };
        let sign = if value < 0 {
            seq!['-']
        } else {
            Seq::<char>::empty()
        };
        sign + decimal((abs / pow10(scale) as int) as nat) + seq!['.'] + zero_padded(
            (abs % pow10(scale) as int) as nat,
            scale,
        )
    }
}

/// Powers of ten grow with the exponent.
pub proof fn lemma_pow10_increases(a: nat, b: nat)
    requires
        a <= b,
    ensures
        1 <= pow10(a) <= pow10(b),
    decreases b,
{
    if b == 0 {
    } else if a == b {
        lemma_pow10_increases(0, (b - 1) as nat);
    } else {
        lemma_pow10_increases(a, (b - 1) as nat);
    }
}

/// The thirty-eighth power of ten, the largest that a `u128` holds.
pub proof fn lemma_pow10_38()
    ensures
        pow10(38) == 100000000000000000000000000000000000000,
{
    assert(pow10(8) == 100000000) by {
        reveal_with_fuel(pow10, 9);
    }
    assert(pow10(16) == 10000000000000000) by {
        reveal_with_fuel(pow10, 9);
    }
    assert(pow10(24) == 1000000000000000000000000) by {
        reveal_with_fuel(pow10, 9);
    }
    assert(pow10(32) == 100000000000000000000000000000000) by {
        reveal_with_fuel(pow10, 9);
    }
    assert(pow10(38) == 100000000000000000000000000000000000000) by {
        reveal_with_fuel(pow10, 7);
    }
}

/// A numeral below `10^width` fills a zero-padded field of `width` exactly.
pub proof fn lemma_zero_padded_len(n: nat, width: nat)
    requires
        width >= 1,
        n < pow10(width),
    ensures
        zero_padded(n, width).len() == width,
    decreases n,
{
    lemma_zero_padded_step(n, width);
    if n >= 10 {
        if width == 1 {
            assert(pow10(1) == 10) by {
                reveal_with_fuel(pow10, 2);
            }
        } else {
            lemma_zero_padded_len(n / 10, (width - 1) as nat);
        }
    }
}

fn power_of_ten(n: u8) -> (p: u128)
    requires
        n <= 38,
    ensures
        p == pow10(n as nat),
{
    let mut p: u128 = 1;
    let mut i: u8 = 0;
    while i < n
        invariant
            i <= n <= 38,
            p == pow10(i as nat),
        decreases n - i,
    {
        proof {
            lemma_pow10_increases((i + 1) as nat, 38);
            lemma_pow10_38();
        }
        p = p * 10;
        i = i + 1;
    }
    p
}

/// Splits a magnitude into the integer part and the fraction at `scale` digits.
fn split_scaled(abs: u128, scale: u8) -> (parts: (u128, u128))
    ensures
        parts.0 == abs as int / pow10(scale as nat) as int,
        parts.1 == abs as int % pow10(scale as nat) as int,
{
    if scale >= 39 {
        proof {
            lemma_pow10_38();
            lemma_pow10_increases(39, scale as nat);
            assert(pow10(39) == 10 * pow10(38));
            vstd::arithmetic::div_mod::lemma_small_mod(abs as nat, pow10(scale as nat));
            vstd::arithmetic::div_mod::lemma_basic_div(abs as int, pow10(scale as nat) as int);
        }
        (0, abs)
    } else {
        let unit = power_of_ten(scale);
        proof {
            lemma_pow10_increases(0, scale as nat);
        }
        (abs / unit, abs % unit)
    }
}

/// Renders the scaled integer `value` with `scale` fractional digits.
pub fn decimal_to_string(value: i128, scale: u8) -> (s: String)
    ensures
        s@ == decimal_text(value as int, scale as nat),
{
    let mut s = String::new();
    if scale == 0 {
        push_signed_decimal(&mut s, value);
        return s;
    }
    if value < 0 {
        s.push('-');
    }
    let parts = split_scaled(magnitude(value), scale);
    push_decimal(&mut s, parts.0);
    s.push('.');
    push_zero_padded(&mut s, parts.1, scale as usize);
    s
}

/// A date as `YYYY-MM-DD`: the year in at least four characters, a minus sign
/// counted among them, the month and the day in two digits each.
pub open spec fn date_text(date: Date) -> Seq<char> {
    signed_zero_padded(date.year, 4) + seq!['-'] + zero_padded(date.month as nat, 2) + seq!['-']
        + zero_padded(date.day as nat, 2)
}

/// The date of a year from -999 to 9999 has ten characters.
pub proof fn lemma_date_text_len(date: Date)
    requires
        date.is_valid(),
        -999 <= date.year <= 9999,
    ensures
        date_text(date).len() == 10,
{
    assert(pow10(2) == 100 && pow10(3) == 1000 && pow10(4) == 10000) by {
        reveal_with_fuel(pow10, 5);
    }
    if date.year < 0 {
        lemma_zero_padded_len((-date.year) as nat, 3);
    } else {
        lemma_zero_padded_len(date.year as nat, 4);
    }
    lemma_zero_padded_len(date.month as nat, 2);
    lemma_zero_padded_len(date.day as nat, 2);
}

/// A count of seconds as `HH:MM:SS`, the hours in at least two digits.
pub open spec fn clock_text(secs: nat) -> Seq<char> {
    zero_padded(secs / 3600, 2) + seq![':'] + zero_padded(secs % 3600 / 60, 2) + seq![':']
        + zero_padded(secs % 60, 2)
}

/// A fraction of a second, counted in units of which `10^digits` make a second:
/// nothing when it is zero, else a point and the count in `digits` digits.
pub open spec fn fraction_text(units: nat, digits: nat) -> Seq<char> {
    if units == 0 {
        Seq::<char>::empty()
    } else {
        seq!['.'] + zero_padded(units, digits)
    }
}

/// A time of day given in nanoseconds: the clock, and the fraction of a second
/// in units of 100 ns, what is below them cut off.
pub open spec fn time_text(nanos: nat) -> Seq<char> {
    clock_text(nanos / 1_000_000_000) + if nanos % 1_000_000_000 == 0 {
        Seq::<char>::empty()
    } else {
        seq!['.'] + zero_padded(nanos % 1_000_000_000 / 100, 7)
    }
}

/// The unsigned number that has the same 64 bits as `v`.
pub open spec fn as_unsigned(v: i64) -> u64 {
    v as u64
}

/// The instant `micros` microseconds from 1970-01-01T00:00:00: the date of
/// the day it lies in, `T`, the clock within that day, and the microseconds
/// of the second where there are any.
pub open spec fn datetime_text(micros: int) -> Seq<char> {
    let of_day = micros % 86_400_000_000;
    date_text(date_of_day(micros / 86_400_000_000)) + seq!['T'] + clock_text(
        (of_day / 1_000_000) as nat,
    ) + fraction_text((of_day % 1_000_000) as nat, 6)
}

/// An instant lies in the day that `datetime_text` names and at the time of
/// day that it names: the time of day is never negative and less than a day,
/// so an instant before 1970 lies in a day before 1970.
pub proof fn lemma_instant_splits(micros: int)
    ensures
        ({
            let day = micros / 86_400_000_000;
            let of_day = micros % 86_400_000_000;
            &&& micros == day * 86_400_000_000 + of_day
            &&& 0 <= of_day < 86_400_000_000
            &&& 0 <= of_day / 1_000_000 < 86_400
            &&& 0 <= of_day % 1_000_000 < 1_000_000
            &&& micros < 0 ==> day < 0
        }),
{
}

/// An offset from UTC in minutes: `Z` for none, else the sign and `HH:MM` of
/// its magnitude.
pub open spec fn offset_text(minutes: int) -> Seq<char> {
    if minutes == 0 {
        seq!['Z']
    } else {
        let abs = if minutes < 0 {
            -minutes
        } else {
            minutes
        };
        seq![if minutes < 0 {
            '-'
        } else {
            '+'
        }] + zero_padded((abs / 60) as nat, 2) + seq![':'] + zero_padded((abs % 60) as nat, 2)
    }
}

fn push_date(s: &mut String, date: CivilDate)
    ensures
        final(s)@ == old(s)@ + date_text(date@),
{
    push_signed_zero_padded(s, date.year as i128, 4);
    s.push('-');
    push_zero_padded(s, date.month as u128, 2);
    s.push('-');
    push_zero_padded(s, date.day as u128, 2);
    assert(s@ =~= old(s)@ + date_text(date@));
}

fn push_clock(s: &mut String, secs: u64)
    ensures
        final(s)@ == old(s)@ + clock_text(secs as nat),
{
    push_zero_padded(s, (secs / 3600) as u128, 2);
    s.push(':');
    push_zero_padded(s, (secs % 3600 / 60) as u128, 2);
    s.push(':');
    push_zero_padded(s, (secs % 60) as u128, 2);
    assert(s@ =~= old(s)@ + clock_text(secs as nat));
}

/// Renders a day count from 1970-01-01 as the date it falls on.
pub fn unix_days_to_iso(unix_days: i32) -> (s: String)
    ensures
        s@ == date_text(date_of_day(unix_days as int)),
{
    let mut s = String::new();
    push_date(&mut s, civil_from_days(unix_days));
    s
}

/// Renders a time of day given in nanoseconds since midnight.
pub fn nanos_to_time_str(nanos: u64) -> (s: String)
    ensures
        s@ == time_text(nanos as nat),
{
    let mut s = String::new();
    push_clock(&mut s, nanos / 1_000_000_000);
    let frac = nanos % 1_000_000_000;
    if frac != 0 {
        s.push('.');
        push_zero_padded(&mut s, (frac / 100) as u128, 7);
    }
    assert(s@ =~= time_text(nanos as nat));
    s
}

/// The quotient rounded down and the remainder that is never negative.
fn floor_div_rem(a: i64, b: i64) -> (qr: (i64, i64))
    requires
        b > 0,
    ensures
        qr.0 == a as int / b as int,
        qr.1 == a as int % b as int,
{
    if a >= 0 {
        (a / b, a % b)
    } else {
        let n = -(a + 1);
        let q = n / b;
        let r = n % b;
        proof {
            vstd::arithmetic::div_mod::lemma_fundamental_div_mod(n as int, b as int);
            vstd::arithmetic::div_mod::lemma_div_pos_is_pos(n as int, b as int);
            assert(a == (-q - 1) * b + (b - 1 - r)) by (nonlinear_arith)
                requires
                    n == b * q + r,
                    n == -(a + 1),
            ;
            vstd::arithmetic::div_mod::lemma_fundamental_div_mod_converse_div(
                a as int,
                b as int,
                -q - 1,
                b - 1 - r,
            );
            vstd::arithmetic::div_mod::lemma_fundamental_div_mod_converse_mod(
                a as int,
                b as int,
                -q - 1,
                b - 1 - r,
            );
        }
        (-q - 1, b - 1 - r)
    }
}

/// Appends the text of an instant given in microseconds since the epoch.
fn push_datetime(s: &mut String, micros: i64)
    ensures
        final(s)@ == old(s)@ + datetime_text(micros as int),
{
    let (day, of_day) = floor_div_rem(micros, 86_400_000_000);
    push_date(s, civil_from_days(day as i32));
    s.push('T');
    push_clock(s, (of_day / 1_000_000) as u64);
    let frac = of_day % 1_000_000;
    if frac != 0 {
        s.push('.');
        push_zero_padded(s, frac as u128, 6);
    }
    assert(s@ =~= old(s)@ + datetime_text(micros as int));
}

/// Renders an instant given in microseconds since 1970-01-01T00:00:00.
pub fn micros_to_iso(micros: i64) -> (s: String)
    ensures
        s@ == datetime_text(micros as int),
{
    let mut s = String::new();
    push_datetime(&mut s, micros);
    s
}

/// Renders an instant together with its offset from UTC in minutes.
pub fn micros_offset_to_iso(micros: i64, offset_minutes: i16) -> (s: String)
    ensures
        s@ == datetime_text(micros as int) + offset_text(offset_minutes as int),
{
    let mut s = String::new();
    push_datetime(&mut s, micros);
    if offset_minutes == 0 {
        s.push('Z');
    } else {
        let abs: u128 = magnitude(offset_minutes as i128);
        s.push(if offset_minutes < 0 {
            '-'
        } else {
            '+'
        });
        push_zero_padded(&mut s, abs / 60, 2);
        s.push(':');
        push_zero_padded(&mut s, abs % 60, 2);
    }
    assert(s@ =~= datetime_text(micros as int) + offset_text(offset_minutes as int));
    s
}

} // verus!

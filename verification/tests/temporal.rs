use rowsink::calendar::{civil_from_days, CivilDate};
use rowsink::types::{
    decimal_to_string, micros_offset_to_iso, micros_to_iso, nanos_to_time_str, unix_days_to_iso,
};

#[test]
fn decimal_with_two_fraction_digits() {
    assert_eq!(decimal_to_string(12345, 2), "123.45");
}

#[test]
fn decimal_negative_keeps_trailing_zeros() {
    assert_eq!(decimal_to_string(-500, 2), "-5.00");
}

#[test]
fn decimal_scale_zero_has_no_point() {
    assert_eq!(decimal_to_string(7, 0), "7");
    assert_eq!(decimal_to_string(-7, 0), "-7");
    assert_eq!(decimal_to_string(0, 0), "0");
}

#[test]
fn decimal_pads_the_fraction_with_zeros() {
    assert_eq!(decimal_to_string(5, 3), "0.005");
    assert_eq!(decimal_to_string(-5, 2), "-0.05");
    assert_eq!(decimal_to_string(0, 3), "0.000");
    assert_eq!(decimal_to_string(1000, 3), "1.000");
}

#[test]
fn decimal_extremes_of_the_value() {
    assert_eq!(decimal_to_string(i128::MIN, 0), i128::MIN.to_string());
    assert_eq!(decimal_to_string(i128::MAX, 0), i128::MAX.to_string());
    assert_eq!(
        decimal_to_string(i128::MAX, 38),
        "1.70141183460469231731687303715884105727"
    );
    assert_eq!(
        decimal_to_string(i128::MIN, 38),
        "-1.70141183460469231731687303715884105728"
    );
}

#[test]
fn decimal_scale_beyond_the_digits_of_the_value() {
    let expected = format!("0.{}123", "0".repeat(37));
    assert_eq!(decimal_to_string(123, 40), expected);
    let all = i128::MAX.to_string();
    let expected = format!("-0.{}{}", "0".repeat(255 - all.len()), all);
    assert_eq!(decimal_to_string(-i128::MAX, 255), expected);
}

#[test]
fn decimal_matches_the_padding_of_format() {
    for (value, scale) in [(0i128, 1u8), (9, 1), (10, 1), (99, 2), (100, 2), (-12345678, 5)] {
        let abs = value.unsigned_abs();
        let unit = 10u128.pow(scale as u32);
        let sign = if value < 0 { "-" } else { "" };
        let expected = format!(
            "{}{}.{:0>width$}",
            sign,
            abs / unit,
            abs % unit,
            width = scale as usize
        );
        assert_eq!(decimal_to_string(value, scale), expected);
    }
}

#[test]
fn days_epoch() {
    assert_eq!(unix_days_to_iso(0), "1970-01-01");
}

#[test]
fn days_before_the_epoch() {
    assert_eq!(unix_days_to_iso(-1), "1969-12-31");
    assert_eq!(unix_days_to_iso(-365), "1969-01-01");
    assert_eq!(unix_days_to_iso(-1000000), "-768-02-04");
}

#[test]
fn days_leap_days() {
    assert_eq!(unix_days_to_iso(789), "1972-02-29");
    assert_eq!(unix_days_to_iso(11016), "2000-02-29");
    assert_eq!(unix_days_to_iso(19782), "2024-02-29");
    assert_eq!(unix_days_to_iso(59), "1970-03-01");
}

#[test]
fn days_around_year_zero_and_ten_thousand() {
    assert_eq!(unix_days_to_iso(-719162), "0001-01-01");
    assert_eq!(unix_days_to_iso(-719163), "0000-12-31");
    assert_eq!(unix_days_to_iso(-719528), "0000-01-01");
    assert_eq!(unix_days_to_iso(-719529), "-001-12-31");
    assert_eq!(unix_days_to_iso(2932896), "9999-12-31");
    assert_eq!(unix_days_to_iso(2932897), "10000-01-01");
}

#[test]
fn days_extremes() {
    assert_eq!(unix_days_to_iso(i32::MAX), "5881580-07-11");
    assert_eq!(unix_days_to_iso(i32::MIN), "-5877641-06-23");
}

#[test]
fn days_year_field_matches_format_with_zero_flag() {
    assert_eq!(
        unix_days_to_iso(-719529),
        format!("{:04}-{:02}-{:02}", -1, 12, 31)
    );
    assert_eq!(
        unix_days_to_iso(-719162),
        format!("{:04}-{:02}-{:02}", 1, 1, 1)
    );
}

#[test]
fn civil_date_of_a_day() {
    assert_eq!(
        civil_from_days(18262),
        CivilDate { year: 2020, month: 1, day: 1 }
    );
    assert_eq!(
        civil_from_days(-1),
        CivilDate { year: 1969, month: 12, day: 31 }
    );
}

#[test]
fn civil_dates_follow_one_another() {
    // Every day of eight centuries: the next day is the next date.
    let mut previous = civil_from_days(-146097);
    for day in -146096..=146097 {
        let date = civil_from_days(day);
        let leap = date.year % 4 == 0 && (date.year % 100 != 0 || date.year % 400 == 0);
        let last = match previous.month {
            2 => {
                let l = previous.year % 4 == 0
                    && (previous.year % 100 != 0 || previous.year % 400 == 0);
                if l { 29 } else { 28 }
            }
            4 | 6 | 9 | 11 => 30,
            _ => 31,
        };
        let _ = leap;
        if previous.day < last {
            assert_eq!((date.year, date.month, date.day), (previous.year, previous.month, previous.day + 1));
        } else if previous.month < 12 {
            assert_eq!((date.year, date.month, date.day), (previous.year, previous.month + 1, 1));
        } else {
            assert_eq!((date.year, date.month, date.day), (previous.year + 1, 1, 1));
        }
        previous = date;
    }
}

#[test]
fn time_without_fraction() {
    assert_eq!(nanos_to_time_str(0), "00:00:00");
    assert_eq!(nanos_to_time_str(3_723_000_000_000), "01:02:03");
}

#[test]
fn time_with_fraction_has_seven_digits() {
    assert_eq!(nanos_to_time_str(1_500_000_000), "00:00:01.5000000");
    assert_eq!(nanos_to_time_str(123_456_789), "00:00:00.1234567");
    assert_eq!(nanos_to_time_str(86_399_999_999_900), "23:59:59.9999999");
}

#[test]
fn time_cuts_off_below_a_hundred_nanoseconds() {
    assert_eq!(nanos_to_time_str(50), "00:00:00.0000000");
    assert_eq!(nanos_to_time_str(199), "00:00:00.0000001");
}

#[test]
fn time_hours_beyond_a_day() {
    assert_eq!(nanos_to_time_str(u64::MAX), "5124095:34:33.7095516");
}

#[test]
fn micros_epoch() {
    assert_eq!(micros_to_iso(0), "1970-01-01T00:00:00");
}

#[test]
fn micros_negative_falls_on_the_day_before() {
    assert_eq!(micros_to_iso(-1), "1969-12-31T23:59:59.999999");
    assert_eq!(micros_to_iso(-86_400_000_000), "1969-12-31T00:00:00");
    assert_eq!(micros_to_iso(-62_135_596_800_000_001), "0000-12-31T23:59:59.999999");
}

#[test]
fn micros_fraction_has_six_digits() {
    assert_eq!(micros_to_iso(1), "1970-01-01T00:00:00.000001");
    assert_eq!(micros_to_iso(1_700_000_000_123_456), "2023-11-14T22:13:20.123456");
}

#[test]
fn micros_extremes() {
    assert_eq!(micros_to_iso(i64::MAX), "294247-01-10T04:00:54.775807");
    assert_eq!(micros_to_iso(i64::MIN), "-290308-12-21T19:59:05.224192");
}

#[test]
fn offset_zero_is_z() {
    assert_eq!(micros_offset_to_iso(0, 0), "1970-01-01T00:00:00Z");
    assert!(micros_offset_to_iso(1_700_000_000_123_456, 0).ends_with("Z"));
}

#[test]
fn offset_negative() {
    assert!(micros_offset_to_iso(1_700_000_000_123_456, -330).ends_with("-05:30"));
    assert_eq!(micros_offset_to_iso(0, -330), "1970-01-01T00:00:00-05:30");
}

#[test]
fn offset_positive() {
    assert_eq!(micros_offset_to_iso(-1, 330), "1969-12-31T23:59:59.999999+05:30");
    assert_eq!(micros_offset_to_iso(0, 1), "1970-01-01T00:00:00+00:01");
}

#[test]
fn offset_extremes() {
    assert_eq!(micros_offset_to_iso(0, i16::MIN), "1970-01-01T00:00:00-546:08");
    assert_eq!(micros_offset_to_iso(0, i16::MAX), "1970-01-01T00:00:00+546:07");
}

/// A small generator of numbers, the same on every run.
struct Lcg(u64);

impl Lcg {
    fn next(&mut self) -> u64 {
        self.0 = self
            .0
            .wrapping_mul(6364136223846793005)
            .wrapping_add(1442695040888963407);
        self.0 ^ (self.0 >> 29)
    }

    /// A number of a random width, so that small and large ones both come.
    fn any(&mut self) -> u64 {
        let shift = self.next() % 64;
        self.next() >> shift
    }
}

/// The date of a day, counted by years and months from 1970-01-01.
fn date_by_counting(days: i64) -> String {
    fn leap(y: i64) -> bool {
        y % 4 == 0 && (y % 100 != 0 || y % 400 == 0)
    }
    let cycles = days.div_euclid(146097);
    let mut rest = days.rem_euclid(146097);
    let mut year = 1970;
    loop {
        let len = if leap(year) { 366 } else { 365 };
        if rest < len {
            break;
        }
        rest -= len;
        year += 1;
    }
    let mut month = 1;
    loop {
        let len = match month {
            2 => {
                if leap(year) {
                    29
                } else {
                    28
                }
            }
            4 | 6 | 9 | 11 => 30,
            _ => 31,
        };
        if rest < len {
            break;
        }
        rest -= len;
        month += 1;
    }
    format!("{:04}-{:02}-{:02}", year + 400 * cycles, month, rest + 1)
}

#[test]
fn many_days_against_counting() {
    let mut lcg = Lcg(3);
    for _ in 0..3000 {
        let days = lcg.any() as i64 as i32;
        assert_eq!(unix_days_to_iso(days), date_by_counting(days as i64), "{}", days);
    }
}

#[test]
fn many_instants_against_format() {
    let mut lcg = Lcg(5);
    for _ in 0..3000 {
        let micros = lcg.any() as i64;
        let micros = if lcg.next() % 2 == 0 { micros } else { micros.wrapping_neg() };
        let secs = micros.div_euclid(1_000_000);
        let frac = micros.rem_euclid(1_000_000);
        let day_secs = secs.rem_euclid(86400);
        let mut expected = format!(
            "{}T{:02}:{:02}:{:02}",
            date_by_counting(secs.div_euclid(86400)),
            day_secs / 3600,
            day_secs % 3600 / 60,
            day_secs % 60
        );
        if frac != 0 {
            expected.push_str(&format!(".{:06}", frac));
        }
        assert_eq!(micros_to_iso(micros), expected, "{}", micros);
        let offset = lcg.any() as i16;
        let with_offset = if offset == 0 {
            format!("{}Z", expected)
        } else {
            let abs = offset.unsigned_abs();
            let sign = if offset >= 0 { '+' } else { '-' };
            format!("{}{}{:02}:{:02}", expected, sign, abs / 60, abs % 60)
        };
        assert_eq!(micros_offset_to_iso(micros, offset), with_offset);
    }
}

#[test]
fn many_times_against_format() {
    let mut lcg = Lcg(9);
    for _ in 0..3000 {
        let nanos = lcg.any();
        let secs = nanos / 1_000_000_000;
        let frac = nanos % 1_000_000_000;
        let mut expected = format!("{:02}:{:02}:{:02}", secs / 3600, secs % 3600 / 60, secs % 60);
        if frac != 0 {
            expected.push_str(&format!(".{:07}", frac / 100));
        }
        assert_eq!(nanos_to_time_str(nanos), expected, "{}", nanos);
    }
}

#[test]
fn many_decimals_against_format() {
    let mut lcg = Lcg(13);
    for _ in 0..3000 {
        let wide = ((lcg.any() as u128) << 64) | lcg.any() as u128;
        let value = (wide >> (lcg.next() % 128)) as i128;
        let value = if lcg.next() % 2 == 0 { value } else { value.wrapping_neg() };
        let scale = (lcg.next() % 39) as u8;
        let expected = if scale == 0 {
            value.to_string()
        } else {
            let abs = value.unsigned_abs();
            let unit = 10u128.pow(scale as u32);
            let sign = if value < 0 { "-" } else { "" };
            format!("{}{}.{:0>width$}", sign, abs / unit, abs % unit, width = scale as usize)
        };
        assert_eq!(decimal_to_string(value, scale), expected, "{} {}", value, scale);
    }
}

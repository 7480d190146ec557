//! The clock and the calendar.
use vstd::prelude::*;

use crate::digits;

verus! {

/// Whether the year has a day more than others.
pub open spec fn leap(y: int) -> bool {
    y % 4 == 0 && (y % 100 != 0 || y % 400 == 0)
}

/// The days of a month.
pub open spec fn month_days(y: int, m: int) -> int {
    if m == 2 {
        if leap(y) {
            29
        } else {
            28
        }
    } else if m == 4 || m == 6 || m == 9 || m == 11 {
        30
    } else {
        31
    }
}

/// The days of the year before the first of a month.
pub open spec fn days_before_month(y: int, m: int) -> int
    decreases m,
{
    if m <= 1 {
        0
    } else {
        days_before_month(y, m - 1) + month_days(y, m - 1)
    }
}

/// The days from the first of January of the year 1 to that of the year `y`.
pub open spec fn days_before_year(y: int) -> int {
    365 * (y - 1) + (y - 1) / 4 - (y - 1) / 100 + (y - 1) / 400
}

/// Whether there is such a day.
pub open spec fn is_date(y: int, m: int, d: int) -> bool {
    1 <= m <= 12 && 1 <= d <= month_days(y, m)
}

/// The days from the first of January 1970 to a date.
pub open spec fn day_number(y: int, m: int, d: int) -> int {
    days_before_year(y) + days_before_month(y, m) + (d - 1) - days_before_year(1970)
}

/// A day of an era of 400 years, which begins in March, falls into one of its years.
proof fn lemma_year_of_era(doe: int, yoe: int)
    requires
        0 <= doe < 146_097,
        yoe == (doe - doe / 1_460 + doe / 36_524 - doe / 146_096) / 365,
    ensures
        0 <= yoe < 400,
        0 <= doe - (365 * yoe + yoe / 4 - yoe / 100) < 365 + (if (yoe + 1) % 4 == 0 && ((yoe + 1)
            % 100 != 0 || (yoe + 1) == 400) {
            1int
        } else {
            0
        }),
{
}

/// The days before a month, from January on.
proof fn lemma_days_before_month(y: int)
    ensures
        days_before_month(y, 1) == 0,
        days_before_month(y, 2) == 31,
        ({
            let f: int = if leap(y) {
                1
            } else {
                0
            };
            &&& days_before_month(y, 3) == 59 + f
            &&& days_before_month(y, 4) == 90 + f
            &&& days_before_month(y, 5) == 120 + f
            &&& days_before_month(y, 6) == 151 + f
            &&& days_before_month(y, 7) == 181 + f
            &&& days_before_month(y, 8) == 212 + f
            &&& days_before_month(y, 9) == 243 + f
            &&& days_before_month(y, 10) == 273 + f
            &&& days_before_month(y, 11) == 304 + f
            &&& days_before_month(y, 12) == 334 + f
        }),
{
    reveal_with_fuel(days_before_month, 13);
}

/// The months from March on: the date of a day of a year that begins in March.
proof fn lemma_month(doy: int, mp: int, d: int)
    requires
        0 <= doy < 366,
        mp == (5 * doy + 2) / 153,
        d == doy - (153 * mp + 2) / 5 + 1,
    ensures
        0 <= mp < 12,
        doy == (153 * mp + 2) / 5 + d - 1,
        1 <= d <= 31,
        mp == 1 || mp == 3 || mp == 6 || mp == 8 ==> d <= 30,
        mp == 11 ==> d <= 29,
        mp == 11 && d == 29 ==> doy == 365,
{
}

/// The day that an era, a year of it and a day of that year make.
proof fn lemma_day_number(era: int, yoe: int, doy: int, mp: int, y: int, m: int, d: int)
    requires
        0 <= yoe < 400,
        0 <= doy < 365 + (if (yoe + 1) % 4 == 0 && ((yoe + 1) % 100 != 0 || (yoe + 1) == 400) {
            1int
        } else {
            0
        }),
        mp == (5 * doy + 2) / 153,
        d == doy - (153 * mp + 2) / 5 + 1,
        m == (if mp < 10 {
            mp + 3
        } else {
            mp - 9
        }),
        y == era * 400 + yoe + (if m <= 2 {
            1int
        } else {
            0
        }),
    ensures
        is_date(y, m, d),
        day_number(y, m, d) == era * 146_097 + 365 * yoe + yoe / 4 - yoe / 100 + doy - 719_468,
{
    lemma_month(doy, mp, d);
    lemma_days_before_month(y);
    let x = era * 400 + yoe;
    assert(x / 4 == era * 100 + yoe / 4);
    assert(x / 100 == era * 4 + yoe / 100);
    assert(x / 400 == era);
    assert(days_before_year(1970) == 719_162);
    if m <= 2 {
        assert(y - 1 == x);
        assert(leap(y) == ((yoe + 1) % 4 == 0 && ((yoe + 1) % 100 != 0 || yoe + 1 == 400)));
    } else {
        assert(y == x);
        let f: int = if leap(y) {
            1
        } else {
            0
        };
        assert(days_before_year(y) + f == 365 * (y - 1) + y / 4 - y / 100 + y / 400);
    }
}

/// The date of a day that is given by its number, counted from the first of January
/// 1970.
pub fn civil_from_days(z: i64) -> (r: (i64, u32, u32))
    requires
        z <= i64::MAX - 719_468,
    ensures
        is_date(r.0 as int, r.1 as int, r.2 as int),
        day_number(r.0 as int, r.1 as int, r.2 as int) == z,
        z >= 0 ==> r.0 >= 1970,
{
    let z0 = z;
    let z: i64 = z + 719_468;
    let era: i64 = if z >= 0 {
        z / 146_097
    } else {
        -((-(z + 1)) / 146_097) - 1
    };
    let doe: i64 = z - era * 146_097;
    assert(0 <= doe < 146_097);
    let yoe: i64 = (doe - doe / 1_460 + doe / 36_524 - doe / 146_096) / 365;
    proof {
        lemma_year_of_era(doe as int, yoe as int);
    }
    let y: i64 = yoe + era * 400;
    let doy: i64 = doe - (365 * yoe + yoe / 4 - yoe / 100);
    let mp: i64 = (5 * doy + 2) / 153;
    proof {
        lemma_month(doy as int, mp as int, doy - (153 * mp + 2) / 5 + 1);
    }
    let d = (doy - (153 * mp + 2) / 5 + 1) as u32;
    let m = (if mp < 10 {
        mp + 3
    } else {
        mp - 9
    }) as u32;
    let year: i64 = if m <= 2 {
        y + 1
    } else {
        y
    };
    proof {
        lemma_day_number(
            era as int,
            yoe as int,
            doy as int,
            mp as int,
            year as int,
            m as int,
            d as int,
        );
        assert(day_number(year as int, m as int, d as int) == z0);
        if z0 >= 0 && year < 1970 {
            lemma_days_before_month(year as int);
            assert(days_before_year(year + 1) <= days_before_year(1970));
            assert(days_before_year(year + 1) >= days_before_year(year as int) + 365);
        }
    }
    (year, m, d)
}

/// A day has one date.
pub proof fn law_dates_differ(y1: int, m1: int, d1: int, y2: int, m2: int, d2: int)
    requires
        is_date(y1, m1, d1),
        is_date(y2, m2, d2),
        day_number(y1, m1, d1) == day_number(y2, m2, d2),
    ensures
        y1 == y2 && m1 == m2 && d1 == d2,
{
    lemma_days_before_month(y1);
    lemma_days_before_month(y2);
    lemma_days_before_year(y1, y2);
    lemma_days_before_year(y2, y1);
}

/// A later year begins later, by at least the days of the year.
proof fn lemma_days_before_year(y1: int, y2: int)
    ensures
        y1 < y2 ==> days_before_year(y1) + 365 + (if leap(y1) {
            1int
        } else {
            0
        }) <= days_before_year(y2),
{
    if y1 < y2 {
        let f: int = if leap(y1) {
            1
        } else {
            0
        };
        assert(days_before_year(y1 + 1) == days_before_year(y1) + 365 + f);
        assert(days_before_year(y1 + 1) <= days_before_year(y2));
    }
}

/// The text of a date.
pub open spec fn date_text(y: int, m: int, d: int) -> Seq<char> {
    digits::zero_padded(digits::decimal(y as nat), 4) + "-"@ + digits::zero_padded(
        digits::decimal(m as nat),
        2,
    ) + "-"@ + digits::zero_padded(digits::decimal(d as nat), 2)
}

/// Whether `s` is the date of the day in which the second `secs` falls, counted from
/// the beginning of 1970.
pub open spec fn is_day_of(s: Seq<char>, secs: u64) -> bool {
    exists|y: int, m: int, d: int|
        is_date(y, m, d) && #[trigger] day_number(y, m, d) == secs / 86_400 && s == date_text(
            y,
            m,
            d,
        )
}

/// The text of a number with zeros before it is digits.
proof fn lemma_padded_digits(s: Seq<char>, width: nat)
    requires
        s.len() > 0,
        forall|i: int| 0 <= i < s.len() ==> digits::is_digit(#[trigger] s[i]),
    ensures
        digits::zero_padded(s, width).len() > 0,
        forall|i: int|
            0 <= i < digits::zero_padded(s, width).len() ==> digits::is_digit(
                #[trigger] digits::zero_padded(s, width)[i],
            ),
    decreases width - s.len(),
{
    if s.len() < width {
        let t = seq!['0'] + s;
        assert forall|i: int| 0 <= i < t.len() implies digits::is_digit(#[trigger] t[i]) by {
            if i > 0 {
                assert(t[i] == s[i - 1]);
            }
        }
        lemma_padded_digits(t, width);
    }
}

/// The text of a date is digits and hyphens, and begins and ends with a digit.
pub proof fn lemma_date_text(y: int, m: int, d: int)
    ensures
        ({
            let s = date_text(y, m, d);
            &&& s.len() > 0
            &&& digits::is_digit(s[0])
            &&& digits::is_digit(s.last())
            &&& forall|i: int|
                0 <= i < s.len() ==> digits::is_digit(#[trigger] s[i]) || s[i] == '-'
        }),
{
    digits::lemma_decimal(y as nat);
    digits::lemma_decimal(m as nat);
    digits::lemma_decimal(d as nat);
    lemma_padded_digits(digits::decimal(y as nat), 4);
    lemma_padded_digits(digits::decimal(m as nat), 2);
    lemma_padded_digits(digits::decimal(d as nat), 2);
    reveal_strlit("-");
    let a = digits::zero_padded(digits::decimal(y as nat), 4);
    let b = digits::zero_padded(digits::decimal(m as nat), 2);
    let c = digits::zero_padded(digits::decimal(d as nat), 2);
    let s = date_text(y, m, d);
    assert(s == a + "-"@ + b + "-"@ + c);
    assert(s[0] == a[0]);
    assert(s.last() == c[c.len() - 1]);
    assert forall|i: int| 0 <= i < s.len() implies digits::is_digit(#[trigger] s[i]) || s[i]
        == '-' by {
        let n = a.len() as int;
        let k = b.len() as int;
        if i < n {
            assert(s[i] == a[i]);
        } else if n < i < n + 1 + k {
            assert(s[i] == b[i - n - 1]);
        } else if i > n + 1 + k {
            assert(s[i] == c[i - n - k - 2]);
        }
    }
}

/// The date of the day in which the second `secs` falls.
pub fn date_of(secs: u64) -> (r: String)
    ensures
        is_day_of(r@, secs),
{
    let (y, m, d) = civil_from_days((secs / 86_400) as i64);
    let mut out = digits::pad_zeros(digits::decimal_text(y as u64), 4);
    out.append("-");
    out.append(digits::pad_zeros(digits::decimal_text(m as u64), 2).as_str());
    out.append("-");
    out.append(digits::pad_zeros(digits::decimal_text(d as u64), 2).as_str());
    assert(day_number(y as int, m as int, d as int) == secs / 86_400);
    out
}

/// Reads the clock: `std::time::SystemTime::elapsed` on the beginning of 1970, in whole
/// seconds and the nanoseconds beyond them, or nothing where the clock stands before
/// it. The nanoseconds are less than a second; nothing else is known.
#[verifier::external_body]
fn since_epoch() -> (r: Option<(u64, u32)>)
    ensures
        r matches Some(t) ==> t.1 < 1_000_000_000,
{
    std::time::UNIX_EPOCH.elapsed().ok().map(|d| (d.as_secs(), d.subsec_nanos()))
}

/// Today's date in UTC, or that of the first day of 1970 where the clock stands before
/// it.
pub fn today_utc() -> (r: String)
    ensures
        exists|secs: u64| is_day_of(r@, secs),
{
    match since_epoch() {
        Some((secs, _)) => date_of(secs),
        None => date_of(0),
    }
}

/// The milliseconds that a time is made of, cut to 64 bits.
pub open spec fn millis(secs: u64, nanos: u32) -> i64 {
    (secs * 1000 + nanos as int / 1_000_000) as i64
}

/// The milliseconds that a time is made of, cut to 64 bits.
pub fn millis_of(secs: u64, nanos: u32) -> (r: i64)
    ensures
        r == millis(secs, nanos),
{
    let total: u128 = secs as u128 * 1000 + (nanos / 1_000_000) as u128;
    #[verifier::truncate]
    let r: i64 = total as i64;
    r
}

/// The time that a reading of the clock shows, in milliseconds since the beginning of
/// 1970, or 0 where the clock stands before it.
pub open spec fn time_in(reading: Option<(u64, u32)>) -> i64 {
    match reading {
        Some((secs, nanos)) => millis(secs, nanos),
        None => 0,
    }
}

/// The time that a reading of the clock shows.
pub fn time_of(reading: Option<(u64, u32)>) -> (r: i64)
    ensures
        r == time_in(reading),
{
    match reading {
        Some((secs, nanos)) => millis_of(secs, nanos),
        None => 0,
    }
}

/// Whether `t` is a time that the clock can show: that of a reading whose nanoseconds
/// are less than a second, or of none.
pub open spec fn is_time(t: i64) -> bool {
    exists|reading: Option<(u64, u32)>|
        (reading matches Some(time) ==> time.1 < 1_000_000_000) && t == #[trigger] time_in(reading)
}

/// The milliseconds since the beginning of 1970, or 0 where the clock stands before it:
/// the time that the clock shows now, whichever it is.
pub fn now() -> (r: i64)
    ensures
        is_time(r),
{
    time_of(since_epoch())
}

/// Days are counted one by one from the first of January 1970: the next day of a month, the
/// first of the next month and the first of the next year each come one day later.
pub proof fn law_days_are_counted(y: int, m: int, d: int)
    requires
        is_date(y, m, d),
    ensures
        day_number(1970, 1, 1) == 0,
        d < month_days(y, m) ==> day_number(y, m, d + 1) == day_number(y, m, d) + 1,
        d == month_days(y, m) && m < 12 ==> day_number(y, m + 1, 1) == day_number(y, m, d) + 1,
        d == month_days(y, m) && m == 12 ==> day_number(y + 1, 1, 1) == day_number(y, m, d) + 1,
{
    reveal_with_fuel(days_before_month, 2);
    lemma_days_before_month(y);
    lemma_days_before_month(y + 1);
    lemma_days_before_month(1970);
    assert(days_before_year(y + 1) == days_before_year(y) + 365 + (if leap(y) {
        1int
    } else {
        0
    }));
}

/// Every fourth year has a day more, in February, but of the hundredth only every fourth;
/// the other months have thirty or thirty-one days by turns, with two long ones in July and
/// August.
pub proof fn law_months_have_their_days(y: int, m: int)
    requires
        1 <= m <= 12,
    ensures
        y % 4 != 0 ==> month_days(y, 2) == 28,
        y % 4 == 0 && y % 100 != 0 ==> month_days(y, 2) == 29,
        y % 100 == 0 && y % 400 != 0 ==> month_days(y, 2) == 28,
        y % 400 == 0 ==> month_days(y, 2) == 29,
        m <= 7 && m % 2 == 1 || m >= 8 && m % 2 == 0 ==> month_days(y, m) == 31,
        m <= 7 && m % 2 == 0 && m != 2 || m >= 8 && m % 2 == 1 ==> month_days(y, m) == 30,
{
}

/// A date is written as its year in four digits, its month in two and its day in two, with
/// hyphens between them, and each of them is read from there again.
pub proof fn law_dates_are_written(y: int, m: int, d: int)
    requires
        is_date(y, m, d),
        0 <= y <= 9999,
    ensures
        ({
            let s = date_text(y, m, d);
            &&& s.len() == 10 && s[4] == '-' && s[7] == '-'
            &&& digits::natural(s.subrange(0, 4)) == Some(y as nat)
            &&& digits::natural(s.subrange(5, 7)) == Some(m as nat)
            &&& digits::natural(s.subrange(8, 10)) == Some(d as nat)
        }),
{
    let a = digits::zero_padded(digits::decimal(y as nat), 4);
    let b = digits::zero_padded(digits::decimal(m as nat), 2);
    let c = digits::zero_padded(digits::decimal(d as nat), 2);
    digits::lemma_decimal(y as nat);
    digits::lemma_decimal(m as nat);
    digits::lemma_decimal(d as nat);
    digits::law_zeros_leave_the_value(digits::decimal(y as nat), 4);
    digits::law_zeros_leave_the_value(digits::decimal(m as nat), 2);
    digits::law_zeros_leave_the_value(digits::decimal(d as nat), 2);
    reveal_with_fuel(digits::decimal, 5);
    assert(digits::decimal(y as nat).len() <= 4);
    assert(digits::decimal(m as nat).len() <= 2);
    assert(digits::decimal(d as nat).len() <= 2);
    reveal_strlit("-");
    let s = date_text(y, m, d);
    assert(s == a + "-"@ + b + "-"@ + c);
    assert(s.subrange(0, 4) =~= a);
    assert(s.subrange(5, 7) =~= b);
    assert(s.subrange(8, 10) =~= c);
}

/// A time is in whole milliseconds since the epoch, with what is left over dropped; a clock
/// that stands before the epoch reads as it.
pub proof fn law_time_is_in_milliseconds(secs: u64, nanos: u32)
    requires
        nanos < 1_000_000_000,
        secs < 9_000_000_000_000_000,
    ensures
        ({
            let t = time_in(Some((secs, nanos)));
            let exact = secs * 1_000_000_000 + nanos;
            t * 1_000_000 <= exact < (t + 1) * 1_000_000
        }),
        time_in(None) == 0,
{
}

} // verus!

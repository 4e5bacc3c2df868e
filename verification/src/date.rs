//! A proleptic-Gregorian calendar date, stored as a count of days since
//! 1970-01-01, with the day-count conversions of Howard Hinnant's
//! `days_from_civil` / `civil_from_days` algorithms.

use vstd::prelude::*;
use vstd::arithmetic::div_mod::{lemma_fundamental_div_mod, lemma_mod_bound};

use crate::text::{
    append_chars, append_str, chars_eq_str, chars_of, debug_chars, debug_quoted_char, debug_text,
    debug_char_text, digits_value, int_text, parse_i32, parse_i32_chars, parse_u32, parse_u32_chars,
    slice_chars, split_char, split_chars, string_of, trim, trim_chars, uint_chars, zero_padded,
    zero_padded_chars,
};

verus! {

// ---------------------------------------------------------------------
// Calendar arithmetic (specification)
// ---------------------------------------------------------------------

pub open spec fn is_leap(y: int) -> bool {
    (y % 4 == 0 && y % 100 != 0) || y % 400 == 0
}

/// Days in month `m` (1..=12) of year `y`; 0 for any other `m`.
pub open spec fn month_length(y: int, m: int) -> int {
    if m == 1 || m == 3 || m == 5 || m == 7 || m == 8 || m == 10 || m == 12 {
        31
    } else if m == 4 || m == 6 || m == 9 || m == 11 {
        30
    } else if m == 2 {
        if is_leap(y) {
            29
        } else {
            28
        }
    } else {
        0
    }
}

/// A real calendar date.
pub open spec fn valid_ymd(y: int, m: int, d: int) -> bool {
    1 <= m <= 12 && 1 <= d <= month_length(y, m)
}

/// The year counted from March (January and February belong to the
/// previous one), so that the leap day is the last day of a year.
pub open spec fn march_year(y: int, m: int) -> int {
    if m <= 2 {
        y - 1
    } else {
        y
    }
}

/// Month index counted from March: March is 0, February is 11.
pub open spec fn march_month(m: int) -> int {
    (m + 9) % 12
}

/// Day of the March-based year on which March-based month `mp` starts.
pub open spec fn march_month_start(mp: int) -> int {
    (153 * mp + 2) / 5
}

/// Day of a 400-year era on which its year `yoe` starts.
pub open spec fn year_start(yoe: int) -> int {
    365 * yoe + yoe / 4 - yoe / 100
}

/// Days from 1970-01-01 to the date `y-m-d` (negative before it).
pub open spec fn days_of_civil(y: int, m: int, d: int) -> int {
    let ys = march_year(y, m);
    let era = ys / 400;
    let yoe = ys - era * 400;
    let doy = march_month_start(march_month(m)) + d - 1;
    era * 146097 + year_start(yoe) + doy - 719468
}

/// The year of a 400-year era on which day `doe` of the era falls.
pub open spec fn year_of_era(doe: int) -> int {
    (doe - doe / 1460 + doe / 36524 - doe / 146096) / 365
}

/// The date `z` days after 1970-01-01, as (year, month, day).
pub open spec fn civil_of_days(z: int) -> (int, int, int) {
    let zz = z + 719468;
    let era = zz / 146097;
    let doe = zz - era * 146097;
    let yoe = year_of_era(doe);
    let y = yoe + era * 400;
    let doy = doe - year_start(yoe);
    let mp = (5 * doy + 2) / 153;
    let d = doy - march_month_start(mp) + 1;
    let m = if mp < 10 {
        mp + 3
    } else {
        mp - 9
    };
    (if m <= 2 {
        y + 1
    } else {
        y
    }, m, d)
}

/// Length of March-based year `yoe` of an era.
pub open spec fn era_year_length(yoe: int) -> int {
    if is_leap(yoe + 1) {
        366
    } else {
        365
    }
}

/// Length of March-based month `mp` in a year whose February has
/// `feb` days.
pub open spec fn march_month_length(mp: int, leap: bool) -> int {
    if mp == 11 {
        if leap {
            29
        } else {
            28
        }
    } else if mp == 1 || mp == 3 || mp == 6 || mp == 8 {
        30
    } else {
        31
    }
}

// ---------------------------------------------------------------------
// Proofs about the conversions
// ---------------------------------------------------------------------

proof fn lemma_div(x: int, d: int)
    requires
        d > 0,
    ensures
        x == d * (x / d) + x % d,
        0 <= x % d < d,
{
    lemma_fundamental_div_mod(x, d);
    lemma_mod_bound(x, d);
}

proof fn lemma_leap_shift(y: int, k: int)
    ensures
        is_leap(y + 400 * k) == is_leap(y),
{
    lemma_div(y, 4);
    lemma_div(y + 400 * k, 4);
    lemma_div(y, 100);
    lemma_div(y + 400 * k, 100);
    lemma_div(y, 400);
    lemma_div(y + 400 * k, 400);
    assert((y + 400 * k) % 4 == y % 4) by {
        vstd::arithmetic::div_mod::lemma_mod_multiples_vanish(100 * k, y, 4);
        assert(4 * (100 * k) == 400 * k) by (nonlinear_arith);
    }
    assert((y + 400 * k) % 100 == y % 100) by {
        vstd::arithmetic::div_mod::lemma_mod_multiples_vanish(4 * k, y, 100);
        assert(100 * (4 * k) == 400 * k) by (nonlinear_arith);
    }
    assert((y + 400 * k) % 400 == y % 400) by {
        vstd::arithmetic::div_mod::lemma_mod_multiples_vanish(k, y, 400);
    }
}

/// Within an era, year `yoe` begins on day `year_start(yoe)` and has
/// `era_year_length(yoe)` days; the next year begins right after.
proof fn lemma_year_start_step(yoe: int)
    requires
        0 <= yoe <= 399,
    ensures
        yoe < 399 ==> year_start(yoe + 1) == year_start(yoe) + era_year_length(yoe),
        year_start(yoe) >= 0,
        year_start(399) + era_year_length(399) == 146097,
{
    lemma_div(yoe, 4);
    lemma_div(yoe + 1, 4);
    lemma_div(yoe, 100);
    lemma_div(yoe + 1, 100);
    lemma_div(yoe + 1, 400);
    lemma_div(399, 4);
    lemma_div(399, 100);
    lemma_div(400, 4);
    lemma_div(400, 100);
    lemma_div(400, 400);
}

/// The heart of `civil_from_days`: day `year_start(yoe) + doy` of an era
/// falls in year `yoe`.
proof fn lemma_year_of_era(yoe: int, doy: int)
    requires
        0 <= yoe <= 399,
        0 <= doy < era_year_length(yoe),
    ensures
        0 <= year_start(yoe) + doy <= 146096,
        year_of_era(year_start(yoe) + doy) == yoe,
{
    let n = year_start(yoe) + doy;
    lemma_div(yoe, 4);
    lemma_div(yoe, 100);
    let a = yoe / 4;
    let b = yoe % 4;
    let c = yoe / 100;
    lemma_div(a, 25);
    let e = a % 25;
    assert(a / 25 == c) by {
        // yoe = 100 * (a / 25) + 4 * e + b with 4 * e + b < 100
        assert(yoe == 100 * (a / 25) + 4 * e + b);
        vstd::arithmetic::div_mod::lemma_fundamental_div_mod_converse(yoe, 100, a / 25, 4 * e + b);
    }
    // the leap day of year yoe + 1
    lemma_div(yoe + 1, 4);
    lemma_div(yoe + 1, 100);
    lemma_div(yoe + 1, 400);
    assert(is_leap(yoe + 1) ==> b == 3);
    assert(b == 3 && e == 24 && c < 3 ==> !is_leap(yoe + 1)) by {
        if b == 3 && e == 24 && c < 3 {
            assert(yoe + 1 == 100 * (c + 1));
            vstd::arithmetic::div_mod::lemma_fundamental_div_mod_converse(yoe + 1, 100, c + 1, 0);
            vstd::arithmetic::div_mod::lemma_fundamental_div_mod_converse(yoe + 1, 400, 0, yoe + 1);
        }
    }
    lemma_div(n, 1460);
    lemma_div(n, 36524);
    lemma_div(n, 146096);
    let k1 = n / 1460;
    let k2 = n / 36524;
    let k3 = n / 146096;
    // n = 1461 a + 365 b - c + doy = 36524 c + 1461 e + 365 b + doy
    assert(n == 1461 * a + 365 * b - c + doy);
    assert(n == 36524 * c + 1461 * e + 365 * b + doy);
    assert(0 <= n <= 146096);
    // k2 - k3 == c
    if n == 146096 {
        assert(k2 == 4 && k3 == 1);
    } else {
        assert(k3 == 0);
        assert(1461 * e + 365 * b + doy < 36524);
        assert(k2 == c);
    }
    // a <= k1 <= a + doy, and k1 >= a + 1 on a leap day
    assert(k1 >= a);
    assert(k1 <= a + doy);
    if doy == 365 {
        assert(k1 >= a + 1);
    }
    let big_a = n - k1 + k2 - k3;
    assert(365 * yoe <= big_a < 365 * (yoe + 1));
    lemma_div(big_a, 365);
}

/// Every day of an era lies in exactly one of its years.
proof fn lemma_find_year(doe: int, k: int) -> (yoe: int)
    requires
        0 <= k <= 399,
        year_start(k) <= doe <= 146096,
    ensures
        0 <= yoe <= 399,
        year_start(yoe) <= doe < year_start(yoe) + era_year_length(yoe),
    decreases 400 - k,
{
    lemma_year_start_step(k);
    if doe < year_start(k) + era_year_length(k) {
        k
    } else {
        if k == 399 {
            assert(false);
        }
        lemma_find_year(doe, k + 1)
    }
}

/// March-based month `mp` starts on `march_month_start(mp)`; days
/// `0..length` of it give back `mp`.
proof fn lemma_month_of_year(mp: int, dd: int, leap: bool)
    requires
        0 <= mp <= 11,
        0 <= dd < march_month_length(mp, leap),
    ensures
        (5 * (march_month_start(mp) + dd) + 2) / 153 == mp,
        march_month_start(mp) + dd <= 364 + (if leap { 1int } else { 0int }),
{
    lemma_div(153 * mp + 2, 5);
    let s = march_month_start(mp);
    assert(s == (if mp == 0 { 0int } else if mp == 1 { 31int } else if mp == 2 { 61int } else if mp == 3 {
        92int
    } else if mp == 4 { 122int } else if mp == 5 { 153int } else if mp == 6 { 184int } else if mp == 7 {
        214int
    } else if mp == 8 { 245int } else if mp == 9 { 275int } else if mp == 10 { 306int } else { 337int }));
    lemma_div(5 * (s + dd) + 2, 153);
}

/// Every day of a March-based year lies in exactly one of its months.
proof fn lemma_find_month(doy: int, leap: bool) -> (mp: int)
    requires
        0 <= doy <= 364 + (if leap { 1int } else { 0int }),
    ensures
        0 <= mp <= 11,
        march_month_start(mp) <= doy < march_month_start(mp) + march_month_length(mp, leap),
{
    let r = if doy >= 337 { 11int } else if doy >= 306 { 10int } else if doy >= 275 { 9int } else if doy
        >= 245 { 8int } else if doy >= 214 { 7int } else if doy >= 184 { 6int } else if doy >= 153 {
        5int
    } else if doy >= 122 { 4int } else if doy >= 92 { 3int } else if doy >= 61 { 2int } else if doy
        >= 31 { 1int } else { 0int };
    lemma_div(153 * r + 2, 5);
    r
}

/// `march_month` and `march_month_length` describe the civil calendar.
proof fn lemma_march_month(y: int, m: int)
    requires
        1 <= m <= 12,
    ensures
        0 <= march_month(m) <= 11,
        march_month_length(march_month(m), is_leap(march_year(y, m) + 1)) == month_length(y, m),
        (if march_month(m) < 10 { march_month(m) + 3 } else { march_month(m) - 9 }) == m,
{
    lemma_div(m + 9, 12);
}

/// Round trip: the day count of a real date converts back to that date.
pub proof fn lemma_civil_round_trip(y: int, m: int, d: int)
    requires
        valid_ymd(y, m, d),
    ensures
        civil_of_days(days_of_civil(y, m, d)) == (y, m, d),
{
    let ys = march_year(y, m);
    lemma_div(ys, 400);
    let era = ys / 400;
    let yoe = ys - era * 400;
    lemma_march_month(y, m);
    let mp = march_month(m);
    lemma_leap_shift(yoe + 1, era);
    assert(ys + 1 == yoe + 1 + 400 * era);
    let leap = is_leap(yoe + 1);
    lemma_month_of_year(mp, d - 1, leap);
    let doy = march_month_start(mp) + d - 1;
    assert(0 <= doy < era_year_length(yoe));
    lemma_year_of_era(yoe, doy);
    let doe = year_start(yoe) + doy;
    let z = days_of_civil(y, m, d);
    let zz = z + 719468;
    assert(zz == era * 146097 + doe);
    lemma_div(zz, 146097);
    vstd::arithmetic::div_mod::lemma_fundamental_div_mod_converse(zz, 146097, era, doe);
}

/// Every day count converts to a real date, which converts back to it.
pub proof fn lemma_days_round_trip(z: int)
    ensures
        valid_ymd(civil_of_days(z).0, civil_of_days(z).1, civil_of_days(z).2),
        days_of_civil(civil_of_days(z).0, civil_of_days(z).1, civil_of_days(z).2) == z,
{
    let zz = z + 719468;
    lemma_div(zz, 146097);
    let era = zz / 146097;
    let doe = zz - era * 146097;
    lemma_year_start_step(0);
    let yoe = lemma_find_year(doe, 0);
    let doy = doe - year_start(yoe);
    lemma_year_of_era(yoe, doy);
    let leap = is_leap(yoe + 1);
    let mp = lemma_find_month(doy, leap);
    lemma_month_of_year(mp, doy - march_month_start(mp), leap);
    let (cy, cm, cd) = civil_of_days(z);
    assert(cm == (if mp < 10 { mp + 3 } else { mp - 9 }));
    assert(cd == doy - march_month_start(mp) + 1);
    lemma_march_month(cy, cm);
    assert(march_month(cm) == mp) by {
        lemma_div(cm + 9, 12);
    }
    assert(march_year(cy, cm) == yoe + era * 400);
    lemma_leap_shift(yoe + 1, era);
    assert(valid_ymd(cy, cm, cd));
    let ys = march_year(cy, cm);
    lemma_div(ys, 400);
    vstd::arithmetic::div_mod::lemma_fundamental_div_mod_converse(ys, 400, era, yoe);
}

/// Chronological order: a later date has a larger day count.
pub proof fn lemma_days_monotone(y1: int, m1: int, d1: int, y2: int, m2: int, d2: int)
    requires
        valid_ymd(y1, m1, d1),
        valid_ymd(y2, m2, d2),
        y1 < y2 || (y1 == y2 && m1 < m2) || (y1 == y2 && m1 == m2 && d1 < d2),
    ensures
        days_of_civil(y1, m1, d1) < days_of_civil(y2, m2, d2),
{
    let z1 = days_of_civil(y1, m1, d1);
    let z2 = days_of_civil(y2, m2, d2);
    lemma_days_round_trip(z1);
    lemma_days_round_trip(z2);
    lemma_civil_round_trip(y1, m1, d1);
    lemma_civil_round_trip(y2, m2, d2);
    if z1 >= z2 {
        lemma_civil_order(z2, z1);
    }
}

/// Converting day counts back to dates is monotone.
proof fn lemma_civil_order(za: int, zb: int)
    requires
        za <= zb,
    ensures
        ({
            let (ya, ma, da) = civil_of_days(za);
            let (yb, mb, db) = civil_of_days(zb);
            ya < yb || (ya == yb && ma < mb) || (ya == yb && ma == mb && da <= db)
        }),
    decreases zb - za,
{
    if za < zb {
        lemma_civil_order(za, zb - 1);
        lemma_civil_next(zb - 1);
    }
}

/// The day after a date is the next calendar date.
proof fn lemma_civil_next(z: int)
    ensures
        ({
            let (ya, ma, da) = civil_of_days(z);
            let (yb, mb, db) = civil_of_days(z + 1);
            ya < yb || (ya == yb && ma < mb) || (ya == yb && ma == mb && da < db)
        }),
{
    let (ya, ma, da) = civil_of_days(z);
    lemma_days_round_trip(z);
    lemma_days_round_trip(z + 1);
    let (yb, mb, db) = civil_of_days(z + 1);
    if da < month_length(ya, ma) {
        lemma_civil_round_trip(ya, ma, da + 1);
        assert(days_of_civil(ya, ma, da + 1) == z + 1);
    } else if ma < 12 {
        lemma_march_month(ya, ma);
        lemma_march_month(ya, ma + 1);
        lemma_civil_round_trip(ya, ma + 1, 1);
        lemma_next_month_day(ya, ma);
    } else {
        lemma_civil_round_trip(ya + 1, 1, 1);
        lemma_next_year_day(ya);
    }
}

proof fn lemma_next_month_day(y: int, m: int)
    requires
        1 <= m <= 11,
    ensures
        days_of_civil(y, m + 1, 1) == days_of_civil(y, m, month_length(y, m)) + 1,
{
    lemma_march_month(y, m);
    lemma_march_month(y, m + 1);
    lemma_div(y, 400);
    lemma_div(y - 1, 400);
    if m == 2 {
        // February ends the March-based year y - 1; March starts year y
        let ys = y - 1;
        let era = ys / 400;
        let yoe = ys - era * 400;
        lemma_leap_shift(yoe + 1, era);
        assert(ys + 1 == yoe + 1 + 400 * era);
        lemma_year_start_step(yoe);
        lemma_div(1685, 5);
        if yoe == 399 {
            assert(y == 400 * (era + 1));
            vstd::arithmetic::div_mod::lemma_fundamental_div_mod_converse(y, 400, era + 1, 0);
        } else {
            vstd::arithmetic::div_mod::lemma_fundamental_div_mod_converse(y, 400, era, yoe + 1);
        }
    } else {
        lemma_div(153 * march_month(m) + 2, 5);
        lemma_div(153 * march_month(m + 1) + 2, 5);
    }
}

proof fn lemma_next_year_day(y: int)
    ensures
        days_of_civil(y + 1, 1, 1) == days_of_civil(y, 12, 31) + 1,
{
    lemma_march_month(y, 12);
    lemma_march_month(y + 1, 1);
    lemma_div(1379, 5);
    lemma_div(1532, 5);
}

// ---------------------------------------------------------------------
// The executable date type
// ---------------------------------------------------------------------

/// Largest supported distance from the epoch, in days: the civil-date
/// conversion adds 719 468 days to the count in `i64`.
pub open spec fn day_limit() -> int {
    0x7fff_ffff_fff5_0593int
}

/// A calendar date, stored as days since 1970-01-01.
#[derive(Debug, Clone, Copy, PartialEq, Eq, PartialOrd, Ord, Hash)]
pub struct Date {
    days_since_epoch: i64,
}

/// Whether `year` is a leap year.
pub fn is_leap_year(year: i32) -> (r: bool)
    ensures
        r == is_leap(year as int),
{
    (year % 4 == 0 && year % 100 != 0) || year % 400 == 0
}

/// Days in `month` of `year`; 0 when `month` is not in 1..=12.
pub fn days_in_month(year: i32, month: u32) -> (r: u32)
    ensures
        r == month_length(year as int, month as int),
{
    match month {
        1 | 3 | 5 | 7 | 8 | 10 | 12 => 31,
        4 | 6 | 9 | 11 => 30,
        2 => {
            if is_leap_year(year) {
                29
            } else {
                28
            }
        },
        _ => 0,
    }
}

/// Howard Hinnant's `days_from_civil`: the day count of `y-m-d`.
pub fn days_from_civil(y: i32, m: u32, d: u32) -> (r: i64)
    requires
        1 <= m <= 12,
        d <= 31,
    ensures
        r == days_of_civil(y as int, m as int, d as int),
{
    let y: i64 = if m <= 2 { y as i64 - 1 } else { y as i64 };
    let era: i64 = (if y >= 0 { y } else { y - 399 }) / 400;
    let yoe: i64 = y - era * 400;
    let mp: i64 = (m as i64 + 9) % 12;
    let doy: i64 = (153 * mp + 2) / 5 + d as i64 - 1;
    let doe: i64 = yoe * 365 + yoe / 4 - yoe / 100 + doy;
    proof {
        lemma_div(y as int, 400);
        if y < 0 {
            let q = (y as int) / 400;
            let r = (y as int) % 400;
            // truncation of (y - 399) / 400 is the floor of y / 400
            assert(era == q) by {
                lemma_div(399 - y as int, 400);
                assert(era == -((399 - y as int) / 400));
                vstd::arithmetic::div_mod::lemma_fundamental_div_mod_converse(
                    399 - y as int,
                    400,
                    -q,
                    399 - r,
                );
            }
        }
    }
    era * 146097 + doe - 719468
}

/// Howard Hinnant's `civil_from_days`: the date of day count `z`, with the
/// year truncated to `i32`.
pub fn civil_from_days(z: i64) -> (r: (i32, u32, u32))
    requires
        -day_limit() <= z <= day_limit(),
    ensures
        r.0 == civil_of_days(z as int).0 as i32,
        r.1 == civil_of_days(z as int).1,
        r.2 == civil_of_days(z as int).2,
{
    proof {
        lemma_days_round_trip(z as int);
    }
    let z = z + 719468;
    let era: i64 = (if z >= 0 { z } else { z - 146096 }) / 146097;
    proof {
        lemma_div(z as int, 146097);
        if z < 0 {
            let q = (z as int) / 146097;
            let r = (z as int) % 146097;
            assert(era == q) by {
                lemma_div(146096 - z as int, 146097);
                assert(era == -((146096 - z as int) / 146097));
                vstd::arithmetic::div_mod::lemma_fundamental_div_mod_converse(
                    146096 - z as int,
                    146097,
                    -q,
                    146096 - r,
                );
            }
        }
    }
    let doe: i64 = z - era * 146097;
    let yoe: i64 = (doe - doe / 1460 + doe / 36524 - doe / 146096) / 365;
    let y: i64 = yoe + era * 400;
    let doy: i64 = doe - (365 * yoe + yoe / 4 - yoe / 100);
    let mp: i64 = (5 * doy + 2) / 153;
    let d: u32 = (doy - (153 * mp + 2) / 5 + 1) as u32;
    let m: u32 = (if mp < 10 { mp + 3 } else { mp - 9 }) as u32;
    let y: i64 = if m <= 2 { y + 1 } else { y };
    (y as i32, m, d)
}

impl Date {
    /// The day count.
    pub closed spec fn days(self) -> int {
        self.days_since_epoch as int
    }

    #[verifier::type_invariant]
    spec fn in_range(self) -> bool {
        -day_limit() <= self.days_since_epoch <= day_limit()
    }

    /// The calendar date `(year, month, day)` this date stands for.
    pub open spec fn ymd(self) -> (int, int, int) {
        civil_of_days(self.days())
    }

    /// Construct a date from a (year, month, day) triple, validating that it
    /// is a real calendar date.
    pub fn from_ymd(year: i32, month: u32, day: u32) -> (r: Result<Date, String>)
        ensures
            r is Ok <==> valid_ymd(year as int, month as int, day as int),
            r matches Ok(dt) ==> dt.days() == days_of_civil(year as int, month as int, day as int)
                && dt.ymd() == (year as int, month as int, day as int),
            r matches Err(e) ==> ymd_error(year as int, month as int, day as int) == Some(e@),
            r is Ok ==> ymd_error(year as int, month as int, day as int) is None,
    {
        if !(1 <= month && month <= 12) {
            return Err(invalid_date_message("invalid month ", month, year, month, day));
        }
        let dim = days_in_month(year, month);
        if day == 0 || day > dim {
            return Err(invalid_date_message("invalid day ", day, year, month, day));
        }
        proof {
            lemma_civil_round_trip(year as int, month as int, day as int);
            lemma_days_bound(year as int, month as int, day as int);
        }
        Ok(Date { days_since_epoch: days_from_civil(year, month, day) })
    }

    pub fn from_days_since_epoch(days: i64) -> (r: Date)
        requires
            -day_limit() <= days <= day_limit(),
        ensures
            r.days() == days,
    {
        Date { days_since_epoch: days }
    }

    pub fn days_since_epoch(&self) -> (r: i64)
        ensures
            r == self.days(),
    {
        self.days_since_epoch
    }

    pub fn year_month_day(&self) -> (r: (i32, u32, u32))
        ensures
            r.0 == self.ymd().0 as i32,
            r.1 == self.ymd().1,
            r.2 == self.ymd().2,
            valid_ymd(self.ymd().0, self.ymd().1, self.ymd().2),
    {
        proof {
            use_type_invariant(self);
            lemma_days_round_trip(self.days());
        }
        civil_from_days(self.days_since_epoch)
    }

    pub fn year(&self) -> (r: i32)
        ensures
            r == self.ymd().0 as i32,
    {
        self.year_month_day().0
    }

    pub fn month(&self) -> (r: u32)
        ensures
            r == self.ymd().1,
            1 <= r <= 12,
    {
        self.year_month_day().1
    }

    pub fn day(&self) -> (r: u32)
        ensures
            r == self.ymd().2,
            1 <= r <= 31,
    {
        self.year_month_day().2
    }

    /// `n` days later (earlier for negative `n`).
    pub fn add_days(&self, n: i64) -> (r: Date)
        requires
            -day_limit() <= self.days() + n <= day_limit(),
        ensures
            r.days() == self.days() + n,
    {
        proof {
            use_type_invariant(self);
        }
        Date { days_since_epoch: self.days_since_epoch + n }
    }
}

proof fn lemma_days_bound(y: int, m: int, d: int)
    requires
        valid_ymd(y, m, d),
        -0x8000_0000 <= y < 0x8000_0000,
    ensures
        -day_limit() <= days_of_civil(y, m, d) <= day_limit(),
{
    let ys = march_year(y, m);
    lemma_div(ys, 400);
    lemma_march_month(y, m);
    lemma_div(153 * march_month(m) + 2, 5);
    let yoe = ys - (ys / 400) * 400;
    lemma_div(yoe, 4);
    lemma_div(yoe, 100);
}

/// `format!("{y:04}-{m:02}-{d:02}")`.
pub open spec fn ymd_text(y: int, m: int, d: int) -> Seq<char> {
    zero_padded(y, 4) + seq!['-'] + zero_padded(m, 2) + seq!['-'] + zero_padded(d, 2)
}

/// `Display` of a date: `YYYY-MM-DD`.
pub open spec fn date_text(dt: Date) -> Seq<char> {
    ymd_text(dt.ymd().0 as i32 as int, dt.ymd().1, dt.ymd().2)
}

/// The error `from_ymd` gives for `y-m-d`, if any.
pub open spec fn ymd_error(y: int, m: int, d: int) -> Option<Seq<char>> {
    if !(1 <= m <= 12) {
        Some("invalid month "@ + int_text(m) + " in date "@ + ymd_text(y, m, d))
    } else if !(1 <= d <= month_length(y, m)) {
        Some("invalid day "@ + int_text(d) + " in date "@ + ymd_text(y, m, d))
    } else {
        None
    }
}

/// The message of an invalid-date error: `{what}{value} in date YYYY-MM-DD`.
fn invalid_date_message(what: &str, value: u32, year: i32, month: u32, day: u32) -> (r: String)
    ensures
        r@ == what@ + int_text(value as int) + " in date "@ + ymd_text(year as int, month as int, day as int),
{
    let mut v: Vec<char> = chars_of(what);
    let n = uint_chars(value as u64);
    append_chars(&mut v, &n);
    append_str(&mut v, " in date ");
    let t = ymd_chars(year as i64, month as i64, day as i64);
    append_chars(&mut v, &t);
    string_of(&v)
}

/// `format!("{y:04}-{m:02}-{d:02}")`.
fn ymd_chars(y: i64, m: i64, d: i64) -> (r: Vec<char>)
    ensures
        r@ == ymd_text(y as int, m as int, d as int),
{
    let mut v = zero_padded_chars(y, 4);
    v.push('-');
    let mm = zero_padded_chars(m, 2);
    append_chars(&mut v, &mm);
    v.push('-');
    let dd = zero_padded_chars(d, 2);
    append_chars(&mut v, &dd);
    v
}

/// The fields of a `YYYY-MM-DD` text: three `-`-separated parts parsed as
/// `i32`, `u32`, `u32`, or the message of the first that fails.
pub open spec fn iso_fields(s: Seq<char>) -> Result<(i32, u32, u32), Seq<char>> {
    let parts = split_char(s, '-');
    if parts.len() != 3 {
        Err("expected date in YYYY-MM-DD form, got "@ + debug_text(s))
    } else if parse_i32(parts[0]) is None {
        Err("bad year in "@ + debug_text(s))
    } else if parse_u32(parts[1]) is None {
        Err("bad month in "@ + debug_text(s))
    } else if parse_u32(parts[2]) is None {
        Err("bad day in "@ + debug_text(s))
    } else {
        Ok((parse_i32(parts[0]).unwrap(), parse_u32(parts[1]).unwrap(), parse_u32(parts[2]).unwrap()))
    }
}

/// What parsing `YYYY-MM-DD` yields: the date's fields, or the error text.
pub open spec fn iso_result(s: Seq<char>) -> Result<(int, int, int), Seq<char>> {
    match iso_fields(s) {
        Err(e) => Err(e),
        Ok((y, m, d)) => match ymd_error(y as int, m as int, d as int) {
            Some(e) => Err(e),
            None => Ok((y as int, m as int, d as int)),
        },
    }
}

/// A date result agrees with a specified outcome.
pub open spec fn date_result_is(r: Result<Date, String>, spec: Result<(int, int, int), Seq<char>>) -> bool {
    match (r, spec) {
        (Ok(dt), Ok(t)) => dt.ymd() == t,
        (Err(e), Err(m)) => e@ == m,
        _ => false,
    }
}

/// `width` for a `%` directive of a date format.
pub open spec fn directive_width(spec: char) -> nat {
    if spec == 'Y' {
        4
    } else if spec == 'y' || spec == 'm' || spec == 'd' {
        2
    } else {
        4
    }
}

/// The number of leading ASCII digits of `s`, at most `max`.
pub open spec fn leading_digits(s: Seq<char>, max: nat) -> nat
    decreases s.len(),
{
    if s.len() == 0 || max == 0 || !('0' <= s[0] <= '9') {
        0
    } else {
        1 + leading_digits(s.drop_first(), (max - 1) as nat)
    }
}

/// The state of a format-driven date parse: year, month, day seen so far.
pub type FieldState = (Option<int>, Option<int>, Option<int>);

/// Runs the format `fmt` from position `fi` over the remaining input.
pub open spec fn format_fields(
    s: Seq<char>,
    fmt: Seq<char>,
    fi: int,
    input: Seq<char>,
    st: FieldState,
) -> Result<FieldState, Seq<char>>
    decreases fmt.len() - fi,
{
    if fi < 0 || fi >= fmt.len() {
        Ok(st)
    } else if fmt[fi] == '%' {
        if fi + 1 >= fmt.len() {
            Err("dangling % in date format"@)
        } else {
            let spec = fmt[fi + 1];
            let n = leading_digits(input, directive_width(spec));
            let digits = input.take(n as int);
            if n == 0 {
                Err("could not read "@ + seq![spec] + " field from "@ + debug_text(s) + " using "@
                    + debug_text(fmt))
            } else {
                let value = digits_value(digits) as int;
                let rest = input.skip(n as int);
                if spec == 'Y' {
                    format_fields(s, fmt, fi + 2, rest, (Some(value), st.1, st.2))
                } else if spec == 'y' {
                    format_fields(s, fmt, fi + 2, rest, (Some(2000 + value), st.1, st.2))
                } else if spec == 'm' {
                    format_fields(s, fmt, fi + 2, rest, (st.0, Some(value), st.2))
                } else if spec == 'd' {
                    format_fields(s, fmt, fi + 2, rest, (st.0, st.1, Some(value)))
                } else {
                    Err("unsupported date format directive %"@ + seq![spec])
                }
            }
        }
    } else if input.len() > 0 && input[0] == fmt[fi] {
        format_fields(s, fmt, fi + 1, input.drop_first(), st)
    } else {
        Err("expected literal "@ + debug_char_text(fmt[fi]) + " while parsing "@ + debug_text(s)
            + " with format "@ + debug_text(fmt))
    }
}

/// What `parse_with_format(s, fmt)` yields.
pub open spec fn format_result(s: Seq<char>, fmt: Seq<char>) -> Result<(int, int, int), Seq<char>> {
    match format_fields(s, fmt, 0, trim(s), (None, None, None)) {
        Err(e) => Err(e),
        Ok((y, m, d)) => if y is None {
            Err("date format has no %Y/%y"@)
        } else if m is None {
            Err("date format has no %m"@)
        } else if d is None {
            Err("date format has no %d"@)
        } else {
            match ymd_error(y.unwrap(), m.unwrap(), d.unwrap()) {
                Some(e) => Err(e),
                None => Ok((y.unwrap(), m.unwrap(), d.unwrap())),
            }
        },
    }
}

/// Whole seconds since the Unix epoch by the system clock, `None` when the
/// clock reads earlier than the epoch. Calls
/// `SystemTime::now().duration_since(UNIX_EPOCH)`; nothing is claimed of
/// the value, which is the time.
#[verifier::external_body]
fn system_clock_seconds() -> (r: Option<u64>) {
    match std::time::SystemTime::now().duration_since(std::time::UNIX_EPOCH) {
        Ok(d) => Some(d.as_secs()),
        Err(_) => None,
    }
}

/// `width` of a `%` directive.
pub fn spec_len(spec: char) -> (r: usize)
    ensures
        r == directive_width(spec),
{
    match spec {
        'Y' => 4,
        'y' | 'm' | 'd' => 2,
        _ => 4,
    }
}

/// The number of leading ASCII digits of `s[from..]`, at most `max`.
pub fn take_digits(s: &Vec<char>, from: usize, max: usize) -> (r: usize)
    requires
        from <= s.len(),
    ensures
        r == leading_digits(s@.skip(from as int), max as nat),
        from + r <= s.len(),
        r <= max,
{
    let mut count: usize = 0;
    while from + count < s.len() && count < max && '0' <= s[from + count] && s[from + count] <= '9'
        invariant
            from <= s.len(),
            from + count <= s.len(),
            count <= max,
            leading_digits(s@.skip(from as int), max as nat) == count + leading_digits(
                s@.skip(from + count),
                (max - count) as nat,
            ),
        decreases s.len() - from - count,
    {
        assert(s@.skip(from + count).drop_first() =~= s@.skip(from + count + 1));
        count += 1;
    }
    count
}

impl Date {
    /// `Display`: `YYYY-MM-DD` (see [`date_text`]).
    pub fn to_string(&self) -> (r: String)
        ensures
            r@ == date_text(*self),
    {
        let (y, m, d) = self.year_month_day();
        let v = ymd_chars(y as i64, m as i64, d as i64);
        string_of(&v)
    }

    /// `Display` as characters.
    pub fn to_chars(&self) -> (r: Vec<char>)
        ensures
            r@ == date_text(*self),
    {
        let (y, m, d) = self.year_month_day();
        ymd_chars(y as i64, m as i64, d as i64)
    }

    /// The date (UTC) of a moment given as seconds since the Unix epoch:
    /// the days are the seconds divided by 86 400, rounded down.
    pub fn from_unix_seconds(secs: i64) -> (r: Date)
        ensures
            r.days() == secs as int / 86400,
    {
        let days: i64 = if secs >= 0 {
            secs / 86400
        } else {
            let up: i128 = (86399i128 - secs as i128) / 86400;
            proof {
                let s = secs as int;
                let q = up as int;
                assert(q == (86399 - s) / 86400);
                assert(0 - q == s / 86400) by (nonlinear_arith)
                    requires
                        q == (86399 - s) / 86400,
                        s < 0,
                ;
            }
            (0i128 - up) as i64
        };
        assert(days == secs as int / 86400);
        assert(-day_limit() < days < day_limit()) by (nonlinear_arith)
            requires
                days == secs as int / 86400,
                i64::MIN <= secs <= i64::MAX,
        ;
        Date { days_since_epoch: days }
    }

    /// The current calendar date from the system clock (UTC); a clock
    /// reading before the epoch counts as the epoch itself.
    pub fn today() -> (r: Date)
        ensures
            -day_limit() < r.days() < day_limit(),
    {
        let secs: i64 = match system_clock_seconds() {
            Some(s) => #[verifier::truncate] (s as i64),
            None => 0,
        };
        Date::from_unix_seconds(secs)
    }

    /// Parse `YYYY-MM-DD`, or the keywords `today` / `yesterday` (after
    /// trimming whitespace), with `today` the given date.
    pub fn parse_at(s: &str, today: Date) -> (r: Result<Date, String>)
        requires
            -day_limit() < today.days(),
        ensures
            trim(s@) != "today"@ && trim(s@) != "yesterday"@ ==> date_result_is(r, iso_result(trim(s@))),
            trim(s@) == "today"@ ==> r == Ok::<Date, String>(today),
            trim(s@) == "yesterday"@ ==> match r {
                Ok(y) => y.days() == today.days() - 1,
                Err(_) => false,
            },
    {
        proof {
            use_type_invariant(&today);
            reveal_strlit("today");
            reveal_strlit("yesterday");
        }
        let v = chars_of(s);
        let t = trim_chars(&v);
        if chars_eq_str(&t, "today") {
            assert(t@ != "yesterday"@) by {
                assert(t@.len() != "yesterday"@.len());
            }
            Ok(today)
        } else if chars_eq_str(&t, "yesterday") {
            let y = today.add_days(-1);
            assert(y.days() == today.days() - 1);
            Ok(y)
        } else {
            Date::parse_iso_chars(&t)
        }
    }

    /// Parse `YYYY-MM-DD`, or the keywords `today` / `yesterday` (after
    /// trimming whitespace), with `today` read from the system clock (see
    /// [`Date::parse_at`]).
    pub fn parse(s: &str) -> (r: Result<Date, String>)
        ensures
            trim(s@) != "today"@ && trim(s@) != "yesterday"@ ==> date_result_is(r, iso_result(trim(s@))),
            trim(s@) == "today"@ || trim(s@) == "yesterday"@ ==> r is Ok,
    {
        Date::parse_at(s, Date::today())
    }

    /// Parse `YYYY-MM-DD`: three `-`-separated integer fields forming a real
    /// date.
    pub fn parse_iso(s: &str) -> (r: Result<Date, String>)
        ensures
            date_result_is(r, iso_result(s@)),
    {
        let v = chars_of(s);
        Date::parse_iso_chars(&v)
    }

    /// [`Date::parse_iso`] on characters.
    pub fn parse_iso_chars(s: &Vec<char>) -> (r: Result<Date, String>)
        ensures
            date_result_is(r, iso_result(s@)),
    {
        let parts = split_chars(s, '-');
        if parts.len() != 3 {
            let mut m = chars_of("expected date in YYYY-MM-DD form, got ");
            let q = debug_chars(s);
            append_chars(&mut m, &q);
            return Err(string_of(&m));
        }
        let year = match parse_i32_chars(&parts[0]) {
            Some(y) => y,
            None => {
                let mut m = chars_of("bad year in ");
                let q = debug_chars(s);
                append_chars(&mut m, &q);
                return Err(string_of(&m));
            },
        };
        let month = match parse_u32_chars(&parts[1]) {
            Some(x) => x,
            None => {
                let mut m = chars_of("bad month in ");
                let q = debug_chars(s);
                append_chars(&mut m, &q);
                return Err(string_of(&m));
            },
        };
        let day = match parse_u32_chars(&parts[2]) {
            Some(x) => x,
            None => {
                let mut m = chars_of("bad day in ");
                let q = debug_chars(s);
                append_chars(&mut m, &q);
                return Err(string_of(&m));
            },
        };
        Date::from_ymd(year, month, day)
    }

    /// Parse a date against a strptime-like format: `%Y` (up to 4 digits),
    /// `%y` (up to 2 digits, 20xx), `%m`, `%d` (up to 2 digits each), and
    /// literal characters that must match exactly. The input is trimmed
    /// first.
    pub fn parse_with_format(s: &str, format: &str) -> (r: Result<Date, String>)
        ensures
            date_result_is(r, format_result(s@, format@)),
    {
        let sv = chars_of(s);
        let fmt = chars_of(format);
        let input = trim_chars(&sv);
        let mut year: Option<i32> = None;
        let mut month: Option<u32> = None;
        let mut day: Option<u32> = None;
        let mut fi: usize = 0;
        let mut pos: usize = 0;
        assert(input@.skip(0) =~= input@);
        while fi < fmt.len()
            invariant
                sv@ == s@,
                fmt@ == format@,
                input@ == trim(s@),
                pos <= input.len(),
                fi <= fmt.len(),
                format_fields(sv@, fmt@, 0, input@, (None, None, None)) == format_fields(
                    sv@,
                    fmt@,
                    fi as int,
                    input@.skip(pos as int),
                    (
                        match year { Some(y) => Some(y as int), None => None::<int> },
                        match month { Some(x) => Some(x as int), None => None::<int> },
                        match day { Some(x) => Some(x as int), None => None::<int> },
                    ),
                ),
                year matches Some(y) ==> 0 <= y <= 11999,
                month matches Some(x) ==> x <= 9999,
                day matches Some(x) ==> x <= 9999,
            decreases fmt.len() - fi,
        {
            let ghost st: FieldState = (
                match year { Some(y) => Some(y as int), None => None::<int> },
                match month { Some(x) => Some(x as int), None => None::<int> },
                match day { Some(x) => Some(x as int), None => None::<int> },
            );
            let ghost rest = input@.skip(pos as int);
            assert(format_fields(sv@, fmt@, 0, input@, (None, None, None)) == format_fields(sv@, fmt@, fi as int, rest, st));
            let fc = fmt[fi];
            if fc == '%' {
                if fi + 1 >= fmt.len() {
                    return Err(String::from_str("dangling % in date format"));
                }
                let spec = fmt[fi + 1];
                let width = spec_len(spec);
                let n = take_digits(&input, pos, width);
                if n == 0 {
                    let mut m = chars_of("could not read ");
                    m.push(spec);
                    append_str(&mut m, " field from ");
                    let q = debug_chars(&sv);
                    append_chars(&mut m, &q);
                    append_str(&mut m, " using ");
                    let q2 = debug_chars(&fmt);
                    append_chars(&mut m, &q2);
                    assert(m@ =~= "could not read "@ + seq![spec] + " field from "@ + debug_text(s@)
                        + " using "@ + debug_text(format@));
                    return Err(string_of(&m));
                }
                let digits = slice_chars(&input, pos, pos + n);
                proof {
                    lemma_leading_digits(input@.skip(pos as int), width as nat);
                    assert(digits@ =~= input@.skip(pos as int).take(n as int));
                }
                let value: i32 = small_digits_value(&digits);
                proof {
                    assert(input@.skip(pos as int).skip(n as int) =~= input@.skip(pos + n));
                }
                if spec == 'Y' {
                    year = Some(value);
                } else if spec == 'y' {
                    year = Some(2000 + value);
                } else if spec == 'm' {
                    month = Some(value as u32);
                } else if spec == 'd' {
                    day = Some(value as u32);
                } else {
                    let mut m = chars_of("unsupported date format directive %");
                    m.push(spec);
                    assert(m@ =~= "unsupported date format directive %"@ + seq![spec]);
                    return Err(string_of(&m));
                }
                pos = pos + n;
                fi = fi + 2;
            } else {
                if pos < input.len() && input[pos] == fc {
                    proof {
                        assert(input@.skip(pos as int).drop_first() =~= input@.skip(pos + 1));
                    }
                    pos = pos + 1;
                    fi = fi + 1;
                } else {
                    let mut m = chars_of("expected literal ");
                    let qc = debug_quoted_char(fc);
                    append_str(&mut m, qc.as_str());
                    append_str(&mut m, " while parsing ");
                    let q = debug_chars(&sv);
                    append_chars(&mut m, &q);
                    append_str(&mut m, " with format ");
                    let q2 = debug_chars(&fmt);
                    append_chars(&mut m, &q2);
                    return Err(string_of(&m));
                }
            }
        }
        let y = match year {
            Some(y) => y,
            None => {
                return Err(String::from_str("date format has no %Y/%y"));
            },
        };
        let m = match month {
            Some(x) => x,
            None => {
                return Err(String::from_str("date format has no %m"));
            },
        };
        let d = match day {
            Some(x) => x,
            None => {
                return Err(String::from_str("date format has no %d"));
            },
        };
        Date::from_ymd(y, m, d)
    }

    /// First day of the month containing this date.
    pub fn month_start(&self) -> (r: Date)
        ensures
            r.ymd() == (self.ymd().0 as i32 as int, self.ymd().1, 1int),
    {
        let (y, m, _) = self.year_month_day();
        match Date::from_ymd(y, m, 1) {
            Ok(d) => d,
            Err(_) => {
                assert(false);
                *self
            },
        }
    }

    /// First day of the following month.
    pub fn next_month_start(&self) -> (r: Date)
        requires
            (self.ymd().0 as i32) < i32::MAX,
        ensures
            self.ymd().1 == 12 ==> r.ymd() == ((self.ymd().0 as i32) + 1, 1int, 1int),
            self.ymd().1 < 12 ==> r.ymd() == (self.ymd().0 as i32 as int, self.ymd().1 + 1, 1int),
    {
        let (y, m, _) = self.year_month_day();
        if m == 12 {
            match Date::from_ymd(y + 1, 1, 1) {
                Ok(d) => d,
                Err(_) => {
                    assert(false);
                    *self
                },
            }
        } else {
            match Date::from_ymd(y, m + 1, 1) {
                Ok(d) => d,
                Err(_) => {
                    assert(false);
                    *self
                },
            }
        }
    }
}

/// Up to four ASCII digits as a number.
fn small_digits_value(d: &Vec<char>) -> (r: i32)
    requires
        1 <= d.len() <= 4,
        forall|i: int| 0 <= i < d.len() ==> '0' <= #[trigger] d@[i] <= '9',
    ensures
        r == digits_value(d@),
        0 <= r <= 9999,
{
    let mut acc: i32 = 0;
    let mut i: usize = 0;
    while i < d.len()
        invariant
            i <= d.len() <= 4,
            forall|k: int| 0 <= k < d.len() ==> '0' <= #[trigger] d@[k] <= '9',
            acc == digits_value(d@.take(i as int)),
            0 <= acc < pow10_int(i as nat),
        decreases d.len() - i,
    {
        assert(d@.take(i + 1).drop_last() =~= d@.take(i as int));
        let c = d[i];
        acc = acc * 10 + (c as u32 - 48) as i32;
        i += 1;
    }
    assert(d@.take(d.len() as int) =~= d@);
    acc
}

spec fn pow10_int(n: nat) -> int
    decreases n,
{
    if n == 0 {
        1
    } else if n == 1 {
        10
    } else if n == 2 {
        100
    } else if n == 3 {
        1000
    } else {
        10000
    }
}

proof fn lemma_leading_digits(s: Seq<char>, max: nat)
    ensures
        leading_digits(s, max) <= max,
        leading_digits(s, max) <= s.len(),
        forall|i: int| 0 <= i < leading_digits(s, max) ==> '0' <= #[trigger] s[i] <= '9',
    decreases s.len(),
{
    if s.len() > 0 && max > 0 && '0' <= s[0] <= '9' {
        lemma_leading_digits(s.drop_first(), (max - 1) as nat);
        assert forall|i: int| 0 <= i < leading_digits(s, max) implies '0' <= #[trigger] s[i] <= '9' by {
            if i > 0 {
                assert(s[i] == s.drop_first()[i - 1]);
            }
        }
    }
}

} // verus!

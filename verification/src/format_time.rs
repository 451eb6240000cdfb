//! Calendar arithmetic (proleptic Gregorian, UTC), relative times, `@due`
//! tokens and clock times, all without a date library.
use vstd::prelude::*;
use crate::num::{
    all_digits, dec, dec_nat, dec_pad, div_euclid, fmt_i64, fmt_i64_pad, lemma_parse_zpad,
    parse_i64, parse_i64_spec, rem_euclid, zpad,
};
use crate::text::{
    append_chars, ascii_lower, ascii_lowercase, chars_eq, chars_of, ends_with, ends_with_exec, find,
    find_exec, join, lemma_join_split, occurs_at, slice_chars, split_exec, split_on, string_of, trim,
    trim_exec, views,
};

verus! {

pub const DAY_MS: i64 = 86_400_000;

const MIN: i64 = 60_000;

const HOUR: i64 = 3_600_000;

const DAY: i64 = 86_400_000;

// ---------------------------------------------------------------------------
// Civil dates
// ---------------------------------------------------------------------------

/// Civil date `(year, month, day)` of day number `z` (days since 1970-01-01):
/// 400-year eras of 146097 days starting on March 1st, as in Howard
/// Hinnant's `civil_from_days`.
pub open spec fn civil(z: int) -> (int, int, int) {
    let z2 = z + 719468;
    let era = z2 / 146097;
    let doe = z2 - era * 146097;
    let yoe = (doe - doe / 1460 + doe / 36524 - doe / 146096) / 365;
    let y = yoe + era * 400;
    let doy = doe - (365 * yoe + yoe / 4 - yoe / 100);
    let mp = (5 * doy + 2) / 153;
    let d = doy - (153 * mp + 2) / 5 + 1;
    let m = if mp < 10 {
        mp + 3
    } else {
        mp - 9
    };
    (if m <= 2 {
        y + 1
    } else {
        y
    }, m, d)
}

/// Integer division truncating toward zero (Rust's `/`), for a positive divisor.
pub open spec fn tdiv(a: int, b: int) -> int {
    if a >= 0 {
        a / b
    } else {
        -((-a) / b)
    }
}

/// Day number of the civil date `(y, m, d)` (Hinnant's `days_from_civil`).
pub open spec fn days_civil(y: int, m: int, d: int) -> int {
    let y2 = if m <= 2 {
        y - 1
    } else {
        y
    };
    let era = y2 / 400;
    let yoe = y2 - era * 400;
    let mm = if m > 2 {
        m - 3
    } else {
        m + 9
    };
    let doy = tdiv(153 * mm + 2, 5) + d - 1;
    let doe = yoe * 365 + yoe / 4 - yoe / 100 + doy;
    era * 146097 + doe - 719468
}

pub open spec fn in_i64(v: int) -> bool {
    i64::MIN <= v <= i64::MAX
}

/// Every intermediate value of `days_from_civil(y, m, d)` fits in an `i64`.
pub open spec fn days_civil_fits(y: int, m: int, d: int) -> bool {
    let y2 = if m <= 2 {
        y - 1
    } else {
        y
    };
    let era = y2 / 400;
    let yoe = y2 - era * 400;
    let mm = if m > 2 {
        m - 3
    } else {
        m + 9
    };
    let q = tdiv(153 * mm + 2, 5);
    let doe = yoe * 365 + yoe / 4 - yoe / 100 + q + d - 1;
    &&& in_i64(y2)
    &&& (y2 < 0 ==> in_i64(y2 - 399))
    &&& in_i64(era * 146097)
    &&& in_i64(mm)
    &&& in_i64(153 * mm)
    &&& in_i64(153 * mm + 2)
    &&& in_i64(q + d)
    &&& in_i64(q + d - 1)
    &&& in_i64(doe)
    &&& in_i64(era * 146097 + doe)
    &&& in_i64(era * 146097 + doe - 719468)
}

pub open spec fn civil_fits(z: int) -> bool {
    z + 719468 <= i64::MAX && (z + 719468 < 0 ==> z + 719468 - 146096 >= i64::MIN)
}

pub proof fn lemma_civil_ranges(z: int)
    ensures
        ({
            let (y, m, d) = civil(z);
            1 <= m <= 12 && 1 <= d <= 31
        }),
{
    let z2 = z + 719468;
    let era = z2 / 146097;
    let doe = z2 - era * 146097;
    assert(0 <= doe < 146097);
    let yoe = (doe - doe / 1460 + doe / 36524 - doe / 146096) / 365;
    assert(0 <= yoe <= 399);
    let doy = doe - (365 * yoe + yoe / 4 - yoe / 100);
    assert(0 <= doy <= 365);
    let mp = (5 * doy + 2) / 153;
    assert(0 <= mp <= 11);
    let d = doy - (153 * mp + 2) / 5 + 1;
    assert(1 <= d <= 31);
}

/// Law: converting a day number to its civil date and back gives the day
/// number again (`days_from_civil` inverts `civil_from_days`).
pub proof fn law_civil_days_roundtrip(z: int)
    ensures
        days_civil(civil(z).0, civil(z).1, civil(z).2) == z,
{
    lemma_civil_ranges(z);
    let z2 = z + 719468;
    let era = z2 / 146097;
    let doe = z2 - era * 146097;
    assert(0 <= doe < 146097);
    let yoe = (doe - doe / 1460 + doe / 36524 - doe / 146096) / 365;
    assert(0 <= yoe <= 399);
    let y = yoe + era * 400;
    assert(y / 400 == era) by {
        vstd::arithmetic::div_mod::lemma_fundamental_div_mod_converse_div(y, 400, era, yoe);
    }
    let doy = doe - (365 * yoe + yoe / 4 - yoe / 100);
    assert(0 <= doy <= 365);
    let mp = (5 * doy + 2) / 153;
    assert(0 <= mp <= 11);
}


/// Law: a valid calendar date converted to its day number and back gives the
/// date again (`civil_from_days` inverts `days_from_civil` on valid dates).
pub proof fn law_days_civil_roundtrip(y: int, m: int, d: int)
    requires
        1 <= m <= 12,
        1 <= d <= crate::tasks::dim_spec(y, m),
    ensures
        civil(days_civil(y, m, d)) == (y, m, d),
{
    let z = days_civil(y, m, d);
    lemma_days_civil_split(y, m, d);
    let y2 = if m <= 2 {
        y - 1
    } else {
        y
    };
    let mm = if m > 2 {
        m - 3
    } else {
        m + 9
    };
    let doy = month_start(mm) + d - 1;
    assert(z + 719468 == year_start(y2) + doy);
    // The day lies inside the month and the shifted year.
    assert(month_start(0) == 0 && month_start(1) == 31 && month_start(2) == 61 && month_start(3)
        == 92 && month_start(4) == 122 && month_start(5) == 153 && month_start(6) == 184
        && month_start(7) == 214 && month_start(8) == 245 && month_start(9) == 275
        && month_start(10) == 306 && month_start(11) == 337 && month_start(12) == 367);
    assert(0 <= doy < month_start(mm + 1));
    lemma_year_length(y2);
    let leap = ((y2 + 1) % 4 == 0 && (y2 + 1) % 100 != 0) || (y2 + 1) % 400 == 0;
    if m == 2 {
        assert(crate::tasks::is_leap_spec(y) == leap);
    }
    assert(doy < year_start(y2 + 1) - year_start(y2));
    // The civil date of the day number has the same shifted year ...
    lemma_civil_doy(z);
    let z2 = z + 719468;
    let era = z2 / 146097;
    let doe = z2 - era * 146097;
    let yoe = (doe - doe / 1460 + doe / 36524 - doe / 146096) / 365;
    let yy = yoe + era * 400;
    let doy2 = doe - (365 * yoe + yoe / 4 - yoe / 100);
    let mp = (5 * doy2 + 2) / 153;
    lemma_year_length(yy);
    if yy < y2 {
        lemma_year_start_mono(yy + 1, y2);
    } else if y2 < yy {
        lemma_year_start_mono(y2 + 1, yy);
    }
    assert(yy == y2);
    assert(doy2 == doy);
    // ... and the same month.
    if mp < mm {
        lemma_month_start_mono(mp + 1, mm);
    } else if mm < mp {
        lemma_month_start_mono(mm + 1, mp);
    }
    assert(mp == mm);
}

/// Days from 0000-03-01 to the March 1st that starts (shifted) year `y2`.
pub open spec fn year_start(y2: int) -> int {
    365 * y2 + y2 / 4 - y2 / 100 + y2 / 400
}

/// Days from March 1st to the first day of shifted month `mm` (0 = March).
pub open spec fn month_start(mm: int) -> int {
    (153 * mm + 2) / 5
}

proof fn lemma_div_split(y: int, k: int, q: int, r: int, d: int)
    requires
        d > 0,
        k > 0,
        0 <= r < k * d,
        y == q * (k * d) + r,
    ensures
        y / d == q * k + r / d,
{
    vstd::arithmetic::div_mod::lemma_fundamental_div_mod(r, d);
    vstd::arithmetic::div_mod::lemma_mod_bound(r, d);
    assert(y == (q * k + r / d) * d + r % d) by (nonlinear_arith)
        requires
            y == q * (k * d) + r,
            r == d * (r / d) + r % d,
    ;
    vstd::arithmetic::div_mod::lemma_fundamental_div_mod_converse_div(y, d, q * k + r / d, r % d);
}

/// The era-based year start of Hinnant's algorithm equals `year_start`.
proof fn lemma_year_start(y2: int)
    ensures
        (y2 / 400) * 146097 + (y2 - (y2 / 400) * 400) * 365 + (y2 - (y2 / 400) * 400) / 4 - (y2
            - (y2 / 400) * 400) / 100 == year_start(y2),
{
    let era = y2 / 400;
    let yoe = y2 - era * 400;
    vstd::arithmetic::div_mod::lemma_fundamental_div_mod(y2, 400);
    vstd::arithmetic::div_mod::lemma_mod_bound(y2, 400);
    assert(yoe == y2 % 400);
    lemma_div_split(y2, 100, era, yoe, 4);
    lemma_div_split(y2, 4, era, yoe, 100);
}

/// `days_civil` as year start plus month start plus day.
proof fn lemma_days_civil_split(y: int, m: int, d: int)
    requires
        1 <= m <= 12,
    ensures
        days_civil(y, m, d) == year_start(if m <= 2 { y - 1 } else { y }) + month_start(
            if m > 2 { m - 3 } else { m + 9 },
        ) + d - 1 - 719468,
{
    lemma_year_start(if m <= 2 {
        y - 1
    } else {
        y
    });
}

proof fn lemma_div_step(y: int, k: int)
    requires
        k > 0,
    ensures
        (y + 1) / k - y / k == if (y + 1) % k == 0 {
            1int
        } else {
            0int
        },
{
    let q = y / k;
    let r = y % k;
    vstd::arithmetic::div_mod::lemma_fundamental_div_mod(y, k);
    vstd::arithmetic::div_mod::lemma_mod_bound(y, k);
    if r + 1 < k {
        vstd::arithmetic::div_mod::lemma_fundamental_div_mod_converse_div(y + 1, k, q, r + 1);
        vstd::arithmetic::div_mod::lemma_fundamental_div_mod_converse_mod(y + 1, k, q, r + 1);
    } else {
        assert(y + 1 == (q + 1) * k + 0) by (nonlinear_arith)
            requires
                y == k * q + r,
                r + 1 == k,
        ;
        vstd::arithmetic::div_mod::lemma_fundamental_div_mod_converse_div(y + 1, k, q + 1, 0);
        vstd::arithmetic::div_mod::lemma_fundamental_div_mod_converse_mod(y + 1, k, q + 1, 0);
    }
}

/// A shifted year has 365 days, 366 when the February it ends with is in a
/// leap year.
proof fn lemma_year_length(y2: int)
    ensures
        year_start(y2 + 1) - year_start(y2) == 365 + if ((y2 + 1) % 4 == 0 && (y2 + 1) % 100
            != 0) || (y2 + 1) % 400 == 0 {
            1int
        } else {
            0int
        },
{
    lemma_div_step(y2, 4);
    lemma_div_step(y2, 100);
    lemma_div_step(y2, 400);
    let a = y2 + 1;
    if a % 400 == 0 {
        vstd::arithmetic::div_mod::lemma_fundamental_div_mod(a, 400);
        assert(a == (a / 400 * 4) * 100 + 0) by (nonlinear_arith)
            requires
                a == 400 * (a / 400),
        ;
        vstd::arithmetic::div_mod::lemma_fundamental_div_mod_converse_mod(a, 100, a / 400 * 4, 0);
        assert(a == (a / 400 * 100) * 4 + 0) by (nonlinear_arith)
            requires
                a == 400 * (a / 400),
        ;
        vstd::arithmetic::div_mod::lemma_fundamental_div_mod_converse_mod(a, 4, a / 400 * 100, 0);
    } else if a % 100 == 0 {
        vstd::arithmetic::div_mod::lemma_fundamental_div_mod(a, 100);
        assert(a == (a / 100 * 25) * 4 + 0) by (nonlinear_arith)
            requires
                a == 100 * (a / 100),
        ;
        vstd::arithmetic::div_mod::lemma_fundamental_div_mod_converse_mod(a, 4, a / 100 * 25, 0);
    }
}

proof fn lemma_year_start_mono(a: int, b: int)
    requires
        a <= b,
    ensures
        year_start(a) + 365 * (b - a) <= year_start(b),
    decreases b - a,
{
    if a < b {
        lemma_year_start_mono(a + 1, b);
        lemma_year_length(a);
    }
}

proof fn lemma_month_start_mono(a: int, b: int)
    requires
        a <= b,
    ensures
        month_start(a) <= month_start(b),
{
    vstd::arithmetic::div_mod::lemma_div_is_ordered(153 * a + 2, 153 * b + 2, 5);
}

/// Inside civil dates: the day of the shifted year, and that it stays within
/// the year's length.
proof fn lemma_civil_doy(z: int)
    ensures
        ({
            let z2 = z + 719468;
            let era = z2 / 146097;
            let doe = z2 - era * 146097;
            let yoe = (doe - doe / 1460 + doe / 36524 - doe / 146096) / 365;
            let yy = yoe + era * 400;
            let doy = doe - (365 * yoe + yoe / 4 - yoe / 100);
            let mp = (5 * doy + 2) / 153;
            &&& z == year_start(yy) + doy - 719468
            &&& 0 <= doy
            &&& doy < month_start(mp + 1)
            &&& month_start(mp) <= doy
            &&& 0 <= mp <= 11
            &&& doy <= 364 + if ((yy + 1) % 4 == 0 && (yy + 1) % 100 != 0) || (yy + 1) % 400
                == 0 {
                1int
            } else {
                0int
            }
            &&& civil(z).1 == (if mp < 10 { mp + 3 } else { mp - 9 })
            &&& civil(z).0 == (if mp < 10 { yy } else { yy + 1 })
            &&& civil(z).2 == doy - month_start(mp) + 1
        }),
{
    let z2 = z + 719468;
    let era = z2 / 146097;
    let doe = z2 - era * 146097;
    assert(0 <= doe < 146097);
    let yoe = (doe - doe / 1460 + doe / 36524 - doe / 146096) / 365;
    assert(0 <= yoe <= 399);
    let yy = yoe + era * 400;
    assert(yy / 400 == era) by {
        vstd::arithmetic::div_mod::lemma_fundamental_div_mod_converse_div(yy, 400, era, yoe);
    }
    lemma_year_start(yy);
    let doy = doe - (365 * yoe + yoe / 4 - yoe / 100);
    assert(0 <= doy <= 365);
    let mp = (5 * doy + 2) / 153;
    assert(0 <= mp <= 11);
    assert(doy < month_start(mp + 1));
    assert(month_start(mp) <= doy);
    if yoe < 399 {
        assert(doe < 365 * (yoe + 1) + (yoe + 1) / 4 - (yoe + 1) / 100);
        let a = yoe + 1;
        let b = yy + 1;
        assert(b == a + era * 400);
        assert(b % 4 == a % 4 && b % 100 == a % 100) by {
            vstd::arithmetic::div_mod::lemma_mod_add_multiples_vanish(a, 4);
            assert(b == a + (era * 100) * 4) by (nonlinear_arith)
                requires
                    b == a + era * 400,
            ;
            vstd::arithmetic::div_mod::lemma_mod_multiples_vanish(era * 100, a, 4);
            assert(b == a + (era * 4) * 100) by (nonlinear_arith)
                requires
                    b == a + era * 400,
            ;
            vstd::arithmetic::div_mod::lemma_mod_multiples_vanish(era * 4, a, 100);
        }
        lemma_div_step(yoe, 4);
        lemma_div_step(yoe, 100);
        assert(a % 400 != 0 ==> b % 400 != 0) by {
            assert(b == a + era * 400);
            vstd::arithmetic::div_mod::lemma_mod_multiples_vanish(era, a, 400);
        }
        assert(a % 400 == a) by {
            vstd::arithmetic::div_mod::lemma_small_mod(a as nat, 400);
        }
    } else {
        let b = yy + 1;
        assert(b == (era + 1) * 400);
        vstd::arithmetic::div_mod::lemma_fundamental_div_mod_converse_mod(b, 400, era + 1, 0);
    }
}

/// Later months start later: a valid date in a later (year, month) has a
/// larger day number than any civil date `civil(z)`.
pub proof fn lemma_later_month(z: int, ny: int, nm: int, nd: int)
    requires
        1 <= nm <= 12,
        1 <= nd,
        12 * ny + nm > 12 * civil(z).0 + civil(z).1,
    ensures
        days_civil(ny, nm, nd) > z,
{
    lemma_civil_doy(z);
    lemma_days_civil_split(ny, nm, nd);
    let z2 = z + 719468;
    let era = z2 / 146097;
    let doe = z2 - era * 146097;
    let yoe = (doe - doe / 1460 + doe / 36524 - doe / 146096) / 365;
    let yy = yoe + era * 400;
    let doy = doe - (365 * yoe + yoe / 4 - yoe / 100);
    let mp = (5 * doy + 2) / 153;
    let y2 = if nm <= 2 {
        ny - 1
    } else {
        ny
    };
    let mm = if nm > 2 {
        nm - 3
    } else {
        nm + 9
    };
    assert(12 * y2 + mm > 12 * yy + mp);
    if y2 == yy {
        lemma_month_start_mono(mp + 1, mm);
    } else {
        assert(y2 > yy);
        lemma_year_start_mono(yy + 1, y2);
        lemma_year_length(yy);
        assert(month_start(mm) >= 0);
    }
}

/// Howard Hinnant's days-from-epoch → civil (y, m, d) algorithm, proleptic
/// Gregorian, UTC. `z` is days since 1970-01-01.
pub fn civil_from_days(z: i64) -> (r: (i64, u32, u32))
    requires
        civil_fits(z as int),
    ensures
        r.0 as int == civil(z as int).0,
        r.1 as int == civil(z as int).1,
        r.2 as int == civil(z as int).2,
{
    proof {
        lemma_civil_ranges(z as int);
    }
    let z = z + 719_468;
    let era = (if z >= 0 {
        z
    } else {
        z - 146_096
    }) / 146_097;
    assert(era == (z as int) / 146097) by (nonlinear_arith)
        requires
            era == tdiv(if z >= 0 { z as int } else { z - 146096 }, 146097),
    ;
    let doe = z - era * 146_097;
    let yoe = (doe - doe / 1460 + doe / 36_524 - doe / 146_096) / 365;
    let y = yoe + era * 400;
    let doy = doe - (365 * yoe + yoe / 4 - yoe / 100);
    let mp = (5 * doy + 2) / 153;
    let d = (doy - (153 * mp + 2) / 5 + 1) as u32;
    let m = (if mp < 10 {
        mp + 3
    } else {
        mp - 9
    }) as u32;
    (if m <= 2 {
        y + 1
    } else {
        y
    }, m, d)
}

/// Days since 1970-01-01 for a civil date (Howard Hinnant's algorithm; inverse of
/// `civil_from_days`).
pub fn days_from_civil(y: i64, m: i64, d: i64) -> (r: i64)
    requires
        days_civil_fits(y as int, m as int, d as int),
    ensures
        r as int == days_civil(y as int, m as int, d as int),
{
    let y = if m <= 2 {
        y - 1
    } else {
        y
    };
    let era = (if y >= 0 {
        y
    } else {
        y - 399
    }) / 400;
    assert(era == (y as int) / 400) by (nonlinear_arith)
        requires
            era == tdiv(if y >= 0 { y as int } else { y - 399 }, 400),
    ;
    let yoe = y - era * 400;
    let doy = (153 * (if m > 2 {
        m - 3
    } else {
        m + 9
    }) + 2) / 5 + d - 1;
    let doe = yoe * 365 + yoe / 4 - yoe / 100 + doy;
    era * 146097 + doe - 719468
}

/// Day of the week of a day number, 0 = Sunday (1970-01-01 was a Thursday).
pub open spec fn weekday_spec(days: int) -> int {
    (days % 7 + 4) % 7
}

fn weekday(days: i64) -> (r: i64)
    ensures
        r == weekday_spec(days as int),
        0 <= r < 7,
{
    (rem_euclid(days, 7) + 4) % 7
}

pub open spec fn date_str(y: int, m: int, d: int) -> Seq<char> {
    dec_pad(y, 4) + seq!['-'] + dec_pad(m, 2) + seq!['-'] + dec_pad(d, 2)
}

/// `YYYY-MM-DD` of day number `z`.
pub open spec fn day_str(z: int) -> Seq<char> {
    date_str(civil(z).0, civil(z).1, civil(z).2)
}

pub fn date_chars(y: i64, m: u32, d: u32) -> (r: Vec<char>)
    ensures
        r@ == date_str(y as int, m as int, d as int),
{
    let mut r = fmt_i64_pad(y, 4);
    r.push('-');
    let mm = fmt_i64_pad(m as i64, 2);
    append_chars(&mut r, &mm);
    r.push('-');
    let dd = fmt_i64_pad(d as i64, 2);
    append_chars(&mut r, &dd);
    r
}

pub fn day_chars(z: i64) -> (r: Vec<char>)
    requires
        civil_fits(z as int),
    ensures
        r@ == day_str(z as int),
{
    let (y, m, d) = civil_from_days(z);
    date_chars(y, m, d)
}

/// Absolute UTC date `YYYY-MM-DD` for an epoch-millis timestamp.
pub fn abs_date(ms: i64) -> (r: String)
    ensures
        r@ == day_str((ms as int) / (DAY_MS as int)),
{
    let z = div_euclid(ms, 86_400_000);
    string_of(&day_chars(z))
}

pub open spec fn rel_time_spec(then_ms: int, now_ms: int) -> Seq<char> {
    let diff = now_ms - then_ms;
    let min = 60_000;
    let hour = 3_600_000;
    let day = 86_400_000;
    if diff < min {
        "just now"@
    } else if diff < hour {
        dec(diff / min) + seq!['m']
    } else if diff < day {
        dec(diff / hour) + seq!['h']
    } else if diff < 2 * day {
        "yesterday"@
    } else if diff < 30 * day {
        dec(diff / day) + seq!['d']
    } else {
        day_str(then_ms / day)
    }
}

/// Human relative time: "just now", "5m", "3h", "yesterday", "5d", else an
/// absolute `YYYY-MM-DD` date (UTC). `then_ms`/`now_ms` are epoch milliseconds.
pub fn relative_time(then_ms: i64, now_ms: i64) -> (r: String)
    requires
        in_i64(now_ms - then_ms),
    ensures
        r@ == rel_time_spec(then_ms as int, now_ms as int),
{
    let diff = now_ms - then_ms;
    if diff < MIN {
        String::from_str("just now")
    } else if diff < HOUR {
        let mut v = fmt_i64(diff / MIN);
        v.push('m');
        string_of(&v)
    } else if diff < DAY {
        let mut v = fmt_i64(diff / HOUR);
        v.push('h');
        string_of(&v)
    } else if diff < 2 * DAY {
        String::from_str("yesterday")
    } else if diff < 30 * DAY {
        let mut v = fmt_i64(diff / DAY);
        v.push('d');
        string_of(&v)
    } else {
        string_of(&day_chars(div_euclid(then_ms, DAY)))
    }
}

// ---------------------------------------------------------------------------
// `@due` tokens
// ---------------------------------------------------------------------------

/// The next day strictly after `today` that falls on weekday `target`.
pub open spec fn next_weekday(today: int, target: int) -> int {
    let delta = (target - weekday_spec(today)) % 7;
    today + if delta == 0 {
        7
    } else {
        delta
    }
}

/// `(y, m, d)` of a `YYYY-MM-DD` token: three `-`-separated integers, month
/// 1..=12 and day 1..=31.
pub open spec fn date_parts(t: Seq<char>) -> Option<(int, int, int)> {
    let p = split_on(t, '-');
    if p.len() == 3 && parse_i64_spec(p[0]) is Some && parse_i64_spec(p[1]) is Some
        && parse_i64_spec(p[2]) is Some {
        let y = parse_i64_spec(p[0])->0;
        let m = parse_i64_spec(p[1])->0;
        let d = parse_i64_spec(p[2])->0;
        if 1 <= m <= 12 && 1 <= d <= 31 {
            Some((y, m, d))
        } else {
            None
        }
    } else {
        None
    }
}

/// The weekday number a lowercase weekday abbreviation names.
pub open spec fn weekday_of_name(t: Seq<char>) -> Option<int> {
    if t == "sun"@ {
        Some(0)
    } else if t == "mon"@ {
        Some(1)
    } else if t == "tue"@ {
        Some(2)
    } else if t == "wed"@ {
        Some(3)
    } else if t == "thu"@ {
        Some(4)
    } else if t == "fri"@ {
        Some(5)
    } else if t == "sat"@ {
        Some(6)
    } else {
        None
    }
}

/// Day number a lowercase `@due` token names, relative to day `today`.
pub open spec fn due_day(t: Seq<char>, today: int) -> Option<int> {
    if t == "today"@ {
        Some(today)
    } else if t == "tomorrow"@ || t == "tmr"@ {
        Some(today + 1)
    } else if weekday_of_name(t) is Some {
        Some(next_weekday(today, weekday_of_name(t)->0))
    } else {
        match date_parts(t) {
            Some((y, m, d)) => Some(days_civil(y, m, d)),
            None => None,
        }
    }
}

/// Midnight (UTC, epoch ms) of the day a `@due` token names.
pub open spec fn parse_due_spec(token: Seq<char>, now_ms: int) -> Option<int> {
    match due_day(ascii_lower(token), now_ms / DAY_MS as int) {
        Some(day) => Some(day * DAY_MS as int),
        None => None,
    }
}


/// The day a date written by `abs_date` names reads back as a `@due` token:
/// `YYYY-MM-DD` of day `z` resolves to midnight of day `z`, whatever day it
/// is now (for years from 0 on; an earlier year is written with a leading
/// `-`, which the token syntax does not read).
pub proof fn law_due_date_round_trip(z: int, now_ms: int)
    requires
        0 <= civil(z).0 <= i64::MAX,
    ensures
        parse_due_spec(day_str(z), now_ms) == Some(z * DAY_MS as int),
{
    let (y, m, d) = civil(z);
    lemma_civil_ranges(z);
    law_civil_days_roundtrip(z);
    lemma_parse_zpad(y as nat, 4);
    lemma_parse_zpad(m as nat, 2);
    lemma_parse_zpad(d as nat, 2);
    let a = zpad(dec_nat(y as nat), 4);
    let b = zpad(dec_nat(m as nat), 2);
    let c = zpad(dec_nat(d as nat), 2);
    assert(dec_pad(y, 4) == a);
    assert(dec_pad(m, 2) == b);
    assert(dec_pad(d, 2) == c);
    let dash = seq!['-'];
    let t = day_str(z);
    assert(t == a + dash + b + dash + c);
    // Only digits and dashes: lowercasing keeps the text.
    assert(ascii_lower(t) =~= t) by {
        assert forall|i: int| 0 <= i < t.len() implies ascii_lower(t)[i] == t[i] by {
            if i < a.len() {
                assert(t[i] == a[i]);
                assert(crate::text::is_ascii_digit(a[i]));
            } else if i == a.len() {
            } else if i < a.len() + 1 + b.len() {
                assert(t[i] == b[i - a.len() - 1]);
                assert(crate::text::is_ascii_digit(b[i - a.len() - 1]));
            } else if i == a.len() + 1 + b.len() {
            } else {
                assert(t[i] == c[i - a.len() - 2 - b.len()]);
                assert(crate::text::is_ascii_digit(c[i - a.len() - 2 - b.len()]));
            }
        }
    }
    // Not a word token: it starts with a digit and is ten characters or more.
    assert(crate::text::is_ascii_digit(t[0])) by {
        assert(t[0] == a[0]);
    }
    reveal_strlit("today");
    reveal_strlit("tomorrow");
    reveal_strlit("tmr");
    reveal_strlit("sun");
    reveal_strlit("mon");
    reveal_strlit("tue");
    reveal_strlit("wed");
    reveal_strlit("thu");
    reveal_strlit("fri");
    reveal_strlit("sat");
    assert(t != "today"@ && t != "tomorrow"@ && t != "tmr"@) by {
        assert(t.len() >= 10);
    }
    assert(weekday_of_name(t) is None) by {
        assert(t.len() >= 10);
    }
    // Split on dashes into the three numbers.
    let parts = seq![a, b, c];
    assert forall|k: int, j: int| 0 <= k < parts.len() && 0 <= j < parts[k].len() implies parts[k][j]
        != '-' by {
        assert(crate::text::is_ascii_digit(parts[k][j]));
    }
    lemma_join_split(parts, '-');
    assert(join(parts, dash) =~= t) by {
        let ab = seq![a, b];
        assert(parts.drop_last() =~= ab);
        assert(ab.drop_last() =~= seq![a]);
        assert(join(seq![a], dash) == a);
        assert(join(ab, dash) == join(ab.drop_last(), dash) + dash + ab.last());
        assert(join(parts, dash) == join(parts.drop_last(), dash) + dash + parts.last());
    }
    assert(split_on(t, '-') == parts);
    assert(date_parts(t) == Some((y, m, d)));
}


/// `next_weekday` lands on the asked weekday within the next seven days,
/// never today.
proof fn lemma_next_weekday(today: int, w: int)
    requires
        0 <= w < 7,
    ensures
        today < next_weekday(today, w) <= today + 7,
        weekday_spec(next_weekday(today, w)) == w,
{
    let r = today % 7;
    let q = today / 7;
    vstd::arithmetic::div_mod::lemma_fundamental_div_mod(today, 7);
    let c = weekday_spec(today);
    let delta = (w - c) % 7;
    let k = if delta == 0 {
        7
    } else {
        delta
    };
    let d = today + k;
    assert(d == 7 * q + (r + k));
    assert(d % 7 == (r + k) % 7) by {
        vstd::arithmetic::div_mod::lemma_mod_multiples_vanish(q, r + k, 7);
    }
}

/// A weekday token (`sun` … `sat`, any case) names the next such day: after
/// today, at most a week ahead, on that weekday.
pub proof fn law_due_weekday(token: Seq<char>, now_ms: int)
    requires
        weekday_of_name(ascii_lower(token)) is Some,
    ensures
        ({
            let today = now_ms / DAY_MS as int;
            let w = weekday_of_name(ascii_lower(token))->0;
            exists|d: int|
                #![trigger weekday_spec(d)]
                parse_due_spec(token, now_ms) == Some(d * DAY_MS as int) && today < d <= today + 7
                    && weekday_spec(d) == w
        }),
{
    let t = ascii_lower(token);
    let today = now_ms / DAY_MS as int;
    let w = weekday_of_name(t)->0;
    reveal_strlit("today");
    reveal_strlit("tomorrow");
    reveal_strlit("tmr");
    reveal_strlit("sun");
    reveal_strlit("mon");
    reveal_strlit("tue");
    reveal_strlit("wed");
    reveal_strlit("thu");
    reveal_strlit("fri");
    reveal_strlit("sat");
    assert(t != "today"@ && t != "tomorrow"@ && t != "tmr"@) by {
        assert(t.len() == 3);
        if t == "tmr"@ {
            assert(t[0] == 't' && t[1] == 'm');
        }
    }
    assert(0 <= w < 7);
    lemma_next_weekday(today, w);
    let d = next_weekday(today, w);
    assert(due_day(t, today) == Some(d));
}

/// Resolving the token stays within `i64` arithmetic.
pub open spec fn due_fits(token: Seq<char>, now_ms: int) -> bool {
    let t = ascii_lower(token);
    let today = now_ms / DAY_MS as int;
    &&& (due_day(t, today) matches Some(day) ==> in_i64(day * DAY_MS as int))
    &&& (weekday_of_name(t) is None && t != "today"@ && t != "tomorrow"@ && t != "tmr"@
        && date_parts(t) is Some ==> {
        let p = date_parts(t)->0;
        days_civil_fits(p.0, p.1, p.2)
    })
}

fn lit_eq(t: &Vec<char>, s: &str) -> (r: bool)
    ensures
        r == (t@ == s@),
{
    chars_eq(t, &chars_of(s))
}

fn weekday_index(t: &Vec<char>) -> (r: Option<i64>)
    ensures
        r matches Some(w) ==> weekday_of_name(t@) == Some(w as int),
        r is None ==> weekday_of_name(t@) is None,
{
    if lit_eq(t, "sun") {
        Some(0)
    } else if lit_eq(t, "mon") {
        Some(1)
    } else if lit_eq(t, "tue") {
        Some(2)
    } else if lit_eq(t, "wed") {
        Some(3)
    } else if lit_eq(t, "thu") {
        Some(4)
    } else if lit_eq(t, "fri") {
        Some(5)
    } else if lit_eq(t, "sat") {
        Some(6)
    } else {
        None
    }
}

fn date_parts_exec(t: &Vec<char>) -> (r: Option<(i64, i64, i64)>)
    ensures
        r matches Some((y, m, d)) ==> date_parts(t@) == Some((y as int, m as int, d as int)),
        r is None ==> date_parts(t@) is None,
{
    let p = split_exec(t, '-');
    if p.len() != 3 {
        return None;
    }
    assert(views(p@)[0] == p@[0]@);
    assert(views(p@)[1] == p@[1]@);
    assert(views(p@)[2] == p@[2]@);
    let y = match parse_i64(&p[0]) {
        Some(v) => v,
        None => return None,
    };
    let m = match parse_i64(&p[1]) {
        Some(v) => v,
        None => return None,
    };
    let d = match parse_i64(&p[2]) {
        Some(v) => v,
        None => return None,
    };
    if !(1 <= m && m <= 12) || !(1 <= d && d <= 31) {
        return None;
    }
    Some((y, m, d))
}

/// Resolve a `@due` token (without the `@`) to a day-epoch (midnight UTC), using
/// `now_ms` for relative dates. Supports today/tomorrow/tmr, mon..sun (next
/// occurrence), and absolute YYYY-MM-DD.
pub fn parse_due(token: &str, now_ms: i64) -> (r: Option<i64>)
    requires
        due_fits(token@, now_ms as int),
    ensures
        r matches Some(v) ==> parse_due_spec(token@, now_ms as int) == Some(v as int),
        r is None ==> parse_due_spec(token@, now_ms as int) is None,
{
    let t = ascii_lowercase(&chars_of(token));
    let today = div_euclid(now_ms, DAY_MS);
    let day = if lit_eq(&t, "today") {
        today
    } else if lit_eq(&t, "tomorrow") || lit_eq(&t, "tmr") {
        today + 1
    } else {
        match weekday_index(&t) {
            Some(target) => {
                let cur = weekday(today);
                let mut delta = rem_euclid(target - cur, 7);
                if delta == 0 {
                    delta = 7;
                }
                today + delta
            },
            None => match date_parts_exec(&t) {
                Some((y, m, d)) => days_from_civil(y, m, d),
                None => return None,
            },
        }
    };
    Some(day * DAY_MS)
}

// ---------------------------------------------------------------------------
// Clock times
// ---------------------------------------------------------------------------

/// `str::split_once(':')`.
pub open spec fn split_once_colon(s: Seq<char>) -> Option<(Seq<char>, Seq<char>)> {
    match find(s, seq![':']) {
        Some(k) => Some((s.take(k), s.skip(k + 1))),
        None => None,
    }
}

/// Minutes past midnight a clock-time token denotes.
pub open spec fn parse_time_spec(token: Seq<char>) -> Option<int> {
    let t = ascii_lower(trim(token));
    let am = ends_with(t, "am"@);
    let pm = !am && ends_with(t, "pm"@);
    let body = if am || pm {
        trim(t.take(t.len() - 2))
    } else {
        t
    };
    let hm: Option<(int, int)> = match split_once_colon(body) {
        Some((hh, mm)) => if parse_i64_spec(trim(hh)) is Some && parse_i64_spec(trim(mm)) is Some {
            Some((parse_i64_spec(trim(hh))->0, parse_i64_spec(trim(mm))->0))
        } else {
            None
        },
        None => if (am || pm) && parse_i64_spec(body) is Some {
            Some((parse_i64_spec(body)->0, 0))
        } else {
            None
        },
    };
    match hm {
        None => None,
        Some((h, m)) => if !(0 <= m <= 59) {
            None
        } else if am || pm {
            if !(1 <= h <= 12) {
                None
            } else {
                let base = if h == 12 {
                    0
                } else {
                    h
                };
                Some((if pm {
                    base + 12
                } else {
                    base
                }) * 60 + m)
            }
        } else if !(0 <= h <= 23) {
            None
        } else {
            Some(h * 60 + m)
        },
    }
}

/// Whether `h` and `m` are an hour and a minute on a clock face: 1 to 12 with
/// an am/pm suffix, 0 to 23 without one; minutes 0 to 59.
pub open spec fn clock_fields_ok(h: int, m: int, suffix: bool) -> bool {
    &&& 0 <= m <= 59
    &&& if suffix {
        1 <= h <= 12
    } else {
        0 <= h <= 23
    }
}

/// Minutes past midnight of hour `h` and minute `m` of a token that ends in
/// `am` or not and in `pm` or not: with a suffix, 12 is the hour before 1, and
/// `pm` adds twelve hours.
pub open spec fn minute_of_day(h: int, m: int, am: bool, pm: bool) -> int {
    if am || pm {
        ((if h == 12 {
            0
        } else {
            h
        }) + (if !am && pm {
            12int
        } else {
            0
        })) * 60 + m
    } else {
        h * 60 + m
    }
}

/// The token as the clock-time reader sees it: trimmed, ASCII lowercased.
pub open spec fn time_text(token: Seq<char>) -> Seq<char> {
    ascii_lower(trim(token))
}

/// A clock time is read only from a token with a `:` or an `am`/`pm` suffix,
/// and it always names a minute of the day: with a suffix the hour runs from 1
/// to 12 (12am is midnight, 12pm noon), without one from 0 to 23, and the
/// minutes from 0 to 59.
#[verifier::spinoff_prover]
pub proof fn law_parse_time_shape(token: Seq<char>)
    ensures
        !time_text(token).contains(':') && !ends_with(time_text(token), "am"@) && !ends_with(
            time_text(token),
            "pm"@,
        ) ==> parse_time_spec(token) is None,
        parse_time_spec(token) matches Some(v) ==> 0 <= v < 1440 && exists|h: int, m: int|
            clock_fields_ok(
                h,
                m,
                ends_with(time_text(token), "am"@) || ends_with(time_text(token), "pm"@),
            ) && v == #[trigger] minute_of_day(
                h,
                m,
                ends_with(time_text(token), "am"@),
                ends_with(time_text(token), "pm"@),
            ),
{
    let t = ascii_lower(trim(token));
    let am = ends_with(t, "am"@);
    let pm = !am && ends_with(t, "pm"@);
    let body = if am || pm {
        trim(t.take(t.len() - 2))
    } else {
        t
    };
    let colon = seq![':'];
    crate::text::lemma_find(body, colon);
    if find(body, colon) is Some {
        let k = find(body, colon)->0;
        assert(occurs_at(body, colon, k));
        assert(colon.len() == 1);
        assert(body.subrange(k, k + 1)[0] == body[k]);
        assert(body[k] == ':');
        if !am && !pm {
            assert(t[k] == ':');
            assert(t.contains(':'));
        }
    }
    let hm: Option<(int, int)> = match split_once_colon(body) {
        Some((hh, mm)) => if parse_i64_spec(trim(hh)) is Some && parse_i64_spec(trim(mm)) is Some {
            Some((parse_i64_spec(trim(hh))->0, parse_i64_spec(trim(mm))->0))
        } else {
            None
        },
        None => if (am || pm) && parse_i64_spec(body) is Some {
            Some((parse_i64_spec(body)->0, 0))
        } else {
            None
        },
    };
    if let Some((h, m)) = hm {
        if parse_time_spec(token) is Some {
            let v = parse_time_spec(token)->0;
            assert(clock_fields_ok(h, m, am || pm) && v == minute_of_day(
                h,
                m,
                am,
                ends_with(t, "pm"@),
            ));
            assert(0 <= v < 1440);
        }
    } else {
        assert(parse_time_spec(token) is None);
    }
}

/// Parse a clock time into minutes past midnight (0..=1439). Accepts "HH:MM" (24h),
/// "H:MMam|pm", and "Ham|Hpm" (e.g. "9am", "5pm", "9:30am"). A bare number without
/// `:` or an am/pm suffix is NOT a time (returns None), so it can't eat titles.
pub fn parse_time(token: &str) -> (r: Option<i64>)
    ensures
        r matches Some(v) ==> parse_time_spec(token@) == Some(v as int) && 0 <= v < 1440,
        r is None ==> parse_time_spec(token@) is None,
{
    proof {
        reveal_strlit("am");
        reveal_strlit("pm");
    }
    let t = ascii_lowercase(&trim_exec(&chars_of(token)));
    let am = ends_with_exec(&t, &chars_of("am"));
    let pm = !am && ends_with_exec(&t, &chars_of("pm"));
    let body = if am || pm {
        trim_exec(&slice_chars(&t, 0, t.len() - 2))
    } else {
        slice_chars(&t, 0, t.len())
    };
    assert(!(am || pm) ==> body@ =~= t@);
    let mut colon: Vec<char> = Vec::new();
    colon.push(':');
    assert(colon@ =~= seq![':']);
    proof {
        crate::text::lemma_find(body@, colon@);
    }
    let (h, m) = match find_exec(&body, &colon) {
        Some(k) => {
            assert(k + 1 <= body.len()) by {
                assert(occurs_at(body@, colon@, k as int));
            }
            let hh = trim_exec(&slice_chars(&body, 0, k));
            let mm = trim_exec(&slice_chars(&body, k + 1, body.len()));
            assert(body@.subrange(0, k as int) =~= body@.take(k as int));
            assert(body@.subrange(k + 1, body@.len() as int) =~= body@.skip(k + 1));
            let h = match parse_i64(&hh) {
                Some(v) => v,
                None => return None,
            };
            let m = match parse_i64(&mm) {
                Some(v) => v,
                None => return None,
            };
            (h, m)
        },
        None => {
            if !(am || pm) {
                return None;
            }
            let h = match parse_i64(&body) {
                Some(v) => v,
                None => return None,
            };
            (h, 0)
        },
    };
    if !(0 <= m && m <= 59) {
        return None;
    }
    let h = if am || pm {
        if !(1 <= h && h <= 12) {
            return None;
        }
        let base = if h == 12 {
            0
        } else {
            h
        };
        if pm {
            base + 12
        } else {
            base
        }
    } else {
        if !(0 <= h && h <= 23) {
            return None;
        }
        h
    };
    Some(h * 60 + m)
}

pub open spec fn fmt_duration_spec(ms: int) -> Seq<char> {
    if ms < 1000 {
        Seq::<char>::empty()
    } else {
        let secs = ms / 1000;
        let h = secs / 3600;
        let m = (secs % 3600) / 60;
        let s = secs % 60;
        if h > 0 {
            dec(h) + "h "@ + dec(m) + seq!['m']
        } else if m > 0 {
            dec(m) + seq!['m']
        } else {
            dec(s) + seq!['s']
        }
    }
}

/// Human duration for tracked time: "2h 5m", "45m", "30s"; "" for under a second.
pub fn fmt_duration(ms: i64) -> (r: String)
    ensures
        r@ == fmt_duration_spec(ms as int),
{
    if ms < 1000 {
        return String::new();
    }
    let secs = ms / 1000;
    let h = secs / 3600;
    let m = (secs % 3600) / 60;
    let s = secs % 60;
    if h > 0 {
        let mut v = fmt_i64(h);
        append_chars(&mut v, &chars_of("h "));
        append_chars(&mut v, &fmt_i64(m));
        v.push('m');
        string_of(&v)
    } else if m > 0 {
        let mut v = fmt_i64(m);
        v.push('m');
        string_of(&v)
    } else {
        let mut v = fmt_i64(s);
        v.push('s');
        string_of(&v)
    }
}

/// The relative day words, in any case: `today` names today's midnight,
/// `tomorrow` and its short form `tmr` both name the next midnight, which is
/// what `today` names a day later.
pub proof fn law_due_relative_days(token: Seq<char>, now_ms: int)
    ensures
        ascii_lower(token) == "today"@ ==> parse_due_spec(token, now_ms) == Some(
            (now_ms / DAY_MS as int) * DAY_MS as int,
        ),
        (ascii_lower(token) == "tomorrow"@ || ascii_lower(token) == "tmr"@) ==> parse_due_spec(
            token,
            now_ms,
        ) == Some((now_ms / DAY_MS as int + 1) * DAY_MS as int),
        (ascii_lower(token) == "tomorrow"@ || ascii_lower(token) == "tmr"@) ==> parse_due_spec(
            token,
            now_ms,
        ) == parse_due_spec("today"@, now_ms + DAY_MS as int),
        parse_due_spec("tmr"@, now_ms) == parse_due_spec("tomorrow"@, now_ms),
        parse_due_spec("tmr"@, now_ms) is Some,
{
    reveal_strlit("today");
    reveal_strlit("tomorrow");
    reveal_strlit("tmr");
    assert(ascii_lower("today"@) =~= "today"@);
    assert(ascii_lower("tomorrow"@) =~= "tomorrow"@);
    assert(ascii_lower("tmr"@) =~= "tmr"@);
    assert((now_ms + DAY_MS as int) / DAY_MS as int == now_ms / DAY_MS as int + 1);
}

} // verus!

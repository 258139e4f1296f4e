//! The proleptic Gregorian calendar, counted in days from 1970-01-01.
use vstd::prelude::*;
use crate::text::{decimal, digit_char, padded_left, push_char, push_zero_padded, text_before};
use vstd::utf8::{encode_utf8, has_width_1_encoding, is_ascii_chars, is_ascii_chars_encode_utf8};
use vstd::arithmetic::div_mod::{
    lemma_fundamental_div_mod, lemma_fundamental_div_mod_converse, lemma_mod_bound,
};

verus! {

pub open spec fn is_leap_year(y: int) -> bool {
    y % 4 == 0 && (y % 100 != 0 || y % 400 == 0)
}

pub open spec fn year_length(y: int) -> int {
    if is_leap_year(y) { 366 } else { 365 }
}

pub open spec fn month_length(y: int, m: int) -> int {
    if m == 2 {
        if is_leap_year(y) { 29 } else { 28 }
    } else if m == 4 || m == 6 || m == 9 || m == 11 {
        30
    } else {
        31
    }
}

/// `d` is a day of month `m` of year `y`.
pub open spec fn is_valid_date(y: int, m: int, d: int) -> bool {
    1 <= m <= 12 && 1 <= d <= month_length(y, m)
}

/// Days from 1970-01-01 to the first of January of year `y` (negative before 1970).
pub open spec fn days_before_year(y: int) -> int
    decreases (if y >= 1970 { y - 1970 } else { 1970 - y }),
{
    if y == 1970 {
        0
    } else if y > 1970 {
        days_before_year(y - 1) + year_length(y - 1)
    } else {
        days_before_year(y + 1) - year_length(y)
    }
}

/// Days from the first of January of year `y` to the first day of month `m`.
pub open spec fn days_before_month(y: int, m: int) -> int
    decreases m,
{
    if m <= 1 {
        0
    } else {
        days_before_month(y, m - 1) + month_length(y, m - 1)
    }
}

/// The number of days from 1970-01-01 to the date `y`-`m`-`d`.
pub open spec fn epoch_day(y: int, m: int, d: int) -> int {
    days_before_year(y) + days_before_month(y, m) + d - 1
}

/// Days from 0000-01-01 to the first of January of year `y`.
spec fn days_from_year_zero(y: int) -> int {
    365 * y + (y + 3) / 4 - (y + 99) / 100 + (y + 399) / 400
}

/// Rounding up `y / k` moves by one exactly when `k` divides `y`.
proof fn lemma_ceil_step(y: int, k: int)
    requires
        k > 0,
    ensures
        (y + k) / k == (y + k - 1) / k + (if y % k == 0 { 1int } else { 0int }),
{
    let q = y / k;
    let r = y % k;
    lemma_fundamental_div_mod(y, k);
    lemma_mod_bound(y, k);
    assert(y == q * k + r) by (nonlinear_arith)
        requires
            y == k * q + r,
    ;
    assert(y + k == (q + 1) * k + r) by (nonlinear_arith)
        requires
            y == q * k + r,
    ;
    lemma_fundamental_div_mod_converse(y + k, k, q + 1, r);
    if r == 0 {
        lemma_fundamental_div_mod_converse(y + k - 1, k, q, k - 1);
    } else {
        lemma_fundamental_div_mod_converse(y + k - 1, k, q + 1, r - 1);
    }
}

proof fn lemma_year_step(y: int)
    ensures
        days_from_year_zero(y + 1) == days_from_year_zero(y) + year_length(y),
{
    lemma_ceil_step(y, 4);
    lemma_ceil_step(y, 100);
    lemma_ceil_step(y, 400);
}

/// `(y + k - 1) / k` is `y / k` rounded up.
proof fn lemma_ceil(y: int, k: int)
    requires
        k > 0,
    ensures
        (y + k - 1) / k == y / k + (if y % k == 0 { 0int } else { 1int }),
{
    let q = y / k;
    let r = y % k;
    lemma_fundamental_div_mod(y, k);
    lemma_mod_bound(y, k);
    assert(y == q * k + r) by (nonlinear_arith)
        requires
            y == k * q + r,
    ;
    if r == 0 {
        lemma_fundamental_div_mod_converse(y + k - 1, k, q, k - 1);
    } else {
        assert(y + k - 1 == (q + 1) * k + (r - 1)) by (nonlinear_arith)
            requires
                y == q * k + r,
        ;
        lemma_fundamental_div_mod_converse(y + k - 1, k, q + 1, r - 1);
    }
}

proof fn lemma_days_before_year_closed(y: int)
    ensures
        days_before_year(y) == days_from_year_zero(y) - days_from_year_zero(1970),
    decreases (if y >= 1970 { y - 1970 } else { 1970 - y }),
{
    if y > 1970 {
        lemma_days_before_year_closed(y - 1);
        lemma_year_step(y - 1);
    } else if y < 1970 {
        lemma_days_before_year_closed(y + 1);
        lemma_year_step(y);
    }
}

/// Days from 0000-03-01 to the first of March of year `y`.
spec fn days_to_march(y: int) -> int {
    365 * y + y / 4 - y / 100 + y / 400
}

proof fn lemma_days_to_march(y: int)
    ensures
        days_to_march(y) == days_from_year_zero(y) - 1 + (if is_leap_year(y) { 1int } else { 0int }),
{
    lemma_ceil(y, 4);
    lemma_ceil(y, 100);
    lemma_ceil(y, 400);
    lemma_divisibility_chain(y);
    let a: int = if y % 4 == 0 { 0 } else { 1 };
    let b: int = if y % 100 == 0 { 0 } else { 1 };
    let c: int = if y % 400 == 0 { 0 } else { 1 };
    let l: int = if is_leap_year(y) { 1 } else { 0 };
    assert(a - b + c - 1 + l == 0);
}

/// Divisibility by 400 implies divisibility by 100, which implies divisibility by 4.
proof fn lemma_divisibility_chain(y: int)
    ensures
        y % 400 == 0 ==> y % 100 == 0,
        y % 100 == 0 ==> y % 4 == 0,
{
    lemma_fundamental_div_mod(y, 400);
    lemma_fundamental_div_mod(y, 100);
    if y % 400 == 0 {
        lemma_fundamental_div_mod_converse(y, 100, 4 * (y / 400), 0);
    }
    if y % 100 == 0 {
        lemma_fundamental_div_mod_converse(y, 4, 25 * (y / 100), 0);
    }
}

/// Splits a day of a 400-year era (counted from the first of March) into the
/// year of the era and the day of that year, as the conversion computes them.
proof fn lemma_era_day(doe: int)
    requires
        0 <= doe < 146097,
    ensures
        ({
            let yoe = (doe - doe / 1460 + doe / 36524 - doe / 146096) / 365;
            let doy = doe - (365 * yoe + yoe / 4 - yoe / 100);
            &&& 0 <= yoe <= 399
            &&& 365 * yoe + yoe / 4 - yoe / 100 == days_to_march(yoe)
            &&& 0 <= doy < 365 + (if is_leap_year(yoe + 1) { 1int } else { 0int })
        }),
{
    // The era splits into centuries, then four-year cycles, then years.
    let c: int = if doe / 36524 < 3 { doe / 36524 } else { 3 };
    let rc = doe - 36524 * c;
    let b: int = rc / 1461;
    let rb = rc - 1461 * b;
    let r: int = if rb / 365 < 3 { rb / 365 } else { 3 };
    let doy0 = rb - 365 * r;
    assert(0 <= c <= 3 && 0 <= rc);
    assert(rc < 36524 || c == 3);
    assert(rc <= 36524);
    assert(0 <= b <= 24 && 0 <= rb < 1461);
    assert(0 <= r <= 3 && 0 <= doy0 <= 365);
    assert(doy0 == 365 ==> r == 3 && (b < 24 || c == 3));
    assert(doe == 36524 * c + 1461 * b + 365 * r + doy0);
    let last: bool = c == 3 && b == 24 && r == 3 && doy0 == 365;
    let e: int = if last { 1 } else { 0 };
    let sum = 24 * c + b + 365 * r + doy0;
    let s1: int = if sum >= 1460 { 1 } else { 0 };
    lemma_fundamental_div_mod_converse(doe, 146096, e, doe - 146096 * e);
    lemma_fundamental_div_mod_converse(doe, 36524, c + e, doe - 36524 * (c + e));
    lemma_fundamental_div_mod_converse(doe, 1460, 25 * c + b + s1, sum - 1460 * s1);
    let yoe0 = 100 * c + 4 * b + r;
    let a = doe - doe / 1460 + doe / 36524 - doe / 146096;
    assert(a == 365 * yoe0 + doy0 - s1);
    lemma_fundamental_div_mod_converse(a, 365, yoe0, doy0 - s1);
    lemma_fundamental_div_mod_converse(yoe0, 4, 25 * c + b, r);
    lemma_fundamental_div_mod_converse(yoe0, 100, c, 4 * b + r);
    lemma_fundamental_div_mod_converse(yoe0, 400, 0, yoe0);
    if doy0 == 365 {
        lemma_fundamental_div_mod_converse(yoe0 + 1, 4, 25 * c + b + 1, 0);
        if b < 24 {
            lemma_fundamental_div_mod_converse(yoe0 + 1, 100, c, 4 * b + 4);
        } else {
            lemma_fundamental_div_mod_converse(yoe0 + 1, 400, 1, 0);
        }
    }
}

/// Days from the first of March to the first day of the `mp`-th month after March.
spec fn march_month_start(mp: int) -> int {
    (153 * mp + 2) / 5
}

proof fn lemma_days_before_month(y: int, m: int)
    requires
        1 <= m <= 12,
    ensures
        m >= 3 ==> days_before_month(y, m) == 59 + (if is_leap_year(y) { 1int } else { 0int })
            + march_month_start(m - 3),
        m < 3 ==> days_before_month(y, m) == march_month_start(m + 9) - 306,
{
    reveal_with_fuel(days_before_month, 13);
}

/// Splits a day of a year counted from the first of March into month and day.
/// The year `o` of era `e` (400 years each, counted from year 0): its March days
/// are those of the era's start plus those of year `o`, and it is followed by a
/// leap year exactly when year `o + 1` of the first era is.
proof fn lemma_era_year(e: int, o: int)
    requires
        0 <= o < 400,
    ensures
        days_to_march(400 * e + o) == 146097 * e + days_to_march(o),
        is_leap_year(400 * e + o + 1) == is_leap_year(o + 1),
{
    let y = 400 * e + o;
    lemma_fundamental_div_mod_converse(y, 4, 100 * e + o / 4, o % 4);
    lemma_fundamental_div_mod_converse(y, 100, 4 * e + o / 100, o % 100);
    lemma_fundamental_div_mod_converse(y, 400, e, o);
    lemma_fundamental_div_mod_converse(y + 1, 4, 100 * e + (o + 1) / 4, (o + 1) % 4);
    lemma_fundamental_div_mod_converse(y + 1, 100, 4 * e + (o + 1) / 100, (o + 1) % 100);
    lemma_fundamental_div_mod_converse(y + 1, 400, e + (o + 1) / 400, (o + 1) % 400);
}

proof fn lemma_march_day(y: int, doy: int)
    requires
        0 <= doy < 365 + (if is_leap_year(y + 1) { 1int } else { 0int }),
    ensures
        ({
            let mp = (5 * doy + 2) / 153;
            let d = doy - march_month_start(mp) + 1;
            let m = if mp < 10 { mp + 3 } else { mp - 9 };
            let yy = if m <= 2 { y + 1 } else { y };
            &&& 0 <= mp <= 11
            &&& is_valid_date(yy, m, d)
            &&& epoch_day(yy, m, d) == days_to_march(y) + doy - 719468
        }),
{
    let mp = (5 * doy + 2) / 153;
    let d = doy - march_month_start(mp) + 1;
    let m = if mp < 10 { mp + 3 } else { mp - 9 };
    let yy = if m <= 2 { y + 1 } else { y };
    assert(0 <= mp <= 11);
    assert(is_valid_date(yy, m, d));
    lemma_days_before_month(yy, m);
    lemma_days_before_year_closed(yy);
    lemma_days_to_march(y);
    lemma_year_step(y);
    assert(days_from_year_zero(1970) == 719528);
}

/// The civil date `days` days after 1970-01-01, as a (year, month, day) triple.
///
/// The year and day come out as ordinary numbers: month 1 is January and day 1
/// is the first of the month. Inputs so large that adding the offset of the
/// computation's own epoch would overflow are left out.
pub fn days_to_ymd(days: u64) -> (ymd: (u64, u64, u64))
    requires
        days <= u64::MAX - 719468,
    ensures
        is_valid_date(ymd.0 as int, ymd.1 as int, ymd.2 as int),
        epoch_day(ymd.0 as int, ymd.1 as int, ymd.2 as int) == days,
        ymd.0 >= 1970,
{
    let mut days = days;
    // Shift the epoch to 0000-03-01, so that the leap day ends each year.
    days += 719468;
    let era = days / 146097;
    let doe = days % 146097;
    proof {
        lemma_era_day(doe as int);
    }
    let yoe = (doe - doe / 1460 + doe / 36524 - doe / 146096) / 365;
    let y = yoe + era * 400;
    let doy = doe - (365 * yoe + yoe / 4 - yoe / 100);
    proof {
        let march_year = y as int;
        let e = era as int;
        let o = yoe as int;
        lemma_fundamental_div_mod(days as int, 146097);
        lemma_era_year(e, o);
        assert(days_to_march(march_year) + doy == days);
        lemma_march_day(march_year, doy as int);
    }
    let mp = (5 * doy + 2) / 153;
    let d = doy - (153 * mp + 2) / 5 + 1;
    let m = if mp < 10 { mp + 3 } else { mp - 9 };
    let y = if m <= 2 { y + 1 } else { y };
    proof {
        lemma_date_order((1969, 12, 31), (y as int, m as int, d as int));
        assert(epoch_day(1969, 12, 31) == -1) by {
            lemma_days_before_year_closed(1969);
            lemma_days_before_month(1969, 12);
        }
    }
    (y, m, d)
}

proof fn lemma_days_before_year_step(y: int)
    ensures
        days_before_year(y + 1) == days_before_year(y) + year_length(y),
{
    lemma_days_before_year_closed(y);
    lemma_days_before_year_closed(y + 1);
    lemma_year_step(y);
}

proof fn lemma_days_before_year_monotone(y1: int, y2: int)
    requires
        y1 < y2,
    ensures
        days_before_year(y1) + year_length(y1) <= days_before_year(y2),
    decreases y2 - y1,
{
    lemma_days_before_year_step(y1);
    if y1 + 1 < y2 {
        lemma_days_before_year_monotone(y1 + 1, y2);
    }
}

proof fn lemma_days_before_month_monotone(y: int, m1: int, m2: int)
    requires
        1 <= m1 < m2,
    ensures
        days_before_month(y, m1) + month_length(y, m1) <= days_before_month(y, m2),
    decreases m2 - m1,
{
    if m1 + 1 < m2 {
        lemma_days_before_month_monotone(y, m1 + 1, m2);
    }
}

/// A valid date lies inside its year.
proof fn lemma_date_within_year(y: int, m: int, d: int)
    requires
        is_valid_date(y, m, d),
    ensures
        0 <= days_before_month(y, m) + d - 1 < year_length(y),
{
    lemma_days_before_month(y, m);
}

/// Distinct valid dates have distinct day numbers: the day number names the date.
pub proof fn lemma_epoch_day_injective(y1: int, m1: int, d1: int, y2: int, m2: int, d2: int)
    requires
        is_valid_date(y1, m1, d1),
        is_valid_date(y2, m2, d2),
        epoch_day(y1, m1, d1) == epoch_day(y2, m2, d2),
    ensures
        y1 == y2 && m1 == m2 && d1 == d2,
{
    lemma_date_within_year(y1, m1, d1);
    lemma_date_within_year(y2, m2, d2);
    if y1 < y2 {
        lemma_days_before_year_monotone(y1, y2);
    } else if y2 < y1 {
        lemma_days_before_year_monotone(y2, y1);
    } else if m1 < m2 {
        lemma_days_before_month_monotone(y1, m1, m2);
    } else if m2 < m1 {
        lemma_days_before_month_monotone(y1, m2, m1);
    }
}

/// The civil date whose day number, counted from 1970-01-01, is `n`.
pub open spec fn civil_date(n: int) -> (int, int, int) {
    choose|y: int, m: int, d: int| is_valid_date(y, m, d) && epoch_day(y, m, d) == n
}

/// A year as `{:04}` writes it: at least four digits, zero-padded after the sign
/// of a year before year 0.
pub open spec fn iso_year(y: int) -> Seq<char> {
    if y >= 0 {
        padded_left(decimal(y as nat), 4, '0')
    } else {
        seq!['-'] + padded_left(decimal((-y) as nat), 3, '0')
    }
}

/// The date `y`-`m`-`d` written as `YYYY-MM-DD`, each field zero-padded.
pub open spec fn iso_date(date: (int, int, int)) -> Seq<char> {
    iso_year(date.0) + seq!['-'] + padded_left(decimal(date.1 as nat), 2, '0') + seq!['-']
        + padded_left(decimal(date.2 as nat), 2, '0')
}

/// The day number of a timestamp: the whole days from 1970-01-01 to it, rounded
/// down, so that times before 1970 fall on earlier days.
pub open spec fn timestamp_day(ts: i64) -> int {
    ts as int / 86400
}

/// The civil date that `days_to_ymd` computes is the one that `civil_date` names.
pub proof fn lemma_days_to_ymd_is_civil_date(n: int, y: int, m: int, d: int)
    requires
        is_valid_date(y, m, d),
        epoch_day(y, m, d) == n,
    ensures
        civil_date(n) == (y, m, d),
{
    let c = civil_date(n);
    assert(is_valid_date(c.0, c.1, c.2) && epoch_day(c.0, c.1, c.2) == n);
    lemma_epoch_day_injective(c.0, c.1, c.2, y, m, d);
}

/// Every valid date is the civil date of its own day number.
pub proof fn lemma_civil_date_of_epoch_day(y: int, m: int, d: int)
    requires
        is_valid_date(y, m, d),
    ensures
        civil_date(epoch_day(y, m, d)) == (y, m, d),
{
    lemma_days_to_ymd_is_civil_date(epoch_day(y, m, d), y, m, d);
}

/// The civil date `days` days after 1970-01-01 (before it, for negative `days`), as a
/// (year, month, day) triple.
pub fn days_to_civil(days: i64) -> (ymd: (i64, u64, u64))
    ensures
        is_valid_date(ymd.0 as int, ymd.1 as int, ymd.2 as int),
        epoch_day(ymd.0 as int, ymd.1 as int, ymd.2 as int) == days,
        -100_000_000_000_000_000 < ymd.0 < 100_000_000_000_000_000,
{
    // Count from 0000-03-01, so that the leap day ends each year, and add whole
    // 400-year eras so that the count is not negative.
    let shifted: u128 = (days as i128 + 719468 + 146097 * 100_000_000_000_000) as u128;
    let era = shifted / 146097;
    let doe = shifted % 146097;
    proof {
        lemma_era_day(doe as int);
    }
    let yoe = (doe - doe / 1460 + doe / 36524 - doe / 146096) / 365;
    let doy = doe - (365 * yoe + yoe / 4 - yoe / 100);
    proof {
        let e = era as int - 100_000_000_000_000;
        let o = yoe as int;
        let march_year = 400 * e + o;
        lemma_fundamental_div_mod(shifted as int, 146097);
        lemma_era_year(e, o);
        assert(days_to_march(march_year) + doy == days + 719468);
        lemma_march_day(march_year, doy as int);
    }
    let mp = (5 * doy + 2) / 153;
    let d = doy - (153 * mp + 2) / 5 + 1;
    let m = if mp < 10 { mp + 3 } else { mp - 9 };
    let march_year: i128 = (era as i128 - 100_000_000_000_000) * 400 + yoe as i128;
    let y: i128 = if m <= 2 { march_year + 1 } else { march_year };
    (y as i64, m as u64, d as u64)
}

/// `a` is an earlier date than `b`: by year, then month, then day.
pub open spec fn date_before(a: (int, int, int), b: (int, int, int)) -> bool {
    a.0 < b.0 || (a.0 == b.0 && (a.1 < b.1 || (a.1 == b.1 && a.2 < b.2)))
}

proof fn lemma_earlier_date_smaller_day(a: (int, int, int), b: (int, int, int))
    requires
        is_valid_date(a.0, a.1, a.2),
        is_valid_date(b.0, b.1, b.2),
        date_before(a, b),
    ensures
        epoch_day(a.0, a.1, a.2) < epoch_day(b.0, b.1, b.2),
{
    lemma_date_within_year(a.0, a.1, a.2);
    lemma_date_within_year(b.0, b.1, b.2);
    if a.0 < b.0 {
        lemma_days_before_year_monotone(a.0, b.0);
    } else if a.1 < b.1 {
        lemma_days_before_month_monotone(a.0, a.1, b.1);
    }
}

/// Dates are ordered as their day numbers are: an earlier date has a smaller day
/// number, and a smaller day number belongs to an earlier date.
pub proof fn lemma_date_order(a: (int, int, int), b: (int, int, int))
    requires
        is_valid_date(a.0, a.1, a.2),
        is_valid_date(b.0, b.1, b.2),
    ensures
        date_before(a, b) <==> epoch_day(a.0, a.1, a.2) < epoch_day(b.0, b.1, b.2),
{
    if date_before(a, b) {
        lemma_earlier_date_smaller_day(a, b);
    } else if date_before(b, a) {
        lemma_earlier_date_smaller_day(b, a);
    } else {
        assert(a == b);
    }
}

/// Every day number has a civil date.
pub proof fn lemma_civil_date_exists(n: int)
    ensures
        is_valid_date(civil_date(n).0, civil_date(n).1, civil_date(n).2),
        epoch_day(civil_date(n).0, civil_date(n).1, civil_date(n).2) == n,
{
    let z = n + 719468;
    let e = z / 146097;
    let doe = z % 146097;
    lemma_fundamental_div_mod(z, 146097);
    lemma_mod_bound(z, 146097);
    lemma_era_day(doe);
    let o = (doe - doe / 1460 + doe / 36524 - doe / 146096) / 365;
    let doy = doe - (365 * o + o / 4 - o / 100);
    let march_year = 400 * e + o;
    lemma_era_year(e, o);
    assert(days_to_march(march_year) + doy == z);
    lemma_march_day(march_year, doy);
    let mp = (5 * doy + 2) / 153;
    let d = doy - march_month_start(mp) + 1;
    let m = if mp < 10 { mp + 3 } else { mp - 9 };
    let yy = if m <= 2 { march_year + 1 } else { march_year };
    lemma_days_to_ymd_is_civil_date(n, yy, m, d);
}

/// Later days fall on later dates; days from 1970-01-01 on fall in 1970 or later,
/// and days before 10000-01-01 in a year below 10000.
pub proof fn lemma_later_days_later_dates(a: int, b: int)
    requires
        a < b,
    ensures
        date_before(civil_date(a), civil_date(b)),
        a >= 0 ==> civil_date(a).0 >= 1970,
        b < 2932897 ==> civil_date(b).0 <= 9999,
{
    lemma_civil_date_exists(a);
    lemma_civil_date_exists(b);
    lemma_date_order(civil_date(a), civil_date(b));
    if a >= 0 {
        lemma_date_order((1969, 12, 31), civil_date(a));
        assert(epoch_day(1969, 12, 31) == -1) by {
            lemma_days_before_year_closed(1969);
            lemma_days_before_month(1969, 12);
        }
    }
    if b < 2932897 {
        lemma_date_order(civil_date(b), (10000, 1, 1));
        assert(epoch_day(10000, 1, 1) == 2932897) by {
            lemma_days_before_year_closed(10000);
        }
    }
}

/// `c` is a decimal digit.
pub open spec fn is_digit(c: char) -> bool {
    '0' <= c <= '9'
}

/// `t` reads `DDDD-DD-DD`: ten characters, dashes at the fifth and eighth, digits
/// elsewhere.
pub open spec fn is_iso_shaped(t: Seq<char>) -> bool {
    &&& t.len() == 10
    &&& t[4] == '-' && t[7] == '-'
    &&& forall|i: int| 0 <= i < 10 && i != 4 && i != 7 ==> is_digit(#[trigger] t[i])
}

/// `a` comes before `b` in character order: at the first place where they differ,
/// or by being a proper prefix of `b`.
pub open spec fn chars_before(a: Seq<char>, b: Seq<char>) -> bool
    decreases a.len(),
{
    if a.len() == 0 {
        b.len() > 0
    } else if b.len() == 0 {
        false
    } else if a[0] != b[0] {
        a[0] < b[0]
    } else {
        chars_before(a.drop_first(), b.drop_first())
    }
}

proof fn lemma_chars_before_at(a: Seq<char>, b: Seq<char>, i: int)
    requires
        0 <= i < a.len(),
        i < b.len(),
        forall|k: int| 0 <= k < i ==> a[k] == b[k],
        a[i] < b[i],
    ensures
        chars_before(a, b),
    decreases i,
{
    if i > 0 {
        lemma_chars_before_at(a.drop_first(), b.drop_first(), i - 1);
    }
}

proof fn lemma_two_digits(n: int)
    requires
        0 <= n <= 99,
    ensures
        padded_left(decimal(n as nat), 2, '0') == seq![digit_char(n / 10), digit_char(n % 10)],
{
    reveal_with_fuel(decimal, 3);
    if n < 10 {
        assert(padded_left(decimal(n as nat), 2, '0') =~= seq![digit_char(0), digit_char(n)]);
    } else {
        assert(decimal((n / 10) as nat) == seq![digit_char(n / 10)]);
        assert(padded_left(decimal(n as nat), 2, '0') =~= seq![digit_char(n / 10), digit_char(n % 10)]);
    }
}

proof fn lemma_four_digits(n: int)
    requires
        1000 <= n <= 9999,
    ensures
        iso_year(n) == seq![
            digit_char(n / 1000),
            digit_char(n / 100 % 10),
            digit_char(n / 10 % 10),
            digit_char(n % 10),
        ],
{
    reveal_with_fuel(decimal, 5);
    assert(decimal((n / 1000) as nat) == seq![digit_char(n / 1000)]);
    assert(decimal((n / 100) as nat) =~= seq![digit_char(n / 1000), digit_char(n / 100 % 10)]);
    assert(decimal((n / 10) as nat) =~= seq![
        digit_char(n / 1000),
        digit_char(n / 100 % 10),
        digit_char(n / 10 % 10),
    ]);
    assert(iso_year(n) =~= seq![
        digit_char(n / 1000),
        digit_char(n / 100 % 10),
        digit_char(n / 10 % 10),
        digit_char(n % 10),
    ]);
}

/// The ISO text of a date in the years 1000 to 9999, character by character.
spec fn digit_text(date: (int, int, int)) -> Seq<char> {
    seq![
        digit_char(date.0 / 1000),
        digit_char(date.0 / 100 % 10),
        digit_char(date.0 / 10 % 10),
        digit_char(date.0 % 10),
        '-',
        digit_char(date.1 / 10),
        digit_char(date.1 % 10),
        '-',
        digit_char(date.2 / 10),
        digit_char(date.2 % 10),
    ]
}

/// The ISO text of a date in the years 1000 to 9999, character by character.
proof fn lemma_iso_chars(date: (int, int, int))
    requires
        1000 <= date.0 <= 9999,
        is_valid_date(date.0, date.1, date.2),
    ensures
        iso_date(date) == digit_text(date),
        is_iso_shaped(iso_date(date)),
{
    lemma_four_digits(date.0);
    lemma_two_digits(date.1);
    lemma_two_digits(date.2);
    assert(iso_date(date) =~= seq![
        digit_char(date.0 / 1000),
        digit_char(date.0 / 100 % 10),
        digit_char(date.0 / 10 % 10),
        digit_char(date.0 % 10),
        '-',
        digit_char(date.1 / 10),
        digit_char(date.1 % 10),
        '-',
        digit_char(date.2 / 10),
        digit_char(date.2 % 10),
    ]);
}

proof fn lemma_digit_char_order(x: int, y: int)
    requires
        0 <= x <= 9,
        0 <= y <= 9,
    ensures
        x < y ==> digit_char(x) < digit_char(y),
        x == y <==> digit_char(x) == digit_char(y),
{
    assert(digit_char(x) as int == 48 + x);
    assert(digit_char(y) as int == 48 + y);
}

/// The `k`-th of the eight digits of a date in the years 1000 to 9999.
spec fn date_digit(a: (int, int, int), k: int) -> int {
    if k == 0 {
        a.0 / 1000
    } else if k == 1 {
        a.0 / 100 % 10
    } else if k == 2 {
        a.0 / 10 % 10
    } else if k == 3 {
        a.0 % 10
    } else if k == 4 {
        a.1 / 10
    } else if k == 5 {
        a.1 % 10
    } else if k == 6 {
        a.2 / 10
    } else {
        a.2 % 10
    }
}

/// The place of the `k`-th digit of a date in its ISO text.
spec fn digit_place(k: int) -> int {
    if k < 4 {
        k
    } else if k < 6 {
        k + 1
    } else {
        k + 2
    }
}

proof fn lemma_digits_of(a: (int, int, int))
    requires
        1000 <= a.0 <= 9999,
        1 <= a.1 <= 12,
        1 <= a.2 <= 31,
    ensures
        a.0 == 1000 * date_digit(a, 0) + 100 * date_digit(a, 1) + 10 * date_digit(a, 2) + date_digit(a, 3),
        a.1 == 10 * date_digit(a, 4) + date_digit(a, 5),
        a.2 == 10 * date_digit(a, 6) + date_digit(a, 7),
        forall|k: int| 0 <= k < 8 ==> 0 <= #[trigger] date_digit(a, k) <= 9,
{
    let y = a.0;
    lemma_fundamental_div_mod(y, 10);
    lemma_fundamental_div_mod(y, 100);
    lemma_fundamental_div_mod(y, 1000);
    lemma_fundamental_div_mod(y / 10, 10);
    lemma_fundamental_div_mod(y / 100, 10);
    lemma_mod_bound(y, 10);
    lemma_mod_bound(y, 100);
    lemma_mod_bound(y, 1000);
    lemma_mod_bound(y / 10, 10);
    lemma_mod_bound(y / 100, 10);
    lemma_fundamental_div_mod_converse(y / 10, 10, y / 100, (y % 100) / 10);
    lemma_fundamental_div_mod_converse(y / 100, 10, y / 1000, (y % 1000) / 100);
    lemma_fundamental_div_mod(a.1, 10);
    lemma_mod_bound(a.1, 10);
    lemma_fundamental_div_mod(a.2, 10);
    lemma_mod_bound(a.2, 10);
}

/// The first place where the digits of two dates differ holds the smaller digit in
/// the earlier date.
proof fn lemma_first_differing_digit(a: (int, int, int), b: (int, int, int)) -> (i: int)
    requires
        1000 <= a.0 <= 9999,
        1000 <= b.0 <= 9999,
        1 <= a.1 <= 12 && 1 <= b.1 <= 12,
        1 <= a.2 <= 31 && 1 <= b.2 <= 31,
        date_before(a, b),
    ensures
        0 <= i < 8,
        forall|k: int| 0 <= k < i ==> date_digit(a, k) == date_digit(b, k),
        date_digit(a, i) < date_digit(b, i),
{
    lemma_digits_of(a);
    lemma_digits_of(b);
    if a.0 / 1000 != b.0 / 1000 {
        0
    } else if a.0 / 100 % 10 != b.0 / 100 % 10 {
        1
    } else if a.0 / 10 % 10 != b.0 / 10 % 10 {
        2
    } else if a.0 % 10 != b.0 % 10 {
        3
    } else if a.1 / 10 != b.1 / 10 {
        4
    } else if a.1 % 10 != b.1 % 10 {
        5
    } else if a.2 / 10 != b.2 / 10 {
        6
    } else {
        7
    }
}

proof fn lemma_digit_text_order(a: (int, int, int), b: (int, int, int))
    requires
        1000 <= a.0 <= 9999,
        1000 <= b.0 <= 9999,
        1 <= a.1 <= 12 && 1 <= b.1 <= 12,
        1 <= a.2 <= 31 && 1 <= b.2 <= 31,
        date_before(a, b),
    ensures
        chars_before(digit_text(a), digit_text(b)),
{
    let i = lemma_first_differing_digit(a, b);
    lemma_digits_of(a);
    lemma_digits_of(b);
    let x = digit_text(a);
    let y = digit_text(b);
    assert forall|k: int| 0 <= k < 8 implies #[trigger] x[digit_place(k)] == digit_char(date_digit(a, k))
        && y[digit_place(k)] == digit_char(date_digit(b, k)) by {}
    lemma_digit_char_order(date_digit(a, i), date_digit(b, i));
    assert forall|p: int| 0 <= p < digit_place(i) implies x[p] == y[p] by {
        if p != 4 && p != 7 {
            let k = if p < 4 { p } else if p < 7 { p - 1 } else { p - 2 };
            assert(digit_place(k) == p);
            lemma_digit_char_order(date_digit(a, k), date_digit(b, k));
        }
    }
    lemma_chars_before_at(x, y, digit_place(i));
}

proof fn lemma_iso_order(a: (int, int, int), b: (int, int, int))
    requires
        1000 <= a.0 <= 9999,
        1000 <= b.0 <= 9999,
        is_valid_date(a.0, a.1, a.2),
        is_valid_date(b.0, b.1, b.2),
        date_before(a, b),
    ensures
        chars_before(iso_date(a), iso_date(b)),
{
    lemma_iso_chars(a);
    lemma_iso_chars(b);
    lemma_digit_text_order(a, b);
}

/// On ASCII texts, character order is std's string order.
proof fn lemma_ascii_order(a: Seq<char>, b: Seq<char>)
    requires
        is_ascii_chars(a),
        is_ascii_chars(b),
    ensures
        chars_before(a, b) == text_before(a, b),
    decreases a.len(),
{
    is_ascii_chars_encode_utf8(a);
    is_ascii_chars_encode_utf8(b);
    if a.len() > 0 && b.len() > 0 {
        let (ea, eb) = (encode_utf8(a), encode_utf8(b));
        assert(has_width_1_encoding(a[0] as u32));
        assert(has_width_1_encoding(b[0] as u32));
        assert(ea.drop_first() =~= encode_utf8(a.drop_first()));
        assert(eb.drop_first() =~= encode_utf8(b.drop_first()));
        assert(ea[0] == a[0] as u8 && eb[0] == b[0] as u8);
        assert(is_ascii_chars(a.drop_first()) && is_ascii_chars(b.drop_first())) by {
            assert forall|i| 0 <= i < a.drop_first().len() implies '\0' <= #[trigger] a.drop_first()[i] <= '\u{7f}' by {
                assert(a.drop_first()[i] == a[i + 1]);
            }
            assert forall|i| 0 <= i < b.drop_first().len() implies '\0' <= #[trigger] b.drop_first()[i] <= '\u{7f}' by {
                assert(b.drop_first()[i] == b[i + 1]);
            }
        }
        lemma_ascii_order(a.drop_first(), b.drop_first());
    }
}

proof fn lemma_iso_ascii(t: Seq<char>)
    requires
        is_iso_shaped(t),
    ensures
        is_ascii_chars(t),
{
    assert forall|i| 0 <= i < t.len() implies '\0' <= #[trigger] t[i] <= '\u{7f}' by {
        if i != 4 && i != 7 {
            assert(is_digit(t[i]));
        }
    }
}

/// From 1970-01-01 through 9999-12-31, a formatted date reads `DDDD-DD-DD`, and a
/// later timestamp never gives an earlier text, in character order or in std's
/// string order.
pub proof fn lemma_format_epoch_shape_and_order(a: i64, b: i64)
    requires
        0 <= a <= b <= 253402300799,
    ensures
        is_iso_shaped(iso_date(civil_date(timestamp_day(a)))),
        iso_date(civil_date(timestamp_day(a))) == iso_date(civil_date(timestamp_day(b)))
            || chars_before(
            iso_date(civil_date(timestamp_day(a))),
            iso_date(civil_date(timestamp_day(b))),
        ),
        iso_date(civil_date(timestamp_day(a))) == iso_date(civil_date(timestamp_day(b)))
            || text_before(
            iso_date(civil_date(timestamp_day(a))),
            iso_date(civil_date(timestamp_day(b))),
        ),
{
    let da = timestamp_day(a);
    let db = timestamp_day(b);
    lemma_civil_date_exists(da);
    lemma_civil_date_exists(db);
    lemma_later_days_later_dates(da, da + 1);
    lemma_later_days_later_dates(da - 1, da);
    lemma_later_days_later_dates(db, db + 1);
    lemma_later_days_later_dates(db - 1, db);
    lemma_iso_chars(civil_date(da));
    lemma_iso_chars(civil_date(db));
    if da < db {
        lemma_later_days_later_dates(da, db);
        lemma_iso_order(civil_date(da), civil_date(db));
    }
    lemma_iso_ascii(iso_date(civil_date(da)));
    lemma_iso_ascii(iso_date(civil_date(db)));
    lemma_ascii_order(iso_date(civil_date(da)), iso_date(civil_date(db)));
}

/// The UTC date of the timestamp `ts` (seconds since 1970-01-01), as `YYYY-MM-DD`.
pub fn format_epoch(ts: i64) -> (text: String)
    ensures
        text@ == iso_date(civil_date(timestamp_day(ts))),
{
    let days: i64 = if ts >= 0 {
        ts / 86400
    } else {
        -((-(ts + 1)) / 86400) - 1
    };
    assert(days == timestamp_day(ts));
    let (year, month, day) = days_to_civil(days);
    proof {
        lemma_days_to_ymd_is_civil_date(days as int, year as int, month as int, day as int);
    }
    let mut text = String::new();
    if year >= 0 {
        push_zero_padded(&mut text, year as u64, 4);
    } else {
        push_char(&mut text, '-');
        push_zero_padded(&mut text, (-year) as u64, 3);
    }
    push_char(&mut text, '-');
    push_zero_padded(&mut text, month, 2);
    push_char(&mut text, '-');
    push_zero_padded(&mut text, day, 2);
    proof {
        assert(text@ =~= iso_date(civil_date(timestamp_day(ts))));
    }
    text
}

} // verus!

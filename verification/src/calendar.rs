//! Calendar arithmetic: Julian Day Numbers to Gregorian dates (Richards'
//! algorithm) and the text of an Excel OA serial date-time.
use vstd::prelude::*;
use crate::number::{
    all_digits, decimal_seq, digits_value, lemma_decimal_reads_back, lemma_pad2_reads_back, pad2_seq,
    signed_decimal_seq, push_pad2, push_signed_decimal,
};

verus! {

/// Rust's `/` on signed integers for a positive divisor: the quotient rounded
/// toward zero.
pub open spec fn tdiv(a: int, d: int) -> int {
    if a >= 0 {
        a / d
    } else {
        -((-a) / d)
    }
}

/// The Julian Day Number of the Excel OA epoch (Dec 30, 1899).
pub const EXCEL_EPOCH_JDN: i64 = 2415019;

/// Richards' algorithm on mathematical integers, with Rust's rounding of
/// signed division: `(year, month, day)`.
pub open spec fn richards(jdn: int) -> (int, int, int) {
    let a = jdn + 32044;
    let b = tdiv(4 * a + 3, 146097);
    let c = a - tdiv(146097 * b, 4);
    let d = tdiv(4 * c + 3, 1461);
    let e = c - tdiv(1461 * d, 4);
    let m = tdiv(5 * e + 2, 153);
    let day = e - tdiv(153 * m + 2, 5) + 1;
    let month = m + 3 - 12 * tdiv(m, 10);
    let year = 100 * b + d - 4800 + tdiv(m, 10);
    (year, month, day)
}

/// The Julian Day Number of a proleptic Gregorian date (the standard formula,
/// with floor division).
pub open spec fn gregorian_to_jdn(year: int, month: int, day: int) -> int {
    let a = (14 - month) / 12;
    let y = year + 4800 - a;
    let m = month + 12 * a - 3;
    day + (153 * m + 2) / 5 + 365 * y + y / 4 - y / 100 + y / 400 - 32045
}

/// The JDNs on which the computation stays within `i64` (outside of them the
/// `i64` arithmetic of the algorithm overflows).
pub open spec fn jdn_in_range(jdn: int) -> bool {
    -0x2000_0000_0000_0000 <= jdn + 32044 <= 0x1fff_ffff_ffff_ffff
}

/// Julian Day Number to Gregorian `(year, month, day)` by Richards' algorithm,
/// with its results cast as the viewer stores them: the year truncated to
/// `i32`, month and day to `u32`.
pub fn jdn_to_gregorian(jdn: i64) -> (ymd: (i32, u32, u32))
    requires
        jdn_in_range(jdn as int),
    ensures
        ymd.0 == richards(jdn as int).0 as i32,
        ymd.1 == richards(jdn as int).1 as u32,
        ymd.2 == richards(jdn as int).2 as u32,
{
    let a: i64 = jdn + 32044;
    let b: i64 = (4 * a + 3) / 146097;
    assert(4 * a + 3 >= 0 ==> 0 <= 146097 * b <= 4 * a + 3) by (nonlinear_arith)
        requires
            b == tdiv(4 * a + 3, 146097),
    ;
    assert(4 * a + 3 < 0 ==> 4 * a + 3 <= 146097 * b <= 0) by (nonlinear_arith)
        requires
            b == tdiv(4 * a + 3, 146097),
    ;
    let c: i64 = a - (146097 * b) / 4;
    assert(-40000 <= c <= 40000) by (nonlinear_arith)
        requires
            b == tdiv(4 * a + 3, 146097),
            c == a - tdiv(146097 * b, 4),
    ;
    let d: i64 = (4 * c + 3) / 1461;
    let e: i64 = c - (1461 * d) / 4;
    assert(-1000 <= e <= 1000) by (nonlinear_arith)
        requires
            -40000 <= c <= 40000,
            d == tdiv(4 * c + 3, 1461),
            e == c - tdiv(1461 * d, 4),
    ;
    let m: i64 = (5 * e + 2) / 153;
    let day = (e - (153 * m + 2) / 5 + 1) as u32;
    let month = (m + 3 - 12 * (m / 10)) as u32;
    let year = (100 * b + d - 4800 + m / 10) as i32;
    (year, month, day)
}

/// Whether `year` is a leap year of the proleptic Gregorian calendar.
pub open spec fn is_leap_year(year: int) -> bool {
    (year % 4 == 0 && year % 100 != 0) || year % 400 == 0
}

/// The number of days of `month` (1 to 12) in `year`.
pub open spec fn days_in_month(year: int, month: int) -> int {
    if month == 2 {
        if is_leap_year(year) {
            29
        } else {
            28
        }
    } else if month == 4 || month == 6 || month == 9 || month == 11 {
        30
    } else {
        31
    }
}

/// On days from JDN 0 on (`jdn + 32044 >= 0` suffices), the algorithm gives a
/// valid Gregorian date (month in `1..=12`, day from 1 to the number of days
/// of that month in that year), which the standard Gregorian formula maps back
/// to the same Julian Day Number.
pub proof fn lemma_richards_round_trip(jdn: int)
    requires
        jdn + 32044 >= 0,
    ensures
        1 <= richards(jdn).1 <= 12,
        1 <= richards(jdn).2 <= days_in_month(richards(jdn).0, richards(jdn).1),
        gregorian_to_jdn(richards(jdn).0, richards(jdn).1, richards(jdn).2) == jdn,
{
    let a = jdn + 32044;
    let b = (4 * a + 3) / 146097;
    assert(b >= 0) by (nonlinear_arith)
        requires
            a >= 0,
            b == (4 * a + 3) / 146097,
    ;
    assert(146097 * b <= 4 * a + 3 < 146097 * b + 146097) by (nonlinear_arith)
        requires
            a >= 0,
            b == (4 * a + 3) / 146097,
    ;
    let q = (146097 * b) / 4;
    assert(q == 36524 * b + b / 4) by (nonlinear_arith)
        requires
            b >= 0,
            q == (146097 * b) / 4,
    ;
    let c = a - q;
    assert(0 <= c <= 36524) by (nonlinear_arith)
        requires
            b >= 0,
            146097 * b <= 4 * a + 3 < 146097 * b + 146097,
            q == (146097 * b) / 4,
            c == a - q,
    ;
    let d = (4 * c + 3) / 1461;
    assert(0 <= d <= 99 && 1461 * d <= 4 * c + 3 < 1461 * d + 1461) by (nonlinear_arith)
        requires
            0 <= c <= 36524,
            d == (4 * c + 3) / 1461,
    ;
    let r = (1461 * d) / 4;
    assert(r == 365 * d + d / 4) by (nonlinear_arith)
        requires
            d >= 0,
            r == (1461 * d) / 4,
    ;
    let e = c - r;
    assert(0 <= e <= 365) by (nonlinear_arith)
        requires
            0 <= d,
            1461 * d <= 4 * c + 3 < 1461 * d + 1461,
            r == (1461 * d) / 4,
            e == c - r,
    ;
    let m = (5 * e + 2) / 153;
    assert(0 <= m <= 11 && 153 * m <= 5 * e + 2 < 153 * m + 153) by (nonlinear_arith)
        requires
            0 <= e <= 365,
            m == (5 * e + 2) / 153,
    ;
    let s = (153 * m + 2) / 5;
    let day = e - s + 1;
    assert(1 <= day <= 31) by (nonlinear_arith)
        requires
            0 <= m <= 11,
            153 * m <= 5 * e + 2 < 153 * m + 153,
            s == (153 * m + 2) / 5,
            day == e - s + 1,
    ;
    let k = m / 10;
    assert(k == 0 || k == 1);
    assert(k == 1 <==> m >= 10);
    let month = m + 3 - 12 * k;
    let year = 100 * b + d - 4800 + k;
    assert(richards(jdn) == (year, month, day));
    assert(1 <= month <= 12);
    lemma_day_within_month(a, b, c, d, e, m, year, month, day);
    // back through the standard formula
    let a2 = (14 - month) / 12;
    assert(a2 == k);
    let y2 = year + 4800 - a2;
    assert(y2 == 100 * b + d);
    let m2 = month + 12 * a2 - 3;
    assert(m2 == m);
    assert(y2 / 4 == 25 * b + d / 4) by (nonlinear_arith)
        requires
            y2 == 100 * b + d,
            b >= 0,
            0 <= d <= 99,
    ;
    assert(y2 / 100 == b) by (nonlinear_arith)
        requires
            y2 == 100 * b + d,
            b >= 0,
            0 <= d <= 99,
    ;
    assert(y2 / 400 == b / 4) by (nonlinear_arith)
        requires
            y2 == 100 * b + d,
            b >= 0,
            0 <= d <= 99,
    ;
    assert(gregorian_to_jdn(year, month, day) == day + s + 365 * y2 + y2 / 4 - y2 / 100 + y2 / 400
        - 32045);
}

/// The steps of Richards' algorithm from `a = jdn + 32044 >= 0` end on a day
/// that the month has: for March to January (`m` from 0 to 10) the day is
/// bounded by the month's length, and February 29 (`e == 365`, the last day of
/// a March-based year) comes only in a leap year.
#[verifier::spinoff_prover]
proof fn lemma_day_within_month(a: int, b: int, c: int, d: int, e: int, m: int, year: int, month: int, day: int)
    requires
        a >= 0,
        b >= 0,
        146097 * b <= 4 * a + 3 < 146097 * b + 146097,
        c == a - (36524 * b + b / 4),
        0 <= c <= 36524,
        0 <= d <= 99,
        1461 * d <= 4 * c + 3 < 1461 * d + 1461,
        e == c - (365 * d + d / 4),
        0 <= e <= 365,
        0 <= m <= 11,
        153 * m <= 5 * e + 2 < 153 * m + 153,
        day == e - (153 * m + 2) / 5 + 1,
        month == m + 3 - 12 * (m / 10),
        year == 100 * b + d - 4800 + m / 10,
    ensures
        day <= days_in_month(year, month),
{
    if m < 11 {
        assert(day <= days_in_month(year, month)) by {
            if m == 0 {} else if m == 1 {} else if m == 2 {} else if m == 3 {}
            else if m == 4 {} else if m == 5 {} else if m == 6 {} else if m == 7 {}
            else if m == 8 {} else if m == 9 {} else {}
        }
    } else {
        assert(month == 2 && day == e - 336);
        if e == 365 {
            // the fourth year of a four-year cycle
            assert(d % 4 == 3) by (nonlinear_arith)
                requires
                    0 <= d,
                    1461 * d <= 4 * c + 3 < 1461 * d + 1461,
                    e == c - (365 * d + d / 4),
                    e == 365,
            {
                assert(d == 4 * (d / 4) + d % 4);
            }
            assert(year == 100 * b + d + 1 - 4800);
            if d == 99 {
                // the fourth century of a four-century cycle
                assert(c == 36524);
                assert(b % 4 == 3) by (nonlinear_arith)
                    requires
                        b >= 0,
                        146097 * b <= 4 * a + 3 < 146097 * b + 146097,
                        c == a - (36524 * b + b / 4),
                        c == 36524,
                {
                    assert(b == 4 * (b / 4) + b % 4);
                }
                assert(year == 100 * (b + 1) - 4800);
                assert(year % 400 == 0) by (nonlinear_arith)
                    requires
                        year == 100 * (b + 1) - 4800,
                        b % 4 == 3,
                        b >= 0,
                {
                    assert(b == 4 * (b / 4) + 3);
                }
            } else {
                assert(year % 4 == 0 && year % 100 != 0) by (nonlinear_arith)
                    requires
                        year == 100 * b + d + 1 - 4800,
                        d % 4 == 3,
                        0 <= d < 99,
                        b >= 0,
                {
                    assert(d == 4 * (d / 4) + 3);
                }
            }
            assert(is_leap_year(year));
        }
    }
}

/// The day after `(year, month, day)` in the proleptic Gregorian calendar.
pub open spec fn next_date(ymd: (int, int, int)) -> (int, int, int) {
    if ymd.2 < days_in_month(ymd.0, ymd.1) {
        (ymd.0, ymd.1, ymd.2 + 1)
    } else if ymd.1 < 12 {
        (ymd.0, ymd.1 + 1, 1)
    } else {
        (ymd.0 + 1, 1, 1)
    }
}

/// The days before March 1 of the March-based year `y`, counted from a fixed
/// origin, as the Gregorian formula adds them up.
#[verifier::opaque]
spec fn year_start(y: int) -> int {
    365 * y + y / 4 - y / 100 + y / 400
}

/// The March-based year a month belongs to: January and February count with
/// the year before.
spec fn march_year(year: int, month: int) -> int {
    if month <= 2 {
        year + 4799
    } else {
        year + 4800
    }
}

/// The days before the first of `month` within its March-based year.
spec fn month_offset(month: int) -> int {
    if month == 3 {
        0
    } else if month == 4 {
        31
    } else if month == 5 {
        61
    } else if month == 6 {
        92
    } else if month == 7 {
        122
    } else if month == 8 {
        153
    } else if month == 9 {
        184
    } else if month == 10 {
        214
    } else if month == 11 {
        245
    } else if month == 12 {
        275
    } else if month == 1 {
        306
    } else {
        337
    }
}

/// The Gregorian formula as a sum of year, month and day parts.
proof fn lemma_jdn_parts(year: int, month: int, day: int)
    requires
        1 <= month <= 12,
    ensures
        gregorian_to_jdn(year, month, day) == day + month_offset(month) + year_start(
            march_year(year, month),
        ) - 32045,
{
    reveal(year_start);
    if month == 1 {} else if month == 2 {} else if month == 3 {} else if month == 4 {}
    else if month == 5 {} else if month == 6 {} else if month == 7 {} else if month == 8 {}
    else if month == 9 {} else if month == 10 {} else if month == 11 {} else {}
}

/// A March-based year has 365 days, and one more when the February that ends
/// it has a 29th (the following calendar year, `y + 1`, is a leap year).
#[verifier::spinoff_prover]
proof fn lemma_year_length(y: int)
    ensures
        year_start(y + 1) - year_start(y) == 365 + (if is_leap_year(y + 1) { 1int } else { 0int }),
{
    reveal(year_start);
    assert((y + 1) / 4 - y / 4 == (if (y + 1) % 4 == 0 { 1int } else { 0int })) by (nonlinear_arith) {
        assert(y == 4 * (y / 4) + y % 4);
        assert(y + 1 == 4 * ((y + 1) / 4) + (y + 1) % 4);
    }
    assert((y + 1) / 100 - y / 100 == (if (y + 1) % 100 == 0 { 1int } else { 0int })) by (nonlinear_arith) {
        assert(y == 100 * (y / 100) + y % 100);
        assert(y + 1 == 100 * ((y + 1) / 100) + (y + 1) % 100);
    }
    assert((y + 1) / 400 - y / 400 == (if (y + 1) % 400 == 0 { 1int } else { 0int })) by (nonlinear_arith) {
        assert(y == 400 * (y / 400) + y % 400);
        assert(y + 1 == 400 * ((y + 1) / 400) + (y + 1) % 400);
    }
    assert((y + 1) % 400 == 0 ==> (y + 1) % 100 == 0 && (y + 1) % 4 == 0) by (nonlinear_arith) {
        assert(y + 1 == 400 * ((y + 1) / 400) + (y + 1) % 400);
    }
    assert((y + 1) % 100 == 0 ==> (y + 1) % 4 == 0) by (nonlinear_arith) {
        assert(y + 1 == 100 * ((y + 1) / 100) + (y + 1) % 100);
    }
}

/// Leap years repeat every 400 years.
proof fn lemma_leap_period(year: int)
    ensures
        is_leap_year(year + 4800) == is_leap_year(year),
{
    assert((year + 4800) % 4 == year % 4);
    assert((year + 4800) % 100 == year % 100);
    assert((year + 4800) % 400 == year % 400);
}

/// The Gregorian formula counts one day from a valid date to the next.
#[verifier::spinoff_prover]
proof fn lemma_next_date_jdn(year: int, month: int, day: int)
    requires
        1 <= month <= 12,
        1 <= day <= days_in_month(year, month),
    ensures
        ({
            let n = next_date((year, month, day));
            &&& 1 <= n.1 <= 12
            &&& 1 <= n.2 <= days_in_month(n.0, n.1)
            &&& gregorian_to_jdn(n.0, n.1, n.2) == gregorian_to_jdn(year, month, day) + 1
        }),
{
    let n = next_date((year, month, day));
    lemma_jdn_parts(year, month, day);
    if day < days_in_month(year, month) {
        lemma_jdn_parts(n.0, n.1, n.2);
    } else if month == 2 {
        assert(n == (year, 3int, 1int));
        lemma_jdn_parts(year, 3, 1);
        lemma_year_length(year + 4799);
        lemma_leap_period(year);
    } else if month < 12 {
        assert(n == (year, month + 1, 1int));
        lemma_jdn_parts(year, month + 1, 1);
    } else {
        assert(n == (year + 1, 1int, 1int));
        lemma_jdn_parts(year + 1, 1, 1);
    }
}

/// `year_start` of a March-based year `100 * b + d` (with `0 <= d < 100`),
/// split into its 400-year, century and four-year parts.
proof fn lemma_year_start_split(y: int)
    ensures
        0 <= y % 100 < 100,
        y == 100 * (y / 100) + y % 100,
        year_start(y) == 36524 * (y / 100) + (y / 100) / 4 + 365 * (y % 100) + (y % 100) / 4,
{
    reveal(year_start);
    let b = y / 100;
    let d = y % 100;
    assert(y == 100 * b + d && 0 <= d < 100) by (nonlinear_arith)
        requires
            b == y / 100,
            d == y % 100,
    ;
    assert(y / 4 == 25 * b + d / 4) by (nonlinear_arith)
        requires
            y == 100 * b + d,
            0 <= d < 100,
    ;
    assert(y / 400 == b / 4) by (nonlinear_arith)
        requires
            y == 100 * b + d,
            0 <= d < 100,
    ;
}

/// Richards' steps on `a = 36524 * b + b / 4 + 365 * d + d / 4 + e`, where `e`
/// is a day of the March-based year `100 * b + d` in month index `mm`, recover
/// `b`, `d`, `e` and `mm`.
#[verifier::spinoff_prover]
proof fn lemma_richards_steps(a: int, b0: int, d0: int, e0: int, mm: int)
    requires
        a >= 0,
        a == 36524 * b0 + b0 / 4 + 365 * d0 + d0 / 4 + e0,
        0 <= d0 < 100,
        0 <= e0 <= 365,
        0 <= mm <= 11,
        153 * mm <= 5 * e0 + 2 < 153 * mm + 153,
        e0 == 365 ==> d0 % 4 == 3 && (d0 == 99 ==> b0 % 4 == 3),
    ensures
        richards(a - 32044) == (
            100 * b0 + d0 - 4800 + mm / 10,
            mm + 3 - 12 * (mm / 10),
            e0 - (153 * mm + 2) / 5 + 1,
        ),
{
    let q0 = 36524 * b0 + b0 / 4;
    let c0 = 365 * d0 + d0 / 4 + e0;
    assert(0 <= c0 <= 36524) by (nonlinear_arith)
        requires
            0 <= d0 < 100,
            0 <= e0 <= 365,
            c0 == 365 * d0 + d0 / 4 + e0,
    ;
    assert(b0 >= 0) by (nonlinear_arith)
        requires
            a >= 0,
            a == q0 + c0,
            q0 == 36524 * b0 + b0 / 4,
            c0 <= 36524,
    ;
    assert(146097 * b0 <= 4 * a + 3 < 146097 * b0 + 146097) by (nonlinear_arith)
        requires
            a == q0 + c0,
            q0 == 36524 * b0 + b0 / 4,
            b0 >= 0,
            0 <= c0 <= 36524,
            c0 == 365 * d0 + d0 / 4 + e0,
            0 <= d0 < 100,
            e0 <= 365,
            e0 == 365 ==> d0 % 4 == 3 && (d0 == 99 ==> b0 % 4 == 3),
    {
        assert(b0 == 4 * (b0 / 4) + b0 % 4);
        assert(d0 == 4 * (d0 / 4) + d0 % 4);
    }
    let b = (4 * a + 3) / 146097;
    assert(b == b0) by (nonlinear_arith)
        requires
            146097 * b0 <= 4 * a + 3 < 146097 * b0 + 146097,
            b == (4 * a + 3) / 146097,
    ;
    assert(tdiv(146097 * b0, 4) == q0) by (nonlinear_arith)
        requires
            b0 >= 0,
            q0 == 36524 * b0 + b0 / 4,
    ;
    let c = a - q0;
    assert(1461 * d0 <= 4 * c + 3 < 1461 * d0 + 1461) by (nonlinear_arith)
        requires
            c == 365 * d0 + d0 / 4 + e0,
            0 <= d0 < 100,
            0 <= e0 <= 365,
            e0 == 365 ==> d0 % 4 == 3,
    {
        assert(d0 == 4 * (d0 / 4) + d0 % 4);
    }
    let d = (4 * c + 3) / 1461;
    assert(d == d0) by (nonlinear_arith)
        requires
            1461 * d0 <= 4 * c + 3 < 1461 * d0 + 1461,
            d == (4 * c + 3) / 1461,
    ;
    assert(tdiv(1461 * d0, 4) == 365 * d0 + d0 / 4) by (nonlinear_arith)
        requires
            d0 >= 0,
    ;
    let e = c - (365 * d0 + d0 / 4);
    let m = (5 * e + 2) / 153;
    assert(m == mm) by (nonlinear_arith)
        requires
            e == e0,
            153 * mm <= 5 * e + 2 < 153 * mm + 153,
            m == (5 * e + 2) / 153,
    ;
}

/// Richards' algorithm inverts the Gregorian formula: a valid date whose
/// Julian Day Number is at least -32044 is the date the algorithm gives for it.
#[verifier::spinoff_prover]
proof fn lemma_richards_inverts(year: int, month: int, day: int)
    requires
        1 <= month <= 12,
        1 <= day <= days_in_month(year, month),
        gregorian_to_jdn(year, month, day) + 32044 >= 0,
    ensures
        richards(gregorian_to_jdn(year, month, day)) == (year, month, day),
{
    lemma_jdn_parts(year, month, day);
    let y2 = march_year(year, month);
    let mm = if month <= 2 { month + 9 } else { month - 3 };
    let e0 = month_offset(month) + day - 1;
    assert(0 <= e0 <= 365 && 0 <= mm <= 11 && 153 * mm <= 5 * e0 + 2 < 153 * mm + 153
        && month_offset(month) == (153 * mm + 2) / 5 && mm + 3 - 12 * (mm / 10) == month
        && y2 - 4800 + mm / 10 == year) by {
        if month == 1 {} else if month == 2 {} else if month == 3 {} else if month == 4 {}
        else if month == 5 {} else if month == 6 {} else if month == 7 {} else if month == 8 {}
        else if month == 9 {} else if month == 10 {} else if month == 11 {} else {}
    }
    lemma_year_start_split(y2);
    let b0 = y2 / 100;
    let d0 = y2 % 100;
    let a = gregorian_to_jdn(year, month, day) + 32044;
    assert(a == 36524 * b0 + b0 / 4 + 365 * d0 + d0 / 4 + e0);
    // a February 29 lies in a leap year: the year after the March-based year
    // `y2` is a multiple of 4, and of 400 when it is a multiple of 100
    if e0 == 365 {
        assert(month == 2 && day == 29 && is_leap_year(year));
        lemma_leap_period(year);
        assert(is_leap_year(y2 + 1));
        assert(d0 % 4 == 3 && (d0 == 99 ==> b0 % 4 == 3)) by (nonlinear_arith)
            requires
                y2 == 100 * b0 + d0,
                0 <= d0 < 100,
                is_leap_year(y2 + 1),
        {
            assert(y2 + 1 == 4 * ((y2 + 1) / 4) + (y2 + 1) % 4);
            assert(y2 + 1 == 100 * ((y2 + 1) / 100) + (y2 + 1) % 100);
            assert(y2 + 1 == 400 * ((y2 + 1) / 400) + (y2 + 1) % 400);
            assert(d0 == 4 * (d0 / 4) + d0 % 4);
            assert(b0 == 4 * (b0 / 4) + b0 % 4);
        }
    }
    lemma_richards_steps(a, b0, d0, e0, mm);
}

/// The day after the date of JDN `jdn` is the date of JDN `jdn + 1`: the
/// algorithm steps through the calendar one day at a time.
pub proof fn lemma_richards_next_day(jdn: int)
    requires
        jdn + 32044 >= 0,
    ensures
        richards(jdn + 1) == next_date(richards(jdn)),
{
    let x = richards(jdn);
    lemma_richards_round_trip(jdn);
    lemma_next_date_jdn(x.0, x.1, x.2);
    let n = next_date(x);
    lemma_richards_inverts(n.0, n.1, n.2);
}

/// `(whole days, seconds)` of an Excel OA serial date-time, as the
/// floating-point part of the conversion yields them; the seconds are those
/// past the start of day `whole_days`, and a full day of them (what a fraction
/// that rounds up gives) moves the instant into the next day.
pub struct SerialDateTime {
    pub whole_days: i64,
    pub seconds: u64,
}

/// The day of the instant, counted from the Excel OA epoch: the whole days
/// plus the full days in `seconds`.
pub open spec fn serial_day(t: SerialDateTime) -> int {
    t.whole_days as int + (t.seconds / 86400) as int
}

/// The serials whose Julian Day Number can be computed without overflow.
pub open spec fn serial_in_range(t: SerialDateTime) -> bool {
    serial_day(t) + EXCEL_EPOCH_JDN as int <= i64::MAX as int && jdn_in_range(
        serial_day(t) + EXCEL_EPOCH_JDN as int,
    )
}

/// The text `"MM/DD/YYYY HH:MM:SS"` of a serial date-time: the date is that of
/// JDN `serial_day(t) + 2415019`; the clock time is that of the seconds left
/// over after the full days, so the hour is always from 00 to 23.
pub open spec fn excel_timestamp_seq(t: SerialDateTime) -> Seq<char> {
    let ymd = richards(serial_day(t) + EXCEL_EPOCH_JDN as int);
    let secs = (t.seconds % 86400) as int;
    pad2_seq((ymd.1 as u32) as nat) + seq!['/'] + pad2_seq((ymd.2 as u32) as nat) + seq!['/']
        + signed_decimal_seq((ymd.0 as i32) as int) + seq![' '] + pad2_seq((secs / 3600) as nat)
        + seq![':'] + pad2_seq(((secs % 3600) / 60) as nat) + seq![':'] + pad2_seq(
        (secs % 60) as nat,
    )
}

/// Moving a full day from the seconds into the whole days does not change the
/// text: the timestamp depends only on the instant, and the hour it shows is
/// below 24.
pub proof fn lemma_timestamp_of_instant(t: SerialDateTime)
    requires
        t.seconds >= 86400,
        t.whole_days < i64::MAX,
    ensures
        excel_timestamp_seq(t) == excel_timestamp_seq(
            SerialDateTime { whole_days: (t.whole_days + 1) as i64, seconds: (t.seconds - 86400) as u64 },
        ),
        (t.seconds % 86400) / 3600 < 24,
{
    let u = SerialDateTime { whole_days: (t.whole_days + 1) as i64, seconds: (t.seconds - 86400) as u64 };
    assert(t.seconds / 86400 == u.seconds / 86400 + 1 && t.seconds % 86400 == u.seconds % 86400)
        by (nonlinear_arith)
        requires
            u.seconds == t.seconds - 86400,
            t.seconds >= 86400,
    ;
    assert(serial_day(t) == serial_day(u));
}

/// The dates Excel serials denote, from Dec 30, 1899 (JDN 2415019) to Dec 31,
/// 9999 (JDN 5373484), have a positive year well within `i32`.
proof fn lemma_excel_year_bounds(jdn: int)
    requires
        2415019 <= jdn <= 5373484,
    ensures
        1 <= richards(jdn).0 <= 20000,
{
    lemma_richards_round_trip(jdn);
    let x = richards(jdn);
    lemma_jdn_parts(x.0, x.1, x.2);
    let y2 = march_year(x.0, x.1);
    let ys = year_start(y2);
    assert(0 <= month_offset(x.1) <= 337);
    assert(jdn + 32045 - 368 <= ys <= jdn + 32045 - 1);
    reveal(year_start);
    assert(4800 < y2 <= 20000) by (nonlinear_arith)
        requires
            ys == 365 * y2 + y2 / 4 - y2 / 100 + y2 / 400,
            2415019 + 32045 - 368 <= ys <= 5373484 + 32045 - 1,
    {
        if y2 <= 4800 {
            assert(365 * y2 + y2 / 4 - y2 / 100 + y2 / 400 <= 1753300int);
        }
    }
}

/// The text of a serial date-time (of a day from Dec 30, 1899 to Dec 31, 9999)
/// reads back to the instant it stands for: its `MM/DD/YYYY` fields are a valid
/// Gregorian date whose Julian Day Number is the serial's day plus 2415019, and
/// its `HH:MM:SS` fields are a clock time (hour below 24, minute and second
/// below 60) that amounts to the serial's seconds into that day.
pub proof fn lemma_timestamp_reads_back(t: SerialDateTime)
    requires
        0 <= serial_day(t) <= 2958465,
    ensures
        ({
            let s = excel_timestamp_seq(t);
            let n = s.len() as int;
            let mo = s.subrange(0, 2);
            let dd = s.subrange(3, 5);
            let yy = s.subrange(6, n - 9);
            let hh = s.subrange(n - 8, n - 6);
            let mi = s.subrange(n - 5, n - 3);
            let ss = s.subrange(n - 2, n);
            &&& n >= 16
            &&& s[2] == '/' && s[5] == '/' && s[n - 9] == ' ' && s[n - 6] == ':' && s[n - 3] == ':'
            &&& yy.len() >= 1
            &&& all_digits(mo) && all_digits(dd) && all_digits(yy)
            &&& all_digits(hh) && all_digits(mi) && all_digits(ss)
            &&& 1 <= digits_value(mo) <= 12
            &&& 1 <= digits_value(dd) <= days_in_month(digits_value(yy), digits_value(mo))
            &&& gregorian_to_jdn(digits_value(yy), digits_value(mo), digits_value(dd)) == serial_day(t)
                + EXCEL_EPOCH_JDN
            &&& digits_value(hh) < 24 && digits_value(mi) < 60 && digits_value(ss) < 60
            &&& digits_value(hh) * 3600 + digits_value(mi) * 60 + digits_value(ss) == t.seconds % 86400
        }),
{
    let jdn = serial_day(t) + EXCEL_EPOCH_JDN as int;
    lemma_richards_round_trip(jdn);
    lemma_excel_year_bounds(jdn);
    let ymd = richards(jdn);
    let secs = (t.seconds % 86400) as int;
    let h = (secs / 3600) as nat;
    let m = ((secs % 3600) / 60) as nat;
    let c = (secs % 60) as nat;
    assert(h < 24 && m < 60 && c < 60 && h * 3600 + m * 60 + c == secs);
    assert((ymd.1 as u32) as nat == ymd.1);
    assert((ymd.2 as u32) as nat == ymd.2);
    assert((ymd.0 as i32) as int == ymd.0);
    let pm = pad2_seq((ymd.1 as u32) as nat);
    let pd = pad2_seq((ymd.2 as u32) as nat);
    let py = signed_decimal_seq((ymd.0 as i32) as int);
    assert(py == decimal_seq(ymd.0 as nat));
    let ph = pad2_seq(h);
    let pn = pad2_seq(m);
    let pc = pad2_seq(c);
    lemma_pad2_reads_back((ymd.1 as u32) as nat);
    lemma_pad2_reads_back((ymd.2 as u32) as nat);
    lemma_decimal_reads_back(ymd.0 as nat);
    lemma_pad2_reads_back(h);
    lemma_pad2_reads_back(m);
    lemma_pad2_reads_back(c);
    let s = excel_timestamp_seq(t);
    assert(s == pm + seq!['/'] + pd + seq!['/'] + py + seq![' '] + ph + seq![':'] + pn + seq![':'] + pc);
    let n = s.len() as int;
    assert(n == 15 + py.len());
    assert(s.subrange(0, 2) =~= pm);
    assert(s.subrange(3, 5) =~= pd);
    assert(s.subrange(6, n - 9) =~= py);
    assert(s.subrange(n - 8, n - 6) =~= ph);
    assert(s.subrange(n - 5, n - 3) =~= pn);
    assert(s.subrange(n - 2, n) =~= pc);
}

/// Formats a serial date-time as `"MM/DD/YYYY HH:MM:SS"`.
pub fn format_serial_timestamp(t: &SerialDateTime) -> (s: String)
    requires
        serial_in_range(*t),
    ensures
        s@ == excel_timestamp_seq(*t),
{
    let carry: u64 = t.seconds / 86400;
    let secs: u64 = t.seconds % 86400;
    let jdn: i64 = t.whole_days + carry as i64 + EXCEL_EPOCH_JDN;
    let (year, month, day) = jdn_to_gregorian(jdn);
    let hh: u64 = secs / 3600;
    let mi: u64 = (secs % 3600) / 60;
    let ss: u64 = secs % 60;
    let mut v: Vec<char> = Vec::new();
    push_pad2(&mut v, month as u64);
    v.push('/');
    push_pad2(&mut v, day as u64);
    v.push('/');
    push_signed_decimal(&mut v, year as i64);
    v.push(' ');
    push_pad2(&mut v, hh);
    v.push(':');
    push_pad2(&mut v, mi);
    v.push(':');
    push_pad2(&mut v, ss);
    crate::text::string_from_chars(&v)
}

} // verus!

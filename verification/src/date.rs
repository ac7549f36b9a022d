//! The proleptic Gregorian calendar, counted in days from 1970-01-01, and
//! the CCYYMMDD text that SAUCE records carry.
use vstd::prelude::*;

use crate::decimal::{decimal, push_decimal};
use crate::sauce::string_push;

verus! {

pub open spec fn is_leap(y: int) -> bool {
    y % 4 == 0 && (y % 100 != 0 || y % 400 == 0)
}

pub open spec fn year_len(y: int) -> int {
    if is_leap(y) {
        366
    } else {
        365
    }
}

/// The number of leap years among 1..=y (y >= 0).
pub open spec fn leaps_through(y: int) -> int {
    y / 4 - y / 100 + y / 400
}

/// Days from 1970-01-01 to January 1st of year `y`.
pub open spec fn days_before_year(y: int) -> int {
    365 * (y - 1970) + leaps_through(y - 1) - leaps_through(1969)
}

pub open spec fn month_len(y: int, m: int) -> int {
    if m == 2 {
        if is_leap(y) {
            29
        } else {
            28
        }
    } else if m == 4 || m == 6 || m == 9 || m == 11 {
        30
    } else {
        31
    }
}

/// Days from January 1st to the first of month `m` in year `y`.
pub open spec fn days_before_month(y: int, m: int) -> int
    decreases m,
{
    if m <= 1 {
        0
    } else {
        days_before_month(y, m - 1) + month_len(y, m - 1)
    }
}

pub open spec fn valid_date(y: int, m: int, d: int) -> bool {
    &&& y >= 1970
    &&& 1 <= m <= 12
    &&& 1 <= d <= month_len(y, m)
}

/// Days from 1970-01-01 to the given date.
pub open spec fn day_number(y: int, m: int, d: int) -> int {
    days_before_year(y) + days_before_month(y, m) + d - 1
}

/// `(y, m, d)` is the date that lies `days` days after 1970-01-01.
pub open spec fn is_date_of(days: int, y: int, m: int, d: int) -> bool {
    valid_date(y, m, d) && day_number(y, m, d) == days
}

/// Two ASCII digits for a number below 100.
pub open spec fn two_digits(n: int) -> Seq<u8> {
    seq![(0x30 + n / 10) as u8, (0x30 + n % 10) as u8]
}

pub open spec fn ascii_chars(s: Seq<u8>) -> Seq<char> {
    s.map_values(|b: u8| b as char)
}

/// CCYYMMDD: the year's digits (at least four from 1970 on), then month
/// and day as two digits each.
pub open spec fn yyyymmdd(y: int, m: int, d: int) -> Seq<char> {
    ascii_chars(decimal(y as nat) + two_digits(m) + two_digits(d))
}

/// `t` is the CCYYMMDD text of some calendar date.
pub open spec fn is_date_text(t: Seq<char>) -> bool {
    exists|y: int, m: int, d: int| valid_date(y, m, d) && t == #[trigger] yyyymmdd(y, m, d)
}

/// The date text of a year before 10000 is eight chars, all digits.
pub proof fn lemma_date_text_len(y: int, m: int, d: int)
    requires
        valid_date(y, m, d),
        y < 10000,
    ensures
        yyyymmdd(y, m, d).len() == 8,
        forall|i: int| 0 <= i < 8 ==> '0' <= #[trigger] yyyymmdd(y, m, d)[i] <= '9',
{
    crate::decimal::lemma_decimal_value(y as nat);
    crate::decimal::lemma_decimal_value((y / 10) as nat);
    crate::decimal::lemma_decimal_value((y / 100) as nat);
    crate::decimal::lemma_decimal_value((y / 1000) as nat);
    reveal_with_fuel(decimal, 5);
    let t = decimal(y as nat) + two_digits(m) + two_digits(d);
    assert(decimal(y as nat).len() == 4);
    assert(t.len() == 8);
    assert forall|i: int| 0 <= i < 8 implies '0' <= #[trigger] yyyymmdd(y, m, d)[i] <= '9' by {
        if i < 4 {
            assert(crate::decimal::is_digit(decimal(y as nat)[i]));
        }
    }
}

proof fn lemma_year_step(y: int)
    requires
        y >= 1,
    ensures
        days_before_year(y + 1) == days_before_year(y) + year_len(y),
{
    assert(leaps_through(y) - leaps_through(y - 1) == if is_leap(y) {
        1int
    } else {
        0int
    }) by (nonlinear_arith)
        requires
            y >= 1,
    ;
}

proof fn lemma_era_step(y: int)
    requires
        y >= 1,
    ensures
        days_before_year(y + 400) == days_before_year(y) + 146097,
{
    assert(leaps_through(y + 399) == leaps_through(y - 1) + 97) by (nonlinear_arith)
        requires
            y >= 1,
    ;
}

proof fn lemma_eras(q: nat)
    ensures
        days_before_year(1970 + 400 * q as int) == 146097 * q,
    decreases q,
{
    if q > 0 {
        lemma_eras((q - 1) as nat);
        lemma_era_step(1970 + 400 * (q - 1));
    }
}

proof fn lemma_months(y: int)
    ensures
        days_before_month(y, 13) == year_len(y),
        forall|m: int| 1 <= m <= 12 ==> #[trigger] days_before_month(y, m + 1) == days_before_month(y, m)
            + month_len(y, m),
{
    reveal_with_fuel(days_before_month, 13);
}

fn is_leap_year(y: u64) -> (r: bool)
    ensures
        r == is_leap(y as int),
{
    y % 4 == 0 && (y % 100 != 0 || y % 400 == 0)
}

fn year_length(y: u64) -> (r: u64)
    ensures
        r == year_len(y as int),
{
    if is_leap_year(y) {
        366
    } else {
        365
    }
}

fn month_length(y: u64, m: u64) -> (r: u64)
    ensures
        r == month_len(y as int, m as int),
{
    if m == 2 {
        if is_leap_year(y) {
            29
        } else {
            28
        }
    } else if m == 4 || m == 6 || m == 9 || m == 11 {
        30
    } else {
        31
    }
}

/// The calendar date `days` days after 1970-01-01.
pub fn civil_date(days: u64) -> (r: (u64, u64, u64))
    ensures
        is_date_of(days as int, r.0 as int, r.1 as int, r.2 as int),
{
    let q = days / 146097;
    let r0 = days % 146097;
    let y0 = 1970 + 400 * q;
    proof {
        lemma_eras(q as nat);
    }
    let mut y: u64 = y0;
    let mut rem: u64 = r0;
    while rem >= year_length(y)
        invariant
            y0 == 1970 + 400 * q,
            q <= days / 146097,
            r0 < 146097,
            y0 <= y,
            y + rem <= y0 + r0,
            days == days_before_year(y as int) + rem,
        decreases rem,
    {
        proof {
            lemma_year_step(y as int);
        }
        rem = rem - year_length(y);
        y = y + 1;
    }
    proof {
        lemma_months(y as int);
    }
    let mut m: u64 = 1;
    while rem >= month_length(y, m)
        invariant
            1 <= m <= 12,
            y >= 1970,
            days == days_before_year(y as int) + days_before_month(y as int, m as int) + rem,
            days_before_month(y as int, m as int) + rem < year_len(y as int),
            days_before_month(y as int, 13) == year_len(y as int),
            forall|k: int| 1 <= k <= 12 ==> #[trigger] days_before_month(y as int, k + 1)
                == days_before_month(y as int, k) + month_len(y as int, k),
        decreases 12 - m,
    {
        assert(days_before_month(y as int, m + 1) == days_before_month(y as int, m as int)
            + month_len(y as int, m as int));
        rem = rem - month_length(y, m);
        m = m + 1;
        if m > 12 {
            assert(false);
        }
    }
    (y, m, rem + 1)
}

fn push_two_digits(out: &mut Vec<u8>, n: u64)
    requires
        n < 100,
    ensures
        final(out)@ == old(out)@ + two_digits(n as int),
{
    out.push((0x30 + n / 10) as u8);
    out.push((0x30 + n % 10) as u8);
    assert(final(out)@ =~= old(out)@ + two_digits(n as int));
}

/// The text of `bytes`, each byte taken as the char of that code.
fn ascii_string(bytes: &Vec<u8>) -> (s: String)
    ensures
        s@ == ascii_chars(bytes@),
{
    let mut s = String::new();
    let mut i: usize = 0;
    while i < bytes.len()
        invariant
            i <= bytes@.len(),
            s@ == ascii_chars(bytes@.take(i as int)),
        decreases bytes@.len() - i,
    {
        string_push(&mut s, bytes[i] as char);
        i = i + 1;
        assert(s@ =~= ascii_chars(bytes@.take(i as int)));
    }
    assert(bytes@.take(bytes@.len() as int) =~= bytes@);
    s
}

/// The CCYYMMDD text of the UTC date `secs` seconds after 1970-01-01 00:00.
pub fn date_text(secs: u64) -> (r: String)
    ensures
        exists|y: int, m: int, d: int|
            is_date_of((secs / 86400) as int, y, m, d) && r@ == #[trigger] yyyymmdd(y, m, d),
{
    let (y, m, d) = civil_date(secs / 86400);
    let mut bytes: Vec<u8> = Vec::new();
    push_decimal(&mut bytes, y);
    push_two_digits(&mut bytes, m);
    push_two_digits(&mut bytes, d);
    assert(bytes@ =~= decimal(y as nat) + two_digits(m as int) + two_digits(d as int));
    let s = ascii_string(&bytes);
    assert(s@ == yyyymmdd(y as int, m as int, d as int));
    s
}

proof fn lemma_years_increase(y1: int, y2: int)
    requires
        1970 <= y1 < y2,
    ensures
        days_before_year(y1) + year_len(y1) <= days_before_year(y2),
    decreases y2 - y1,
{
    lemma_year_step(y1);
    if y1 + 1 < y2 {
        lemma_years_increase(y1 + 1, y2);
        lemma_year_step(y1 + 1);
    }
}

proof fn lemma_months_increase(y: int, m1: int, m2: int)
    requires
        1 <= m1 < m2 <= 13,
    ensures
        days_before_month(y, m1) + month_len(y, m1) <= days_before_month(y, m2),
    decreases m2 - m1,
{
    lemma_months(y);
    if m1 + 1 < m2 {
        lemma_months_increase(y, m1 + 1, m2);
    }
}

proof fn lemma_months_nonneg(y: int, m: int)
    ensures
        days_before_month(y, m) >= 0,
    decreases m,
{
    if m > 1 {
        lemma_months_nonneg(y, m - 1);
    }
}

/// Each day has exactly one date.
pub proof fn lemma_date_unique(days: int, y1: int, m1: int, d1: int, y2: int, m2: int, d2: int)
    requires
        is_date_of(days, y1, m1, d1),
        is_date_of(days, y2, m2, d2),
    ensures
        y1 == y2 && m1 == m2 && d1 == d2,
{
    lemma_months(y1);
    lemma_months(y2);
    lemma_months_nonneg(y1, m1);
    lemma_months_nonneg(y2, m2);
    if m1 < 13 {
        lemma_months_increase(y1, m1, 13);
    }
    if m2 < 13 {
        lemma_months_increase(y2, m2, 13);
    }
    if y1 < y2 {
        lemma_years_increase(y1, y2);
        lemma_months_increase(y1, m1, 13);
    } else if y2 < y1 {
        lemma_years_increase(y2, y1);
        lemma_months_increase(y2, m2, 13);
    } else if m1 < m2 {
        lemma_months_increase(y1, m1, m2);
    } else if m2 < m1 {
        lemma_months_increase(y1, m2, m1);
    }
}

} // verus!

//! The textual date format of the log: `YYYY-MM-DDTHH:MM:SS.F` in the
//! proleptic Gregorian calendar, years 0000 to 9999, with the fraction
//! written as nanosecond digits without trailing zeros (at least one digit).
//!
//! Reading accepts two legacy shapes besides the canonical one: an hour
//! written with a single digit, and a missing fraction.  Writing then
//! reading a date is proved to give the instant back exactly.

use vstd::prelude::*;
use crate::data::{DATE_MIN_NANOS, DATE_MAX_NANOS, date_in_range};

verus! {

/// A leap year of the proleptic Gregorian calendar.
pub open spec fn is_leap(y: int) -> bool {
    (y % 4 == 0 && y % 100 != 0) || y % 400 == 0
}

pub open spec fn days_in_year(y: int) -> int {
    if is_leap(y) {
        366
    } else {
        365
    }
}

/// Days from 0000-01-01 to y-01-01.
pub open spec fn days_to_year(y: int) -> int
    decreases y,
{
    if y <= 0 {
        0
    } else {
        days_to_year(y - 1) + days_in_year(y - 1)
    }
}

pub open spec fn days_in_month(y: int, m: int) -> int {
    if m == 2 {
        if is_leap(y) {
            29
        } else {
            28
        }
    } else if m == 4 || m == 6 || m == 9 || m == 11 {
        30
    } else {
        31
    }
}

/// Days from the start of the year to the start of month `m`.
pub open spec fn days_to_month(y: int, m: int) -> int
    decreases m,
{
    if m <= 1 {
        0
    } else {
        days_to_month(y, m - 1) + days_in_month(y, m - 1)
    }
}

/// `days_to_year` in closed form: 365 days per year plus the leap days of
/// the years before.
pub proof fn lemma_days_to_year_closed(y: int)
    requires
        0 <= y,
    ensures
        days_to_year(y) == 365 * y + (y + 3) / 4 - (y + 99) / 100 + (y + 399) / 400,
    decreases y,
{
    if y > 0 {
        lemma_days_to_year_closed(y - 1);
    }
}

/// `days_to_year` grows with the year.
pub proof fn lemma_days_to_year_mono(a: int, b: int)
    requires
        a <= b,
    ensures
        days_to_year(a) <= days_to_year(b),
    decreases b - a,
{
    if a < b {
        lemma_days_to_year_mono(a, b - 1);
    }
}

/// The months of a year account for all of its days.
pub proof fn lemma_days_to_month_full(y: int)
    ensures
        days_to_month(y, 13) == days_in_year(y),
{
    reveal_with_fuel(days_to_month, 14);
}

/// Splitting a day count into a year and a day of year, starting the search
/// at year `y` with `rem` days left.
pub open spec fn year_split(y: int, rem: int) -> (int, int)
    decreases rem,
{
    if rem < days_in_year(y) || rem <= 0 {
        (y, rem)
    } else {
        year_split(y + 1, rem - days_in_year(y))
    }
}

/// Splitting a day of year into a month and a day of month.
pub open spec fn month_split(y: int, m: int, rem: int) -> (int, int)
    decreases 13 - m,
{
    if m >= 13 || rem < days_in_month(y, m) {
        (m, rem)
    } else {
        month_split(y, m + 1, rem - days_in_month(y, m))
    }
}

/// What `year_split` computes: the unique year bracketing the day count.
pub proof fn lemma_year_split(y0: int, rem: int)
    requires
        0 <= y0,
        0 <= rem,
    ensures
        ({
            let (y, doy) = year_split(y0, rem);
            &&& y0 <= y
            &&& 0 <= doy < days_in_year(y)
            &&& days_to_year(y) - days_to_year(y0) + doy == rem
        }),
    decreases rem,
{
    if !(rem < days_in_year(y0) || rem <= 0) {
        lemma_year_split(y0 + 1, rem - days_in_year(y0));
    }
}

/// What `month_split` computes: the unique month bracketing the day of
/// year, as long as the day count fits the year.
pub proof fn lemma_month_split(y: int, m0: int, rem: int)
    requires
        1 <= m0 <= 12,
        0 <= rem,
        days_to_month(y, m0) + rem < days_in_year(y),
    ensures
        ({
            let (m, dom) = month_split(y, m0, rem);
            &&& m0 <= m <= 12
            &&& 0 <= dom < days_in_month(y, m)
            &&& days_to_month(y, m) - days_to_month(y, m0) + dom == rem
        }),
    decreases 13 - m0,
{
    lemma_days_to_month_full(y);
    if !(m0 >= 13 || rem < days_in_month(y, m0)) {
        if m0 == 12 {
            assert(days_to_month(y, 13) == days_to_month(y, 12) + days_in_month(y, 12));
            assert(false);
        }
        lemma_month_split(y, m0 + 1, rem - days_in_month(y, m0));
    }
}

/// The whole representable range spans fewer days than ten thousand years.
pub proof fn lemma_range_days()
    ensures
        days_to_year(10000) == 3652425,
{
    lemma_days_to_year_closed(10000);
}

/// The character for one decimal digit.
pub open spec fn digit_char(d: int) -> char {
    if d == 0 {
        '0'
    } else if d == 1 {
        '1'
    } else if d == 2 {
        '2'
    } else if d == 3 {
        '3'
    } else if d == 4 {
        '4'
    } else if d == 5 {
        '5'
    } else if d == 6 {
        '6'
    } else if d == 7 {
        '7'
    } else if d == 8 {
        '8'
    } else {
        '9'
    }
}

/// The value of a decimal digit character, -1 for anything else.
pub open spec fn digit_val(c: char) -> int {
    if c == '0' {
        0
    } else if c == '1' {
        1
    } else if c == '2' {
        2
    } else if c == '3' {
        3
    } else if c == '4' {
        4
    } else if c == '5' {
        5
    } else if c == '6' {
        6
    } else if c == '7' {
        7
    } else if c == '8' {
        8
    } else if c == '9' {
        9
    } else {
        -1
    }
}

pub open spec fn is_digit(c: char) -> bool {
    digit_val(c) >= 0
}

/// `v` written with exactly `k` decimal digits, most significant first.
pub open spec fn digits_rec(v: int, k: int) -> Seq<char>
    decreases k,
{
    if k <= 0 {
        Seq::empty()
    } else {
        digits_rec(v / 10, k - 1).push(digit_char(v % 10))
    }
}

/// The value of a run of decimal digit characters.
pub open spec fn digits_val(s: Seq<char>) -> int
    decreases s.len(),
{
    if s.len() == 0 {
        0
    } else {
        digits_val(s.drop_last()) * 10 + digit_val(s.last())
    }
}

pub open spec fn pow10(k: int) -> int
    decreases k,
{
    if k <= 0 {
        1
    } else {
        10 * pow10(k - 1)
    }
}

/// Fixed-width digit runs write the value they are made from.
pub proof fn lemma_digits_rec(v: int, k: int)
    requires
        0 <= k,
        0 <= v < pow10(k),
    ensures
        digits_rec(v, k).len() == k,
        forall|i: int| 0 <= i < k ==> is_digit(#[trigger] digits_rec(v, k)[i]),
        digits_val(digits_rec(v, k)) == v,
    decreases k,
{
    if k > 0 {
        vstd::arithmetic::div_mod::lemma_fundamental_div_mod(v, 10);
        vstd::arithmetic::div_mod::lemma_mod_bound(v, 10);
        vstd::arithmetic::div_mod::lemma_div_pos_is_pos(v, 10);
        assert(v / 10 < pow10(k - 1)) by {
            if v / 10 >= pow10(k - 1) {
                assert(v >= 10 * (v / 10)) by {
                    vstd::arithmetic::div_mod::lemma_fundamental_div_mod(v, 10);
                }
                assert(10 * (v / 10) >= 10 * pow10(k - 1)) by (nonlinear_arith)
                    requires
                        v / 10 >= pow10(k - 1),
                ;
                assert(false);
            }
        }
        lemma_digits_rec(v / 10, k - 1);
        let s = digits_rec(v, k);
        assert(s == digits_rec(v / 10, k - 1).push(digit_char(v % 10)));
        assert(s.len() == k);
        assert(s.drop_last() =~= digits_rec(v / 10, k - 1));
        assert forall|i: int| 0 <= i < k implies is_digit(#[trigger] s[i]) by {
            if i < k - 1 {
                assert(s[i] == digits_rec(v / 10, k - 1)[i]);
            } else {
                assert(s[i] == digit_char(v % 10));
            }
        }
    }
}

/// Stripping trailing zeros, keeping at least one character.
pub open spec fn strip_zeros(s: Seq<char>) -> Seq<char>
    decreases s.len(),
{
    if s.len() <= 1 || s.last() != '0' {
        s
    } else {
        strip_zeros(s.drop_last())
    }
}

/// Stripping trailing zeros keeps the value, scaled by the dropped width;
/// digits stay digits.
pub proof fn lemma_strip_zeros(s: Seq<char>)
    requires
        s.len() >= 1,
        forall|i: int| 0 <= i < s.len() ==> is_digit(#[trigger] s[i]),
    ensures
        1 <= strip_zeros(s).len() <= s.len(),
        forall|i: int| 0 <= i < strip_zeros(s).len() ==> is_digit(#[trigger] strip_zeros(s)[i]),
        digits_val(strip_zeros(s)) * pow10(s.len() - strip_zeros(s).len()) == digits_val(s),
        forall|i: int| 0 <= i < strip_zeros(s).len() ==> strip_zeros(s)[i] == s[i],
    decreases s.len(),
{
    if !(s.len() <= 1 || s.last() != '0') {
        assert(forall|i: int|
            0 <= i < s.drop_last().len() ==> is_digit(#[trigger] s.drop_last()[i]));
        lemma_strip_zeros(s.drop_last());
        let t = strip_zeros(s);
        let w = s.len() - t.len();
        assert(digits_val(s) == digits_val(s.drop_last()) * 10);
        assert(pow10(w) == 10 * pow10(w - 1));
        assert(digits_val(t) * pow10(w) == (digits_val(t) * pow10(w - 1)) * 10)
            by (nonlinear_arith)
            requires
                pow10(w) == 10 * pow10(w - 1),
        ;
        assert forall|i: int| 0 <= i < t.len() implies t[i] == s[i] by {
            assert(t[i] == s.drop_last()[i]);
        }
    }
}

/// The nanosecond fraction as written: nine digits without trailing zeros.
pub open spec fn subsec_text(ns: int) -> Seq<char> {
    strip_zeros(digits_rec(ns, 9))
}

/// The instant `n` (nanoseconds since the Unix epoch) written canonically.
pub open spec fn date_text(n: int) -> Seq<char> {
    let sh = n - DATE_MIN_NANOS as int;
    let ns = sh % 1_000_000_000;
    let tot = sh / 1_000_000_000;
    let sod = tot % 86400;
    let days = tot / 86400;
    let yd = year_split(0, days);
    let md = month_split(yd.0, 1, yd.1);
    digits_rec(yd.0, 4) + seq!['-'] + digits_rec(md.0, 2) + seq!['-'] + digits_rec(
        md.1 + 1,
        2,
    ) + seq!['T'] + digits_rec(sod / 3600, 2) + seq![':'] + digits_rec(
        (sod % 3600) / 60,
        2,
    ) + seq![':'] + digits_rec(sod % 60, 2) + seq!['.'] + subsec_text(ns)
}

/// The instant encoded by already-validated date fields.
pub open spec fn date_of_fields(y: int, mo: int, d: int, h: int, mi: int, sec: int, ns: int)
    -> Option<int> {
    if 1 <= mo <= 12 && 1 <= d <= days_in_month(y, mo) && h <= 23 && mi <= 59 && sec <= 59 {
        Some(
            DATE_MIN_NANOS as int + ((days_to_year(y) + days_to_month(y, mo) + (d - 1)) * 86400
                + h * 3600 + mi * 60 + sec) * 1_000_000_000 + ns,
        )
    } else {
        None
    }
}

/// Every character from position `i` on is a decimal digit.
pub open spec fn all_digits_from(s: Seq<char>, i: int) -> bool {
    forall|j: int| i <= j < s.len() ==> is_digit(#[trigger] s[j])
}

/// The nanosecond value of the fraction digits starting at `i`: their value
/// scaled up to nine digits.
pub open spec fn frac_val(s: Seq<char>, i: int) -> int {
    digits_val(s.subrange(i, s.len() as int)) * pow10(9 - (s.len() - i))
}

/// Reading a date from `:` before the minutes on, fields so far given.
pub open spec fn parse_from_colon(s: Seq<char>, p: int, y: int, mo: int, d: int, h: int)
    -> Option<int> {
    if s.len() < p + 6 {
        None
    } else if !(s[p] == ':' && is_digit(s[p + 1]) && is_digit(s[p + 2]) && s[p + 3] == ':'
        && is_digit(s[p + 4]) && is_digit(s[p + 5])) {
        None
    } else {
        let mi = digit_val(s[p + 1]) * 10 + digit_val(s[p + 2]);
        let sec = digit_val(s[p + 4]) * 10 + digit_val(s[p + 5]);
        let q = p + 6;
        if s.len() == q {
            date_of_fields(y, mo, d, h, mi, sec, 0)
        } else if s[q] == '.' && q + 1 < s.len() <= q + 10 && all_digits_from(s, q + 1) {
            date_of_fields(y, mo, d, h, mi, sec, frac_val(s, q + 1))
        } else {
            None
        }
    }
}

/// Reading a date: canonical two-digit hour or the legacy single digit, the
/// fraction optional (its absence is the second legacy shape).
pub open spec fn spec_parse_date(s: Seq<char>) -> Option<int> {
    if s.len() < 17 {
        None
    } else if !(is_digit(s[0]) && is_digit(s[1]) && is_digit(s[2]) && is_digit(s[3]) && s[4]
        == '-' && is_digit(s[5]) && is_digit(s[6]) && s[7] == '-' && is_digit(s[8]) && is_digit(
        s[9],
    ) && s[10] == 'T' && is_digit(s[11])) {
        None
    } else {
        let y = ((digit_val(s[0]) * 10 + digit_val(s[1])) * 10 + digit_val(s[2])) * 10
            + digit_val(s[3]);
        let mo = digit_val(s[5]) * 10 + digit_val(s[6]);
        let d = digit_val(s[8]) * 10 + digit_val(s[9]);
        if 12 < s.len() && is_digit(s[12]) {
            parse_from_colon(s, 13, y, mo, d, digit_val(s[11]) * 10 + digit_val(s[12]))
        } else {
            parse_from_colon(s, 12, y, mo, d, digit_val(s[11]))
        }
    }
}

/// The fields of an instant, as they appear in the text.
#[derive(Clone, Copy, Debug, PartialEq, Eq, Structural)]
pub struct DateParts {
    pub y: u64,
    pub mo: u64,
    pub d: u64,
    pub sod: u64,
    pub ns: u64,
}

pub fn digit_char_x(d: u64) -> (c: char)
    requires
        d < 10,
    ensures
        c == digit_char(d as int),
{
    match d {
        0 => '0',
        1 => '1',
        2 => '2',
        3 => '3',
        4 => '4',
        5 => '5',
        6 => '6',
        7 => '7',
        8 => '8',
        _ => '9',
    }
}

pub fn digit_val_x(c: char) -> (r: Option<u64>)
    ensures
        match r {
            Some(v) => v < 10 && digit_val(c) == v,
            None => !is_digit(c),
        },
{
    match c {
        '0' => Some(0),
        '1' => Some(1),
        '2' => Some(2),
        '3' => Some(3),
        '4' => Some(4),
        '5' => Some(5),
        '6' => Some(6),
        '7' => Some(7),
        '8' => Some(8),
        '9' => Some(9),
        _ => None,
    }
}

fn days_in_year_x(y: u64) -> (r: u64)
    ensures
        r as int == days_in_year(y as int),
        365 <= r <= 366,
{
    if (y % 4 == 0 && y % 100 != 0) || y % 400 == 0 {
        366
    } else {
        365
    }
}

fn days_in_month_x(y: u64, m: u64) -> (r: u64)
    ensures
        r as int == days_in_month(y as int, m as int),
        28 <= r <= 31,
{
    if m == 2 {
        if (y % 4 == 0 && y % 100 != 0) || y % 400 == 0 {
            29
        } else {
            28
        }
    } else if m == 4 || m == 6 || m == 9 || m == 11 {
        30
    } else {
        31
    }
}

#[verifier::loop_isolation(false)]
fn days_to_year_x(y: u64) -> (r: u64)
    requires
        y <= 10000,
    ensures
        r as int == days_to_year(y as int),
{
    proof {
        lemma_range_days();
    }
    let mut acc: u64 = 0;
    let mut i: u64 = 0;
    while i < y
        invariant
            i <= y,
            acc as int == days_to_year(i as int),
        decreases y - i,
    {
        proof {
            lemma_days_to_year_mono(i as int + 1, 10000);
        }
        acc = acc + days_in_year_x(i);
        i = i + 1;
    }
    acc
}

#[verifier::loop_isolation(false)]
fn days_to_month_x(y: u64, m: u64) -> (r: u64)
    requires
        1 <= m <= 13,
    ensures
        r as int == days_to_month(y as int, m as int),
        r <= 366,
{
    proof {
        lemma_days_to_month_full(y as int);
    }
    let mut acc: u64 = 0;
    let mut i: u64 = 1;
    while i < m
        invariant
            1 <= i <= m,
            acc as int == days_to_month(y as int, i as int),
            acc <= 366,
        decreases 13 - i,
    {
        proof {
            lemma_months_acc_bound(y as int, i as int + 1);
        }
        acc = acc + days_in_month_x(y, i);
        i = i + 1;
    }
    acc
}

/// Partial month sums stay within a year's days.
proof fn lemma_months_acc_bound(y: int, m: int)
    requires
        1 <= m <= 13,
    ensures
        days_to_month(y, m) <= days_in_year(y),
    decreases 13 - m,
{
    if m < 13 {
        lemma_months_acc_bound(y, m + 1);
    } else {
        lemma_days_to_month_full(y);
    }
}

/// Appends `v` as exactly `k` decimal digits.
fn push_digits(out: &mut Vec<char>, v: u64, k: usize) -> (nothing: ())
    ensures
        final(out)@ =~= old(out)@ + digits_rec(v as int, k as int),
    decreases k,
{
    if k == 0 {
    } else {
        push_digits(out, v / 10, k - 1);
        out.push(digit_char_x(v % 10));
    }
}

/// The fields an in-range instant splits into.
#[verifier::loop_isolation(false)]
fn split_fields(n: i128) -> (f: DateParts)
    requires
        date_in_range(n as int),
    ensures
        ({
            let sh = n as int - DATE_MIN_NANOS as int;
            let tot = sh / 1_000_000_000;
            let days = tot / 86400;
            let yd = year_split(0, days);
            let md = month_split(yd.0, 1, yd.1);
            &&& f.y as int == yd.0
            &&& f.mo as int == md.0
            &&& f.d as int == md.1 + 1
            &&& f.sod as int == tot % 86400
            &&& f.ns as int == sh % 1_000_000_000
            &&& f.y <= 9999
            &&& 1 <= f.mo <= 12
            &&& 1 <= f.d <= 31
            &&& f.sod < 86400
            &&& f.ns < 1_000_000_000
        }),
{
    proof {
        lemma_range_days();
    }
    let sh: u128 = (n - DATE_MIN_NANOS) as u128;
    let ns: u64 = (sh % 1_000_000_000) as u64;
    let tot: u128 = sh / 1_000_000_000;
    let sod: u64 = (tot % 86400) as u64;
    let days_u: u64 = (tot / 86400) as u64;
    proof {
        assert(sh as int <= 315569519999999999999int);
        vstd::arithmetic::div_mod::lemma_div_is_ordered(
            sh as int,
            315569519999999999999int,
            1_000_000_000,
        );
        assert(tot as int <= 315569519999int);
        vstd::arithmetic::div_mod::lemma_div_is_ordered(tot as int, 315569519999int, 86400);
        assert(days_u as int <= 3652424int);
        lemma_year_split(0, days_u as int);
        if year_split(0, days_u as int).0 >= 10000 {
            lemma_days_to_year_mono(10000, year_split(0, days_u as int).0);
            assert(false);
        }
    }
    let ghost yd = year_split(0, days_u as int);
    let mut y: u64 = 0;
    let mut rem: u64 = days_u;
    let mut diy: u64 = days_in_year_x(0);
    while rem >= diy
        invariant
            diy as int == days_in_year(y as int),
            year_split(0, days_u as int) == year_split(y as int, rem as int),
            rem <= days_u,
            y <= 9999,
        decreases rem,
    {
        proof {
            lemma_year_split(y as int + 1, rem as int - diy as int);
        }
        rem = rem - diy;
        y = y + 1;
        diy = days_in_year_x(y);
    }
    proof {
        assert(year_split(y as int, rem as int) == (y as int, rem as int));
        lemma_month_split(y as int, 1, rem as int);
    }
    let ghost md = month_split(y as int, 1, rem as int);
    let mut mo: u64 = 1;
    let mut dim: u64 = days_in_month_x(y, 1);
    while mo < 12 && rem >= dim
        invariant
            1 <= mo <= 12,
            dim as int == days_in_month(y as int, mo as int),
            month_split(yd.0, 1, yd.1) == month_split(y as int, mo as int, rem as int),
            rem as int == yd.1 - days_to_month(y as int, mo as int),
        decreases 12 - mo,
    {
        rem = rem - dim;
        mo = mo + 1;
        dim = days_in_month_x(y, mo);
    }
    proof {
        if rem >= dim {
            assert(mo == 12);
            assert(md.0 == month_split(y as int, 12, rem as int).0);
            assert(month_split(y as int, 12, rem as int) == month_split(
                y as int,
                13,
                rem as int - dim as int,
            ));
            assert(month_split(y as int, 13, rem as int - dim as int).0 == 13);
            assert(false);
        }
        assert(month_split(y as int, mo as int, rem as int) == (mo as int, rem as int));
    }
    DateParts { y, mo, d: rem + 1, sod, ns }
}

/// Writes an instant in the canonical shape.
#[verifier::loop_isolation(false)]
pub fn format_date(n: i128) -> (r: Vec<char>)
    requires
        date_in_range(n as int),
    ensures
        r@ == date_text(n as int),
{
    let f = split_fields(n);
    let mut out: Vec<char> = Vec::new();
    push_digits(&mut out, f.y, 4);
    out.push('-');
    push_digits(&mut out, f.mo, 2);
    out.push('-');
    push_digits(&mut out, f.d, 2);
    out.push('T');
    push_digits(&mut out, f.sod / 3600, 2);
    out.push(':');
    push_digits(&mut out, (f.sod % 3600) / 60, 2);
    out.push(':');
    push_digits(&mut out, f.sod % 60, 2);
    out.push('.');
    proof {
        assert(out@ =~= date_text_head(n as int));
    }
    let mut frac: Vec<char> = Vec::new();
    push_digits(&mut frac, f.ns, 9);
    proof {
        reveal_with_fuel(pow10, 10);
        lemma_digits_rec(f.ns as int, 9);
    }
    while frac.len() > 1 && frac[frac.len() - 1] == '0'
        invariant
            frac.len() >= 1,
            strip_zeros(frac@) == strip_zeros(digits_rec(f.ns as int, 9)),
        decreases frac.len(),
    {
        let ghost pre = frac@;
        frac.pop();
        proof {
            assert(frac@ =~= pre.drop_last());
        }
    }
    proof {
        assert(strip_zeros(frac@) == frac@);
    }
    let mut i: usize = 0;
    let flen = frac.len();
    while i < flen
        invariant
            i <= flen,
            flen == frac.len(),
            out@ == date_text_head(n as int) + frac@.take(i as int),
        decreases flen - i,
    {
        out.push(frac[i]);
        proof {
            assert(out@ =~= date_text_head(n as int) + frac@.take(i + 1));
        }
        i = i + 1;
    }
    proof {
        assert(frac@.take(flen as int) =~= frac@);
        assert(out@ =~= date_text(n as int));
    }
    out
}

/// Reads an instant from text: the canonical shape or one of the two
/// legacy shapes (single-digit hour, missing fraction).
#[verifier::loop_isolation(false)]
pub fn parse_date(v: &Vec<char>) -> (r: Option<i128>)
    ensures
        match r {
            Some(n) => spec_parse_date(v@) == Some(n as int) && date_in_range(n as int),
            None => spec_parse_date(v@) is None,
        },
{
    let len = v.len();
    if len < 17 {
        return None;
    }
    let d0 = digit_val_x(v[0]);
    let d1 = digit_val_x(v[1]);
    let d2 = digit_val_x(v[2]);
    let d3 = digit_val_x(v[3]);
    let d5 = digit_val_x(v[5]);
    let d6 = digit_val_x(v[6]);
    let d8 = digit_val_x(v[8]);
    let d9 = digit_val_x(v[9]);
    let d11 = digit_val_x(v[11]);
    if d0.is_none() || d1.is_none() || d2.is_none() || d3.is_none() || v[4] != '-'
        || d5.is_none() || d6.is_none() || v[7] != '-' || d8.is_none() || d9.is_none()
        || v[10] != 'T' || d11.is_none() {
        return None;
    }
    let y: u64 = ((d0.unwrap() * 10 + d1.unwrap()) * 10 + d2.unwrap()) * 10 + d3.unwrap();
    let mo: u64 = d5.unwrap() * 10 + d6.unwrap();
    let d: u64 = d8.unwrap() * 10 + d9.unwrap();
    let (h, p): (u64, usize) = if 12 < len {
        match digit_val_x(v[12]) {
            Some(x) => (d11.unwrap() * 10 + x, 13),
            None => (d11.unwrap(), 12),
        }
    } else {
        (d11.unwrap(), 12)
    };
    if len < p + 6 {
        return None;
    }
    let m1 = digit_val_x(v[p + 1]);
    let m2 = digit_val_x(v[p + 2]);
    let s1 = digit_val_x(v[p + 4]);
    let s2 = digit_val_x(v[p + 5]);
    if v[p] != ':' || m1.is_none() || m2.is_none() || v[p + 3] != ':' || s1.is_none()
        || s2.is_none() {
        return None;
    }
    let mi: u64 = m1.unwrap() * 10 + m2.unwrap();
    let sec: u64 = s1.unwrap() * 10 + s2.unwrap();
    let q = p + 6;
    let ns: u64 = if len == q {
        0
    } else {
        match parse_frac(v, q) {
            Some(x) => x,
            None => {
                return None;
            },
        }
    };
    if !(1 <= mo && mo <= 12 && h <= 23 && mi <= 59 && sec <= 59) {
        return None;
    }
    let dim = days_in_month_x(y, mo);
    if !(1 <= d && d <= dim) {
        return None;
    }
    proof {
        lemma_range_days();
        lemma_days_to_year_mono(y as int, 9999);
        lemma_days_to_year_mono(y as int + 1, 10000);
        lemma_days_to_month_full(y as int);
        lemma_months_acc_bound(y as int, mo as int);
        lemma_month_days_bound(y as int, mo as int);
    }
    let dty = days_to_year_x(y);
    let dtm = days_to_month_x(y, mo);
    proof {
        assert(days_to_year(y as int + 1) == days_to_year(y as int) + days_in_year(
            y as int,
        ));
        assert(dty as int + dtm as int + (d as int - 1) <= 3652424);
    }
    let days: u64 = dty + dtm + (d - 1);
    let n: i128 = DATE_MIN_NANOS + ((days as i128) * 86400 + (h as i128) * 3600 + (
    mi as i128) * 60 + sec as i128) * 1_000_000_000 + ns as i128;
    proof {
        assert(date_in_range(n as int));
    }
    Some(n)
}

/// Reads the fraction of a date: a dot followed by one to nine digits.
#[verifier::loop_isolation(false)]
#[verifier::rlimit(50)]
#[verifier::spinoff_prover]
fn parse_frac(v: &Vec<char>, q: usize) -> (r: Option<u64>)
    requires
        q < v@.len(),
    ensures
        match r {
            Some(ns) => {
                &&& v@[q as int] == '.'
                &&& q + 1 < v@.len() <= q + 10
                &&& all_digits_from(v@, q as int + 1)
                &&& ns as int == frac_val(v@, q as int + 1)
                &&& ns < 1_000_000_000
            },
            None => !(v@[q as int] == '.' && q + 1 < v@.len() <= q + 10 && all_digits_from(
                v@,
                q as int + 1,
            )),
        },
{
    let len = v.len();
    if v[q] != '.' || len - q <= 1 || len - q > 10 {
        return None;
    }
    proof {
        reveal_with_fuel(pow10, 10);
    }
    let mut val: u64 = 0;
    let mut i: usize = q + 1;
    while i < len
        invariant
            q + 1 <= i <= len,
            all_digits_from(v@.take(i as int), q + 1),
            val as int == digits_val(v@.subrange(q as int + 1, i as int)),
            val < 1_000_000_000,
        decreases len - i,
    {
        let dv = match digit_val_x(v[i]) {
            Some(x) => x,
            None => {
                proof {
                    assert(!is_digit(v@[i as int]));
                    assert(!all_digits_from(v@, q as int + 1));
                }
                return None;
            },
        };
        proof {
            assert(v@.subrange(q as int + 1, i + 1).drop_last() =~= v@.subrange(
                q as int + 1,
                i as int,
            ));
            assert(v@.subrange(q as int + 1, i + 1).last() == v@[i as int]);
            assert forall|j: int| q + 1 <= j < i + 1 implies is_digit(
                #[trigger] v@.take(i + 1)[j],
            ) by {
                if j < i {
                    assert(v@.take(i + 1)[j] == v@.take(i as int)[j]);
                    assert(is_digit(v@.take(i as int)[j]));
                }
            }
            assert forall|j: int|
                0 <= j < (i + 1 - (q + 1)) implies is_digit(
                #[trigger] v@.subrange(q as int + 1, i + 1)[j],
            ) by {
                assert(v@.subrange(q as int + 1, i + 1)[j] == v@.take(i + 1)[q + 1 + j]);
            }
            lemma_digits_bound(v@.subrange(q as int + 1, i + 1), i + 1 - (q + 1));
            lemma_pow10_mono(i + 1 - (q + 1), 9);
        }
        val = val * 10 + dv;
        i = i + 1;
    }
    proof {
        assert(v@.take(len as int) =~= v@);
        let k = len as int - (q as int + 1);
        lemma_digits_bound(v@.subrange(q as int + 1, len as int), k);
        lemma_pow10_mul(k, 9 - k);
        lemma_pow10_pos(9 - k);
        assert(val as int * pow10(9 - k) <= (pow10(k) - 1) * pow10(9 - k))
            by (nonlinear_arith)
            requires
                val as int <= pow10(k) - 1,
                pow10(9 - k) >= 1,
        ;
        assert((pow10(k) - 1) * pow10(9 - k) == pow10(k) * pow10(9 - k) - pow10(9 - k))
            by (nonlinear_arith);
        assert(val as int * pow10(9 - k) >= 0) by (nonlinear_arith)
            requires
                val as int >= 0,
                pow10(9 - k) >= 1,
        ;
    }
    Some(val * pow10_x((9 - (len - (q + 1))) as u64))
}

/// A fixed number of digits is bounded by the corresponding power of ten.
proof fn lemma_digits_bound(s: Seq<char>, k: int)
    requires
        s.len() == k,
        forall|i: int| 0 <= i < s.len() ==> is_digit(#[trigger] s[i]),
    ensures
        0 <= digits_val(s) < pow10(k),
    decreases k,
{
    if k > 0 {
        assert(forall|i: int|
            0 <= i < s.drop_last().len() ==> is_digit(#[trigger] s.drop_last()[i]));
        lemma_digits_bound(s.drop_last(), k - 1);
        assert(digits_val(s) == digits_val(s.drop_last()) * 10 + digit_val(s.last()));
        assert(digits_val(s.drop_last()) * 10 + 10 <= pow10(k - 1) * 10) by (nonlinear_arith)
            requires
                digits_val(s.drop_last()) < pow10(k - 1),
        ;
    }
}

/// Days within a month stay within the month table.
proof fn lemma_month_days_bound(y: int, m: int)
    requires
        1 <= m <= 12,
    ensures
        days_to_month(y, m) + days_in_month(y, m) <= days_in_year(y),
{
    lemma_months_acc_bound(y, m + 1);
}

/// Powers of ten multiply by adding exponents.
pub proof fn lemma_pow10_mul(a: int, b: int)
    requires
        0 <= a,
        0 <= b,
    ensures
        pow10(a) * pow10(b) == pow10(a + b),
    decreases a,
{
    if a == 0 {
    } else {
        lemma_pow10_mul(a - 1, b);
        assert((10 * pow10(a - 1)) * pow10(b) == 10 * (pow10(a - 1) * pow10(b)))
            by (nonlinear_arith);
    }
}

/// Powers of ten grow with the exponent.
pub proof fn lemma_pow10_mono(a: int, b: int)
    requires
        0 <= a <= b,
    ensures
        pow10(a) <= pow10(b),
    decreases b - a,
{
    if a < b {
        lemma_pow10_mono(a, b - 1);
        assert(pow10(b) == 10 * pow10(b - 1));
        assert(pow10(b - 1) >= 1) by {
            lemma_pow10_pos(b - 1);
        }
    }
}

/// Powers of ten are positive.
pub proof fn lemma_pow10_pos(a: int)
    ensures
        pow10(a) >= 1,
    decreases a,
{
    if a > 0 {
        lemma_pow10_pos(a - 1);
    }
}

fn pow10_x(k: u64) -> (r: u64)
    requires
        k <= 9,
    ensures
        r as int == pow10(k as int),
{
    proof {
        reveal_with_fuel(pow10, 10);
    }
    match k {
        0 => 1,
        1 => 10,
        2 => 100,
        3 => 1_000,
        4 => 10_000,
        5 => 100_000,
        6 => 1_000_000,
        7 => 10_000_000,
        8 => 100_000_000,
        _ => 1_000_000_000,
    }
}

/// Everything before the fraction digits in the canonical shape.
pub open spec fn date_text_head(n: int) -> Seq<char> {
    let sh = n - DATE_MIN_NANOS as int;
    let tot = sh / 1_000_000_000;
    let sod = tot % 86400;
    let days = tot / 86400;
    let yd = year_split(0, days);
    let md = month_split(yd.0, 1, yd.1);
    digits_rec(yd.0, 4) + seq!['-'] + digits_rec(md.0, 2) + seq!['-'] + digits_rec(
        md.1 + 1,
        2,
    ) + seq!['T'] + digits_rec(sod / 3600, 2) + seq![':'] + digits_rec(
        (sod % 3600) / 60,
        2,
    ) + seq![':'] + digits_rec(sod % 60, 2) + seq!['.']
}

/// A two-character digit run read most significant first.
proof fn lemma_digits_val_2(s: Seq<char>)
    requires
        s.len() == 2,
    ensures
        digits_val(s) == digit_val(s[0]) * 10 + digit_val(s[1]),
{
    reveal_with_fuel(digits_val, 4);
    assert(s.drop_last().drop_last() =~= Seq::<char>::empty());
    assert(s.drop_last().last() == s[0]);
    assert(s.last() == s[1]);
}

/// A four-character digit run read most significant first.
proof fn lemma_digits_val_4(s: Seq<char>)
    requires
        s.len() == 4,
    ensures
        digits_val(s) == ((digit_val(s[0]) * 10 + digit_val(s[1])) * 10 + digit_val(s[2]))
            * 10 + digit_val(s[3]),
{
    reveal_with_fuel(digits_val, 6);
    lemma_digits_val_2(s.drop_last().drop_last());
    assert(s.drop_last().drop_last()[0] == s[0]);
    assert(s.drop_last().drop_last()[1] == s[1]);
    assert(s.drop_last().last() == s[2]);
    assert(s.last() == s[3]);
}

/// Law: writing an in-range instant and reading the text back yields the
/// instant exactly.
#[verifier::rlimit(100)]
#[verifier::spinoff_prover]
pub proof fn lemma_date_roundtrip(n: int)
    requires
        date_in_range(n),
    ensures
        spec_parse_date(date_text(n)) == Some(n),
{
    reveal_with_fuel(pow10, 10);
    let sh = n - DATE_MIN_NANOS as int;
    let ns = sh % 1_000_000_000;
    let tot = sh / 1_000_000_000;
    let sod = tot % 86400;
    let days = tot / 86400;
    vstd::arithmetic::div_mod::lemma_fundamental_div_mod(sh, 1_000_000_000);
    vstd::arithmetic::div_mod::lemma_mod_bound(sh, 1_000_000_000);
    vstd::arithmetic::div_mod::lemma_div_pos_is_pos(sh, 1_000_000_000);
    vstd::arithmetic::div_mod::lemma_fundamental_div_mod(tot, 86400);
    vstd::arithmetic::div_mod::lemma_mod_bound(tot, 86400);
    vstd::arithmetic::div_mod::lemma_div_pos_is_pos(tot, 86400);
    assert(sh <= 315569519999999999999int);
    vstd::arithmetic::div_mod::lemma_div_is_ordered(sh, 315569519999999999999int, 1_000_000_000);
    vstd::arithmetic::div_mod::lemma_div_is_ordered(tot, 315569519999int, 86400);
    lemma_range_days();
    lemma_year_split(0, days);
    let yd = year_split(0, days);
    let y = yd.0;
    let doy = yd.1;
    if y >= 10000 {
        lemma_days_to_year_mono(10000, y);
        assert(false);
    }
    lemma_month_split(y, 1, doy);
    let md = month_split(y, 1, doy);
    let mo = md.0;
    let dom = md.1;
    let h = sod / 3600;
    let mi = (sod % 3600) / 60;
    let sec = sod % 60;
    vstd::arithmetic::div_mod::lemma_fundamental_div_mod(sod, 3600);
    vstd::arithmetic::div_mod::lemma_mod_bound(sod, 3600);
    vstd::arithmetic::div_mod::lemma_div_pos_is_pos(sod, 3600);
    vstd::arithmetic::div_mod::lemma_fundamental_div_mod(sod % 3600, 60);
    vstd::arithmetic::div_mod::lemma_mod_bound(sod % 3600, 60);
    vstd::arithmetic::div_mod::lemma_div_pos_is_pos(sod % 3600, 60);
    vstd::arithmetic::div_mod::lemma_mod_bound(sod, 60);
    vstd::arithmetic::div_mod::lemma_mod_multiples_vanish(-60 * (sod / 3600), sod, 60);
    assert((sod % 3600) % 60 == sod % 60);
    lemma_digits_rec(y, 4);
    lemma_digits_rec(mo, 2);
    lemma_digits_rec(dom + 1, 2);
    lemma_digits_rec(h, 2);
    lemma_digits_rec(mi, 2);
    lemma_digits_rec(sec, 2);
    lemma_digits_rec(ns, 9);
    lemma_strip_zeros(digits_rec(ns, 9));
    let ya = digits_rec(y, 4);
    let mb = digits_rec(mo, 2);
    let db = digits_rec(dom + 1, 2);
    let hb = digits_rec(h, 2);
    let ib = digits_rec(mi, 2);
    let sb = digits_rec(sec, 2);
    let fr = subsec_text(ns);
    let t = date_text(n);
    assert(t == ya + seq!['-'] + mb + seq!['-'] + db + seq!['T'] + hb + seq![':'] + ib
        + seq![':'] + sb + seq!['.'] + fr);
    assert(t.len() == 20 + fr.len());
    assert(t[0] == ya[0] && t[1] == ya[1] && t[2] == ya[2] && t[3] == ya[3]);
    assert(t[4] == '-');
    assert(t[5] == mb[0] && t[6] == mb[1]);
    assert(t[7] == '-');
    assert(t[8] == db[0] && t[9] == db[1]);
    assert(t[10] == 'T');
    assert(t[11] == hb[0] && t[12] == hb[1]);
    assert(t[13] == ':');
    assert(t[14] == ib[0] && t[15] == ib[1]);
    assert(t[16] == ':');
    assert(t[17] == sb[0] && t[18] == sb[1]);
    assert(t[19] == '.');
    assert(forall|j: int| 0 <= j < fr.len() ==> t[20 + j] == #[trigger] fr[j]);
    lemma_digits_val_4(ya);
    lemma_digits_val_2(mb);
    lemma_digits_val_2(db);
    lemma_digits_val_2(hb);
    lemma_digits_val_2(ib);
    lemma_digits_val_2(sb);
    assert(t.subrange(20, t.len() as int) =~= fr);
    assert forall|j: int| 20 <= j < t.len() implies is_digit(#[trigger] t[j]) by {
        assert(t[j] == fr[j - 20]);
    }
    assert(all_digits_from(t, 20));
    assert(frac_val(t, 20) == digits_val(fr) * pow10(9 - fr.len()));
    assert(digits_val(fr) * pow10(9 - fr.len()) == ns);
    assert(spec_parse_date(t) == parse_from_colon(t, 13, y, mo, dom + 1, h));
    assert(parse_from_colon(t, 13, y, mo, dom + 1, h) == date_of_fields(
        y,
        mo,
        dom + 1,
        h,
        mi,
        sec,
        ns,
    ));
    assert(date_of_fields(y, mo, dom + 1, h, mi, sec, ns) is Some);
    assert(days_to_year(y) + days_to_month(y, mo) + dom == days);
    assert(h * 3600 + mi * 60 + sec == sod);
    assert(date_of_fields(y, mo, dom + 1, h, mi, sec, ns)->0 == n);
}

/// Every character of a written date is a digit or one of `-`, `:`, `T`,
/// `.`.
#[verifier::rlimit(100)]
#[verifier::spinoff_prover]
pub proof fn lemma_date_text_shape(n: int)
    requires
        date_in_range(n),
    ensures
        forall|k: int|
            0 <= k < date_text(n).len() ==> is_digit(#[trigger] date_text(n)[k]) || date_text(
                n,
            )[k] == '-' || date_text(n)[k] == ':' || date_text(n)[k] == 'T' || date_text(
                n,
            )[k] == '.',
{
    reveal_with_fuel(pow10, 10);
    let sh = n - DATE_MIN_NANOS as int;
    let ns = sh % 1_000_000_000;
    let tot = sh / 1_000_000_000;
    let sod = tot % 86400;
    let days = tot / 86400;
    vstd::arithmetic::div_mod::lemma_mod_bound(sh, 1_000_000_000);
    vstd::arithmetic::div_mod::lemma_div_pos_is_pos(sh, 1_000_000_000);
    vstd::arithmetic::div_mod::lemma_mod_bound(tot, 86400);
    vstd::arithmetic::div_mod::lemma_div_pos_is_pos(tot, 86400);
    assert(sh <= 315569519999999999999int);
    vstd::arithmetic::div_mod::lemma_div_is_ordered(sh, 315569519999999999999int, 1_000_000_000);
    vstd::arithmetic::div_mod::lemma_div_is_ordered(tot, 315569519999int, 86400);
    lemma_range_days();
    lemma_year_split(0, days);
    let yd = year_split(0, days);
    if yd.0 >= 10000 {
        lemma_days_to_year_mono(10000, yd.0);
        assert(false);
    }
    lemma_month_split(yd.0, 1, yd.1);
    let md = month_split(yd.0, 1, yd.1);
    vstd::arithmetic::div_mod::lemma_mod_bound(sod, 3600);
    vstd::arithmetic::div_mod::lemma_div_pos_is_pos(sod, 3600);
    vstd::arithmetic::div_mod::lemma_mod_bound(sod % 3600, 60);
    vstd::arithmetic::div_mod::lemma_div_pos_is_pos(sod % 3600, 60);
    vstd::arithmetic::div_mod::lemma_mod_bound(sod, 60);
    lemma_digits_rec(yd.0, 4);
    lemma_digits_rec(md.0, 2);
    lemma_digits_rec(md.1 + 1, 2);
    lemma_digits_rec(sod / 3600, 2);
    lemma_digits_rec((sod % 3600) / 60, 2);
    lemma_digits_rec(sod % 60, 2);
    lemma_digits_rec(ns, 9);
    lemma_strip_zeros(digits_rec(ns, 9));
    let ya = digits_rec(yd.0, 4);
    let mb = digits_rec(md.0, 2);
    let db = digits_rec(md.1 + 1, 2);
    let hb = digits_rec(sod / 3600, 2);
    let ib = digits_rec((sod % 3600) / 60, 2);
    let sb = digits_rec(sod % 60, 2);
    let fr = subsec_text(ns);
    let t = date_text(n);
    assert(t == ya + seq!['-'] + mb + seq!['-'] + db + seq!['T'] + hb + seq![':'] + ib
        + seq![':'] + sb + seq!['.'] + fr);
    assert(t.len() == 20 + fr.len());
    assert forall|k: int|
        0 <= k < t.len() implies is_digit(#[trigger] t[k]) || t[k] == '-' || t[k] == ':'
        || t[k] == 'T' || t[k] == '.' by {
        if k < 4 {
            assert(t[k] == ya[k]);
        } else if k == 4 {
            assert(t[k] == '-');
        } else if k < 7 {
            assert(t[k] == mb[k - 5]);
        } else if k == 7 {
            assert(t[k] == '-');
        } else if k < 10 {
            assert(t[k] == db[k - 8]);
        } else if k == 10 {
            assert(t[k] == 'T');
        } else if k < 13 {
            assert(t[k] == hb[k - 11]);
        } else if k == 13 {
            assert(t[k] == ':');
        } else if k < 16 {
            assert(t[k] == ib[k - 14]);
        } else if k == 16 {
            assert(t[k] == ':');
        } else if k < 19 {
            assert(t[k] == sb[k - 17]);
        } else if k == 19 {
            assert(t[k] == '.');
        } else {
            assert(t[k] == fr[k - 20]);
        }
    }
}

} // verus!

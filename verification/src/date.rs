//! Dates in HTTP headers.

use crate::numbers::{decimal, format_u64, law_decimal_reads_back, lemma_decimal_digits};
use crate::text::{lemma_ascii_valid, push_text, text_of};
use vstd::prelude::*;
use vstd::string::{is_ascii, StringSliceAdditionalSpecFns};
use vstd::utf8::*;

verus! {

/// Whether `year` has a 29th of February.
pub open spec fn leap(year: int) -> bool {
    year % 4 == 0 && (year % 100 != 0 || year % 400 == 0)
}

/// The number of days in `year`.
pub open spec fn year_len(year: int) -> int {
    if leap(year) {
        366
    } else {
        365
    }
}

/// The number of days in a month, January being 1.
pub open spec fn month_len(year: int, month: int) -> int {
    if month == 2 {
        if leap(year) {
            29
        } else {
            28
        }
    } else if month == 4 || month == 6 || month == 9 || month == 11 {
        30
    } else {
        31
    }
}

/// The number of days from the start of 1970 to the start of `year`.
pub open spec fn days_before_year(year: int) -> int
    decreases year,
{
    if year <= 1970 {
        0
    } else {
        days_before_year(year - 1) + year_len(year - 1)
    }
}

/// The number of days from the start of `year` to the start of `month`.
pub open spec fn days_before_month(year: int, month: int) -> int
    decreases month,
{
    if month <= 1 {
        0
    } else {
        days_before_month(year, month - 1) + month_len(year, month - 1)
    }
}

/// The day of the Gregorian calendar that comes `days` days after the first of
/// January 1970 is `day`.`month`.`year`.
pub open spec fn is_date(days: int, year: int, month: int, day: int) -> bool {
    &&& 1970 <= year
    &&& 1 <= month <= 12
    &&& 1 <= day <= month_len(year, month)
    &&& days == days_before_year(year) + days_before_month(year, month) + day - 1
}

/// The date (year, month, day) of the day that comes `days` days after the
/// first of January 1970.
pub open spec fn date_of(days: int) -> (int, int, int) {
    choose|t: (int, int, int)| #[trigger] is_date(days, t.0, t.1, t.2)
}

/// The name of the day that comes `k` days after a Thursday, for `k` below 7.
pub open spec fn weekday_name(k: int) -> Seq<u8> {
    if k == 0 {
        "Thu".spec_bytes()
    } else if k == 1 {
        "Fri".spec_bytes()
    } else if k == 2 {
        "Sat".spec_bytes()
    } else if k == 3 {
        "Sun".spec_bytes()
    } else if k == 4 {
        "Mon".spec_bytes()
    } else if k == 5 {
        "Tue".spec_bytes()
    } else {
        "Wed".spec_bytes()
    }
}

/// The name of a month, January being 1.
pub open spec fn month_name(month: int) -> Seq<u8> {
    if month == 1 {
        "Jan".spec_bytes()
    } else if month == 2 {
        "Feb".spec_bytes()
    } else if month == 3 {
        "Mar".spec_bytes()
    } else if month == 4 {
        "Apr".spec_bytes()
    } else if month == 5 {
        "May".spec_bytes()
    } else if month == 6 {
        "Jun".spec_bytes()
    } else if month == 7 {
        "Jul".spec_bytes()
    } else if month == 8 {
        "Aug".spec_bytes()
    } else if month == 9 {
        "Sep".spec_bytes()
    } else if month == 10 {
        "Oct".spec_bytes()
    } else if month == 11 {
        "Nov".spec_bytes()
    } else {
        "Dec".spec_bytes()
    }
}

/// `n` in decimal digits, with zeros in front up to `width` digits.
pub open spec fn padded(n: nat, width: nat) -> Seq<u8> {
    let digits = decimal(n);
    if digits.len() < width {
        Seq::new((width - digits.len()) as nat, |i: int| 48u8) + digits
    } else {
        digits
    }
}

/// A date and a time of day as HTTP writes them, with the year given as text.
pub open spec fn date_text(weekday: int, year: Seq<u8>, month: int, day: int, second: int) -> Seq<
    u8,
> {
    weekday_name(weekday) + ", ".spec_bytes() + padded(day as nat, 2) + " ".spec_bytes()
        + month_name(month) + " ".spec_bytes() + year + " ".spec_bytes() + padded(
        (second / 3600) as nat,
        2,
    ) + ":".spec_bytes() + padded(((second % 3600) / 60) as nat, 2) + ":".spec_bytes() + padded(
        (second % 60) as nat,
        2,
    ) + " GMT".spec_bytes()
}

/// The moment `secs` seconds after the start of 1970 (UTC) as HTTP writes it.
pub open spec fn http_date(secs: int) -> Seq<u8> {
    let date = date_of(secs / 86400);
    date_text(
        (secs / 86400) % 7,
        padded(date.0 as nat, 4),
        date.1,
        date.2,
        secs % 86400,
    )
}

/// The moment `secs` seconds after the start of 1970 (UTC) as HTTP writes it, with
/// a plus sign in front of a year of more than four digits.
pub open spec fn signed_date(secs: int) -> Seq<u8> {
    let date = date_of(secs / 86400);
    if date.0 < 10000 {
        http_date(secs)
    } else {
        date_text(
            (secs / 86400) % 7,
            "+".spec_bytes() + decimal(date.0 as nat),
            date.1,
            date.2,
            secs % 86400,
        )
    }
}

/// The leap days in the years 1 to `k`.
spec fn leap_days(k: int) -> int {
    k / 4 - k / 100 + k / 400
}

proof fn lemma_year_start(year: int)
    requires
        1970 <= year,
    ensures
        days_before_year(year) == 365 * (year - 1970) + leap_days(year - 1) - 477,
    decreases year,
{
    if year > 1970 {
        lemma_year_start(year - 1);
        lemma_leap_step(year - 1);
    }
}

proof fn lemma_leap_step(year: int)
    requires
        1 <= year,
    ensures
        leap_days(year) - leap_days(year - 1) == (if leap(year) { 1int } else { 0int }),
{
    assert(year / 4 - (year - 1) / 4 == (if year % 4 == 0 { 1int } else { 0int }));
    assert(year / 100 - (year - 1) / 100 == (if year % 100 == 0 { 1int } else { 0int }));
    assert(year / 400 - (year - 1) / 400 == (if year % 400 == 0 { 1int } else { 0int }));
    let q = year / 400;
    let r = year % 400;
    assert(year == 400 * q + r);
    assert(year % 100 == r % 100) by (nonlinear_arith)
        requires
            year == 400 * q + r,
    ;
    assert(year % 4 == r % 4) by (nonlinear_arith)
        requires
            year == 400 * q + r,
    ;
}

proof fn lemma_month_starts(year: int)
    ensures
        days_before_month(year, 1) == 0,
        days_before_month(year, 2) == 31,
        days_before_month(year, 3) == 31 + month_len(year, 2),
        days_before_month(year, 4) == 62 + month_len(year, 2),
        days_before_month(year, 5) == 92 + month_len(year, 2),
        days_before_month(year, 6) == 123 + month_len(year, 2),
        days_before_month(year, 7) == 153 + month_len(year, 2),
        days_before_month(year, 8) == 184 + month_len(year, 2),
        days_before_month(year, 9) == 215 + month_len(year, 2),
        days_before_month(year, 10) == 245 + month_len(year, 2),
        days_before_month(year, 11) == 276 + month_len(year, 2),
        days_before_month(year, 12) == 306 + month_len(year, 2),
        days_before_month(year, 13) == year_len(year),
{
    reveal_with_fuel(days_before_month, 14);
}

proof fn lemma_years_grow(a: int, b: int)
    requires
        1970 <= a <= b,
    ensures
        days_before_year(a) <= days_before_year(b),
    decreases b,
{
    if a < b {
        lemma_years_grow(a, b - 1);
    }
}

proof fn lemma_months_grow(year: int, a: int, b: int)
    requires
        1 <= a <= b <= 13,
    ensures
        days_before_month(year, a) <= days_before_month(year, b),
    decreases b,
{
    if a < b {
        lemma_months_grow(year, a, b - 1);
    }
}

/// A day has only one date.
pub proof fn law_date_unique(
    days: int,
    year: int,
    month: int,
    day: int,
    other_year: int,
    other_month: int,
    other_day: int,
)
    requires
        is_date(days, year, month, day),
        is_date(days, other_year, other_month, other_day),
    ensures
        year == other_year,
        month == other_month,
        day == other_day,
{
    lemma_within_year(days, year, month, day);
    lemma_within_year(days, other_year, other_month, other_day);
    if year < other_year {
        lemma_years_grow(year + 1, other_year);
    } else if other_year < year {
        lemma_years_grow(other_year + 1, year);
    }
    if month < other_month {
        lemma_months_grow(year, month + 1, other_month);
    } else if other_month < month {
        lemma_months_grow(year, other_month + 1, month);
    }
}

proof fn lemma_within_year(days: int, year: int, month: int, day: int)
    requires
        is_date(days, year, month, day),
    ensures
        days_before_year(year) <= days < days_before_year(year + 1),
{
    lemma_month_starts(year);
    lemma_months_grow(year, 1, month);
    lemma_months_grow(year, month + 1, 13);
}

/// A day as the calendar arithmetic takes it apart: `j` days since March of the
/// year -4800 are `y` years that begin in March and `da` days.
proof fn lemma_march_year(j: int, g: int, c: int, b: int, a: int, da: int)
    requires
        j >= 2472632,
        g == j / 146097,
        ({
            let dg = j % 146097;
            let dc = dg - c * 36524;
            let db = dc % 1461;
            &&& c == (dg / 36524 + 1) * 3 / 4
            &&& b == dc / 1461
            &&& a == (db / 365 + 1) * 3 / 4
            &&& da == db - a * 365
        }),
    ensures
        16 <= g,
        0 <= c <= 3,
        0 <= b <= 24,
        0 <= a <= 3,
        0 <= da <= 365,
        j == 365 * (g * 400 + c * 100 + b * 4 + a) + leap_days(g * 400 + c * 100 + b * 4 + a) + da,
        da == 365 ==> leap(g * 400 + c * 100 + b * 4 + a + 1),
{
    let dg = j % 146097;
    let q = dg / 36524;
    assert(0 <= q <= 4);
    assert(c == if q == 4 { 3 } else { q });
    let dc = dg - c * 36524;
    assert(0 <= dc <= 36524);
    assert(dc == 36524 ==> c == 3);
    let db = dc % 1461;
    assert(0 <= b <= 24);
    let p = db / 365;
    assert(0 <= p <= 4);
    assert(a == if p == 4 { 3 } else { p });
    assert(0 <= da <= 365);
    let y = g * 400 + c * 100 + b * 4 + a;
    assert(y / 4 == g * 100 + c * 25 + b);
    assert(0 <= b * 4 + a < 100);
    assert(y / 100 == g * 4 + c);
    assert(0 <= c * 100 + b * 4 + a < 400);
    assert(y / 400 == g);
    if da == 365 {
        assert(db == 1460 && a == 3);
        if b == 24 {
            assert(dc == 36524);
            assert(y + 1 == 400 * (g + 1));
        } else {
            assert(y + 1 == 4 * (g * 100 + c * 25 + b + 1));
            assert((y + 1) % 100 == (b + 1) * 4);
        }
    }
}

/// The month `m` (March being 0) and the day `d` (the first being 0) of the
/// day that comes `da` days after the first of March.
proof fn lemma_march_month(da: int, m: int, d: int)
    requires
        0 <= da <= 365,
        m == (da * 5 + 308) / 153 - 2,
        d == da - (m + 4) * 153 / 5 + 122,
    ensures
        0 <= m <= 11,
        m == 0 ==> d == da && d <= 30,
        m == 1 ==> d == da - 31 && 0 <= d <= 29,
        m == 2 ==> d == da - 61 && 0 <= d <= 30,
        m == 3 ==> d == da - 92 && 0 <= d <= 29,
        m == 4 ==> d == da - 122 && 0 <= d <= 30,
        m == 5 ==> d == da - 153 && 0 <= d <= 30,
        m == 6 ==> d == da - 184 && 0 <= d <= 29,
        m == 7 ==> d == da - 214 && 0 <= d <= 30,
        m == 8 ==> d == da - 245 && 0 <= d <= 29,
        m == 9 ==> d == da - 275 && 0 <= d <= 30,
        m == 10 ==> d == da - 306 && 0 <= d <= 30,
        m == 11 ==> d == da - 337 && 0 <= d <= 28,
{
}

/// The calendar repeats after 4800 years.
proof fn lemma_leap_shift(y: int)
    ensures
        leap_days(y - 4800) == leap_days(y) - 1164,
        leap(y - 4800) == leap(y),
{
    assert((y - 4800) / 4 == y / 4 - 1200 && (y - 4800) % 4 == y % 4);
    assert((y - 4800) / 100 == y / 100 - 48 && (y - 4800) % 100 == y % 100);
    assert((y - 4800) / 400 == y / 400 - 12 && (y - 4800) % 400 == y % 400);
}

/// A day in March to December.
#[verifier::spinoff_prover]
proof fn lemma_civil_late(days: int, yr: int, da: int, m: int, d: int)
    requires
        days == 365 * (yr - 1970) + leap_days(yr) + da - 418,
        yr >= 1970,
        0 <= m <= 9,
        0 <= d < month_len(yr, m + 3),
        days_before_month(yr, m + 3) + d == da + 31 + month_len(yr, 2),
    ensures
        is_date(days, yr, m + 3, d + 1),
{
    lemma_year_start(yr);
    lemma_leap_step(yr);
}

/// A day in January or February.
#[verifier::spinoff_prover]
proof fn lemma_civil_early(days: int, yr: int, da: int, m: int, d: int)
    requires
        days == 365 * (yr - 1 - 1970) + leap_days(yr - 1) + da - 418,
        yr >= 1970,
        10 <= m <= 11,
        0 <= d < month_len(yr, m - 9),
        days_before_month(yr, m - 9) + d == da - 306,
    ensures
        is_date(days, yr, m - 9, d + 1),
{
    lemma_year_start(yr);
}

/// From years that begin in March to calendar years.
#[verifier::spinoff_prover]
proof fn lemma_civil(days: int, y: int, da: int, m: int, d: int)
    requires
        days >= 0,
        days + 2472632 == 365 * y + leap_days(y) + da,
        y >= 6400,
        0 <= da <= 365,
        da == 365 ==> leap(y + 1),
        m == (da * 5 + 308) / 153 - 2,
        d == da - (m + 4) * 153 / 5 + 122,
    ensures
        0 <= m <= 11,
        0 <= d <= 30,
        y - 4800 + (m + 2) / 12 >= 1970,
        is_date(days, y - 4800 + (m + 2) / 12, (m + 2) % 12 + 1, d + 1),
{
    let yr = y - 4800;
    lemma_march_month(da, m, d);
    lemma_leap_shift(y);
    assert(days == 365 * (yr - 1970) + leap_days(yr) + da - 418);
    lemma_first_year(days, yr, da);
    if m < 10 {
        assert((m + 2) / 12 == 0 && (m + 2) % 12 + 1 == m + 3);
        lemma_month_starts(yr);
        lemma_civil_late(days, yr, da, m, d);
    } else {
        assert((m + 2) / 12 == 1 && (m + 2) % 12 + 1 == m - 9);
        lemma_month_starts(yr + 1);
        lemma_leap_shift(y + 1);
        lemma_civil_early(days, yr + 1, da, m, d);
    }
}

/// No day before 1970.
proof fn lemma_first_year(days: int, yr: int, da: int)
    requires
        days == 365 * (yr - 1970) + leap_days(yr) + da - 418,
        days >= 0,
        1600 <= yr,
        0 <= da <= 365,
    ensures
        yr >= 1969,
        da < 306 ==> yr >= 1970,
{
    if yr <= 1968 {
        assert(leap_days(yr) <= yr / 4 - 15);
    }
}

/// Appends `n` in decimal digits, with zeros in front up to `width` digits.
fn push_padded(buf: &mut Vec<u8>, n: u64, width: usize)
    ensures
        final(buf)@ == old(buf)@ + padded(n as nat, width as nat),
        valid_utf8(old(buf)@) ==> valid_utf8(final(buf)@),
{
    let digits: Vec<u8> = format_u64(n);
    let ghost start = buf@;
    let mut missing: usize = if digits.len() < width { width - digits.len() } else { 0 };
    let ghost zeros = missing;
    while missing > 0
        invariant
            missing <= zeros,
            buf@ == start + Seq::new((zeros - missing) as nat, |i: int| 48u8),
        decreases missing,
    {
        buf.push(48);
        missing -= 1;
        assert(buf@ =~= start + Seq::new((zeros - missing) as nat, |i: int| 48u8));
    }
    buf.extend_from_slice(digits.as_slice());
    assert(buf@ =~= start + padded(n as nat, width as nat));
    proof {
        lemma_decimal_digits(n as nat);
        lemma_ascii_valid(padded(n as nat, width as nat));
        if valid_utf8(start) {
            valid_utf8_concat(start, padded(n as nat, width as nat));
        }
    }
}

fn weekday_str(k: u64) -> (r: &'static str)
    ensures
        r.spec_bytes() == weekday_name(k as int),
{
    if k == 0 {
        "Thu"
    } else if k == 1 {
        "Fri"
    } else if k == 2 {
        "Sat"
    } else if k == 3 {
        "Sun"
    } else if k == 4 {
        "Mon"
    } else if k == 5 {
        "Tue"
    } else {
        "Wed"
    }
}

fn month_str(month: u64) -> (r: &'static str)
    ensures
        r.spec_bytes() == month_name(month as int),
{
    if month == 1 {
        "Jan"
    } else if month == 2 {
        "Feb"
    } else if month == 3 {
        "Mar"
    } else if month == 4 {
        "Apr"
    } else if month == 5 {
        "May"
    } else if month == 6 {
        "Jun"
    } else if month == 7 {
        "Jul"
    } else if month == 8 {
        "Aug"
    } else if month == 9 {
        "Sep"
    } else if month == 10 {
        "Oct"
    } else if month == 11 {
        "Nov"
    } else {
        "Dec"
    }
}

/// The date (year, month, day) of the day that comes `days` days after the
/// first of January 1970.
fn civil_date(days: u64) -> (r: (u64, u64, u64))
    requires
        days <= u64::MAX / 86400,
    ensures
        is_date(days as int, r.0 as int, r.1 as int, r.2 as int),
{
    let j: u64 = days + 2472632;
    let g: u64 = j / 146097;
    let dg: u64 = j % 146097;
    let c: u64 = (dg / 36524 + 1) * 3 / 4;
    let dc: u64 = dg - c * 36524;
    let b: u64 = dc / 1461;
    let db: u64 = dc % 1461;
    let a: u64 = (db / 365 + 1) * 3 / 4;
    let da: u64 = db - a * 365;
    proof {
        lemma_march_year(j as int, g as int, c as int, b as int, a as int, da as int);
    }
    let y: u64 = g * 400 + c * 100 + b * 4 + a;
    let m: u64 = (da * 5 + 308) / 153 - 2;
    proof {
        lemma_civil(
            days as int,
            y as int,
            da as int,
            m as int,
            da - (m + 4) * 153 / 5 + 122,
        );
    }
    let d: u64 = da + 122 - (m + 4) * 153 / 5;
    (y + (m + 2) / 12 - 4800, (m + 2) % 12 + 1, d + 1)
}

/// Every day from 1970 on has a date, and `date_of` gives it.
pub proof fn lemma_date_of(days: int, year: int, month: int, day: int)
    requires
        is_date(days, year, month, day),
    ensures
        date_of(days) == (year, month, day),
{
    let t = (year, month, day);
    assert(is_date(days, t.0, t.1, t.2));
    let u = date_of(days);
    law_date_unique(days, year, month, day, u.0, u.1, u.2);
}

/// The moment `secs` seconds after the start of 1970 (UTC), as an HTTP date.
pub fn format_http_date(secs: u64) -> (r: String)
    ensures
        encode_utf8(r@) == http_date(secs as int),
{
    let days: u64 = secs / 86400;
    let second: u64 = secs % 86400;
    let (year, month, day) = civil_date(days);
    proof {
        lemma_date_of(days as int, year as int, month as int, day as int);
    }
    let mut buf: Vec<u8> = Vec::new();
    push_text(&mut buf, weekday_str(days % 7));
    push_text(&mut buf, ", ");
    push_padded(&mut buf, day, 2);
    push_text(&mut buf, " ");
    push_text(&mut buf, month_str(month));
    push_text(&mut buf, " ");
    push_padded(&mut buf, year, 4);
    push_text(&mut buf, " ");
    push_padded(&mut buf, second / 3600, 2);
    push_text(&mut buf, ":");
    push_padded(&mut buf, (second % 3600) / 60, 2);
    push_text(&mut buf, ":");
    push_padded(&mut buf, second % 60, 2);
    push_text(&mut buf, " GMT");
    assert(buf@ =~= http_date(secs as int));
    text_of(buf)
}

// ── Laws ───────────────────────────────────────────────────────────────────

/// Every day from the start of 1970 on has a date, which `date_of` gives.
pub proof fn law_every_day_has_a_date(days: int)
    requires
        days >= 0,
    ensures
        is_date(days, date_of(days).0, date_of(days).1, date_of(days).2),
    decreases days,
{
    if days == 0 {
        assert(is_date(0, 1970, 1, 1));
        lemma_date_of(0, 1970, 1, 1);
    } else {
        law_every_day_has_a_date(days - 1);
        let (year, month, day) = date_of(days - 1);
        if day < month_len(year, month) {
            lemma_date_of(days, year, month, day + 1);
        } else if month < 12 {
            lemma_date_of(days, year, month + 1, 1);
        } else {
            lemma_month_starts(year);
            lemma_date_of(days, year + 1, 1, 1);
        }
    }
}

/// Printed ASCII characters and blanks.
pub open spec fn plain(s: Seq<u8>) -> bool {
    forall|i: int| 0 <= i < s.len() ==> 32 <= #[trigger] s[i] <= 126
}

proof fn lemma_weekday_plain(k: int)
    ensures
        plain(weekday_name(k)),
        weekday_name(k).len() == 3,
        weekday_name(k)[0] >= 65,
{
    reveal_strlit("Thu");
    reveal_strlit("Fri");
    reveal_strlit("Sat");
    reveal_strlit("Sun");
    reveal_strlit("Mon");
    reveal_strlit("Tue");
    reveal_strlit("Wed");
    assert(is_ascii("Thu") && is_ascii("Fri") && is_ascii("Sat") && is_ascii("Sun") && is_ascii("Mon") && is_ascii("Tue") && is_ascii("Wed"));
}

proof fn lemma_month_plain(month: int)
    ensures
        plain(month_name(month)),
{
    reveal_strlit("Jan");
    reveal_strlit("Feb");
    reveal_strlit("Mar");
    reveal_strlit("Apr");
    reveal_strlit("May");
    reveal_strlit("Jun");
    reveal_strlit("Jul");
    reveal_strlit("Aug");
    reveal_strlit("Sep");
    reveal_strlit("Oct");
    reveal_strlit("Nov");
    reveal_strlit("Dec");
    assert(is_ascii("Jan") && is_ascii("Feb") && is_ascii("Mar") && is_ascii("Apr") && is_ascii("May") && is_ascii("Jun") && is_ascii("Jul") && is_ascii("Aug") && is_ascii("Sep") && is_ascii("Oct") && is_ascii("Nov") && is_ascii("Dec"));
}

proof fn lemma_digits_plain(n: nat, width: nat)
    ensures
        plain(decimal(n)),
        plain(padded(n, width)),
{
    lemma_decimal_digits(n);
    let s = padded(n, width);
    assert forall|i: int| 0 <= i < s.len() implies 32 <= #[trigger] s[i] <= 126 by {
        let zeros = s.len() - decimal(n).len();
        if i >= zeros {
            assert(s[i] == decimal(n)[i - zeros]);
        }
    }
}

proof fn lemma_plain_concat(a: Seq<u8>, b: Seq<u8>)
    requires
        plain(a),
        plain(b),
    ensures
        plain(a + b),
{
}

#[verifier::spinoff_prover]
proof fn lemma_text_plain(weekday: int, year: Seq<u8>, month: int, day: int, second: int)
    requires
        plain(year),
    ensures
        plain(date_text(weekday, year, month, day, second)),
        date_text(weekday, year, month, day, second).len() > 0,
        date_text(weekday, year, month, day, second)[0] >= 65,
        date_text(weekday, year, month, day, second).last() >= 65,
{
    let comma = ", ".spec_bytes();
    let space = " ".spec_bytes();
    let colon = ":".spec_bytes();
    let zone = " GMT".spec_bytes();
    reveal_strlit(", ");
    reveal_strlit(" ");
    reveal_strlit(":");
    reveal_strlit(" GMT");
    assert(is_ascii(", ") && is_ascii(" ") && is_ascii(":") && is_ascii(" GMT"));
    lemma_weekday_plain(weekday);
    lemma_month_plain(month);
    lemma_digits_plain(day as nat, 2);
    lemma_digits_plain((second / 3600) as nat, 2);
    lemma_digits_plain(((second % 3600) / 60) as nat, 2);
    lemma_digits_plain((second % 60) as nat, 2);
    let a = weekday_name(weekday) + comma;
    lemma_plain_concat(weekday_name(weekday), comma);
    let b = a + padded(day as nat, 2);
    lemma_plain_concat(a, padded(day as nat, 2));
    let c = b + space;
    lemma_plain_concat(b, space);
    let d = c + month_name(month);
    lemma_plain_concat(c, month_name(month));
    let e = d + space;
    lemma_plain_concat(d, space);
    let f = e + year;
    lemma_plain_concat(e, year);
    let g = f + space;
    lemma_plain_concat(f, space);
    let h = g + padded((second / 3600) as nat, 2);
    lemma_plain_concat(g, padded((second / 3600) as nat, 2));
    let i = h + colon;
    lemma_plain_concat(h, colon);
    let j = i + padded(((second % 3600) / 60) as nat, 2);
    lemma_plain_concat(i, padded(((second % 3600) / 60) as nat, 2));
    let k = j + colon;
    lemma_plain_concat(j, colon);
    let l = k + padded((second % 60) as nat, 2);
    lemma_plain_concat(k, padded((second % 60) as nat, 2));
    lemma_plain_concat(l, zone);
    assert(date_text(weekday, year, month, day, second) == l + zone);
    assert((l + zone)[0] == weekday_name(weekday)[0]);
    assert((l + zone).last() == zone.last());
}

/// A date is printed ASCII text without blanks around it.
pub proof fn law_date_plain(secs: int)
    ensures
        plain(signed_date(secs)),
        signed_date(secs).len() > 0,
        signed_date(secs)[0] >= 65,
        signed_date(secs).last() >= 65,
{
    let date = date_of(secs / 86400);
    let number = decimal(date.0 as nat);
    reveal_strlit("+");
    assert(is_ascii("+"));
    lemma_digits_plain(date.0 as nat, 4);
    lemma_plain_concat("+".spec_bytes(), number);
    lemma_text_plain(
        (secs / 86400) % 7,
        padded(date.0 as nat, 4),
        date.1,
        date.2,
        secs % 86400,
    );
    lemma_text_plain((secs / 86400) % 7, "+".spec_bytes() + number, date.1, date.2, secs % 86400);
}

/// A number below 100 in two digits.
proof fn lemma_two_digits(n: nat)
    requires
        n < 100,
    ensures
        padded(n, 2) == seq![(48 + n / 10) as u8, (48 + n % 10) as u8],
{
    if n < 10 {
        assert(decimal(n) == seq![(48 + n) as u8]);
        assert(padded(n, 2) =~= seq![(48 + n / 10) as u8, (48 + n % 10) as u8]);
    } else {
        assert(decimal(n / 10) == seq![(48 + n / 10) as u8]);
        assert(decimal(n) =~= seq![(48 + n / 10) as u8, (48 + n % 10) as u8]);
    }
}

/// A number of four digits.
proof fn lemma_four_digits(n: nat)
    requires
        1000 <= n < 10000,
    ensures
        padded(n, 4) == decimal(n),
        decimal(n).len() == 4,
        decimal(n) == decimal(n / 100) + seq![(48 + n / 10 % 10) as u8, (48 + n % 10) as u8],
        decimal(n / 100) == seq![(48 + n / 1000) as u8, (48 + n / 100 % 10) as u8],
{
    assert(n / 10 / 10 == n / 100);
    assert(n / 100 / 10 == n / 1000);
    assert(decimal(n / 1000) == seq![(48 + n / 1000) as u8]);
    assert(decimal(n / 100) == decimal(n / 1000).push((48 + n / 100 % 10) as u8));
    assert(decimal(n / 10) == decimal(n / 100).push((48 + n / 10 % 10) as u8));
    assert(decimal(n) == decimal(n / 10).push((48 + n % 10) as u8));
    assert(decimal(n / 100) =~= seq![(48 + n / 1000) as u8, (48 + n / 100 % 10) as u8]);
    assert(decimal(n) =~= decimal(n / 100) + seq![(48 + n / 10 % 10) as u8, (48 + n % 10) as u8]);
}

proof fn lemma_month_len(month: int)
    ensures
        month_name(month).len() == 3,
{
    reveal_strlit("Jan");
    reveal_strlit("Feb");
    reveal_strlit("Mar");
    reveal_strlit("Apr");
    reveal_strlit("May");
    reveal_strlit("Jun");
    reveal_strlit("Jul");
    reveal_strlit("Aug");
    reveal_strlit("Sep");
    reveal_strlit("Oct");
    reveal_strlit("Nov");
    reveal_strlit("Dec");
    assert(is_ascii("Jan") && is_ascii("Feb") && is_ascii("Mar") && is_ascii("Apr") && is_ascii("May") && is_ascii("Jun") && is_ascii("Jul") && is_ascii("Aug") && is_ascii("Sep") && is_ascii("Oct") && is_ascii("Nov") && is_ascii("Dec"));
}

/// The names of two months differ.
proof fn lemma_months_differ(a: int, b: int)
    requires
        1 <= a <= 12,
        1 <= b <= 12,
        month_name(a) == month_name(b),
    ensures
        a == b,
{
    reveal_strlit("Jan");
    reveal_strlit("Feb");
    reveal_strlit("Mar");
    reveal_strlit("Apr");
    reveal_strlit("May");
    reveal_strlit("Jun");
    reveal_strlit("Jul");
    reveal_strlit("Aug");
    reveal_strlit("Sep");
    reveal_strlit("Oct");
    reveal_strlit("Nov");
    reveal_strlit("Dec");
    assert(is_ascii("Jan") && is_ascii("Feb") && is_ascii("Mar") && is_ascii("Apr") && is_ascii("May") && is_ascii("Jun") && is_ascii("Jul") && is_ascii("Aug") && is_ascii("Sep") && is_ascii("Oct") && is_ascii("Nov") && is_ascii("Dec"));
    let m = month_name(a);
    let n = month_name(b);
    assert(m[0] == n[0] && m[1] == n[1] && m[2] == n[2]);
}

/// A moment before the year 10000: its date has a year of four digits.
proof fn lemma_four_digit_year(secs: int)
    requires
        0 <= secs < 253_402_300_800,
    ensures
        ({
            let date = date_of(secs / 86400);
            &&& is_date(secs / 86400, date.0, date.1, date.2)
            &&& 1970 <= date.0 < 10000
            &&& 1 <= date.1 <= 12
            &&& 1 <= date.2 <= 31
        }),
{
    let days = secs / 86400;
    law_every_day_has_a_date(days);
    let date = date_of(days);
    lemma_within_year(days, date.0, date.1, date.2);
    if date.0 >= 10000 {
        lemma_years_grow(10000, date.0);
        lemma_year_start(10000);
    }
}

/// Where the parts of a date's text stand.
#[verifier::spinoff_prover]
proof fn lemma_date_layout(
    weekday: Seq<u8>,
    day: Seq<u8>,
    month: Seq<u8>,
    year: Seq<u8>,
    hour: Seq<u8>,
    minute: Seq<u8>,
    second: Seq<u8>,
)
    requires
        weekday.len() == 3,
        day.len() == 2,
        month.len() == 3,
        year.len() == 4,
        hour.len() == 2,
        minute.len() == 2,
        second.len() == 2,
    ensures
        ({
            let s = weekday + ", ".spec_bytes() + day + " ".spec_bytes() + month + " ".spec_bytes()
                + year + " ".spec_bytes() + hour + ":".spec_bytes() + minute + ":".spec_bytes()
                + second + " GMT".spec_bytes();
            &&& s.len() == 29
            &&& s.subrange(0, 3) == weekday
            &&& s.subrange(5, 7) == day
            &&& s.subrange(8, 11) == month
            &&& s.subrange(12, 16) == year
            &&& s.subrange(17, 19) == hour
            &&& s.subrange(20, 22) == minute
            &&& s.subrange(23, 25) == second
            &&& s.subrange(3, 5) == seq![44u8, 32u8]
            &&& s[7] == 32 && s[11] == 32 && s[16] == 32
            &&& s[19] == 58 && s[22] == 58
            &&& s.subrange(25, 29) == seq![32u8, 71, 77, 84]
        }),
{
    reveal_strlit(", ");
    reveal_strlit(" ");
    reveal_strlit(":");
    reveal_strlit(" GMT");
    assert(is_ascii(", ") && is_ascii(" ") && is_ascii(":") && is_ascii(" GMT"));
    let s = weekday + ", ".spec_bytes() + day + " ".spec_bytes() + month + " ".spec_bytes() + year
        + " ".spec_bytes() + hour + ":".spec_bytes() + minute + ":".spec_bytes() + second
        + " GMT".spec_bytes();
    assert(s.subrange(0, 3) =~= weekday);
    assert(s.subrange(5, 7) =~= day);
    assert(s.subrange(8, 11) =~= month);
    assert(s.subrange(12, 16) =~= year);
    assert(s.subrange(17, 19) =~= hour);
    assert(s.subrange(20, 22) =~= minute);
    assert(s.subrange(23, 25) =~= second);
    assert(s.subrange(3, 5) =~= seq![44u8, 32u8]);
    assert(s.subrange(25, 29) =~= seq![32u8, 71, 77, 84]);
}

/// A date before the year 10000 has 29 bytes, with its parts in their places: the
/// name of the day of the week, the day, the name of the month, the year, the
/// hour, the minute and the second. Behind the day of the week stand a comma and a
/// space, between the parts of the date and behind them a space, between those of
/// the time a colon, and behind it all a space and `GMT`.
pub proof fn law_date_layout(secs: int)
    requires
        0 <= secs < 253_402_300_800,
    ensures
        ({
            let s = http_date(secs);
            let date = date_of(secs / 86400);
            let second = secs % 86400;
            &&& s.len() == 29
            &&& s.subrange(0, 3) == weekday_name((secs / 86400) % 7)
            &&& s.subrange(5, 7) == padded(date.2 as nat, 2)
            &&& s.subrange(8, 11) == month_name(date.1)
            &&& s.subrange(12, 16) == decimal(date.0 as nat)
            &&& s.subrange(17, 19) == padded((second / 3600) as nat, 2)
            &&& s.subrange(20, 22) == padded(((second % 3600) / 60) as nat, 2)
            &&& s.subrange(23, 25) == padded((second % 60) as nat, 2)
            &&& s.subrange(3, 5) == seq![44u8, 32u8]
            &&& s[7] == 32 && s[11] == 32 && s[16] == 32
            &&& s[19] == 58 && s[22] == 58
            &&& s.subrange(25, 29) == seq![32u8, 71, 77, 84]
        }),
{
    let date = date_of(secs / 86400);
    let second = secs % 86400;
    lemma_four_digit_year(secs);
    lemma_weekday_plain((secs / 86400) % 7);
    lemma_month_len(date.1);
    lemma_four_digits(date.0 as nat);
    lemma_two_digits(date.2 as nat);
    lemma_two_digits((second / 3600) as nat);
    lemma_two_digits(((second % 3600) / 60) as nat);
    lemma_two_digits((second % 60) as nat);
    lemma_date_layout(
        weekday_name((secs / 86400) % 7),
        padded(date.2 as nat, 2),
        month_name(date.1),
        padded(date.0 as nat, 4),
        padded((second / 3600) as nat, 2),
        padded(((second % 3600) / 60) as nat, 2),
        padded((second % 60) as nat, 2),
    );
}

proof fn lemma_two_digits_differ(a: nat, b: nat)
    requires
        a < 100,
        b < 100,
        padded(a, 2) == padded(b, 2),
    ensures
        a == b,
{
    lemma_two_digits(a);
    lemma_two_digits(b);
    let s = padded(a, 2);
    assert(s[0] == (48 + a / 10) as u8 && s[0] == (48 + b / 10) as u8);
    assert(s[1] == (48 + a % 10) as u8 && s[1] == (48 + b % 10) as u8);
    assert(a == a / 10 * 10 + a % 10);
    assert(b == b / 10 * 10 + b % 10);
}

/// Different moments before the year 10000 have different dates.
pub proof fn law_dates_differ(a: int, b: int)
    requires
        0 <= a < 253_402_300_800,
        0 <= b < 253_402_300_800,
        http_date(a) == http_date(b),
    ensures
        a == b,
{
    let p = date_of(a / 86400);
    let q = date_of(b / 86400);
    let s = a % 86400;
    let t = b % 86400;
    law_date_layout(a);
    law_date_layout(b);
    lemma_four_digit_year(a);
    lemma_four_digit_year(b);
    lemma_months_differ(p.1, q.1);
    lemma_two_digits_differ(p.2 as nat, q.2 as nat);
    law_decimal_reads_back(p.0 as nat, 9999);
    law_decimal_reads_back(q.0 as nat, 9999);
    lemma_two_digits_differ((s / 3600) as nat, (t / 3600) as nat);
    lemma_two_digits_differ(((s % 3600) / 60) as nat, ((t % 3600) / 60) as nat);
    lemma_two_digits_differ((s % 60) as nat, (t % 60) as nat);
    assert(a / 86400 == b / 86400);
    lemma_clock(s);
    lemma_clock(t);
}

proof fn lemma_clock(second: int)
    requires
        0 <= second,
    ensures
        second == second / 3600 * 3600 + (second % 3600) / 60 * 60 + second % 60,
{
    let rest = second % 3600;
    assert(second == second / 3600 * 3600 + rest);
    assert(rest == rest / 60 * 60 + rest % 60);
    assert(rest % 60 == second % 60);
}

/// The dates of the days, from the first of January 1970 on. The day behind a day
/// has the next number in the month, unless that was the month's last: then it is
/// the first of the next month, and behind the 31st of December the first of
/// January of the next year. February has 29 days in every fourth year, but not in
/// a hundredth that is not a four hundredth, and otherwise 28; April, June,
/// September and November have 30; the others 31.
pub proof fn law_next_day(days: int)
    requires
        days >= 0,
    ensures
        date_of(0) == (1970int, 1int, 1int),
        ({
            let (year, month, day) = date_of(days);
            let last = if month == 2 {
                if year % 400 == 0 || year % 4 == 0 && year % 100 != 0 {
                    29int
                } else {
                    28int
                }
            } else if month == 4 || month == 6 || month == 9 || month == 11 {
                30int
            } else {
                31int
            };
            &&& 1 <= month <= 12
            &&& 1 <= day <= last
            &&& date_of(days + 1) == (if day < last {
                (year, month, day + 1)
            } else if month < 12 {
                (year, month + 1, 1int)
            } else {
                (year + 1, 1int, 1int)
            })
        }),
{
    assert(is_date(0, 1970, 1, 1));
    lemma_date_of(0, 1970, 1, 1);
    law_every_day_has_a_date(days);
    let (year, month, day) = date_of(days);
    if day < month_len(year, month) {
        lemma_date_of(days + 1, year, month, day + 1);
    } else if month < 12 {
        lemma_date_of(days + 1, year, month + 1, 1);
    } else {
        lemma_month_starts(year);
        lemma_date_of(days + 1, year + 1, 1, 1);
    }
}

/// The names of the days of the week come round every seven days, from the Thursday
/// on which 1970 started; those of the months are the twelve.
pub proof fn law_calendar_names(k: int, month: int)
    requires
        0 <= k < 7,
        1 <= month <= 12,
    ensures
        weekday_name(k) == seq![
            "Thu".spec_bytes(),
            "Fri".spec_bytes(),
            "Sat".spec_bytes(),
            "Sun".spec_bytes(),
            "Mon".spec_bytes(),
            "Tue".spec_bytes(),
            "Wed".spec_bytes(),
        ][k],
        month_name(month) == seq![
            "Jan".spec_bytes(),
            "Feb".spec_bytes(),
            "Mar".spec_bytes(),
            "Apr".spec_bytes(),
            "May".spec_bytes(),
            "Jun".spec_bytes(),
            "Jul".spec_bytes(),
            "Aug".spec_bytes(),
            "Sep".spec_bytes(),
            "Oct".spec_bytes(),
            "Nov".spec_bytes(),
            "Dec".spec_bytes(),
        ][month - 1],
{
}

/// Minutes and seconds do not depend on the day.
proof fn lemma_time_of_day(secs: int)
    ensures
        secs % 86400 % 3600 == secs % 3600,
        secs % 86400 % 60 == secs % 60,
{
}

/// The digits of a date: day, hour, minute and second each have two, of which the
/// first may be zero.
#[verifier::spinoff_prover]
pub proof fn law_date_digits(secs: int)
    requires
        0 <= secs < 253_402_300_800,
    ensures
        ({
            let s = http_date(secs);
            let day = date_of(secs / 86400).2;
            let hour = secs % 86400 / 3600;
            let minute = secs % 3600 / 60;
            let second = secs % 60;
            &&& s[5] == 48 + day / 10 && s[6] == 48 + day % 10
            &&& s[17] == 48 + hour / 10 && s[18] == 48 + hour % 10
            &&& s[20] == 48 + minute / 10 && s[21] == 48 + minute % 10
            &&& s[23] == 48 + second / 10 && s[24] == 48 + second % 10
        }),
{
    let s = http_date(secs);
    let of_day = secs % 86400;
    law_date_layout(secs);
    lemma_four_digit_year(secs);
    lemma_time_of_day(secs);
    lemma_digits_at(s, 5, date_of(secs / 86400).2 as nat);
    lemma_digits_at(s, 17, (of_day / 3600) as nat);
    lemma_digits_at(s, 20, ((of_day % 3600) / 60) as nat);
    lemma_digits_at(s, 23, (of_day % 60) as nat);
}

/// Where the two digits of a number stand.
proof fn lemma_digits_at(s: Seq<u8>, i: int, n: nat)
    requires
        n < 100,
        0 <= i <= s.len() - 2,
        s.subrange(i, i + 2) == padded(n, 2),
    ensures
        s[i] == 48 + n / 10,
        s[i + 1] == 48 + n % 10,
{
    lemma_two_digits(n);
    assert(s[i] == s.subrange(i, i + 2)[0]);
    assert(s[i + 1] == s.subrange(i, i + 2)[1]);
}

/// The two ways to write a date differ only in years of more than four digits,
/// where one of them has a plus sign in front of the year.
pub proof fn law_signed_year(secs: int)
    requires
        secs >= 0,
    ensures
        date_of(secs / 86400).0 < 10000 ==> signed_date(secs) == http_date(secs),
        date_of(secs / 86400).0 >= 10000 ==> http_date(secs).len() > 12 && signed_date(secs)
            == http_date(secs).take(12) + seq![43u8] + http_date(secs).skip(12),
{
    let date = date_of(secs / 86400);
    law_every_day_has_a_date(secs / 86400);
    if date.0 >= 10000 {
        reveal_strlit("+");
        reveal_strlit(", ");
        reveal_strlit(" ");
        assert(is_ascii("+") && is_ascii(", ") && is_ascii(" "));
        assert("+".spec_bytes() =~= seq![43u8]);
        let year = decimal(date.0 as nat);
        lemma_long_year(date.0 as nat);
        let second = secs % 86400;
        let weekday = weekday_name((secs / 86400) % 7);
        let day = padded(date.2 as nat, 2);
        lemma_weekday_plain((secs / 86400) % 7);
        lemma_month_len(date.1);
        lemma_two_digits(date.2 as nat);
        let front = weekday + ", ".spec_bytes() + day + " ".spec_bytes() + month_name(date.1)
            + " ".spec_bytes();
        assert(front.len() == 12);
        let back = " ".spec_bytes() + padded((second / 3600) as nat, 2) + ":".spec_bytes() + padded(
            ((second % 3600) / 60) as nat,
            2,
        ) + ":".spec_bytes() + padded((second % 60) as nat, 2) + " GMT".spec_bytes();
        let plain = http_date(secs);
        let signed = signed_date(secs);
        assert(plain =~= front + year + back);
        assert(signed =~= front + (seq![43u8] + year) + back);
        assert(plain.take(12) =~= front);
        assert(plain.skip(12) =~= year + back);
        assert(signed =~= plain.take(12) + seq![43u8] + plain.skip(12));
    }
}

proof fn lemma_long_year(n: nat)
    requires
        n >= 10000,
    ensures
        decimal(n).len() > 4,
        padded(n, 4) == decimal(n),
    decreases n,
{
    if n >= 100000 {
        lemma_long_year(n / 10);
    } else {
        lemma_four_digits(n / 10);
    }
}

/// A date in a year of more than four digits is written like any other, with all
/// the digits of the year.
pub proof fn law_long_year(secs: int)
    requires
        secs >= 0,
        date_of(secs / 86400).0 >= 10000,
    ensures
        ({
            let date = date_of(secs / 86400);
            let second = secs % 86400;
            http_date(secs) == weekday_name((secs / 86400) % 7) + seq![44u8, 32u8] + padded(
                date.2 as nat,
                2,
            ) + seq![32u8] + month_name(date.1) + seq![32u8] + decimal(date.0 as nat) + seq![32u8]
                + padded((second / 3600) as nat, 2) + seq![58u8] + padded(
                ((second % 3600) / 60) as nat,
                2,
            ) + seq![58u8] + padded((second % 60) as nat, 2) + seq![32u8, 71, 77, 84]
        }),
{
    let date = date_of(secs / 86400);
    lemma_long_year(date.0 as nat);
    reveal_strlit(", ");
    reveal_strlit(" ");
    reveal_strlit(":");
    reveal_strlit(" GMT");
    assert(is_ascii(", ") && is_ascii(" ") && is_ascii(":") && is_ascii(" GMT"));
    assert(", ".spec_bytes() =~= seq![44u8, 32u8]);
    assert(" ".spec_bytes() =~= seq![32u8]);
    assert(":".spec_bytes() =~= seq![58u8]);
    assert(" GMT".spec_bytes() =~= seq![32u8, 71, 77, 84]);
}

/// A number in two digits: its tens and its ones.
pub proof fn law_two_digits(n: nat)
    requires
        n < 100,
    ensures
        padded(n, 2) == seq![(48 + n / 10) as u8, (48 + n % 10) as u8],
{
    lemma_two_digits(n);
}

} // verus!

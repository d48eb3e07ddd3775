//! Calendar dates of the proleptic Gregorian calendar, and RFC 3339 texts.

use std::time::{SystemTime, UNIX_EPOCH};

use vstd::arithmetic::div_mod::lemma_fundamental_div_mod_converse;
use vstd::prelude::*;

use crate::text::{decimal, digit_char, push_decimal};

verus! {

/// Whether `y` is a leap year.
pub open spec fn is_leap(y: int) -> bool {
    y % 4 == 0 && (y % 100 != 0 || y % 400 == 0)
}

/// How many days month `m` of year `y` has.
pub open spec fn month_days(y: int, m: int) -> int {
    if m == 2 {
        if is_leap(y) {
            29
        } else {
            28
        }
    } else if m == 4 || m == 6 || m == 9 || m == 11 {
        30
    } else {
        31
    }
}

/// How many days of year `y` come before month `m`.
pub open spec fn days_before_month(y: int, m: int) -> int
    decreases m,
{
    if m <= 1 {
        0
    } else {
        days_before_month(y, m - 1) + month_days(y, m - 1)
    }
}

/// How many days lie between the first of January of 1970 and that of year `y`.
pub open spec fn days_before_year(y: int) -> int {
    365 * (y - 1970) + ((y - 1) / 4 - (y - 1) / 100 + (y - 1) / 400) - 477
}

/// Whether there is such a date.
pub open spec fn is_date(y: int, m: int, d: int) -> bool {
    1 <= m <= 12 && 1 <= d <= month_days(y, m)
}

/// How many days lie between the first of January of 1970 and the date.
pub open spec fn day_number(y: int, m: int, d: int) -> int {
    days_before_year(y) + days_before_month(y, m) + d - 1
}

/// A year is as long as its months: 365 days, or 366 in a leap year. The days
/// are counted from 1970.
pub proof fn law_year_lengths(y: int)
    ensures
        days_before_year(1970) == 0,
        days_before_year(y + 1) == days_before_year(y) + days_before_month(y, 13),
        days_before_month(y, 13) == if is_leap(y) {
            366int
        } else {
            365int
        },
{
    reveal_with_fuel(days_before_month, 14);
}

/// A day has one date only.
pub proof fn law_dates_differ(y: int, m: int, d: int, y2: int, m2: int, d2: int)
    requires
        is_date(y, m, d),
        is_date(y2, m2, d2),
        day_number(y, m, d) == day_number(y2, m2, d2),
    ensures
        y == y2 && m == m2 && d == d2,
{
    lemma_in_year(y, m, d);
    lemma_in_year(y2, m2, d2);
    if y < y2 {
        lemma_years_ascend(y + 1, y2);
    } else if y2 < y {
        lemma_years_ascend(y2 + 1, y);
    }
    if m < m2 {
        lemma_months_ascend(y, m + 1, m2);
    } else if m2 < m {
        lemma_months_ascend(y, m2 + 1, m);
    }
}

proof fn lemma_months_ascend(y: int, a: int, b: int)
    requires
        1 <= a <= b,
    ensures
        days_before_month(y, a) <= days_before_month(y, b),
    decreases b - a,
{
    if a < b {
        lemma_months_ascend(y, a, b - 1);
    }
}

proof fn lemma_in_year(y: int, m: int, d: int)
    requires
        is_date(y, m, d),
    ensures
        days_before_year(y) <= day_number(y, m, d) < days_before_year(y + 1),
{
    lemma_months_ascend(y, 1, m);
    lemma_months_ascend(y, m + 1, 13);
    law_year_lengths(y);
}

proof fn lemma_years_ascend(a: int, b: int)
    requires
        a <= b,
    ensures
        days_before_year(a) <= days_before_year(b),
    decreases b - a,
{
    if a < b {
        lemma_years_ascend(a, b - 1);
        law_year_lengths(b - 1);
    }
}

/// Divides, rounding down.
fn floor_div(a: i64, b: i64) -> (q: i64)
    requires
        b > 1,
    ensures
        q == a as int / b as int,
        a >= 0 ==> 0 <= q <= a,
        a < 0 ==> a <= q < 0,
{
    if a >= 0 {
        let q: u64 = a as u64 / b as u64;
        proof {
            assert(q <= a as u64) by (nonlinear_arith)
                requires
                    q == a as u64 / b as u64,
                    b > 1,
                    a >= 0,
            ;
        }
        q as i64
    } else {
        let n: u64 = (-(a + 1)) as u64;
        let q: u64 = n / b as u64;
        proof {
            assert(q <= n) by (nonlinear_arith)
                requires
                    q == n / (b as u64),
                    b > 1,
            ;
            let r = n % (b as u64);
            assert(n == b * q + r) by (nonlinear_arith)
                requires
                    q == n / (b as u64),
                    r == n % (b as u64),
                    b > 1,
            ;
            let want = -(q as int) - 1;
            assert(a == b * want + (b - 1 - r)) by (nonlinear_arith)
                requires
                    n == b * q + r,
                    n == -(a + 1),
                    want == -(q as int) - 1,
            ;
            lemma_fundamental_div_mod_converse(a as int, b as int, want, (b - 1 - r) as int);
        }
        -(q as i64) - 1
    }
}

/// The day of a year that begins in March, counted from 0: its month, March
/// being 0, and the day in it, counted from 1.
fn month_of(doy: i64) -> (r: (i64, i64))
    requires
        0 <= doy <= 365,
    ensures
        0 <= r.0 <= 11,
        doy == (153 * r.0 + 2) / 5 + r.1 - 1,
        1 <= r.1,
        r.1 <= march_month_days(r.0 as int),
{
    let mp: i64 = ((5 * doy as u64 + 2) / 153) as i64;
    let start: i64 = ((153 * mp as u64 + 2) / 5) as i64;
    let d: i64 = doy - start + 1;
    proof {
        lemma_month(doy as int, mp as int);
    }
    (mp, d)
}

/// How many days month `mp` has, March being 0; February, 29.
spec fn march_month_days(mp: int) -> int {
    if mp == 11 {
        29
    } else if mp == 1 || mp == 3 || mp == 6 || mp == 8 {
        30
    } else {
        31
    }
}

proof fn lemma_month(doy: int, mp: int)
    requires
        0 <= doy <= 365,
        mp == (5 * doy + 2) / 153,
    ensures
        0 <= mp <= 11,
        (153 * mp + 2) / 5 <= doy,
        doy - (153 * mp + 2) / 5 + 1 <= march_month_days(mp),
{
    assert(0 <= mp <= 11);
    if mp == 0 {
    } else if mp == 1 {
    } else if mp == 2 {
    } else if mp == 3 {
    } else if mp == 4 {
    } else if mp == 5 {
    } else if mp == 6 {
    } else if mp == 7 {
    } else if mp == 8 {
    } else if mp == 9 {
    } else if mp == 10 {
    } else {
        assert(mp == 11);
    }
}

/// A date.
#[derive(Clone, Copy, Debug, PartialEq, Eq)]
pub struct Civil {
    pub year: i64,
    pub month: u32,
    pub day: u32,
}

/// The leap days of the years up to `y`.
spec fn leaps(y: int) -> int {
    y / 4 - y / 100 + y / 400
}

proof fn lemma_leaps(y: int)
    ensures
        leaps(y) - leaps(y - 1) == if is_leap(y) {
            1int
        } else {
            0int
        },
{
}

proof fn lemma_months(y: int, mp: int)
    requires
        0 <= mp <= 11,
    ensures
        mp < 10 ==> days_before_month(y, mp + 3) == (153 * mp + 2) / 5 + 59 + (if is_leap(y) {
            1int
        } else {
            0int
        }),
        mp >= 10 ==> days_before_month(y, mp - 9) == (153 * mp + 2) / 5 - 306,
        mp < 10 ==> month_days(y, mp + 3) == march_month_days(mp),
        mp == 10 ==> month_days(y, 1) == 31,
{
    reveal_with_fuel(days_before_month, 13);
    if mp == 0 {
    } else if mp == 1 {
    } else if mp == 2 {
    } else if mp == 3 {
    } else if mp == 4 {
    } else if mp == 5 {
    } else if mp == 6 {
    } else if mp == 7 {
    } else if mp == 8 {
    } else if mp == 9 {
    } else if mp == 10 {
    } else {
        assert(mp == 11);
    }
}

proof fn lemma_era(era: int, century: int, quad: int, yq: int)
    requires
        0 <= century <= 3,
        0 <= quad <= 24,
        0 <= yq <= 3,
    ensures
        ({
            let yoe = 100 * century + 4 * quad + yq;
            let y = yoe + 400 * era;
            365 * y + leaps(y) == 146097 * era + 36524 * century + 1461 * quad + 365 * yq
        }),
{
    let yoe = 100 * century + 4 * quad + yq;
    let y = yoe + 400 * era;
    assert(y / 4 == 100 * era + 25 * century + quad);
    assert(y / 100 == 4 * era + century);
    assert(y / 400 == era);
}

/// A day within 400 years that begin in March: the year, and the day in it.
struct InEra {
    century: i64,
    quad: i64,
    year: i64,
    day: i64,
}

fn split_era(doe: i64) -> (r: InEra)
    requires
        0 <= doe <= 146_096,
    ensures
        0 <= r.century <= 3,
        0 <= r.quad <= 24,
        0 <= r.year <= 3,
        0 <= r.day <= 365,
        doe == 36_524 * r.century + 1461 * r.quad + 365 * r.year + r.day,
        r.day == 365 ==> r.year == 3 && (r.quad == 24 ==> r.century == 3),
{
    let century: i64 = if doe >= 3 * 36_524 {
        3
    } else if doe >= 2 * 36_524 {
        2
    } else if doe >= 36_524 {
        1
    } else {
        0
    };
    let doc: i64 = doe - century * 36_524;
    let quad: i64 = (doc as u64 / 1461) as i64;
    let doq: i64 = doc - quad * 1461;
    let year: i64 = if doq >= 3 * 365 {
        3
    } else if doq >= 2 * 365 {
        2
    } else if doq >= 365 {
        1
    } else {
        0
    };
    InEra { century, quad, year, day: doq - year * 365 }
}

/// The 29th of February ends a leap year that began in March.
proof fn lemma_leap_end(era: int, century: int, quad: int)
    requires
        0 <= century <= 3,
        0 <= quad <= 24,
        quad == 24 ==> century == 3,
    ensures
        is_leap(100 * century + 4 * quad + 3 + 400 * era + 1),
{
    let y = 100 * century + 4 * quad + 4 + 400 * era;
    assert(y % 4 == 0);
    if quad == 24 {
        assert(y == 400 * (era + 1));
        assert(y % 400 == 0);
    } else {
        assert(y == 100 * (century + 4 * era) + 4 * (quad + 1));
        assert(y % 100 == 4 * (quad + 1));
    }
}

proof fn lemma_date(z: int, y: int, doy: int, mp: int, d: int)
    requires
        365 * y + leaps(y) + doy == z + 719_468,
        0 <= mp <= 11,
        doy == (153 * mp + 2) / 5 + d - 1,
        1 <= d <= march_month_days(mp),
        mp == 11 && d == 29 ==> is_leap(y + 1),
    ensures
        mp < 10 ==> is_date(y, mp + 3, d) && day_number(y, mp + 3, d) == z,
        mp >= 10 ==> is_date(y + 1, mp - 9, d) && day_number(y + 1, mp - 9, d) == z,
{
    lemma_months(y, mp);
    lemma_months(y + 1, mp);
    lemma_leaps(y);
}

/// The date that lies `z` days after the first of January of 1970.
pub fn civil_from_days(z: i64) -> (r: Civil)
    requires
        -0x1000_0000_0000_0000 <= z <= 0x1000_0000_0000_0000,
    ensures
        is_date(r.year as int, r.month as int, r.day as int),
        day_number(r.year as int, r.month as int, r.day as int) == z,
{
    let shifted: i64 = z + 719_468;
    let era: i64 = floor_div(shifted, 146_097);
    let doe: i64 = shifted - era * 146_097;
    let e = split_era(doe);
    let y: i64 = 100 * e.century + 4 * e.quad + e.year + 400 * era;
    let (mp, d) = month_of(e.day);
    proof {
        lemma_era(era as int, e.century as int, e.quad as int, e.year as int);
        if mp == 11 && d == 29 {
            lemma_leap_end(era as int, e.century as int, e.quad as int);
        }
        lemma_date(z as int, y as int, e.day as int, mp as int, d as int);
    }
    if mp < 10 {
        Civil { year: y, month: (mp + 3) as u32, day: d as u32 }
    } else {
        Civil { year: y + 1, month: (mp - 9) as u32, day: d as u32 }
    }
}

/// `s` with zeros before it, to `width` characters.
pub open spec fn padded(s: Seq<char>, width: int) -> Seq<char>
    decreases width - s.len(),
{
    if s.len() >= width {
        s
    } else {
        padded(seq!['0'] + s, width)
    }
}

/// `n` in decimal, with zeros before it to `width` characters; a sign counts.
pub open spec fn padded_number(n: int, width: int) -> Seq<char> {
    if n >= 0 {
        padded(decimal(n as nat), width)
    } else {
        seq!['-'] + padded(decimal((-n) as nat), width - 1)
    }
}

/// The RFC 3339 text of a time in UTC, `secs` seconds and `millis` milliseconds
/// after the beginning of 1970, the date being `y`-`m`-`d`.
pub open spec fn rfc3339_text(y: int, m: int, d: int, secs: int, millis: int) -> Seq<char> {
    let tod = secs % 86_400;
    padded_number(y, 4) + "-"@ + padded_number(m, 2) + "-"@ + padded_number(d, 2) + "T"@
        + padded_number(tod / 3600, 2) + ":"@ + padded_number(tod % 3600 / 60, 2) + ":"@
        + padded_number(tod % 60, 2) + "."@ + padded_number(millis, 3) + "Z"@
}

fn decimal_len(n: u64) -> (r: usize)
    ensures
        r == decimal(n as nat).len(),
        1 <= r <= 20,
{
    let mut left: u64 = n;
    let mut r: usize = 1;
    while left >= 10
        invariant
            r + decimal(left as nat).len() == 1 + decimal(n as nat).len(),
            1 <= r <= 20,
            left as int * ten_to((r - 1) as nat) <= n,
        decreases left,
    {
        proof {
            lemma_ten_step(left as int, (r - 1) as nat, n as int);
            if r == 20 {
                reveal_with_fuel(ten_to, 21);
                assert(left as int * ten_to(19) >= 10 * ten_to(19)) by (nonlinear_arith)
                    requires
                        left >= 10,
                        ten_to(19) >= 0,
                ;
            }
        }
        left = left / 10;
        r += 1;
    }
    r
}

spec fn ten_to(n: nat) -> int
    decreases n,
{
    if n == 0 {
        1
    } else {
        10 * ten_to((n - 1) as nat)
    }
}

proof fn lemma_ten_step(left: int, k: nat, n: int)
    requires
        left >= 0,
        left * ten_to(k) <= n,
    ensures
        (left / 10) * ten_to(k + 1) <= n,
{
    lemma_ten_positive(k);
    assert((left / 10) * (10 * ten_to(k)) <= left * ten_to(k)) by (nonlinear_arith)
        requires
            left >= 0,
            ten_to(k) >= 0,
    ;
}

proof fn lemma_ten_positive(k: nat)
    ensures
        ten_to(k) > 0,
    decreases k,
{
    if k > 0 {
        lemma_ten_positive((k - 1) as nat);
    }
}

/// Zeros before a text are zeros behind what comes before it.
proof fn lemma_padded(s: Seq<char>, width: int)
    ensures
        padded(s, width) == Seq::new(
            (if width > s.len() {
                width - s.len()
            } else {
                0
            }) as nat,
            |i: int| '0',
        ) + s,
    decreases width - s.len(),
{
    if s.len() < width {
        lemma_padded(seq!['0'] + s, width);
    }
    assert(padded(s, width) =~= Seq::new(
        (if width > s.len() {
            width - s.len()
        } else {
            0
        }) as nat,
        |i: int| '0',
    ) + s);
}

/// Appends `n` in decimal, with zeros before it to `width` characters.
pub fn push_padded(out: &mut String, n: i64, width: usize)
    requires
        1 <= width <= 20,
    ensures
        final(out)@ == old(out)@ + padded_number(n as int, width as int),
{
    let ghost base = out@;
    let magnitude: u64 = if n >= 0 {
        n as u64
    } else {
        (-(n + 1)) as u64 + 1
    };
    let mut room: usize = width;
    if n < 0 {
        out.push('-');
        room = width - 1;
    }
    let ghost head = out@;
    let len: usize = decimal_len(magnitude);
    let zeros: usize = if room > len {
        room - len
    } else {
        0
    };
    let mut i: usize = 0;
    assert(out@ =~= head + Seq::new(0nat, |i: int| '0'));
    while i < zeros
        invariant
            i <= zeros,
            out@ == head + Seq::new(i as nat, |i: int| '0'),
        decreases zeros - i,
    {
        out.push('0');
        i += 1;
        assert(out@ =~= head + Seq::new(i as nat, |i: int| '0'));
    }
    push_decimal(out, magnitude);
    proof {
        lemma_padded(decimal(magnitude as nat), room as int);
        assert(out@ =~= base + padded_number(n as int, width as int));
    }
}

/// Whether `s` is the RFC 3339 text of `secs` seconds and `millis` milliseconds since
/// 1970.
pub open spec fn is_rfc3339_of(s: Seq<char>, secs: int, millis: int) -> bool {
    exists|y: int, m: int, d: int|
        is_date(y, m, d) && day_number(y, m, d) == secs / 86_400 && s == #[trigger] rfc3339_text(
            y,
            m,
            d,
            secs,
            millis,
        )
}

/// The RFC 3339 text of a time in UTC, with milliseconds.
pub fn rfc3339_from_unix(secs: i64, millis: u32) -> (r: String)
    ensures
        is_rfc3339_of(r@, secs as int, millis as int),
{
    let days: i64 = floor_div(secs, 86_400);
    assert(-0x1000_0000_0000_0000 <= days <= 0x1000_0000_0000_0000);
    let tod: i64 = (secs as i128 - days as i128 * 86_400) as i64;
    assert(tod == secs as int % 86_400);
    let c = civil_from_days(days);
    let mut out = String::new();
    push_padded(&mut out, c.year, 4);
    assert(out@ =~= padded_number(c.year as int, 4));
    out.push_str("-");
    push_padded(&mut out, c.month as i64, 2);
    out.push_str("-");
    push_padded(&mut out, c.day as i64, 2);
    out.push_str("T");
    push_padded(&mut out, (tod as u64 / 3600) as i64, 2);
    out.push_str(":");
    push_padded(&mut out, (tod as u64 % 3600 / 60) as i64, 2);
    out.push_str(":");
    push_padded(&mut out, (tod as u64 % 60) as i64, 2);
    out.push_str(".");
    push_padded(&mut out, millis as i64, 3);
    out.push_str("Z");
    assert(out@ == rfc3339_text(
        c.year as int,
        c.month as int,
        c.day as int,
        secs as int,
        millis as int,
    ));
    out
}

/// Calls `std::time::SystemTime::now`: the seconds and milliseconds since 1970, or
/// zero where the clock stands before that. Nothing more is promised of it.
#[verifier::external_body]
fn clock() -> (r: (u64, u32))
    ensures
        r.1 < 1000,
{
    let since = SystemTime::now().duration_since(UNIX_EPOCH).unwrap_or_default();
    (since.as_secs(), since.subsec_millis())
}

/// Whether the clock reads `secs` seconds and `millis` milliseconds since 1970.
pub closed spec fn clock_reads(secs: u64, millis: u32) -> bool {
    call_ensures(clock, (), (secs, millis))
}

/// Whether `s` is the RFC 3339 text of the time that the clock reads, up to the last
/// second that an `i64` counts.
pub open spec fn is_time_now(s: Seq<char>) -> bool {
    exists|now: u64, millis: u32|
        #[trigger] clock_reads(now, millis) && millis < 1000 && is_rfc3339_of(
            s,
            if now <= i64::MAX {
                now as int
            } else {
                i64::MAX as int
            },
            millis as int,
        )
}

/// The RFC 3339 text of the present time in UTC, with milliseconds.
pub fn now_rfc3339_utc() -> (r: String)
    ensures
        is_time_now(r@),
{
    let now = clock();
    assert(call_ensures(clock, (), now));
    let (secs, millis) = now;
    assert(clock_reads(secs, millis));
    let secs: i64 = if secs <= 0x7fff_ffff_ffff_ffff {
        secs as i64
    } else {
        0x7fff_ffff_ffff_ffff
    };
    rfc3339_from_unix(secs, millis)
}

/// Whether the text `a` comes before the text `b`, character by character.
pub open spec fn text_before(a: Seq<char>, b: Seq<char>) -> bool
    decreases a.len(),
{
    if b.len() == 0 {
        false
    } else if a.len() == 0 {
        true
    } else if a[0] != b[0] {
        a[0] < b[0]
    } else {
        text_before(a.skip(1), b.skip(1))
    }
}

proof fn lemma_not_both_before(a: Seq<char>, b: Seq<char>)
    ensures
        !(text_before(a, b) && text_before(b, a)),
    decreases a.len(),
{
    if a.len() > 0 && b.len() > 0 && a[0] == b[0] {
        lemma_not_both_before(a.skip(1), b.skip(1));
    }
}

proof fn lemma_before_behind(p: Seq<char>, a: Seq<char>, b: Seq<char>)
    ensures
        text_before(p + a, p + b) == text_before(a, b),
    decreases p.len(),
{
    if p.len() == 0 {
        assert(p + a =~= a);
        assert(p + b =~= b);
    } else {
        lemma_before_behind(p.skip(1), a, b);
        assert((p + a).skip(1) =~= p.skip(1) + a);
        assert((p + b).skip(1) =~= p.skip(1) + b);
    }
}

proof fn lemma_before_extended(a: Seq<char>, b: Seq<char>, x: Seq<char>, y: Seq<char>)
    requires
        a.len() == b.len(),
        text_before(a, b),
    ensures
        text_before(a + x, b + y),
    decreases a.len(),
{
    if a[0] == b[0] {
        lemma_before_extended(a.skip(1), b.skip(1), x, y);
        assert((a + x).skip(1) =~= a.skip(1) + x);
        assert((b + y).skip(1) =~= b.skip(1) + y);
    }
}

/// The last `w` decimal digits of `n`.
spec fn fixed_digits(n: int, w: nat) -> Seq<char>
    decreases w,
{
    if w == 0 {
        seq![]
    } else {
        fixed_digits(n / 10, (w - 1) as nat).push(digit_char(n % 10))
    }
}

proof fn lemma_fixed(n: int, w: nat)
    requires
        w > 0,
        0 <= n < ten_to(w),
    ensures
        padded_number(n, w as int) == fixed_digits(n, w),
        fixed_digits(n, w).len() == w,
    decreases w,
{
    let s = decimal(n as nat);
    lemma_padded(s, w as int);
    if w == 1 {
        assert(ten_to(1) == 10) by {
            reveal_with_fuel(ten_to, 2);
        }
        assert(fixed_digits(n / 10, 0) =~= seq![]);
        assert(padded_number(n, 1) =~= fixed_digits(n, 1));
    } else {
        lemma_fixed(n / 10, (w - 1) as nat);
        lemma_padded(decimal((n / 10) as nat), w - 1);
        assert(padded_number(n, w as int) =~= fixed_digits(n, w));
    }
}

proof fn lemma_digits_ascend(a: int, b: int, w: nat)
    requires
        w > 0,
        0 <= a < b < ten_to(w),
    ensures
        text_before(fixed_digits(a, w), fixed_digits(b, w)),
    decreases w,
{
    let x = seq![digit_char(a % 10)];
    let y = seq![digit_char(b % 10)];
    let p = fixed_digits(a / 10, (w - 1) as nat);
    let q = fixed_digits(b / 10, (w - 1) as nat);
    assert(fixed_digits(a, w) =~= p + x);
    assert(fixed_digits(b, w) =~= q + y);
    if a / 10 < b / 10 {
        if w == 1 {
            reveal_with_fuel(ten_to, 2);
        } else {
            lemma_digits_ascend(a / 10, b / 10, (w - 1) as nat);
            lemma_fixed(a / 10, (w - 1) as nat);
            lemma_fixed(b / 10, (w - 1) as nat);
            lemma_before_extended(p, q, x, y);
        }
    } else {
        lemma_before_behind(p, x, y);
        assert(x[0] < y[0]);
    }
}

/// A field of fixed width decides the order, unless it is the same.
proof fn lemma_field(a: int, b: int, w: nat, x: Seq<char>, y: Seq<char>)
    requires
        w > 0,
        0 <= a < ten_to(w),
        0 <= b < ten_to(w),
        a < b || (a == b && text_before(x, y)),
    ensures
        text_before(padded_number(a, w as int) + x, padded_number(b, w as int) + y),
{
    lemma_fixed(a, w);
    lemma_fixed(b, w);
    if a < b {
        lemma_digits_ascend(a, b, w);
        lemma_before_extended(fixed_digits(a, w), fixed_digits(b, w), x, y);
    } else {
        lemma_before_behind(fixed_digits(a, w), x, y);
    }
}

proof fn lemma_joined_thrice(a: Seq<char>, b: Seq<char>, c: Seq<char>)
    ensures
        a + b + c == a + (b + c),
{
    assert(a + b + c =~= a + (b + c));
}

/// The time of the day in an RFC 3339 text, from the hours on.
spec fn clock_text(tod: int, millis: int) -> Seq<char> {
    padded_number(tod / 3600, 2) + (":"@ + (padded_number(tod % 3600 / 60, 2) + (":"@ + (
    padded_number(tod % 60, 2) + ("."@ + (padded_number(millis, 3) + "Z"@))))))
}

proof fn lemma_text_parts(y: int, m: int, d: int, secs: int, millis: int)
    ensures
        rfc3339_text(y, m, d, secs, millis) == padded_number(y, 4) + ("-"@ + (padded_number(m, 2) + (
        "-"@ + (padded_number(d, 2) + ("T"@ + clock_text(secs % 86_400, millis)))))),
{
    let tod = secs % 86_400;
    let p0 = padded_number(y, 4);
    let p1 = p0 + "-"@;
    let p2 = p1 + padded_number(m, 2);
    let p3 = p2 + "-"@;
    let p4 = p3 + padded_number(d, 2);
    let p5 = p4 + "T"@;
    let p6 = p5 + padded_number(tod / 3600, 2);
    let p7 = p6 + ":"@;
    let p8 = p7 + padded_number(tod % 3600 / 60, 2);
    let p9 = p8 + ":"@;
    let p10 = p9 + padded_number(tod % 60, 2);
    let p11 = p10 + "."@;
    let t12 = padded_number(millis, 3) + "Z"@;
    let t11 = "."@ + t12;
    let t10 = padded_number(tod % 60, 2) + t11;
    let t9 = ":"@ + t10;
    let t8 = padded_number(tod % 3600 / 60, 2) + t9;
    let t7 = ":"@ + t8;
    let t6 = padded_number(tod / 3600, 2) + t7;
    let t5 = "T"@ + t6;
    let t4 = padded_number(d, 2) + t5;
    let t3 = "-"@ + t4;
    let t2 = padded_number(m, 2) + t3;
    lemma_joined_thrice(p11, padded_number(millis, 3), "Z"@);
    lemma_joined_thrice(p10, "."@, t12);
    lemma_joined_thrice(p9, padded_number(tod % 60, 2), t11);
    lemma_joined_thrice(p8, ":"@, t10);
    lemma_joined_thrice(p7, padded_number(tod % 3600 / 60, 2), t9);
    lemma_joined_thrice(p6, ":"@, t8);
    lemma_joined_thrice(p5, padded_number(tod / 3600, 2), t7);
    lemma_joined_thrice(p4, "T"@, t6);
    lemma_joined_thrice(p3, padded_number(d, 2), t5);
    lemma_joined_thrice(p2, "-"@, t4);
    lemma_joined_thrice(p1, padded_number(m, 2), t3);
    lemma_joined_thrice(p0, "-"@, t2);
}

proof fn lemma_clock_ascends(a: int, am: int, b: int, bm: int)
    requires
        0 <= a < 86_400,
        0 <= b < 86_400,
        0 <= am < 1000,
        0 <= bm < 1000,
        a < b || (a == b && am < bm),
    ensures
        text_before(clock_text(a, am), clock_text(b, bm)),
{
    reveal_with_fuel(ten_to, 4);
    let z = "Z"@;
    let f = |n: int| padded_number(n, 3) + z;
    let g = |t: int, n: int| padded_number(t % 60, 2) + ("."@ + f(n));
    let h = |t: int, n: int| padded_number(t % 3600 / 60, 2) + (":"@ + g(t, n));
    if a == b {
        lemma_field(am, bm, 3, z, z);
    }
    if a / 3600 == b / 3600 && a % 3600 / 60 == b % 3600 / 60 {
        lemma_before_behind("."@, f(am), f(bm));
        lemma_field(a % 60, b % 60, 2, "."@ + f(am), "."@ + f(bm));
    }
    if a / 3600 == b / 3600 {
        lemma_before_behind(":"@, g(a, am), g(b, bm));
        lemma_field(a % 3600 / 60, b % 3600 / 60, 2, ":"@ + g(a, am), ":"@ + g(b, bm));
    }
    lemma_before_behind(":"@, h(a, am), h(b, bm));
    lemma_field(a / 3600, b / 3600, 2, ":"@ + h(a, am), ":"@ + h(b, bm));
}

proof fn lemma_date_ascends(y: int, m: int, d: int, y2: int, m2: int, d2: int)
    requires
        is_date(y, m, d),
        is_date(y2, m2, d2),
        day_number(y, m, d) < day_number(y2, m2, d2),
    ensures
        y < y2 || (y == y2 && (m < m2 || (m == m2 && d < d2))),
{
    lemma_in_year(y, m, d);
    lemma_in_year(y2, m2, d2);
    if y2 < y {
        lemma_years_ascend(y2 + 1, y);
    } else if y == y2 && m2 < m {
        lemma_months_ascend(y, m2 + 1, m);
    }
}

/// Whether `y`-`m`-`d` is the date of `secs` seconds since 1970, in a year of four
/// digits, and `millis` are milliseconds.
pub open spec fn is_moment(y: int, m: int, d: int, secs: int, millis: int) -> bool {
    is_date(y, m, d) && day_number(y, m, d) == secs / 86_400 && 0 <= y <= 9999 && 0 <= millis
        < 1000
}

proof fn lemma_moments_ascend(
    y: int,
    m: int,
    d: int,
    secs: int,
    millis: int,
    y2: int,
    m2: int,
    d2: int,
    secs2: int,
    millis2: int,
)
    requires
        is_moment(y, m, d, secs, millis),
        is_moment(y2, m2, d2, secs2, millis2),
        secs * 1000 + millis < secs2 * 1000 + millis2,
    ensures
        text_before(
            rfc3339_text(y, m, d, secs, millis),
            rfc3339_text(y2, m2, d2, secs2, millis2),
        ),
{
    reveal_with_fuel(ten_to, 5);
    let a = clock_text(secs % 86_400, millis);
    let b = clock_text(secs2 % 86_400, millis2);
    if secs / 86_400 < secs2 / 86_400 {
        lemma_date_ascends(y, m, d, y2, m2, d2);
    } else {
        law_dates_differ(y, m, d, y2, m2, d2);
        lemma_clock_ascends(secs % 86_400, millis, secs2 % 86_400, millis2);
    }
    lemma_text_parts(y, m, d, secs, millis);
    lemma_text_parts(y2, m2, d2, secs2, millis2);
    let d1 = "T"@ + a;
    let d3 = "T"@ + b;
    let m1 = padded_number(d, 2) + d1;
    let m3 = padded_number(d2, 2) + d3;
    let y1 = padded_number(m, 2) + ("-"@ + m1);
    let y3 = padded_number(m2, 2) + ("-"@ + m3);
    lemma_before_behind("T"@, a, b);
    if y == y2 && m == m2 {
        lemma_field(d, d2, 2, d1, d3);
        lemma_before_behind("-"@, m1, m3);
    }
    if y == y2 {
        lemma_field(m, m2, 2, "-"@ + m1, "-"@ + m3);
        lemma_before_behind("-"@, y1, y3);
    }
    lemma_field(y, y2, 4, "-"@ + y1, "-"@ + y3);
}

/// RFC 3339 texts sort as the times that they write, in years of four digits.
pub proof fn law_rfc3339_sorts_by_time(
    y: int,
    m: int,
    d: int,
    secs: int,
    millis: int,
    y2: int,
    m2: int,
    d2: int,
    secs2: int,
    millis2: int,
)
    requires
        is_moment(y, m, d, secs, millis),
        is_moment(y2, m2, d2, secs2, millis2),
    ensures
        text_before(
            rfc3339_text(y, m, d, secs, millis),
            rfc3339_text(y2, m2, d2, secs2, millis2),
        ) == (secs * 1000 + millis < secs2 * 1000 + millis2),
{
    let a = rfc3339_text(y, m, d, secs, millis);
    let b = rfc3339_text(y2, m2, d2, secs2, millis2);
    let t = secs * 1000 + millis;
    let t2 = secs2 * 1000 + millis2;
    if t < t2 {
        lemma_moments_ascend(y, m, d, secs, millis, y2, m2, d2, secs2, millis2);
    } else if t2 < t {
        lemma_moments_ascend(y2, m2, d2, secs2, millis2, y, m, d, secs, millis);
        lemma_not_both_before(a, b);
    } else {
        law_dates_differ(y, m, d, y2, m2, d2);
        lemma_not_both_before(a, b);
    }
}

} // verus!

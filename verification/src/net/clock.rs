//! The clock on the wall, and the calendar.

use crate::number::{law_numbers_are_written_plainly, push_two_digits, two_digits};
use crate::text::{chars_of, is_space, lemma_nothing_to_trim, trim, trimmed};
use vstd::arithmetic::div_mod::{lemma_fundamental_div_mod, lemma_fundamental_div_mod_converse};
use vstd::prelude::*;

verus! {

/// Whether a year has a leap day.
pub open spec fn is_leap(y: int) -> bool {
    y % 4 == 0 && (y % 100 != 0 || y % 400 == 0)
}

/// The days of a month.
pub open spec fn month_days(y: int, m: int) -> int {
    if m == 2 {
        if is_leap(y) {
            29
        } else {
            28
        }
    } else if m == 4 || m == 6 || m == 9 || m == 11 {
        30
    } else {
        31
    }
}

/// The days of a year before a month.
pub open spec fn days_before_month(y: int, m: int) -> int
    decreases m,
{
    if m <= 1 {
        0
    } else {
        days_before_month(y, m - 1) + month_days(y, m - 1)
    }
}

/// The leap days up to the end of a year.
pub open spec fn leap_days(y: int) -> int {
    y / 4 - y / 100 + y / 400
}

/// The days from the beginning of 1970 to the beginning of a year.
pub open spec fn days_before_year(y: int) -> int {
    365 * (y - 1970) + leap_days(y - 1) - leap_days(1969)
}

/// The number of a day, the first of January 1970 being zero.
pub open spec fn day_number(y: int, m: int, d: int) -> int {
    days_before_year(y) + days_before_month(y, m) + d - 1
}

/// Whether there is such a day.
pub open spec fn is_date(y: int, m: int, d: int) -> bool {
    1 <= m <= 12 && 1 <= d <= month_days(y, m)
}

/// Each year begins as many days after the one before as that one has.
pub proof fn law_years_follow_each_other(y: int)
    ensures
        days_before_year(1970) == 0,
        days_before_year(y + 1) == days_before_year(y) + (if is_leap(y) {
            366int
        } else {
            365
        }),
        days_before_month(y, 12) + 31 == (if is_leap(y) {
            366int
        } else {
            365
        }),
{
    lemma_leap_step(y);
    lemma_months(y);
}

proof fn lemma_step(y: int, n: int)
    requires
        n > 1,
    ensures
        y / n == (y - 1) / n + (if y % n == 0 {
            1int
        } else {
            0
        }),
{
    let q = y / n;
    let r = y % n;
    lemma_fundamental_div_mod(y, n);
    assert(y == q * n + r) by (nonlinear_arith)
        requires
            y == n * q + r,
    ;
    if r == 0 {
        assert(y - 1 == (q - 1) * n + (n - 1)) by (nonlinear_arith)
            requires
                y == q * n,
        ;
        lemma_fundamental_div_mod_converse(y - 1, n, q - 1, n - 1);
    } else {
        lemma_fundamental_div_mod_converse(y - 1, n, q, r - 1);
    }
}

proof fn lemma_leap_step(y: int)
    ensures
        leap_days(y) == leap_days(y - 1) + (if is_leap(y) {
            1int
        } else {
            0
        }),
{
    lemma_step(y, 4);
    lemma_step(y, 100);
    lemma_step(y, 400);
    assert(y % 100 == 0 ==> y % 4 == 0);
    assert(y % 400 == 0 ==> y % 100 == 0);
}

proof fn lemma_months(y: int)
    ensures
        ({
            let l = if is_leap(y) {
                1int
            } else {
                0
            };
            &&& days_before_month(y, 1) == 0
            &&& days_before_month(y, 2) == 31
            &&& days_before_month(y, 3) == 59 + l
            &&& days_before_month(y, 4) == 90 + l
            &&& days_before_month(y, 5) == 120 + l
            &&& days_before_month(y, 6) == 151 + l
            &&& days_before_month(y, 7) == 181 + l
            &&& days_before_month(y, 8) == 212 + l
            &&& days_before_month(y, 9) == 243 + l
            &&& days_before_month(y, 10) == 273 + l
            &&& days_before_month(y, 11) == 304 + l
            &&& days_before_month(y, 12) == 334 + l
        }),
{
    reveal_with_fuel(days_before_month, 13);
}

spec fn to_march(y: int) -> int {
    365 * y + y / 4 - y / 100
}

proof fn lemma_year_of_era(doe: int, yoe: int)
    requires
        0 <= doe <= 146096,
        yoe == (doe - doe / 1460 + doe / 36524 - doe / 146096) / 365,
    ensures
        0 <= yoe <= 399,
        0 <= doe - to_march(yoe) <= 365,
        doe - to_march(yoe) == 365 ==> is_leap(yoe + 1),
{
}

proof fn lemma_month_of_year(doy: int, mp: int)
    requires
        0 <= doy <= 365,
        mp == (5 * doy + 2) / 153,
    ensures
        0 <= mp <= 11,
        (153 * mp + 2) / 5 <= doy,
        mp < 11 ==> doy < (153 * (mp + 1) + 2) / 5,
{
}

proof fn lemma_civil(z: int, era: int, doe: int, yoe: int, doy: int, mp: int, y: int, m: int, d: int)
    requires
        z + 719_468 == era * 146_097 + doe,
        0 <= doe <= 146_096,
        0 <= yoe <= 399,
        doy == doe - to_march(yoe),
        0 <= doy <= 365,
        doy == 365 ==> is_leap(yoe + 1),
        mp == (5 * doy + 2) / 153,
        d == doy - (153 * mp + 2) / 5 + 1,
        m == (if mp < 10 {
            mp + 3
        } else {
            mp - 9
        }),
        y == yoe + era * 400 + (if m <= 2 {
            1int
        } else {
            0
        }),
    ensures
        is_date(y, m, d),
        day_number(y, m, d) == z,
{
    let march = yoe + era * 400;
    lemma_month_of_year(doy, mp);
    lemma_months(y);
    lemma_leap_step(march);
    assert(march / 4 == yoe / 4 + era * 100);
    assert(march / 100 == yoe / 100 + era * 4);
    assert(march / 400 == era);
    assert(leap_days(1969) == 477);
    assert(is_leap(march + 1) == is_leap(yoe + 1));
    assert(z == 365 * march + leap_days(march) + doy - 719_468);
    if m <= 2 {
        assert(y - 1 == march);
        assert(mp == 10 || mp == 11);
    } else {
        assert(y == march);
        assert(mp == 0 || mp == 1 || mp == 2 || mp == 3 || mp == 4 || mp == 5 || mp == 6 || mp == 7
            || mp == 8 || mp == 9);
    }
}

/// A division that rounds down, and what is left over.
fn divided(x: i64, n: i64) -> (r: (i64, i64))
    requires
        n > 1,
    ensures
        r.0 == x as int / n as int,
        r.1 == x as int % n as int,
        x == r.0 * n + r.1,
        0 <= r.1 < n,
{
    if x >= 0 {
        proof {
            lemma_fundamental_div_mod(x as int, n as int);
            let q = x as int / n as int;
            assert(n * q == q * n) by (nonlinear_arith);
        }
        (x / n, x % n)
    } else {
        let back: i64 = -(x + 1);
        let k: i64 = back / n;
        let q: i64 = -k - 1;
        proof {
            lemma_fundamental_div_mod(back as int, n as int);
            let m = back as int % n as int;
            assert(back == n * k + m);
            assert(q * n == -(n * k) - n) by (nonlinear_arith)
                requires
                    q == -k - 1,
            ;
            assert(k <= back) by (nonlinear_arith)
                requires
                    back == n * k + m,
                    0 <= m,
                    n > 1,
                    k >= 0,
            ;
            lemma_fundamental_div_mod_converse(x as int, n as int, q as int, n - 1 - m);
        }
        let r: i64 = n - 1 - back % n;
        (q, r)
    }
}

/// Days since the first of January 1970 to a calendar date: the one day that has
/// this number.
pub fn civil_from_days(days: i64) -> (r: (i64, i64, i64))
    requires
        days <= i64::MAX - 719_468,
    ensures
        is_date(r.0 as int, r.1 as int, r.2 as int),
        day_number(r.0 as int, r.1 as int, r.2 as int) == days,
{
    let z: i64 = days + 719_468;
    let (era, doe) = divided(z, 146_097);
    let yoe: i64 = (doe - doe / 1460 + doe / 36524 - doe / 146_096) / 365;
    proof {
        lemma_year_of_era(doe as int, yoe as int);
    }
    let doy: i64 = doe - (365 * yoe + yoe / 4 - yoe / 100);
    let mp: i64 = (5 * doy + 2) / 153;
    proof {
        lemma_month_of_year(doy as int, mp as int);
    }
    let d: i64 = doy - (153 * mp + 2) / 5 + 1;
    let m: i64 = if mp < 10 {
        mp + 3
    } else {
        mp - 9
    };
    let march: i64 = yoe + era * 400;
    let y: i64 = if m <= 2 {
        march + 1
    } else {
        march
    };
    proof {
        lemma_civil(
            days as int,
            era as int,
            doe as int,
            yoe as int,
            doy as int,
            mp as int,
            y as int,
            m as int,
            d as int,
        );
    }
    (y, m, d)
}

/// No two dates have the same number.
pub proof fn law_a_day_has_one_date(y: int, m: int, d: int, y2: int, m2: int, d2: int)
    requires
        is_date(y, m, d),
        is_date(y2, m2, d2),
        day_number(y, m, d) == day_number(y2, m2, d2),
    ensures
        y == y2 && m == m2 && d == d2,
{
    lemma_months(y);
    lemma_months(y2);
    lemma_within_year(y, m, d);
    lemma_within_year(y2, m2, d2);
    if y < y2 {
        lemma_years_grow(y + 1, y2);
    } else if y2 < y {
        lemma_years_grow(y2 + 1, y);
    }
}

proof fn lemma_within_year(y: int, m: int, d: int)
    requires
        is_date(y, m, d),
    ensures
        days_before_year(y) <= day_number(y, m, d) < days_before_year(y + 1),
{
    lemma_months(y);
    law_years_follow_each_other(y);
    assert(m == 1 || m == 2 || m == 3 || m == 4 || m == 5 || m == 6 || m == 7 || m == 8 || m == 9
        || m == 10 || m == 11 || m == 12);
}

proof fn lemma_years_grow(y: int, y2: int)
    requires
        y <= y2,
    ensures
        days_before_year(y) <= days_before_year(y2),
    decreases y2 - y,
{
    if y < y2 {
        lemma_years_grow(y, y2 - 1);
        law_years_follow_each_other(y2 - 1);
    }
}

// ------------------------------------------------------------- the wall

/// Two characters as a number, with a sign allowed in place of the first digit;
/// anything else is zero.
pub open spec fn two_place(a: char, b: char) -> int {
    if !('0' <= b <= '9') {
        0
    } else if a == '-' {
        -(b as int - '0' as int)
    } else if a == '+' {
        b as int - '0' as int
    } else if '0' <= a <= '9' {
        (a as int - '0' as int) * 10 + (b as int - '0' as int)
    } else {
        0
    }
}

/// How far the clock on the wall is ahead, in seconds, from the system's own words
/// for it: a sign, two digits of hours, two of minutes. Zero where it says
/// nothing of the kind.
pub open spec fn offset_in(said: Seq<char>) -> int {
    let t = trimmed(said);
    if t.len() < 5 {
        0
    } else {
        let size = two_place(t[1], t[2]) * 3600 + two_place(t[3], t[4]) * 60;
        if t[0] == '-' {
            -size
        } else {
            size
        }
    }
}

fn two_place_of(a: char, b: char) -> (n: i64)
    ensures
        n == two_place(a, b),
        -9 <= n <= 99,
{
    if !(b >= '0' && b <= '9') {
        return 0;
    }
    let u: i64 = b as i64 - '0' as i64;
    if a == '-' {
        -u
    } else if a == '+' {
        u
    } else if a >= '0' && a <= '9' {
        (a as i64 - '0' as i64) * 10 + u
    } else {
        0
    }
}

/// How far the clock on the wall is ahead, in seconds.
pub fn tz_offset_seconds(said: &str) -> (n: i64)
    ensures
        n == offset_in(said@),
        -362_340 <= n <= 362_340,
{
    let c: Vec<char> = chars_of(said);
    let t: &[char] = trim(c.as_slice());
    if t.len() < 5 {
        return 0;
    }
    let size: i64 = two_place_of(t[1], t[2]) * 3600 + two_place_of(t[3], t[4]) * 60;
    if t[0] == '-' {
        -size
    } else {
        size
    }
}

/// A moment as it is written down: year, month and day, hours and minutes, two
/// digits each.
pub open spec fn stamp(y: int, m: int, d: int, seconds: int) -> Seq<char> {
    two_digits(y % 100) + "-"@ + two_digits(m) + "-"@ + two_digits(d) + " "@ + two_digits(
        seconds / 3600,
    ) + ":"@ + two_digits(seconds % 3600 / 60)
}

/// Whether a text is a moment as it is written down, by seconds since the
/// beginning of 1970.
pub open spec fn stamps(secs: int, s: Seq<char>) -> bool {
    exists|y: int, m: int, d: int|
        is_date(y, m, d) && #[trigger] day_number(y, m, d) == secs / 86_400 && s == stamp(
            y,
            m,
            d,
            secs % 86_400,
        )
}

/// The clock on the wall: seconds since the beginning of 1970, and how far it is
/// ahead.
pub fn timestamp(utc: i64, offset: i64) -> (s: String)
    requires
        0 <= utc,
        -362_340 <= offset <= 362_340,
        utc + offset <= i64::MAX,
    ensures
        stamps(utc + offset, s@),
{
    let secs: i64 = utc + offset;
    let (days, rem) = divided(secs, 86_400);
    let (y, m, d) = civil_from_days(days);
    proof {
        lemma_within_year(y as int, m as int, d as int);
        law_years_follow_each_other(1969);
        if y < 1969 {
            lemma_years_grow(y + 1, 1969);
        }
    }
    let mut s = String::new();
    push_two_digits(&mut s, (y % 100) as u64);
    s.append("-");
    push_two_digits(&mut s, m as u64);
    s.append("-");
    push_two_digits(&mut s, d as u64);
    s.append(" ");
    push_two_digits(&mut s, (rem / 3600) as u64);
    s.append(":");
    push_two_digits(&mut s, (rem % 3600 / 60) as u64);
    assert(s@ =~= stamp(y as int, m as int, d as int, rem as int));
    assert(day_number(y as int, m as int, d as int) == secs as int / 86_400);
    s
}

/// An offset is read as it is said: a sign, two digits of hours and two of minutes.
pub proof fn law_an_offset_means_what_it_says(sign: char, hours: int, minutes: int, rest: Seq<char>)
    requires
        sign == '+' || sign == '-',
        0 <= hours < 100,
        0 <= minutes < 100,
        rest.len() > 0 ==> !is_space(rest.last()),
    ensures
        offset_in(seq![sign] + two_digits(hours) + two_digits(minutes) + rest) == (if sign == '-' {
            -(hours * 3600 + minutes * 60)
        } else {
            hours * 3600 + minutes * 60
        }),
{
    law_numbers_are_written_plainly(hours);
    law_numbers_are_written_plainly(minutes);
    let t = seq![sign] + two_digits(hours) + two_digits(minutes) + rest;
    assert(t[0] == sign);
    assert(t[1] == two_digits(hours)[0] && t[2] == two_digits(hours)[1]);
    assert(t[3] == two_digits(minutes)[0] && t[4] == two_digits(minutes)[1]);
    if rest.len() == 0 {
        assert(t.last() == two_digits(minutes)[1]);
    } else {
        assert(t.last() == rest.last());
    }
    assert(!is_space(t[0]) && !is_space(t.last()));
    lemma_nothing_to_trim(t);
}

/// A moment is written as year, month and day, then hour and minute, each as two digits
/// that can be read back.
pub proof fn law_a_moment_is_written_so_that_it_can_be_read(
    y: int,
    m: int,
    d: int,
    seconds: int,
)
    requires
        0 <= y,
        is_date(y, m, d),
        0 <= seconds < 86_400,
    ensures
        ({
            let s = stamp(y, m, d, seconds);
            let two = |i: int| (s[i] as int - 48) * 10 + (s[i + 1] as int - 48);
            &&& s.len() == 14
            &&& two(0) == y % 100 && two(3) == m && two(6) == d
            &&& 3600 * two(9) + 60 * two(12) <= seconds < 3600 * two(9) + 60 * two(12) + 60
            &&& two(12) < 60
            &&& s[2] == '-' && s[5] == '-' && s[8] == ' ' && s[11] == ':'
        }),
{
    let h = seconds / 3600;
    let n = seconds % 3600 / 60;
    law_numbers_are_written_plainly(y % 100);
    law_numbers_are_written_plainly(m);
    law_numbers_are_written_plainly(d);
    law_numbers_are_written_plainly(h);
    law_numbers_are_written_plainly(n);
    reveal_strlit("-");
    reveal_strlit(" ");
    reveal_strlit(":");
    let s = stamp(y, m, d, seconds);
    assert(s[0] == two_digits(y % 100)[0] && s[1] == two_digits(y % 100)[1]);
    assert(s[3] == two_digits(m)[0] && s[4] == two_digits(m)[1]);
    assert(s[6] == two_digits(d)[0] && s[7] == two_digits(d)[1]);
    assert(s[9] == two_digits(h)[0] && s[10] == two_digits(h)[1]);
    assert(s[12] == two_digits(n)[0] && s[13] == two_digits(n)[1]);
}

/// The time of day that is written is the one that the clock shows, whatever the day.
pub proof fn law_the_time_of_day_is_the_clocks(secs: int, s: Seq<char>)
    requires
        stamps(secs, s),
        secs >= 0,
    ensures
        s.len() == 14,
        (s[9] as int - 48) * 10 + (s[10] as int - 48) == secs / 3600 % 24,
        (s[12] as int - 48) * 10 + (s[13] as int - 48) == secs / 60 % 60,
{
    let (y, m, d) = choose|y: int, m: int, d: int|
        is_date(y, m, d) && #[trigger] day_number(y, m, d) == secs / 86_400 && s == stamp(
            y,
            m,
            d,
            secs % 86_400,
        );
    let h = secs % 86_400 / 3600;
    let n = secs % 86_400 % 3600 / 60;
    law_numbers_are_written_plainly(y % 100);
    law_numbers_are_written_plainly(m);
    law_numbers_are_written_plainly(d);
    law_numbers_are_written_plainly(h);
    law_numbers_are_written_plainly(n);
    reveal_strlit("-");
    reveal_strlit(" ");
    reveal_strlit(":");
    assert(s[9] == two_digits(h)[0] && s[10] == two_digits(h)[1]);
    assert(s[12] == two_digits(n)[0] && s[13] == two_digits(n)[1]);
    assert(h == secs / 3600 % 24 && n == secs / 60 % 60);
}

} // verus!

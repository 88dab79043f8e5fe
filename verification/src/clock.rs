//! Dates, timestamps and identifiers that are made from the clock.

use vstd::arithmetic::div_mod::{
    lemma_add_mod_noop, lemma_fundamental_div_mod, lemma_fundamental_div_mod_converse,
    lemma_hoist_over_denominator, lemma_mod_multiples_basic, lemma_mod_multiples_vanish,
};
use vstd::prelude::*;

use crate::number::{decimal, digits, u64_padded, zero_padded};
use crate::outside::unix_now;
use crate::text::{concat2, concat_strs, concat_texts, law_concat_pieces};

verus! {

// --- the calendar ------------------------------------------------------------

/// Whether a year of the Gregorian calendar has a 29th of February.
pub open spec fn is_leap(y: int) -> bool {
    y % 4 == 0 && (y % 100 != 0 || y % 400 == 0)
}

/// How many leap years there are from year 1 up to and with `y`.
pub open spec fn leaps_upto(y: int) -> int {
    y / 4 - y / 100 + y / 400
}

/// The days of a month.
pub open spec fn days_in_month(y: int, m: int) -> int {
    if m == 2 {
        if is_leap(y) {
            29
        } else {
            28
        }
    } else if m == 4 || m == 6 || m == 9 || m == 11 {
        30
    } else {
        31
    }
}

/// The days of a year that come before the first of month `m`.
pub open spec fn days_before_month(y: int, m: int) -> int
    decreases m,
{
    if m <= 1 {
        0
    } else {
        days_before_month(y, m - 1) + days_in_month(y, m - 1)
    }
}

/// The days from the first of January 1970 to the first of January `y`.
pub open spec fn days_before_year(y: int) -> int {
    365 * (y - 1970) + leaps_upto(y - 1) - leaps_upto(1969)
}

/// Whether there is such a date.
pub open spec fn is_date(y: int, m: int, d: int) -> bool {
    1 <= m <= 12 && 1 <= d <= days_in_month(y, m)
}

/// The days from the first of January 1970 to a date.
pub open spec fn day_number(y: int, m: int, d: int) -> int {
    days_before_year(y) + days_before_month(y, m) + d - 1
}

/// The lengths of the months, added up.
proof fn lemma_months(y: int)
    ensures
        days_before_month(y, 1) == 0,
        days_before_month(y, 2) == 31,
        days_before_month(y, 3) == 59 + (if is_leap(y) { 1int } else { 0 }),
        days_before_month(y, 4) == 90 + (if is_leap(y) { 1int } else { 0 }),
        days_before_month(y, 5) == 120 + (if is_leap(y) { 1int } else { 0 }),
        days_before_month(y, 6) == 151 + (if is_leap(y) { 1int } else { 0 }),
        days_before_month(y, 7) == 181 + (if is_leap(y) { 1int } else { 0 }),
        days_before_month(y, 8) == 212 + (if is_leap(y) { 1int } else { 0 }),
        days_before_month(y, 9) == 243 + (if is_leap(y) { 1int } else { 0 }),
        days_before_month(y, 10) == 273 + (if is_leap(y) { 1int } else { 0 }),
        days_before_month(y, 11) == 304 + (if is_leap(y) { 1int } else { 0 }),
        days_before_month(y, 12) == 334 + (if is_leap(y) { 1int } else { 0 }),
{
    reveal_with_fuel(days_before_month, 13);
}

/// A quotient goes up by one at each multiple of the divisor.
proof fn lemma_quotient_step(y: int, d: int)
    requires
        d > 1,
    ensures
        y / d - (y - 1) / d == (if y % d == 0 { 1int } else { 0 }),
{
    let q = y / d;
    let r = y % d;
    lemma_fundamental_div_mod(y, d);
    if r == 0 {
        assert(y - 1 == (q - 1) * d + (d - 1)) by (nonlinear_arith)
            requires
                y == d * q,
        ;
        lemma_fundamental_div_mod_converse(y - 1, d, q - 1, d - 1);
    } else {
        assert(y - 1 == q * d + (r - 1)) by (nonlinear_arith)
            requires
                y == d * q + r,
        ;
        lemma_fundamental_div_mod_converse(y - 1, d, q, r - 1);
    }
}

/// The leap years go up by one in each leap year.
proof fn lemma_leaps_step(y: int)
    ensures
        leaps_upto(y) - leaps_upto(y - 1) == (if is_leap(y) { 1int } else { 0 }),
{
    lemma_quotient_step(y, 4);
    lemma_quotient_step(y, 100);
    lemma_quotient_step(y, 400);
    if y % 400 == 0 {
        lemma_fundamental_div_mod(y, 400);
        lemma_mod_multiples_basic(4 * (y / 400), 100);
    }
    if y % 100 == 0 {
        lemma_fundamental_div_mod(y, 100);
        lemma_mod_multiples_basic(25 * (y / 100), 4);
    }
}

/// A later month starts later.
proof fn lemma_month_order(y: int, a: int, b: int)
    requires
        1 <= a < b <= 12,
    ensures
        days_before_month(y, a) + days_in_month(y, a) <= days_before_month(y, b),
{
    lemma_months(y);
}

/// A later year starts later.
proof fn lemma_year_order(a: int, b: int)
    requires
        a < b,
    ensures
        days_before_year(a) + 365 + (if is_leap(a) { 1int } else { 0 }) <= days_before_year(b),
    decreases b - a,
{
    lemma_leaps_step(b - 1);
    if a < b - 1 {
        lemma_year_order(a, b - 1);
    }
}

/// Two dates with the same day number are the same date.
pub proof fn law_dates_distinct(y: int, m: int, d: int, y2: int, m2: int, d2: int)
    requires
        is_date(y, m, d),
        is_date(y2, m2, d2),
        day_number(y, m, d) == day_number(y2, m2, d2),
    ensures
        y == y2 && m == m2 && d == d2,
{
    lemma_months(y);
    lemma_months(y2);
    if y < y2 {
        lemma_year_order(y, y2);
    } else if y2 < y {
        lemma_year_order(y2, y);
    } else if m < m2 {
        lemma_month_order(y, m, m2);
    } else if m2 < m {
        lemma_month_order(y, m2, m);
    }
}

/// The year of an era of 400 years, counted from the first of March, in which a
/// day of the era lies, and the day of that year.
#[verifier::spinoff_prover]
proof fn lemma_year_of_era(doe: int)
    requires
        0 <= doe <= 146_096,
    ensures
        ({
            let yoe = (doe - doe / 1460 + doe / 36524 - doe / 146_096) / 365;
            let doy = doe - (365 * yoe + yoe / 4 - yoe / 100);
            &&& 0 <= yoe <= 399
            &&& 0 <= doy <= 365
            &&& doy == 365 ==> is_leap(yoe + 1)
        }),
{
    if doe < 146_096 {
        let c = doe / 36524;
        let r = doe % 36524;
        let q = r / 1461;
        let s = r % 1461;
        let e = (24 * c + q + s) / 1460;
        assert(doe == 36524 * c + 1461 * q + s);
        assert(0 <= c <= 3 && 0 <= q <= 24 && 0 <= s <= 1460);
        assert(doe / 1460 == 25 * c + q + e);
        assert(e == 0 || e == 1);
        let k = (s - e) / 365;
        assert(doe - doe / 1460 + c == 36500 * c + 1460 * q + (s - e));
        let yoe = (doe - doe / 1460 + doe / 36524 - doe / 146_096) / 365;
        assert(doe / 146_096 == 0);
        assert(0 <= s - e);
        assert(0 <= k <= 3);
        assert(yoe == 100 * c + 4 * q + k);
        assert(yoe / 4 == 25 * c + q);
        assert(yoe / 100 == c);
        let doy = doe - (365 * yoe + yoe / 4 - yoe / 100);
        assert(doy == s - 365 * k);
    }
}

/// The month, counted from March, and the day of the month of a day of the year.
#[verifier::spinoff_prover]
proof fn lemma_month_of_year(doy: int)
    requires
        0 <= doy <= 365,
    ensures
        ({
            let mp = (5 * doy + 2) / 153;
            let d = doy - (153 * mp + 2) / 5 + 1;
            &&& 0 <= mp <= 11
            &&& 1 <= d <= 31
            &&& mp == 0 ==> d == doy + 1
            &&& mp == 1 ==> d == doy - 30 && d <= 30
            &&& mp == 2 ==> d == doy - 60
            &&& mp == 3 ==> d == doy - 91 && d <= 30
            &&& mp == 4 ==> d == doy - 121
            &&& mp == 5 ==> d == doy - 152
            &&& mp == 6 ==> d == doy - 183 && d <= 30
            &&& mp == 7 ==> d == doy - 213
            &&& mp == 8 ==> d == doy - 244 && d <= 30
            &&& mp == 9 ==> d == doy - 274
            &&& mp == 10 ==> d == doy - 305
            &&& mp == 11 ==> d == doy - 336 && d <= 29
        }),
{
}

/// The calendar repeats after 400 years.
proof fn lemma_eras(era: int, yoe: int)
    requires
        0 <= yoe <= 399,
    ensures
        leaps_upto(yoe + 400 * era) == yoe / 4 - yoe / 100 + 97 * era,
        is_leap(yoe + 1 + 400 * era) == is_leap(yoe + 1),
{
    lemma_hoist_over_denominator(yoe, 100 * era, 4);
    lemma_hoist_over_denominator(yoe, 4 * era, 100);
    lemma_hoist_over_denominator(yoe, era, 400);
    lemma_mod_multiples_vanish(100 * era, yoe + 1, 4);
    lemma_mod_multiples_vanish(4 * era, yoe + 1, 100);
    lemma_mod_multiples_vanish(era, yoe + 1, 400);
}

/// A day of a year that is counted from March has a date in the calendar.
proof fn lemma_date(y: int, doy: int)
    requires
        0 <= doy <= 365,
        doy == 365 ==> is_leap(y + 1),
    ensures
        ({
            let mp = (5 * doy + 2) / 153;
            let d = doy - (153 * mp + 2) / 5 + 1;
            let m = if mp < 10 {
                mp + 3
            } else {
                mp - 9
            };
            let year = if m <= 2 {
                y + 1
            } else {
                y
            };
            &&& is_date(year, m, d)
            &&& day_number(year, m, d) == 365 * y + leaps_upto(y) + doy - 719_468
        }),
{
    let mp = (5 * doy + 2) / 153;
    lemma_month_of_year(doy);
    lemma_date_in_month(y, doy, mp, doy - (153 * mp + 2) / 5 + 1);
}

/// The twelve months of a year that is counted from March.
#[verifier::spinoff_prover]
proof fn lemma_date_in_month(y: int, doy: int, mp: int, d: int)
    requires
        0 <= mp <= 11,
        1 <= d <= 31,
        doy == 365 ==> is_leap(y + 1),
        0 <= doy <= 365,
        mp == 0 ==> d == doy + 1,
        mp == 1 ==> d == doy - 30 && d <= 30,
        mp == 2 ==> d == doy - 60,
        mp == 3 ==> d == doy - 91 && d <= 30,
        mp == 4 ==> d == doy - 121,
        mp == 5 ==> d == doy - 152,
        mp == 6 ==> d == doy - 183 && d <= 30,
        mp == 7 ==> d == doy - 213,
        mp == 8 ==> d == doy - 244 && d <= 30,
        mp == 9 ==> d == doy - 274,
        mp == 10 ==> d == doy - 305,
        mp == 11 ==> d == doy - 336 && d <= 29,
    ensures
        mp < 10 ==> is_date(y, mp + 3, d) && day_number(y, mp + 3, d) == 365 * y + leaps_upto(y)
            + doy - 719_468,
        mp >= 10 ==> is_date(y + 1, mp - 9, d) && day_number(y + 1, mp - 9, d) == 365 * y
            + leaps_upto(y) + doy - 719_468,
{
    let leap = is_leap(y);
    let count = leaps_upto(y);
    let before = leaps_upto(y - 1);
    lemma_leaps_step(y);
    assert(leaps_upto(1969) == 477);
    if mp < 10 {
        lemma_months(y);
        assert(days_before_year(y) == 365 * (y - 1970) + before - 477);
    } else {
        lemma_months(y + 1);
        assert(days_before_year(y + 1) == 365 * (y + 1 - 1970) + count - 477);
    }
}

/// Days since the first of January 1970 as a date: year, month and day.
#[verifier::spinoff_prover]
pub fn civil_from_days(z: i64) -> (r: (i64, u32, u32))
    requires
        z <= i64::MAX - 719_468,
    ensures
        is_date(r.0 as int, r.1 as int, r.2 as int),
        day_number(r.0 as int, r.1 as int, r.2 as int) == z,
{
    let z: i64 = z + 719_468;
    let era: i64 = if z >= 0 {
        z / 146_097
    } else {
        -((-(z + 1)) / 146_097) - 1
    };
    assert(era == (z as int) / 146_097);
    let doe: i64 = z - era * 146_097;
    let yoe: i64 = (doe - doe / 1460 + doe / 36524 - doe / 146_096) / 365;
    proof {
        lemma_year_of_era(doe as int);
    }
    let y: i64 = yoe + era * 400;
    let doy: i64 = doe - (365 * yoe + yoe / 4 - yoe / 100);
    let mp: i64 = (5 * doy + 2) / 153;
    let d: i64 = doy - (153 * mp + 2) / 5 + 1;
    let m: i64 = if mp < 10 {
        mp + 3
    } else {
        mp - 9
    };
    let year: i64 = if m <= 2 {
        y + 1
    } else {
        y
    };
    proof {
        lemma_month_of_year(doy as int);
        lemma_eras(era as int, yoe as int);
        lemma_date(y as int, doy as int);
    }
    (year, m as u32, d as u32)
}

// --- timestamps --------------------------------------------------------------

/// A number in decimal, with zeros in front up to `width` characters, the sign
/// counted.
pub open spec fn signed_padded(n: int, width: nat) -> Seq<char> {
    if n < 0 {
        "-"@ + zero_padded(decimal((-n) as nat), (width - 1) as nat)
    } else {
        zero_padded(decimal(n as nat), width)
    }
}

/// A number in decimal, with zeros in front up to two characters.
pub open spec fn two_digits(n: int) -> Seq<char> {
    zero_padded(decimal(n as nat), 2)
}

/// A date and a time of day, as `YYYY-MM-DDTHH:MM:SS.ffffffZ`.
pub open spec fn timestamp(y: int, m: int, d: int, second: int, micros: int) -> Seq<char> {
    concat_texts(
        seq![
            signed_padded(y, 4),
            "-"@,
            two_digits(m),
            "-"@,
            two_digits(d),
            "T"@,
            two_digits(second / 3600),
            ":"@,
            two_digits((second % 3600) / 60),
            ":"@,
            two_digits(second % 60),
            "."@,
            zero_padded(decimal(micros as nat), 6),
            "Z"@,
        ],
    )
}

/// Whether a text is the timestamp of `secs` seconds and `micros` microseconds
/// after the start of 1970.
pub open spec fn is_timestamp_of(t: Seq<char>, secs: int, micros: int) -> bool {
    exists|y: int, m: int, d: int|
        is_date(y, m, d) && #[trigger] day_number(y, m, d) == secs / 86_400 && t == timestamp(
            y,
            m,
            d,
            secs % 86_400,
            micros,
        )
}

/// `n` in decimal, with zeros in front up to two characters.
fn two(n: u64) -> (r: String)
    ensures
        r@ == two_digits(n as int),
{
    u64_padded(n, 10, 2)
}

/// A year with at least four characters.
fn year_text(y: i64) -> (r: String)
    requires
        y > i64::MIN,
    ensures
        r@ == signed_padded(y as int, 4),
{
    if y < 0 {
        let digits = u64_padded((-y) as u64, 10, 3);
        concat2("-", digits.as_str())
    } else {
        u64_padded(y as u64, 10, 4)
    }
}

/// The timestamp of a number of seconds and microseconds after the start of
/// 1970.
#[verifier::spinoff_prover]
pub fn iso_utc(secs: i64, micros: u32) -> (r: String)
    ensures
        is_timestamp_of(r@, secs as int, micros as int),
{
    let days: i64 = if secs >= 0 {
        secs / 86_400
    } else {
        -((-(secs + 1)) / 86_400) - 1
    };
    assert(days == (secs as int) / 86_400);
    let sod: u64 = if secs >= 0 {
        (secs % 86_400) as u64
    } else {
        (86_399 - (-(secs + 1)) % 86_400) as u64
    };
    assert(sod == (secs as int) % 86_400);
    let (y, m, d) = civil_from_days(days);
    proof {
        if y == i64::MIN {
            lemma_months(y as int);
        }
    }
    let year = year_text(y);
    let month = two(m as u64);
    let day = two(d as u64);
    let hh = two(sod / 3600);
    let mm = two((sod % 3600) / 60);
    let ss = two(sod % 60);
    let frac = u64_padded(micros as u64, 10, 6);
    let parts: [&str; 14] = [
        year.as_str(),
        "-",
        month.as_str(),
        "-",
        day.as_str(),
        "T",
        hh.as_str(),
        ":",
        mm.as_str(),
        ":",
        ss.as_str(),
        ".",
        frac.as_str(),
        "Z",
    ];
    let r = concat_strs(parts.as_slice());
    proof {
        assert(parts@.map_values(|s: &str| s@) =~= seq![
            signed_padded(y as int, 4),
            "-"@,
            two_digits(m as int),
            "-"@,
            two_digits(d as int),
            "T"@,
            two_digits(sod as int / 3600),
            ":"@,
            two_digits((sod as int % 3600) / 60),
            ":"@,
            two_digits(sod as int % 60),
            "."@,
            zero_padded(decimal(micros as nat), 6),
            "Z"@,
        ]);
        assert(day_number(y as int, m as int, d as int) == secs as int / 86_400);
    }
    r
}

/// The timestamp of a number of seconds and microseconds is determined by them.
pub proof fn law_timestamp_unique(a: Seq<char>, b: Seq<char>, secs: int, micros: int)
    requires
        is_timestamp_of(a, secs, micros),
        is_timestamp_of(b, secs, micros),
    ensures
        a == b,
{
    let (y, m, d) = choose|y: int, m: int, d: int|
        is_date(y, m, d) && #[trigger] day_number(y, m, d) == secs / 86_400 && a == timestamp(
            y,
            m,
            d,
            secs % 86_400,
            micros,
        );
    let (y2, m2, d2) = choose|y: int, m: int, d: int|
        is_date(y, m, d) && #[trigger] day_number(y, m, d) == secs / 86_400 && b == timestamp(
            y,
            m,
            d,
            secs % 86_400,
            micros,
        );
    law_dates_distinct(y, m, d, y2, m2, d2);
}

/// The timestamp of this moment.
pub fn now_iso_utc() -> (r: String)
    ensures
        exists|secs: int, micros: int|
            0 <= micros < 1_000_000 && #[trigger] is_timestamp_of(r@, secs, micros),
{
    let (secs, nanos) = unix_now();
    let r = iso_utc(secs as i64, nanos / 1000);
    assert(is_timestamp_of(r@, (secs as i64) as int, (nanos / 1000) as int));
    r
}

// --- identifiers -------------------------------------------------------------

/// The number that is mixed from a counter and the nanoseconds of the clock.
pub open spec fn mixed(n: int, nanos: int) -> int {
    (n * 0x9E37_79B9_7F4A_7C15 + nanos) % 0x1_0000_0000
}

/// Eight hexadecimal digits.
pub open spec fn id_text(n: int, nanos: int) -> Seq<char> {
    zero_padded(digits(mixed(n, nanos) as nat, 16), 8)
}

/// Sixteen to the power of `k`.
spec fn hex_limit(k: nat) -> int
    decreases k,
{
    if k == 0 {
        1
    } else {
        16 * hex_limit((k - 1) as nat)
    }
}

/// Whether a character is a lower-case hexadecimal digit.
pub open spec fn is_hex_char(c: char) -> bool {
    '0' <= c <= '9' || 'a' <= c <= 'f'
}

/// A number below sixteen to the power of `k` has at most `k` hexadecimal digits.
proof fn lemma_hex_digits(n: nat, k: nat)
    requires
        k > 0,
        n < hex_limit(k),
    ensures
        1 <= digits(n, 16).len() <= k,
        forall|i: int| 0 <= i < digits(n, 16).len() ==> is_hex_char(#[trigger] digits(n, 16)[i]),
    decreases k,
{
    if n >= 16 {
        if k == 1 {
            assert(hex_limit(1) == 16) by {
                reveal_with_fuel(hex_limit, 2);
            }
        }
        lemma_hex_digits(n / 16, (k - 1) as nat);
    }
}

/// An identifier has eight characters, all of them hexadecimal digits.
pub proof fn law_id_shape(n: int, nanos: int)
    ensures
        id_text(n, nanos).len() == 8,
        forall|i: int| 0 <= i < 8 ==> is_hex_char(#[trigger] id_text(n, nanos)[i]),
{
    reveal_with_fuel(hex_limit, 9);
    lemma_hex_digits(mixed(n, nanos) as nat, 8);
}

/// Counters that differ by less than the range of an identifier give different
/// numbers at the same reading of the clock.
pub proof fn law_ids_differ(n: int, k: int, nanos: int)
    requires
        0 <= n,
        0 < k < 0x1_0000_0000,
    ensures
        mixed(n, nanos) != mixed(n + k, nanos),
{
    let w: int = 0x1_0000_0000;
    let f: int = 0x9E37_79B9_7F4A_7C15;
    let a = n * f + nanos;
    let b = (n + k) * f + nanos;
    if a % w == b % w {
        assert(b - a == k * f) by (nonlinear_arith)
            requires
                a == n * f + nanos,
                b == (n + k) * f + nanos,
        ;
        assert((k * f) % w == 0) by {
            assert(b - a == w * (b / w - a / w)) by (nonlinear_arith)
                requires
                    a % w == b % w,
                    w == 0x1_0000_0000,
            ;
            lemma_mod_multiples_basic(b / w - a / w, w);
        }
        lemma_odd_factor(k, f);
    }
}

/// A number below two to the 32 that an odd factor sends to a multiple of two to
/// the 32 is zero.
proof fn lemma_odd_factor(k: int, f: int)
    requires
        0 <= k < 0x1_0000_0000,
        f == 0x9E37_79B9_7F4A_7C15,
        (k * f) % 0x1_0000_0000 == 0,
    ensures
        k == 0,
{
    let w: int = 0x1_0000_0000;
    let inverse: int = 0x9937733d;
    let q = (k * f) / w;
    assert(k * f == w * q);
    assert(f * inverse == w * 0x5eb16ce3a2d4328b + 1);
    assert(k * f * inverse == w * (q * inverse)) by (nonlinear_arith)
        requires
            k * f == w * q,
    ;
    assert(k * f * inverse == w * (0x5eb16ce3a2d4328b * k) + k) by (nonlinear_arith)
        requires
            f * inverse == w * 0x5eb16ce3a2d4328b + 1,
    ;
    let m = q * inverse - 0x5eb16ce3a2d4328b * k;
    assert(k == w * m) by (nonlinear_arith)
        requires
            w * (q * inverse) == w * (0x5eb16ce3a2d4328b * k) + k,
            m == q * inverse - 0x5eb16ce3a2d4328b * k,
    ;
}

/// The identifier that is made from a counter and the clock.
pub fn id_from(n: u64, secs: u64, nanos: u32) -> (r: String)
    ensures
        r@ == id_text(n as int, secs * 1_000_000_000 + nanos),
{
    let t: u128 = secs as u128 * 1_000_000_000 + nanos as u128;
    let a: u64 = n % 0x1_0000_0000;
    let b: u64 = (t % 0x1_0000_0000) as u64;
    let low: u64 = (a * 0x7F4A_7C15 + b) % 0x1_0000_0000;
    proof {
        lemma_low_bits(n as int, t as int);
    }
    u64_padded(low, 16, 8)
}

/// The low half of the mixed number depends on the low halves alone.
proof fn lemma_low_bits(n: int, t: int)
    requires
        0 <= n,
        0 <= t,
    ensures
        ((n % 0x1_0000_0000) * 0x7F4A_7C15 + t % 0x1_0000_0000) % 0x1_0000_0000 == mixed(n, t),
{
    let w: int = 0x1_0000_0000;
    let h = n / w;
    let k = t / w;
    assert(n == w * h + n % w);
    assert(t == w * k + t % w);
    let low = (n % w) * 0x7F4A_7C15 + t % w;
    let full = n * 0x9E37_79B9_7F4A_7C15 + t;
    let q = h * 0x9E37_79B9_7F4A_7C15 + (n % w) * 0x9E37_79B9 + k;
    assert(0x9E37_79B9_7F4A_7C15int == 0x9E37_79B9 * w + 0x7F4A_7C15);
    assert(full == w * q + low);
    lemma_mod_multiples_vanish(q, low, w);
}

/// A fresh identifier: the counter goes up by one, and the digits are mixed from
/// the counter and the clock.
pub fn random_id(counter: &mut u64) -> (r: String)
    ensures
        exists|nanos: int| r@ == #[trigger] id_text(*old(counter) as int, nanos),
        *final(counter) == if *old(counter) == u64::MAX {
            0
        } else {
            *old(counter) + 1
        },
{
    let n: u64 = *counter;
    *counter = n.wrapping_add(1);
    let (secs, nanos) = unix_now();
    let r = id_from(n, secs, nanos);
    assert(r@ == id_text(n as int, secs * 1_000_000_000 + nanos));
    r
}

// --- what timestamps and identifiers say -------------------------------------

/// The number that stands in a text from one place to another.
pub open spec fn number_at(t: Seq<char>, from: int, to: int) -> Result<
    nat,
    crate::number::NumberError,
> {
    crate::number::parse_number(t.subrange(from, to), 10, u32::MAX as nat)
}

/// Each number of a timestamp stands at its place and reads as what it is: the
/// year, the month, the day, the hour, the minute and the second of the day, and
/// the microseconds; between them stand the marks.
pub proof fn law_timestamp_reads(y: int, m: int, d: int, second: int, micros: int)
    requires
        0 <= y <= 9999,
        1 <= m <= 12,
        1 <= d <= 31,
        0 <= second < 86_400,
        0 <= micros < 1_000_000,
    ensures
        ({
            let t = timestamp(y, m, d, second, micros);
            &&& t.len() == 27
            &&& number_at(t, 0, 4) == Ok::<nat, crate::number::NumberError>(y as nat)
            &&& number_at(t, 5, 7) == Ok::<nat, crate::number::NumberError>(m as nat)
            &&& number_at(t, 8, 10) == Ok::<nat, crate::number::NumberError>(d as nat)
            &&& number_at(t, 11, 13) matches Ok(hours) && number_at(t, 14, 16) matches Ok(minutes)
                && number_at(t, 17, 19) matches Ok(rest) && minutes < 60 && rest < 60 && hours
                * 3600 + minutes * 60 + rest == second
            &&& number_at(t, 20, 26) == Ok::<nat, crate::number::NumberError>(micros as nat)
            &&& t[4] == '-' && t[7] == '-' && t[10] == 'T' && t[13] == ':' && t[16] == ':' && t[19]
                == '.' && t[26] == 'Z'
        }),
{
    let (h, mi, se) = (second / 3600, (second % 3600) / 60, second % 60);
    let max = u32::MAX as nat;
    crate::number::law_decimal_length(y as nat);
    crate::number::law_decimal_length(m as nat);
    crate::number::law_decimal_length(d as nat);
    crate::number::law_decimal_length(h as nat);
    crate::number::law_decimal_length(mi as nat);
    crate::number::law_decimal_length(se as nat);
    crate::number::law_decimal_length(micros as nat);
    crate::number::law_padded_reads_back(y as nat, 10, 4, max);
    crate::number::law_padded_reads_back(m as nat, 10, 2, max);
    crate::number::law_padded_reads_back(d as nat, 10, 2, max);
    crate::number::law_padded_reads_back(h as nat, 10, 2, max);
    crate::number::law_padded_reads_back(mi as nat, 10, 2, max);
    crate::number::law_padded_reads_back(se as nat, 10, 2, max);
    crate::number::law_padded_reads_back(micros as nat, 10, 6, max);
    crate::number::law_padded(decimal(y as nat), 4);
    crate::number::law_padded(decimal(m as nat), 2);
    crate::number::law_padded(decimal(d as nat), 2);
    crate::number::law_padded(decimal(h as nat), 2);
    crate::number::law_padded(decimal(mi as nat), 2);
    crate::number::law_padded(decimal(se as nat), 2);
    crate::number::law_padded(decimal(micros as nat), 6);
    assert(h * 3600 + mi * 60 + se == second);
    lemma_timestamp_pieces(
        signed_padded(y, 4),
        two_digits(m),
        two_digits(d),
        two_digits(h),
        two_digits(mi),
        two_digits(se),
        zero_padded(decimal(micros as nat), 6),
    );
}

proof fn lemma_timestamp_pieces(
    y: Seq<char>,
    m: Seq<char>,
    d: Seq<char>,
    h: Seq<char>,
    mi: Seq<char>,
    se: Seq<char>,
    us: Seq<char>,
)
    requires
        y.len() == 4,
        m.len() == 2,
        d.len() == 2,
        h.len() == 2,
        mi.len() == 2,
        se.len() == 2,
        us.len() == 6,
    ensures
        ({
            let t = concat_texts(
                seq![y, "-"@, m, "-"@, d, "T"@, h, ":"@, mi, ":"@, se, "."@, us, "Z"@],
            );
            &&& t.len() == 27
            &&& t.subrange(0, 4) == y
            &&& t.subrange(5, 7) == m
            &&& t.subrange(8, 10) == d
            &&& t.subrange(11, 13) == h
            &&& t.subrange(14, 16) == mi
            &&& t.subrange(17, 19) == se
            &&& t.subrange(20, 26) == us
            &&& t[4] == '-' && t[7] == '-' && t[10] == 'T' && t[13] == ':' && t[16] == ':' && t[19]
                == '.' && t[26] == 'Z'
        }),
{
    reveal_strlit("-");
    reveal_strlit("T");
    reveal_strlit(":");
    reveal_strlit(".");
    reveal_strlit("Z");
    let parts = seq![y, "-"@, m, "-"@, d, "T"@, h, ":"@, mi, ":"@, se, "."@, us, "Z"@];
    let t = concat_texts(parts);
    assert(parts.take(0) =~= seq![]);
    law_concat_pieces(parts, 0);
    law_concat_pieces(parts, 1);
    assert(t.subrange(4, 5)[0] == t[4]);
    law_concat_pieces(parts, 2);
    law_concat_pieces(parts, 3);
    assert(t.subrange(7, 8)[0] == t[7]);
    law_concat_pieces(parts, 4);
    law_concat_pieces(parts, 5);
    assert(t.subrange(10, 11)[0] == t[10]);
    law_concat_pieces(parts, 6);
    law_concat_pieces(parts, 7);
    assert(t.subrange(13, 14)[0] == t[13]);
    law_concat_pieces(parts, 8);
    law_concat_pieces(parts, 9);
    assert(t.subrange(16, 17)[0] == t[16]);
    law_concat_pieces(parts, 10);
    law_concat_pieces(parts, 11);
    assert(t.subrange(19, 20)[0] == t[19]);
    law_concat_pieces(parts, 12);
    law_concat_pieces(parts, 13);
    assert(t.subrange(26, 27)[0] == t[26]);
}

/// An identifier is the number that it is mixed from, in hexadecimal. The number
/// follows the clock, and each step of the counter moves it by the same amount.
pub proof fn law_id_reads(n: int, nanos: int)
    requires
        0 <= n,
        0 <= nanos,
    ensures
        crate::number::parse_number(id_text(n, nanos), 16, u32::MAX as nat) == Ok::<
            nat,
            crate::number::NumberError,
        >(mixed(n, nanos) as nat),
        mixed(0, nanos) == nanos % 0x1_0000_0000,
        mixed(n, nanos + 1) == (mixed(n, nanos) + 1) % 0x1_0000_0000,
        mixed(n + 1, nanos) == (mixed(n, nanos) + 0x7F4A_7C15) % 0x1_0000_0000,
{
    assert(0 <= mixed(n, nanos) < 0x1_0000_0000);
    crate::number::law_padded_reads_back(mixed(n, nanos) as nat, 16, 8, u32::MAX as nat);
    lemma_mixed_step(n, nanos);
}

proof fn lemma_mixed_step(n: int, nanos: int)
    ensures
        mixed(0, nanos) == nanos % 0x1_0000_0000,
        mixed(n, nanos + 1) == (mixed(n, nanos) + 1) % 0x1_0000_0000,
        mixed(n + 1, nanos) == (mixed(n, nanos) + 0x7F4A_7C15) % 0x1_0000_0000,
{
    let f = 0x9E37_79B9_7F4A_7C15int;
    let m = 0x1_0000_0000int;
    let x = n * 0x9E37_79B9_7F4A_7C15int + nanos;
    lemma_add_mod_noop(x, 1, m);
    lemma_add_mod_noop(x, f, m);
    lemma_add_mod_noop(x, 0x7F4A_7C15, m);
    assert(f % m == 0x7F4A_7C15);
    assert((n + 1) * 0x9E37_79B9_7F4A_7C15int + nanos == x + f);
    assert(n * 0x9E37_79B9_7F4A_7C15int + (nanos + 1) == x + 1);
}

/// The days are counted from the first of January 1970, and each day is one more
/// than the day before: within a month, from the last day of a month to the first
/// of the next, and from the last day of a year to the first of the next.
pub proof fn law_days_follow(y: int, m: int, d: int)
    requires
        1 <= m <= 12,
    ensures
        day_number(1970, 1, 1) == 0,
        day_number(y, m, d + 1) == day_number(y, m, d) + 1,
        m < 12 ==> day_number(y, m + 1, 1) == day_number(y, m, days_in_month(y, m)) + 1,
        day_number(y + 1, 1, 1) == day_number(y, 12, 31) + 1,
        days_in_month(y, m) == if m == 4 || m == 6 || m == 9 || m == 11 {
            30int
        } else if m != 2 {
            31
        } else if y % 400 == 0 || (y % 4 == 0 && y % 100 != 0) {
            29
        } else {
            28
        },
{
    lemma_months(1970);
    lemma_months(y);
    lemma_months(y + 1);
    lemma_leaps_step(y);
    assert(leaps_upto(y + 1 - 1) == leaps_upto(y));
    if m < 12 {
        reveal_with_fuel(days_before_month, 2);
        assert(days_before_month(y, m + 1) == days_before_month(y, m) + days_in_month(y, m));
    }
}

/// A number below zero is written with a sign in front, which counts toward the
/// width; any other number is written without one.
pub proof fn law_signed(n: nat, width: nat)
    requires
        0 < n <= u32::MAX,
        width >= 1,
    ensures
        ({
            let t = signed_padded(-(n as int), width);
            &&& t.len() >= width
            &&& t[0] == '-'
            &&& number_at(t, 1, t.len() as int) == Ok::<nat, crate::number::NumberError>(n)
            &&& decimal(n).len() < width ==> t.len() == width
        }),
        signed_padded(n as int, width) == zero_padded(decimal(n), width),
{
    reveal_strlit("-");
    let less = (width - 1) as nat;
    let digits = zero_padded(decimal(n), less);
    let t = signed_padded(-(n as int), width);
    crate::number::law_padded(decimal(n), less);
    crate::number::law_padded_reads_back(n, 10, less, u32::MAX as nat);
    assert(t.subrange(1, t.len() as int) =~= digits);
}

} // verus!

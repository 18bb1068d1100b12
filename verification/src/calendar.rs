//! The proleptic Gregorian calendar: day counts since 1970-01-01 turned into
//! civil dates, and Unix times rendered as `YYYY-MM-DDTHH:MM:SS`.

use vstd::prelude::*;
use vstd::arithmetic::div_mod::lemma_fundamental_div_mod_converse;

verus! {

/// A Gregorian leap year.
pub open spec fn is_leap_year(y: int) -> bool {
    y % 4 == 0 && (y % 100 != 0 || y % 400 == 0)
}

/// Days in month `m` (1 to 12) of year `y`.
pub open spec fn days_in_month(y: int, m: int) -> int {
    if m == 2 {
        if is_leap_year(y) {
            29
        } else {
            28
        }
    } else if m == 4 || m == 6 || m == 9 || m == 11 {
        30
    } else {
        31
    }
}

/// Days of year `y` that come before month `m`.
pub open spec fn days_before_month(y: int, m: int) -> int {
    let common: int = if m == 1 {
        0
    } else if m == 2 {
        31
    } else if m == 3 {
        59
    } else if m == 4 {
        90
    } else if m == 5 {
        120
    } else if m == 6 {
        151
    } else if m == 7 {
        181
    } else if m == 8 {
        212
    } else if m == 9 {
        243
    } else if m == 10 {
        273
    } else if m == 11 {
        304
    } else {
        334
    };
    common + if m > 2 && is_leap_year(y) {
        1int
    } else {
        0int
    }
}

/// How many leap years come before year `y`, counted from a fixed origin:
/// the difference of two values is the number of leap years in between.
pub open spec fn leap_years_before(y: int) -> int {
    (y - 1) / 4 - (y - 1) / 100 + (y - 1) / 400
}

/// A real calendar date.
pub open spec fn valid_date(y: int, m: int, d: int) -> bool {
    1 <= m <= 12 && 1 <= d <= days_in_month(y, m)
}

/// Days from 1970-01-01 to the date `y-m-d` (negative before it).
pub open spec fn epoch_day(y: int, m: int, d: int) -> int {
    365 * (y - 1970) + (leap_years_before(y) - leap_years_before(1970)) + days_before_month(y, m)
        + (d - 1)
}

/// The civil date that lies `days` days from 1970-01-01.
pub open spec fn civil_date(days: int) -> (int, int, int) {
    choose|t: (int, int, int)| valid_date(t.0, t.1, t.2) && epoch_day(t.0, t.1, t.2) == days
}

proof fn lemma_leap_years_monotone(a: int, b: int)
    requires
        a <= b,
    ensures
        leap_years_before(a) <= leap_years_before(b),
{
    let (a1, b1) = (a - 1, b - 1);
    if b1 / 100 > a1 / 100 {
        assert(b1 / 4 - a1 / 4 >= 25 * (b1 / 100 - a1 / 100) - 24);
    }
}

/// A valid date lies within its year: no earlier than January 1st and
/// before the next year's.
proof fn lemma_date_within_year(y: int, m: int, d: int)
    requires
        valid_date(y, m, d),
    ensures
        epoch_day(y, 1, 1) <= epoch_day(y, m, d) < epoch_day(y + 1, 1, 1),
{
    lemma_leap_step(y);
    let leap: int = if is_leap_year(y) {
        1
    } else {
        0
    };
    assert(days_before_month(y, m) + d - 1 < 365 + leap);
}

proof fn lemma_leap_step(y: int)
    ensures
        leap_years_before(y + 1) == leap_years_before(y) + if is_leap_year(y) {
            1int
        } else {
            0int
        },
{
}

/// Two valid dates that lie the same number of days from 1970-01-01 are
/// the same date: a day count names at most one date.
pub proof fn lemma_epoch_day_injective(y1: int, m1: int, d1: int, y2: int, m2: int, d2: int)
    requires
        valid_date(y1, m1, d1),
        valid_date(y2, m2, d2),
        epoch_day(y1, m1, d1) == epoch_day(y2, m2, d2),
    ensures
        y1 == y2 && m1 == m2 && d1 == d2,
{
    lemma_date_within_year(y1, m1, d1);
    lemma_date_within_year(y2, m2, d2);
    if y1 < y2 {
        lemma_leap_years_monotone(y1 + 1, y2);
        assert(epoch_day(y1 + 1, 1, 1) <= epoch_day(y2, 1, 1));
    } else if y2 < y1 {
        lemma_leap_years_monotone(y2 + 1, y1);
        assert(epoch_day(y2 + 1, 1, 1) <= epoch_day(y1, 1, 1));
    }
}

/// Every day count names a date.
pub proof fn lemma_civil_date(days: int)
    ensures
        valid_date(civil_date(days).0, civil_date(days).1, civil_date(days).2),
        epoch_day(civil_date(days).0, civil_date(days).1, civil_date(days).2) == days,
{
    let z = days + 719468;
    let era = z / 146097;
    let doe = z - era * 146097;
    lemma_year_of_era(doe);
    let yoe = (doe - doe / 1460 + doe / 36524 - doe / 146096) / 365;
    let doy = doe - (365 * yoe + yoe / 4 - yoe / 100);
    let mp = (5 * doy + 2) / 153;
    let d = doy - (153 * mp + 2) / 5 + 1;
    lemma_epoch_day_of_march_year(era, yoe, doy, mp, d);
    let m = if mp < 10 { mp + 3 } else { mp - 9 };
    let y = if m <= 2 { 400 * era + yoe + 1 } else { 400 * era + yoe };
    let t = (y, m, d);
    assert(valid_date(t.0, t.1, t.2) && epoch_day(t.0, t.1, t.2) == days);
}

/// Leap day of the year that ends in the February after March of year
/// `400 * era + yoe`.
spec fn march_leap(yoe: int) -> int {
    if is_leap_year(yoe + 1) {
        1
    } else {
        0
    }
}

/// Within a 400-year era, day `doe` (counted from March 1st) falls in year
/// `yoe` of the era, on day `doy` of that year.
proof fn lemma_year_of_era(doe: int)
    requires
        0 <= doe < 146097,
    ensures
        ({
            let yoe = (doe - doe / 1460 + doe / 36524 - doe / 146096) / 365;
            let doy = doe - (365 * yoe + yoe / 4 - yoe / 100);
            &&& 0 <= yoe <= 399
            &&& 0 <= doy < 365 + march_leap(yoe)
        }),
{
}


/// Day `doy` of a year that starts on March 1st falls in month `mp`
/// (0 for March) on day `d`; February has `28 + leap` days.
proof fn lemma_month_of_year(doy: int, leap: int)
    requires
        0 <= leap <= 1,
        0 <= doy < 365 + leap,
    ensures
        ({
            let mp = (5 * doy + 2) / 153;
            let d = doy - (153 * mp + 2) / 5 + 1;
            let m = if mp < 10 { mp + 3 } else { mp - 9 };
            &&& 0 <= mp <= 11
            &&& 1 <= d
            &&& (m == 2 ==> d <= 28 + leap)
            &&& (m != 2 ==> d <= days_in_month(1, m))
            &&& (mp < 10 ==> (153 * mp + 2) / 5 == days_before_month(1, m) - 59)
            &&& (mp == 10 ==> (153 * mp + 2) / 5 == 306)
            &&& (mp == 11 ==> (153 * mp + 2) / 5 == 337)
        }),
{
}

/// Day `doy` of the March-based year `yoe` of era `era` is the civil date
/// it names, and lies that many days from 1970-01-01.
/// Leap years counted through the March-based year `yoe` of era `era`.
proof fn lemma_leap_years_of_era(era: int, yoe: int)
    requires
        0 <= yoe <= 399,
    ensures
        leap_years_before(400 * era + yoe + 1) == 97 * era + yoe / 4 - yoe / 100,
        leap_years_before(400 * era + yoe) + (if is_leap_year(400 * era + yoe) {
            1int
        } else {
            0int
        }) == leap_years_before(400 * era + yoe + 1),
        is_leap_year(400 * era + yoe + 1) == is_leap_year(yoe + 1),
{
    let big_y = 400 * era + yoe;
    lemma_fundamental_div_mod_converse(big_y, 4, 100 * era + yoe / 4, yoe % 4);
    lemma_fundamental_div_mod_converse(big_y, 100, 4 * era + yoe / 100, yoe % 100);
    lemma_fundamental_div_mod_converse(big_y, 400, era, yoe);
    let next = yoe + 1;
    lemma_fundamental_div_mod_converse(big_y + 1, 4, 100 * era + next / 4, next % 4);
    lemma_fundamental_div_mod_converse(big_y + 1, 100, 4 * era + next / 100, next % 100);
    lemma_fundamental_div_mod_converse(big_y + 1, 400, era + next / 400, next % 400);
    lemma_leap_step(big_y);
}

/// Day `doy` of the March-based year `yoe` of era `era` is the civil date
/// it names, and lies that many days from 1970-01-01.
proof fn lemma_epoch_day_of_march_year(era: int, yoe: int, doy: int, mp: int, d: int)
    requires
        0 <= yoe <= 399,
        0 <= doy < 365 + march_leap(yoe),
        mp == (5 * doy + 2) / 153,
        d == doy - (153 * mp + 2) / 5 + 1,
    ensures
        ({
            let m = if mp < 10 { mp + 3 } else { mp - 9 };
            let y = if m <= 2 { 400 * era + yoe + 1 } else { 400 * era + yoe };
            &&& valid_date(y, m, d)
            &&& epoch_day(y, m, d) == era * 146097 + (365 * yoe + yoe / 4 - yoe / 100 + doy)
                - 719468
        }),
{
    lemma_month_of_year(doy, march_leap(yoe));
    lemma_leap_years_of_era(era, yoe);
    let big_y = 400 * era + yoe;
    let lb = leap_years_before(big_y + 1);
    assert(leap_years_before(1970) == 477);
    if mp < 10 {
        let m = mp + 3;
        assert(days_before_month(big_y, m) == days_before_month(1, m) + if is_leap_year(big_y) {
            1int
        } else {
            0int
        });
        assert(epoch_day(big_y, m, d) == 365 * big_y + lb + doy - 719468);
        assert(valid_date(big_y, m, d));
    } else {
        let m = mp - 9;
        assert(epoch_day(big_y + 1, m, d) == 365 * big_y + lb + doy - 719468);
        assert(valid_date(big_y + 1, m, d));
    }
}

/// The civil date `days` after 1970-01-01, as (year, month, day).
pub fn days_to_date(days: i64) -> (r: (i64, u32, u32))
    requires
        days <= i64::MAX - 719468,
    ensures
        (r.0 as int, r.1 as int, r.2 as int) == civil_date(days as int),
{
    // Days since 0000-03-01, split into 400-year eras.
    let z = days + 719468;
    let era: i64 = if z >= 0 {
        z / 146097
    } else {
        -((146096 - z) / 146097)
    };
    assert(era == z / 146097);
    let doe = (z - era * 146097) as u32;
    proof {
        lemma_year_of_era(doe as int);
    }
    let yoe = (doe - doe / 1460 + doe / 36524 - doe / 146096) / 365;
    let y = yoe as i64 + era * 400;
    let doy = doe - (365 * yoe + yoe / 4 - yoe / 100);
    proof {
        lemma_month_of_year(doy as int, march_leap(yoe as int));
    }
    let mp = (5 * doy + 2) / 153;
    let d = doy - (153 * mp + 2) / 5 + 1;
    let m = if mp < 10 {
        mp + 3
    } else {
        mp - 9
    };
    let y = if m <= 2 {
        y + 1
    } else {
        y
    };
    proof {
        lemma_epoch_day_of_march_year(era as int, yoe as int, doy as int, mp as int, d as int);
        lemma_civil_date(days as int);
        let c = civil_date(days as int);
        lemma_epoch_day_injective(y as int, m as int, d as int, c.0, c.1, c.2);
    }
    (y, m, d)
}


/// Dates from 1970-01-01 on fall in 1970 or later.
proof fn lemma_year_from_epoch(days: int)
    requires
        days >= 0,
    ensures
        civil_date(days).0 >= 1970,
{
    lemma_civil_date(days);
    let c = civil_date(days);
    lemma_date_within_year(c.0, c.1, c.2);
    if c.0 < 1970 {
        lemma_leap_years_monotone(c.0 + 1, 1970);
        assert(epoch_day(c.0 + 1, 1, 1) <= epoch_day(1970, 1, 1));
    }
}

/// The ASCII digit of `k` (0 to 9).
pub open spec fn digit_char(k: int) -> char {
    (k + 48) as char
}

/// The decimal digits of `n`, most significant first.
pub open spec fn decimal(n: nat) -> Seq<char>
    decreases n,
{
    if n < 10 {
        seq![digit_char(n as int)]
    } else {
        decimal(n / 10).push(digit_char((n % 10) as int))
    }
}

/// The decimal digits of `n`, with zeros in front up to `width`.
pub open spec fn zero_padded(n: nat, width: nat) -> Seq<char> {
    let s = decimal(n);
    if s.len() < width {
        Seq::new((width - s.len()) as nat, |_i: int| '0') + s
    } else {
        s
    }
}

/// `secs` seconds after the Unix epoch in UTC, as `YYYY-MM-DDTHH:MM:SS`.
pub open spec fn timestamp_text(secs: nat) -> Seq<char> {
    let date = civil_date((secs / 86400) as int);
    let t = secs % 86400;
    zero_padded(date.0 as nat, 4) + seq!['-'] + zero_padded(date.1 as nat, 2) + seq!['-']
        + zero_padded(date.2 as nat, 2) + seq!['T'] + zero_padded(t / 3600, 2) + seq![':']
        + zero_padded(t % 3600 / 60, 2) + seq![':'] + zero_padded(t % 60, 2)
}

/// A decimal digit.
pub open spec fn is_digit(c: char) -> bool {
    '0' <= c <= '9'
}

proof fn lemma_decimal(n: nat)
    ensures
        decimal(n).len() >= 1,
        forall|i: int| 0 <= i < decimal(n).len() ==> is_digit(#[trigger] decimal(n)[i]),
        n < 10 ==> decimal(n).len() == 1,
        n < 100 ==> decimal(n).len() <= 2,
        n < 1000 ==> decimal(n).len() <= 3,
        n < 10000 ==> decimal(n).len() <= 4,
    decreases n,
{
    if n >= 10 {
        lemma_decimal(n / 10);
        let d = (n % 10) as int;
        assert(is_digit(digit_char(d)));
        assert forall|i: int| 0 <= i < decimal(n).len() implies is_digit(#[trigger] decimal(n)[i]) by {
            if i < decimal(n / 10).len() {
                assert(decimal(n)[i] == decimal(n / 10)[i]);
            }
        }
    } else {
        assert(is_digit(digit_char(n as int)));
    }
}

proof fn lemma_zero_padded(n: nat, width: nat)
    requires
        decimal(n).len() <= width,
    ensures
        zero_padded(n, width).len() == width,
        forall|i: int| 0 <= i < width ==> is_digit(#[trigger] zero_padded(n, width)[i]),
{
    lemma_decimal(n);
    let s = decimal(n);
    if s.len() < width {
        let pad = Seq::new((width - s.len()) as nat, |_i: int| '0');
        assert forall|i: int| 0 <= i < width implies is_digit(#[trigger] zero_padded(n, width)[i]) by {
            if i < pad.len() {
                assert(zero_padded(n, width)[i] == pad[i]);
            } else {
                assert(zero_padded(n, width)[i] == s[i - pad.len()]);
            }
        }
    }
}

/// Times before the year 10000 are written `YYYY-MM-DDTHH:MM:SS`: nineteen
/// characters, digits but for the separators.
pub proof fn lemma_timestamp_shape(secs: nat)
    requires
        civil_date((secs / 86400) as int).0 < 10000,
    ensures
        timestamp_text(secs).len() == 19,
        timestamp_text(secs)[4] == '-' && timestamp_text(secs)[7] == '-',
        timestamp_text(secs)[10] == 'T',
        timestamp_text(secs)[13] == ':' && timestamp_text(secs)[16] == ':',
        forall|i: int|
            0 <= i < 19 && i != 4 && i != 7 && i != 10 && i != 13 && i != 16 ==> is_digit(
                #[trigger] timestamp_text(secs)[i],
            ),
{
    let days = (secs / 86400) as int;
    lemma_civil_date(days);
    lemma_year_from_epoch(days);
    let date = civil_date(days);
    let t = secs % 86400;
    lemma_decimal(date.0 as nat);
    lemma_decimal(date.1 as nat);
    lemma_decimal(date.2 as nat);
    lemma_decimal(t / 3600);
    lemma_decimal(t % 3600 / 60);
    lemma_decimal(t % 60);
    lemma_zero_padded(date.0 as nat, 4);
    lemma_zero_padded(date.1 as nat, 2);
    lemma_zero_padded(date.2 as nat, 2);
    lemma_zero_padded(t / 3600, 2);
    lemma_zero_padded(t % 3600 / 60, 2);
    lemma_zero_padded(t % 60, 2);
    let y = zero_padded(date.0 as nat, 4);
    let mo = zero_padded(date.1 as nat, 2);
    let d = zero_padded(date.2 as nat, 2);
    let h = zero_padded(t / 3600, 2);
    let mi = zero_padded(t % 3600 / 60, 2);
    let se = zero_padded(t % 60, 2);
    let text = y + seq!['-'] + mo + seq!['-'] + d + seq!['T'] + h + seq![':'] + mi + seq![':'] + se;
    assert(timestamp_text(secs) == text);
    assert forall|i: int|
        0 <= i < 19 && i != 4 && i != 7 && i != 10 && i != 13 && i != 16 implies is_digit(
        #[trigger] timestamp_text(secs)[i],
    ) by {
        if i < 4 {
            assert(text[i] == y[i]);
        } else if i < 7 {
            assert(text[i] == mo[i - 5]);
        } else if i < 10 {
            assert(text[i] == d[i - 8]);
        } else if i < 13 {
            assert(text[i] == h[i - 11]);
        } else if i < 16 {
            assert(text[i] == mi[i - 14]);
        } else {
            assert(text[i] == se[i - 17]);
        }
    }
}

fn push_decimal(out: &mut Vec<char>, n: u64)
    ensures
        final(out)@ == old(out)@ + decimal(n as nat),
    decreases n,
{
    if n >= 10 {
        push_decimal(out, n / 10);
    }
    let b: u8 = (n % 10) as u8 + 48;
    out.push(b as char);
    proof {
        assert(b as char == digit_char((n % 10) as int));
    }
}

/// Appends the digits of `n`, with zeros in front up to `width`.
fn push_zero_padded(out: &mut Vec<char>, n: u64, width: usize)
    ensures
        final(out)@ == old(out)@ + zero_padded(n as nat, width as nat),
{
    let mut digits: Vec<char> = Vec::new();
    push_decimal(&mut digits, n);
    assert(digits@ == decimal(n as nat));
    let ghost start = out@;
    if digits.len() < width {
        let pad = width - digits.len();
        let mut k: usize = 0;
        while k < pad
            invariant
                k <= pad,
                out@ == start + Seq::new(k as nat, |_i: int| '0'),
            decreases pad - k,
        {
            out.push('0');
            k += 1;
            assert(out@ =~= start + Seq::new(k as nat, |_i: int| '0'));
        }
    }
    let ghost mid = out@;
    let mut i: usize = 0;
    while i < digits.len()
        invariant
            i <= digits@.len(),
            out@ == mid + digits@.take(i as int),
        decreases digits@.len() - i,
    {
        out.push(digits[i]);
        i += 1;
        assert(out@ =~= mid + digits@.take(i as int));
    }
    assert(digits@.take(digits@.len() as int) == digits@);
    assert(out@ =~= start + zero_padded(n as nat, width as nat));
}

/// `secs` seconds after the Unix epoch in UTC, written as ISO 8601 without a
/// time zone: `YYYY-MM-DDTHH:MM:SS`.
pub fn iso_timestamp(secs: u64) -> (r: String)
    ensures
        r@ == timestamp_text(secs as nat),
{
    let days = secs / 86400;
    let t = secs % 86400;
    let (year, month, day) = days_to_date(days as i64);
    proof {
        lemma_year_from_epoch(days as int);
    }
    let mut out: Vec<char> = Vec::new();
    push_zero_padded(&mut out, year as u64, 4);
    out.push('-');
    push_zero_padded(&mut out, month as u64, 2);
    out.push('-');
    push_zero_padded(&mut out, day as u64, 2);
    out.push('T');
    push_zero_padded(&mut out, t / 3600, 2);
    out.push(':');
    push_zero_padded(&mut out, t % 3600 / 60, 2);
    out.push(':');
    push_zero_padded(&mut out, t % 60, 2);
    assert(out@ =~= timestamp_text(secs as nat));
    crate::text::string_of(out.as_slice())
}

/// Seconds since the Unix epoch by the system clock, `SystemTime::now()`
/// measured from `UNIX_EPOCH` (0 for a clock set before the epoch). Nothing
/// is claimed of the value: it is whatever the clock reads.
#[verifier::external_body]
fn unix_now_secs() -> (r: u64) {
    std::time::SystemTime::now().duration_since(std::time::UNIX_EPOCH).unwrap_or_default().as_secs()
}

/// The current time as ISO 8601 text, `YYYY-MM-DDTHH:MM:SS` in UTC.
pub fn chrono_now() -> (r: String)
    ensures
        exists|secs: u64| r@ == timestamp_text(secs as nat),
{
    let secs = unix_now_secs();
    iso_timestamp(secs)
}

} // verus!

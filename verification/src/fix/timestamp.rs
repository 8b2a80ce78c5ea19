use vstd::prelude::*;
use vstd::arithmetic::div_mod::{
    lemma_fundamental_div_mod, lemma_fundamental_div_mod_converse, lemma_mod_bound,
};

verus! {

/// Length of a millisecond-precision FIX UTCTimestamp: `YYYYMMDD-HH:MM:SS.sss`.
pub const UTC_TIMESTAMP_LEN: usize = 21;

/// Nanoseconds in a second.
pub const NANOS_PER_SEC: i128 = 1_000_000_000;

/// The last `k` decimal digits of `v`, zero-padded.
pub open spec fn digits_fixed(v: nat, k: nat) -> Seq<u8>
    decreases k,
{
    if k == 0 {
        Seq::empty()
    } else {
        digits_fixed(v / 10, (k - 1) as nat).push((v % 10 + 48) as u8)
    }
}

/// H. Hinnant's `civil_from_days` on a day count since 1970-01-01, written
/// with floor division: what [`civil_from_days`] computes.
spec fn civil_spec(z: int) -> (int, int, int) {
    let z2 = z + 719468;
    let era = z2 / 146097;
    let doe = z2 - era * 146097;
    let yoe = (doe - doe / 1460 + doe / 36524 - doe / 146096) / 365;
    let y = yoe + era * 400;
    let doy = doe - (365 * yoe + yoe / 4 - yoe / 100);
    let mp = (5 * doy + 2) / 153;
    let d = doy - (153 * mp + 2) / 5 + 1;
    let m = if mp < 10 {
        mp + 3
    } else {
        mp - 9
    };
    (if m <= 2 {
        y + 1
    } else {
        y
    }, m, d)
}

/// Whether `y` is a leap year of the proleptic Gregorian calendar.
pub open spec fn is_leap(y: int) -> bool {
    y % 4 == 0 && (y % 100 != 0 || y % 400 == 0)
}

/// Days in year `y`.
pub open spec fn year_len(y: int) -> int {
    if is_leap(y) {
        366
    } else {
        365
    }
}

/// Days in month `m` (1 to 12) of year `y`.
pub open spec fn month_len(y: int, m: int) -> int {
    if m == 2 {
        if is_leap(y) {
            29
        } else {
            28
        }
    } else if m == 4 || m == 6 || m == 9 || m == 11 {
        30
    } else {
        31
    }
}

/// Day number of January 1 of year `y`, counted from 1970-01-01.
pub open spec fn year_start(y: int) -> int
    decreases (if y >= 1970 {
        y - 1970
    } else {
        1970 - y
    }),
{
    if y == 1970 {
        0
    } else if y > 1970 {
        year_start(y - 1) + year_len(y - 1)
    } else {
        year_start(y + 1) - year_len(y)
    }
}

/// Days from January 1 of year `y` to the first of month `m`.
pub open spec fn month_start(y: int, m: int) -> int
    decreases m,
{
    if m <= 1 {
        0
    } else {
        month_start(y, m - 1) + month_len(y, m - 1)
    }
}

/// Whether `(y, m, d)` is a date of the calendar.
pub open spec fn valid_date(y: int, m: int, d: int) -> bool {
    1 <= m <= 12 && 1 <= d <= month_len(y, m)
}

/// Days from 1970-01-01 to the date `(y, m, d)`.
pub open spec fn day_number(y: int, m: int, d: int) -> int {
    year_start(y) + month_start(y, m) + d - 1
}

/// Days from 0000-03-01 to March 1 of year `y`.
spec fn march_days(y: int) -> int {
    365 * y + y / 4 - y / 100 + y / 400
}

spec fn leap_int(y: int) -> int {
    if is_leap(y) {
        1
    } else {
        0
    }
}

proof fn lemma_floor_step(x: int, k: int)
    requires
        k > 0,
    ensures
        (x + 1) / k - x / k == (if (x + 1) % k == 0 {
            1int
        } else {
            0int
        }),
{
    lemma_fundamental_div_mod(x, k);
    lemma_mod_bound(x, k);
    let q = x / k;
    let r = x % k;
    if r == k - 1 {
        assert(x + 1 == (q + 1) * k + 0) by (nonlinear_arith)
            requires
                x == k * q + r,
                r == k - 1,
        ;
        lemma_fundamental_div_mod_converse(x + 1, k, q + 1, 0);
    } else {
        assert(x + 1 == q * k + (r + 1)) by (nonlinear_arith)
            requires
                x == k * q + r,
        ;
        lemma_fundamental_div_mod_converse(x + 1, k, q, r + 1);
    }
}

/// March 1 of one year to March 1 of the next: 365 days, and one more when
/// the next year is a leap year.
proof fn lemma_march_days_step(y: int)
    ensures
        march_days(y + 1) - march_days(y) == 365 + leap_int(y + 1),
{
    lemma_floor_step(y, 4);
    lemma_floor_step(y, 100);
    lemma_floor_step(y, 400);
    let x = y + 1;
    if x % 400 == 0 {
        lemma_fundamental_div_mod(x, 400);
        lemma_fundamental_div_mod_converse(x, 100, (x / 400) * 4, 0);
        lemma_fundamental_div_mod_converse(x, 4, (x / 400) * 100, 0);
    } else if x % 100 == 0 {
        lemma_fundamental_div_mod(x, 100);
        lemma_fundamental_div_mod_converse(x, 4, (x / 100) * 25, 0);
    }
}

/// March 1 of year `y` is day `march_days(y) - 719468` from 1970-01-01.
proof fn lemma_march_first(y: int)
    ensures
        year_start(y) + 59 + leap_int(y) == march_days(y) - 719468,
    decreases (if y >= 1970 {
        y - 1970
    } else {
        1970 - y
    }),
{
    if y > 1970 {
        lemma_march_first(y - 1);
        lemma_march_days_step(y - 1);
    } else if y < 1970 {
        lemma_march_first(y + 1);
        lemma_march_days_step(y);
    }
}

proof fn lemma_month_starts(y: int)
    ensures
        month_start(y, 1) == 0,
        month_start(y, 2) == 31,
        month_start(y, 3) == 59 + leap_int(y),
        month_start(y, 4) == 90 + leap_int(y),
        month_start(y, 5) == 120 + leap_int(y),
        month_start(y, 6) == 151 + leap_int(y),
        month_start(y, 7) == 181 + leap_int(y),
        month_start(y, 8) == 212 + leap_int(y),
        month_start(y, 9) == 243 + leap_int(y),
        month_start(y, 10) == 273 + leap_int(y),
        month_start(y, 11) == 304 + leap_int(y),
        month_start(y, 12) == 334 + leap_int(y),
{
    reveal_with_fuel(month_start, 13);
}

/// The day of an era of 400 years (146097 days) that a day count falls on.
proof fn lemma_era_split(z2: int)
    ensures
        0 <= z2 - (z2 / 146097) * 146097 <= 146096,
{
    lemma_fundamental_div_mod(z2, 146097);
    lemma_mod_bound(z2, 146097);
}

/// The year of its era that a day of an era falls in, counted from March,
/// and the day of that year.
proof fn lemma_year_of_era(doe: int)
    requires
        0 <= doe <= 146096,
    ensures
        ({
            let yoe = (doe - doe / 1460 + doe / 36524 - doe / 146096) / 365;
            let doy = doe - (365 * yoe + yoe / 4 - yoe / 100);
            &&& 0 <= yoe <= 399
            &&& 0 <= doy <= 364 + leap_int(yoe + 1)
        }),
{
    let yoe = (doe - doe / 1460 + doe / 36524 - doe / 146096) / 365;
    assert(0 <= yoe);
    lemma_yoe_bv(doe as u32, yoe as u32, (yoe + 1) as u32);
}

/// Eras repeat every 400 years: in days from March 1, and in leap years.
proof fn lemma_era_shift(era: int, yoe: int)
    requires
        0 <= yoe <= 399,
    ensures
        march_days(yoe + era * 400) == 146097 * era + 365 * yoe + yoe / 4 - yoe / 100,
        leap_int(yoe + era * 400 + 1) == leap_int(yoe + 1),
{
    let y = yoe + era * 400;
    lemma_fundamental_div_mod_converse(y, 4, era * 100 + yoe / 4, yoe % 4);
    lemma_fundamental_div_mod_converse(y, 100, era * 4 + yoe / 100, yoe % 100);
    lemma_fundamental_div_mod_converse(y, 400, era, yoe);
    let x = yoe + 1;
    lemma_fundamental_div_mod_converse(x + era * 400, 4, era * 100 + x / 4, x % 4);
    lemma_fundamental_div_mod_converse(x + era * 400, 100, era * 4 + x / 100, x % 100);
    lemma_fundamental_div_mod_converse(x + era * 400, 400, era + x / 400, x % 400);
}

/// The month and day of day `doy` of the year that starts on March 1 of
/// year `y`, as [`civil_spec`] computes them: a date of the calendar,
/// `doy` days after that March 1.
proof fn lemma_date_in_year(y: int, doy: int)
    requires
        0 <= doy <= 364 + leap_int(y + 1),
    ensures
        ({
            let mp = (5 * doy + 2) / 153;
            let d = doy - (153 * mp + 2) / 5 + 1;
            let m = if mp < 10 {
                mp + 3
            } else {
                mp - 9
            };
            let yr = if m <= 2 {
                y + 1
            } else {
                y
            };
            &&& valid_date(yr, m, d)
            &&& day_number(yr, m, d) == year_start(y) + 59 + leap_int(y) + doy
        }),
{
    let mp = (5 * doy + 2) / 153;
    assert(0 <= mp);
    lemma_month_bv(doy as u32, mp as u32, (mp + 1) as u32);
    lemma_month_starts(y);
    lemma_month_starts(y + 1);
    assert(year_start(y + 1) == year_start(y) + year_len(y));
}

/// The date [`civil_spec`] gives for a day count is a date of the calendar,
/// and exactly that many days after 1970-01-01.
proof fn lemma_civil_date(z: int)
    ensures
        ({
            let (y, m, d) = civil_spec(z);
            valid_date(y, m, d) && day_number(y, m, d) == z
        }),
{
    let z2 = z + 719468;
    let era = z2 / 146097;
    let doe = z2 - era * 146097;
    lemma_era_split(z2);
    let yoe = (doe - doe / 1460 + doe / 36524 - doe / 146096) / 365;
    lemma_year_of_era(doe);
    let yy = yoe + era * 400;
    let doy = doe - (365 * yoe + yoe / 4 - yoe / 100);
    lemma_era_shift(era, yoe);
    lemma_march_first(yy);
    lemma_date_in_year(yy, doy);
}

proof fn lemma_year_start_next(y: int)
    ensures
        year_start(y + 1) == year_start(y) + year_len(y),
{
}

proof fn lemma_year_start_mono(a: int, b: int)
    requires
        a < b,
    ensures
        year_start(a) + year_len(a) <= year_start(b),
    decreases b - a,
{
    lemma_year_start_next(a);
    if b > a + 1 {
        lemma_year_start_mono(a + 1, b);
    }
}

/// A date of the calendar lies within its year and its month.
proof fn lemma_date_bounds(y: int, m: int, d: int)
    requires
        valid_date(y, m, d),
    ensures
        year_start(y) <= day_number(y, m, d) < year_start(y) + year_len(y),
        month_start(y, m) + month_len(y, m) == if m == 12 {
            year_len(y)
        } else {
            month_start(y, m + 1)
        },
{
    lemma_month_starts(y);
}

/// Two dates of the calendar with the same day number are the same date.
pub proof fn lemma_day_number_unique(y1: int, m1: int, d1: int, y2: int, m2: int, d2: int)
    requires
        valid_date(y1, m1, d1),
        valid_date(y2, m2, d2),
        day_number(y1, m1, d1) == day_number(y2, m2, d2),
    ensures
        y1 == y2 && m1 == m2 && d1 == d2,
{
    lemma_date_bounds(y1, m1, d1);
    lemma_date_bounds(y2, m2, d2);
    if y1 < y2 {
        lemma_year_start_mono(y1, y2);
    } else if y2 < y1 {
        lemma_year_start_mono(y2, y1);
    }
    lemma_month_starts(y1);
}

/// The date of the calendar `z` days after 1970-01-01.
pub open spec fn civil_date(z: int) -> (int, int, int) {
    choose|y: int, m: int, d: int| valid_date(y, m, d) && day_number(y, m, d) == z
}

/// The day count algorithm of [`civil_spec`] finds the calendar date.
proof fn lemma_civil_spec_is_civil_date(z: int)
    ensures
        civil_spec(z) == civil_date(z),
{
    lemma_civil_date(z);
    let (y, m, d) = civil_spec(z);
    let (y2, m2, d2) = civil_date(z);
    lemma_day_number_unique(y, m, d, y2, m2, d2);
}

/// Every day count has its date: [`civil_date`] is a date of the calendar,
/// exactly that many days after 1970-01-01.
pub proof fn lemma_civil_date_valid(z: int)
    ensures
        ({
            let (y, m, d) = civil_date(z);
            valid_date(y, m, d) && day_number(y, m, d) == z
        }),
{
    lemma_civil_date(z);
    lemma_civil_spec_is_civil_date(z);
}

/// Within an era, the year estimate `yoe` is the March-based year holding
/// day `doe`: the day lies within that year, of 366 days only when the
/// following year `y1` is a leap year.
proof fn lemma_yoe_bv(doe: u32, yoe: u32, y1: u32)
    by (bit_vector)
    requires
        doe <= 146096,
        yoe == ((doe - doe / 1460 + doe / 36524 - doe / 146096) / 365) as u32,
        y1 == (yoe + 1) as u32,
    ensures
        yoe <= 399,
        365 * yoe + yoe / 4 - yoe / 100 <= doe,
        doe <= 365 * yoe + yoe / 4 - yoe / 100 + 365,
        !(y1 % 4 == 0 && (y1 % 100 != 0 || y1 % 400 == 0)) ==> doe <= 365 * yoe + yoe / 4 - yoe
            / 100 + 364,
{
}

/// Within a March-based year, the month estimate `mp` is the month holding
/// day `doy`: months start on days `(153 * mp + 2) / 5`.
proof fn lemma_month_bv(doy: u32, mp: u32, m1: u32)
    by (bit_vector)
    requires
        doy <= 365,
        mp == ((5 * doy + 2) / 153) as u32,
        m1 == (mp + 1) as u32,
    ensures
        mp <= 11,
        ((153 * mp + 2) as u32) / 5 <= doy,
        doy < ((153 * m1 + 2) as u32) / 5,
{
}

/// `v` wrapped into the range of `i64`, as a cast from a wider integer
/// wraps it.
pub open spec fn wrap_i64(v: int) -> int {
    let m = v % 0x1_0000_0000_0000_0000;
    if m >= 0x8000_0000_0000_0000 {
        m - 0x1_0000_0000_0000_0000
    } else {
        m
    }
}

/// The FIX UTCTimestamp text of an instant given in nanoseconds since the
/// Unix epoch. The whole seconds are taken as an `i64` (wrapping beyond its
/// range) and the year as a `u32`: years before 0 print as `0000`, and the
/// four digits are the last ones of the year modulo 2^32.
pub open spec fn utc_timestamp_spec(unix_nanos: int) -> Seq<u8> {
    let secs = wrap_i64(unix_nanos / 1_000_000_000);
    let millis = (unix_nanos % 1_000_000_000) / 1_000_000;
    let days = secs / 86400;
    let sod = secs % 86400;
    let (y, m, d) = civil_date(days);
    digits_fixed(if y < 0 {
        0
    } else {
        (y % 0x1_0000_0000) as nat
    }, 4) + digits_fixed(m as nat, 2) + digits_fixed(d as nat, 2) + seq![45u8] + digits_fixed(
        (sod / 3600) as nat,
        2,
    ) + seq![58u8] + digits_fixed((sod / 60 % 60) as nat, 2) + seq![58u8] + digits_fixed(
        (sod % 60) as nat,
        2,
    ) + seq![46u8] + digits_fixed(millis as nat, 3)
}

proof fn lemma_digits_fixed_len(v: nat, k: nat)
    ensures
        digits_fixed(v, k).len() == k,
    decreases k,
{
    if k > 0 {
        lemma_digits_fixed_len(v / 10, (k - 1) as nat);
    }
}

/// Writes the last `len` decimal digits of `v`, zero-padded, at
/// `out[start..start + len]`.
fn write_digits_at(out: &mut [u8; 21], start: usize, len: usize, v: u32)
    requires
        start + len <= 21,
    ensures
        final(out)@ == old(out)@.subrange(0, start as int) + digits_fixed(v as nat, len as nat)
            + old(out)@.subrange(start + len, 21),
{
    let mut i = len;
    let mut x = v;
    proof {
        lemma_pow_div(v as nat, 0);
    }
    while i > 0
        invariant
            0 <= i <= len,
            start + len <= 21,
            out@.len() == 21,
            x == (v as nat) / pow10((len - i) as nat),
            forall|k: int| i <= k < len ==> out@[start + k] == digits_fixed(v as nat, len as nat)[k],
            forall|k: int|
                0 <= k < 21 && !(start + i <= k < start + len) ==> out@[k] == old(out)@[k],
        decreases i,
    {
        proof {
            lemma_digits_fixed_index(v as nat, len as nat, i - 1);
            lemma_pow_div(v as nat, (len - i) as nat);
        }
        out[start + i - 1] = (x % 10) as u8 + 48u8;
        x = x / 10;
        i = i - 1;
    }
    proof {
        lemma_digits_fixed_len(v as nat, len as nat);
        assert(out@ =~= old(out)@.subrange(0, start as int) + digits_fixed(v as nat, len as nat)
            + old(out)@.subrange(start + len, 21));
    }
}

pub open spec fn pow10(k: nat) -> nat
    decreases k,
{
    if k == 0 {
        1
    } else {
        10 * pow10((k - 1) as nat)
    }
}

proof fn lemma_pow_div(v: nat, k: nat)
    ensures
        pow10(k) > 0,
        v / pow10(k) / 10 == v / pow10(k + 1),
        v / pow10(0) == v,
    decreases k,
{
    if k > 0 {
        lemma_pow_div(v, (k - 1) as nat);
    }
    assert(pow10(k + 1) == 10 * pow10(k));
    vstd::arithmetic::div_mod::lemma_div_denominator(v as int, pow10(k) as int, 10);
    assert(pow10(k) * 10 == 10 * pow10(k)) by (nonlinear_arith);
}

/// Digit `j` (from the left) of `digits_fixed(v, n)` is digit `n - 1 - j`
/// from the right of `v`.
proof fn lemma_digits_fixed_index(v: nat, n: nat, j: int)
    requires
        0 <= j < n,
    ensures
        digits_fixed(v, n)[j] == ((v / pow10((n - 1 - j) as nat)) % 10 + 48) as u8,
        digits_fixed(v, n).len() == n,
    decreases n,
{
    lemma_digits_fixed_len(v, n);
    lemma_digits_fixed_len(v / 10, (n - 1) as nat);
    let s = digits_fixed(v, n);
    assert(s == digits_fixed(v / 10, (n - 1) as nat).push((v % 10 + 48) as u8));
    if j < n - 1 {
        lemma_digits_fixed_index(v / 10, (n - 1) as nat, j);
        lemma_pow_div(v, (n - 2 - j) as nat);
        let p = pow10((n - 2 - j) as nat);
        vstd::arithmetic::div_mod::lemma_div_denominator(v as int, 10, p as int);
        assert(pow10((n - 1 - j) as nat) == 10 * p);
        assert(s[j] == digits_fixed(v / 10, (n - 1) as nat)[j]);
        assert(v / pow10((n - 1 - j) as nat) == (v / 10) / p);
    } else {
        assert(pow10(0) == 1);
        assert(s[j] == (v % 10 + 48) as u8);
    }
}

/// Days since 1970-01-01 to a civil date `(year, month, day)`.
fn civil_from_days(z: i64) -> (r: (i64, u32, u32))
    requires
        -110_000_000_000_000 <= z <= 110_000_000_000_000,
    ensures
        r.0 == civil_spec(z as int).0,
        r.1 == civil_spec(z as int).1,
        r.2 == civil_spec(z as int).2,
{
    let z2: i64 = z + 719_468;
    let era: i64 = if z2 >= 0 {
        z2
    } else {
        z2 - 146_096
    } / 146_097;
    proof {
        if z2 < 0 {
            assert(era == z2 / 146097) by (nonlinear_arith)
                requires
                    z2 < 0,
                    era == -((146096 - z2) / 146097),
            ;
        }
    }
    let doe: u64 = (z2 - era * 146_097) as u64;
    proof {
        assert(0 <= z2 - era * 146097 < 146097) by (nonlinear_arith)
            requires
                era == z2 / 146097,
        ;
    }
    let yoe: u64 = (doe - doe / 1460 + doe / 36524 - doe / 146_096) / 365;
    let y: i64 = yoe as i64 + era * 400;
    let doy: u64 = doe - (365 * yoe + yoe / 4 - yoe / 100);
    let mp: u64 = (5 * doy + 2) / 153;
    let d: u32 = (doy - (153 * mp + 2) / 5 + 1) as u32;
    let m: u32 = (if mp < 10 {
        mp + 3
    } else {
        mp - 9
    }) as u32;
    (y + if m <= 2 {
        1i64
    } else {
        0i64
    }, m, d)
}

/// Formats UTC nanoseconds since the Unix epoch as a FIX UTCTimestamp
/// `YYYYMMDD-HH:MM:SS.sss`.
///
/// The whole seconds are taken as an `i64` and the year as a `u32`, as
/// [`utc_timestamp_spec`] says.
pub fn format_utc_timestamp(unix_nanos: i128, out: &mut [u8; 21])
    ensures
        final(out)@ == utc_timestamp_spec(unix_nanos as int),
{
    let (q, rem) = div_floor(unix_nanos, NANOS_PER_SEC);
    let millis: u32 = (rem / 1_000_000) as u32;
    let secs: i64 = wrap_to_i64(q);
    let (dq, dr) = div_floor(secs as i128, 86_400);
    proof {
        lemma_days_bound(secs as int);
    }
    let days: i64 = dq as i64;
    let sod: u32 = dr as u32;
    let (y, m, d) = civil_from_days(days);
    let year: u32 = if y < 0 {
        0
    } else {
        (y % 0x1_0000_0000) as u32
    };
    write_digits_at(out, 0, 4, year);
    write_digits_at(out, 4, 2, m);
    write_digits_at(out, 6, 2, d);
    out[8] = 45u8;
    write_digits_at(out, 9, 2, sod / 3600);
    out[11] = 58u8;
    write_digits_at(out, 12, 2, sod / 60 % 60);
    out[14] = 58u8;
    write_digits_at(out, 15, 2, sod % 60);
    out[17] = 46u8;
    write_digits_at(out, 18, 3, millis);
    proof {
        lemma_digits_fixed_len(year as nat, 4);
        lemma_digits_fixed_len(m as nat, 2);
        lemma_digits_fixed_len(d as nat, 2);
        lemma_digits_fixed_len((sod / 3600) as nat, 2);
        lemma_digits_fixed_len((sod / 60 % 60) as nat, 2);
        lemma_digits_fixed_len((sod % 60) as nat, 2);
        lemma_digits_fixed_len(millis as nat, 3);
        lemma_civil_spec_is_civil_date(days as int);
        assert(out@ =~= utc_timestamp_spec(unix_nanos as int));
    }
}

/// Floor quotient and remainder of `v` by a positive `d`.
fn div_floor(v: i128, d: i128) -> (r: (i128, i128))
    requires
        d > 0,
    ensures
        r.0 == v as int / d as int,
        r.1 == v as int % d as int,
{
    if v >= 0 {
        (v / d, v % d)
    } else {
        let a: i128 = 0 - (v + 1);
        let q: i128 = 0 - a / d - 1;
        let r: i128 = d - 1 - a % d;
        proof {
            lemma_fundamental_div_mod(a as int, d as int);
            assert(v == q * d + r) by (nonlinear_arith)
                requires
                    a == d * (a / d) + a % d,
                    a == -(v + 1),
                    q == -(a / d) - 1,
                    r == d - 1 - a % d,
            ;
            lemma_fundamental_div_mod_converse(v as int, d as int, q as int, r as int);
        }
        (q, r)
    }
}

/// Days of an `i64` count of seconds fit the calendar conversion.
proof fn lemma_days_bound(secs: int)
    requires
        -0x8000_0000_0000_0000 <= secs < 0x8000_0000_0000_0000,
    ensures
        -110_000_000_000_000 <= secs / 86400 <= 110_000_000_000_000,
        0 <= secs % 86400 < 86400,
{
    assert(-110_000_000_000_000 <= secs / 86400 <= 110_000_000_000_000) by (nonlinear_arith)
        requires
            -0x8000_0000_0000_0000 <= secs < 0x8000_0000_0000_0000,
    ;
}

/// `v` wrapped into the range of `i64` (see [`wrap_i64`]).
fn wrap_to_i64(v: i128) -> (r: i64)
    ensures
        r == wrap_i64(v as int),
{
    let w: i128 = 0x1_0000_0000_0000_0000;
    let m: i128 = if v >= 0 {
        v % w
    } else {
        let k: i128 = (0 - (v + 1)) % w;
        w - 1 - k
    };
    proof {
        assert(m == (v as int) % 0x1_0000_0000_0000_0000) by (nonlinear_arith)
            requires
                w == 0x1_0000_0000_0000_0000,
                v >= 0 ==> m == v % w,
                v < 0 ==> m == w - 1 - ((-(v as int) - 1) % (w as int)),
        ;
    }
    if m >= 0x8000_0000_0000_0000 {
        (m - w) as i64
    } else {
        m as i64
    }
}


} // verus!

//! Timestamps: Ludusavi's RFC 3339 `when` strings read into nanoseconds
//! since the Unix epoch, and the civil-calendar arithmetic behind them.

use vstd::prelude::*;
use crate::calendar::valid_date;
use crate::text::{
    chars_of, find_char, parse_i64, parse_signed, parse_u32, parse_unsigned, slice_of, split_chars,
    split_on, trim, trimmed, utf8_len, first_index_of, char_width, lemma_prefix_len_strict,
};

verus! {

/// A time of day as RFC 3339 writes it: hour 0 to 23, minute 0 to 59,
/// second 0 to 60 (the last for a leap second).
pub open spec fn valid_clock(h: int, mi: int, se: int) -> bool {
    0 <= h <= 23 && 0 <= mi <= 59 && 0 <= se <= 60
}

pub open spec fn in_i64(x: int) -> bool {
    i64::MIN <= x <= i64::MAX
}

pub open spec fn in_u32(x: int) -> bool {
    0 <= x <= u32::MAX
}

// ---------------------------------------------------------------------------
// Days from a civil date
// ---------------------------------------------------------------------------

/// Year and month with the year starting in March: `(year, month index)`
/// where March is 0 and February 11.
pub open spec fn march_year(y: int, m: int) -> int {
    if m <= 2 {
        y - 1
    } else {
        y
    }
}

pub open spec fn march_month(m: int) -> int {
    if m > 2 {
        m - 3
    } else {
        m + 9
    }
}

/// Howard Hinnant's days-from-civil: the day number of `y-m-d` counted from
/// 1970-01-01, for any `m` and `d` the arithmetic accepts.
pub open spec fn days_from_civil(y: int, m: int, d: int) -> int {
    let y2 = march_year(y, m);
    let era = y2 / 400;
    let yoe = y2 - era * 400;
    let mp = march_month(m);
    let doy = (153 * mp + 2) / 5 + d - 1;
    let doe = yoe * 365 + yoe / 4 - yoe / 100 + doy;
    era * 146097 + doe - 719468
}

/// Whether computing `days_from_civil(y, m, d)` with fixed-width integers
/// (`i64` year and result, `u32` month and day) overflows.
pub open spec fn civil_overflows(y: int, m: int, d: int) -> bool {
    let y2 = march_year(y, m);
    let era = y2 / 400;
    let yoe = y2 - era * 400;
    let mp = march_month(m);
    let doy = (153 * mp + 2) / 5 + d - 1;
    let doe = yoe * 365 + yoe / 4 - yoe / 100 + doy;
    ||| !in_i64(y2)
    ||| (y2 < 0 && !in_i64(y2 - 399))
    ||| !in_u32(153 * mp + 2)
    ||| !in_u32((153 * mp + 2) / 5 + d)
    ||| doy < 0
    ||| !in_i64(era * 146097)
    ||| !in_i64(era * 146097 + doe)
    ||| !in_i64(era * 146097 + doe - 719468)
}

proof fn lemma_floor_div_400(y2: int)
    ensures
        y2 >= 0 ==> y2 / 400 == y2 / 400,
        0 <= y2 - (y2 / 400) * 400 < 400,
{
    assert(0 <= y2 - (y2 / 400) * 400 < 400) by (nonlinear_arith);
}

/// `days_from_civil(y, m, d)`, or `None` exactly where its fixed-width
/// arithmetic overflows.
pub fn days_from_civil_checked(y: i64, m: u32, d: u32) -> (r: Option<i64>)
    ensures
        r is None <==> civil_overflows(y as int, m as int, d as int),
        r matches Some(v) ==> v == days_from_civil(y as int, m as int, d as int),
{
    let ghost gy = y as int;
    let ghost gm = m as int;
    let ghost gd = d as int;
    let y2: i128 = if m <= 2 {
        y as i128 - 1
    } else {
        y as i128
    };
    if y2 < i64::MIN as i128 {
        return None;
    }
    if y2 < 0 && y2 - 399 < i64::MIN as i128 {
        return None;
    }
    let era: i128 = if y2 >= 0 {
        y2 / 400
    } else {
        -((-y2 + 399) / 400)
    };
    assert(era == y2 / 400) by (nonlinear_arith)
        requires
            y2 >= 0 ==> era == y2 / 400,
            y2 < 0 ==> era == -((-y2 + 399) / 400),
    ;
    let yoe: i128 = y2 - era * 400;
    proof {
        lemma_floor_div_400(y2 as int);
    }
    let mp: i128 = if m > 2 {
        m as i128 - 3
    } else {
        m as i128 + 9
    };
    if 153 * mp + 2 > u32::MAX as i128 {
        return None;
    }
    if (153 * mp + 2) / 5 + d as i128 > u32::MAX as i128 {
        return None;
    }
    let doy: i128 = (153 * mp + 2) / 5 + d as i128 - 1;
    if doy < 0 {
        return None;
    }
    let doe: i128 = yoe * 365 + yoe / 4 - yoe / 100 + doy;
    assert(-1000000000000000000000i128 < era < 1000000000000000000000i128) by (nonlinear_arith)
        requires
            era == y2 / 400,
            i64::MIN - 1 <= y2 <= i64::MAX,
    ;
    let a: i128 = era * 146097;
    if a < i64::MIN as i128 || a > i64::MAX as i128 {
        return None;
    }
    let b: i128 = a + doe;
    if b < i64::MIN as i128 || b > i64::MAX as i128 {
        return None;
    }
    let c: i128 = b - 719468;
    if c < i64::MIN as i128 || c > i64::MAX as i128 {
        return None;
    }
    Some(c as i64)
}

// ---------------------------------------------------------------------------
// RFC 3339
// ---------------------------------------------------------------------------

/// `s.split_once(c)`.
pub open spec fn split_once(s: Seq<char>, c: char) -> Option<(Seq<char>, Seq<char>)> {
    match first_index_of(s, c) {
        Some(i) => Some((s.take(i), s.skip(i + 1))),
        None => None,
    }
}

/// Year, month and day of the date part: the first three `-`-separated
/// fields, any further ones ignored, none range-checked.
pub open spec fn date_fields(date: Seq<char>) -> Option<(int, int, int)> {
    let dp = split_on(date, '-');
    if dp.len() < 3 {
        None
    } else {
        match (
            parse_signed(dp[0], i64::MAX as nat),
            parse_unsigned(dp[1], u32::MAX as nat),
            parse_unsigned(dp[2], u32::MAX as nat),
        ) {
            (Some(y), Some(mo), Some(d)) => Some((y, mo as int, d as int)),
            _ => None,
        }
    }
}

/// Hour, minute and second: the first three `:`-separated fields.
pub open spec fn time_fields(hms: Seq<char>) -> Option<(int, int, int)> {
    let tp = split_on(hms, ':');
    if tp.len() < 3 {
        None
    } else {
        match (
            parse_signed(tp[0], i64::MAX as nat),
            parse_signed(tp[1], i64::MAX as nat),
            parse_signed(tp[2], i64::MAX as nat),
        ) {
            (Some(h), Some(mi), Some(se)) => Some((h, mi, se)),
            _ => None,
        }
    }
}

/// The time part split at its first `.` into clock time and fraction.
pub open spec fn time_and_frac(time: Seq<char>) -> (Seq<char>, Seq<char>) {
    match split_once(time, '.') {
        Some(p) => p,
        None => (time, Seq::<char>::empty()),
    }
}

/// The fields of `YYYY-MM-DDTHH:MM:SS[.fraction]Z` as they are read:
/// year, month, day, hour, minute, second and the raw fraction.
pub open spec fn rfc3339_fields(s: Seq<char>) -> Option<(int, int, int, int, int, int, Seq<char>)> {
    let t = trim(s);
    if !(t.len() > 0 && t.last() == 'Z') {
        None
    } else {
        match split_once(t.drop_last(), 'T') {
            None => None,
            Some(dt) => {
                let (hms, frac) = time_and_frac(dt.1);
                match (date_fields(dt.0), time_fields(hms)) {
                    (Some(a), Some(b)) => Some((a.0, a.1, a.2, b.0, b.1, b.2, frac)),
                    _ => None,
                }
            },
        }
    }
}

/// The fraction digits sized to nine bytes: cut at byte nine, or padded
/// with zeros to nine bytes. `None` when byte nine falls inside a
/// character, where `String::truncate` panics.
pub open spec fn frac_digits(f: Seq<char>) -> Option<Seq<char>> {
    if utf8_len(f) <= 9 {
        Some(f + Seq::new((9 - utf8_len(f)) as nat, |i: int| '0'))
    } else if exists|k: int| 0 <= k <= f.len() && utf8_len(f.take(k)) == 9 {
        Some(f.take(choose|k: int| 0 <= k <= f.len() && utf8_len(f.take(k)) == 9))
    } else {
        None
    }
}

/// How reading a timestamp ends.
#[derive(Debug, PartialEq, Eq, Clone, Copy)]
pub enum Rfc3339 {
    /// Not a timestamp: not of the expected shape, or a date or time of
    /// day that does not exist.
    Malformed,
    /// Reading it cannot finish: an `i64`/`u32` overflow, or a fraction
    /// cut inside a character.
    Unrepresentable,
    /// Nanoseconds since 1970-01-01T00:00:00Z.
    Epoch(i128),
}

/// Whether computing the seconds since the epoch of the date and time
/// fields overflows in one of its `i64` operations.
pub open spec fn secs_overflow(days: int, h: int, mi: int, se: int) -> bool {
    ||| !in_i64(days * 86400)
    ||| !in_i64(h * 3600)
    ||| !in_i64(days * 86400 + h * 3600)
    ||| !in_i64(mi * 60)
    ||| !in_i64(days * 86400 + h * 3600 + mi * 60)
    ||| !in_i64(days * 86400 + h * 3600 + mi * 60 + se)
}

/// The fraction as nanoseconds: `Some(Some(v))` when its nine-byte form
/// reads as an `i64`, `Some(None)` when it does not, `None` when sizing it
/// to nine bytes is impossible.
pub open spec fn frac_nanos(frac: Seq<char>) -> Option<Option<int>> {
    if frac.len() == 0 {
        Some(Some(0))
    } else {
        match frac_digits(frac) {
            None => None,
            Some(digits) => Some(parse_signed(digits, i64::MAX as nat)),
        }
    }
}

/// What reading `s` gives: a timestamp whose date is not a calendar date,
/// or whose time of day is out of range, is malformed.
pub open spec fn rfc3339(s: Seq<char>) -> Rfc3339 {
    match rfc3339_fields(s) {
        None => Rfc3339::Malformed,
        Some((y, mo, d, h, mi, se, frac)) => if !valid_date(y, mo, d) || !valid_clock(h, mi, se) {
            Rfc3339::Malformed
        } else {
            match frac_nanos(frac) {
                None => Rfc3339::Unrepresentable,
                Some(None) => Rfc3339::Malformed,
                Some(Some(v)) => if civil_overflows(y, mo, d) || secs_overflow(
                    days_from_civil(y, mo, d),
                    h,
                    mi,
                    se,
                ) {
                    Rfc3339::Unrepresentable
                } else {
                    Rfc3339::Epoch(
                        ((days_from_civil(y, mo, d) * 86400 + h * 3600 + mi * 60 + se) * 1000000000
                            + v) as i128,
                    )
                },
            }
        },
    }
}

/// Only real instants read as times: a timestamp that reads has a date in
/// the calendar and a time of day in range.
pub proof fn law_read_timestamps_are_real_instants(s: Seq<char>)
    ensures
        rfc3339(s) is Epoch ==> (rfc3339_fields(s) matches Some(f) && valid_date(f.0, f.1, f.2)
            && valid_clock(f.3, f.4, f.5)),
{
}

fn split_once_chars(s: &Vec<char>, c: char) -> (r: Option<(Vec<char>, Vec<char>)>)
    ensures
        match split_once(s@, c) {
            Some(p) => r matches Some(q) && q.0@ == p.0 && q.1@ == p.1,
            None => r is None,
        },
{
    match find_char(s, c) {
        None => None,
        Some(i) => {
            let a = slice_of(s, 0, i);
            let b = slice_of(s, i + 1, s.len());
            assert(a@ =~= s@.take(i as int));
            assert(b@ =~= s@.skip(i + 1));
            Some((a, b))
        },
    }
}

/// `frac_digits` computed.
fn frac_digits_exec(f: &Vec<char>) -> (r: Option<Vec<char>>)
    ensures
        match frac_digits(f@) {
            Some(d) => r matches Some(v) && v@ == d,
            None => r is None,
        },
{
    let mut acc: u128 = 0;
    let mut k: usize = 0;
    assert(f@.take(0) =~= Seq::<char>::empty());
    while k < f.len() && acc < 9
        invariant
            k <= f.len(),
            acc == utf8_len(f@.take(k as int)),
            forall|j: int| 0 <= j < k ==> utf8_len(#[trigger] f@.take(j)) < 9,
        decreases f.len() - k,
    {
        assert(f@.take(k + 1).drop_last() =~= f@.take(k as int));
        acc = acc + char_width(f[k]) as u128;
        k = k + 1;
    }
    if acc <= 9 && k == f.len() {
        assert(f@.take(k as int) =~= f@);
        let mut v = slice_of(f, 0, f.len());
        let pad = (9 - acc) as usize;
        let mut i: usize = 0;
        assert(v@ =~= f@ + Seq::new(0, |j: int| '0'));
        while i < pad
            invariant
                i <= pad,
                pad == 9 - utf8_len(f@),
                v@ == f@ + Seq::new(i as nat, |j: int| '0'),
            decreases pad - i,
        {
            v.push('0');
            i = i + 1;
            assert(v@ =~= f@ + Seq::new(i as nat, |j: int| '0'));
        }
        return Some(v);
    }
    proof {
        if k < f.len() {
            lemma_prefix_len_strict(f@, k as int, f.len() as int);
            assert(f@.take(f.len() as int) =~= f@);
        }
        assert(utf8_len(f@) > 9 || (acc == utf8_len(f@) && acc > 9)) by {
            if k == f.len() {
                assert(f@.take(k as int) =~= f@);
            }
        }
    }
    if acc == 9 {
        proof {
            assert forall|j: int| 0 <= j <= f.len() && utf8_len(f@.take(j)) == 9 implies j == k by {
                if j < k {
                } else if j > k {
                    lemma_prefix_len_strict(f@, k as int, j);
                }
            }
        }
        let v = slice_of(f, 0, k);
        assert(v@ =~= f@.take(k as int));
        return Some(v);
    }
    proof {
        assert forall|j: int| 0 <= j <= f.len() implies utf8_len(#[trigger] f@.take(j)) != 9 by {
            if j < k {
            } else if j > k {
                lemma_prefix_len_strict(f@, k as int, j);
            }
        }
    }
    None
}

/// The third field of a split, read with `parse`.
fn field_i64(parts: &Vec<Vec<char>>, i: usize) -> (r: Option<i64>)
    requires
        i < parts.len(),
    ensures
        match parse_signed(parts@.map_values(|v: Vec<char>| v@)[i as int], i64::MAX as nat) {
            Some(n) => r == Some(n as i64),
            None => r is None,
        },
{
    assert(parts@.map_values(|v: Vec<char>| v@)[i as int] == parts@[i as int]@);
    parse_i64(&parts[i])
}

fn field_u32(parts: &Vec<Vec<char>>, i: usize) -> (r: Option<u32>)
    requires
        i < parts.len(),
    ensures
        match parse_unsigned(parts@.map_values(|v: Vec<char>| v@)[i as int], u32::MAX as nat) {
            Some(n) => r == Some(n as u32),
            None => r is None,
        },
{
    assert(parts@.map_values(|v: Vec<char>| v@)[i as int] == parts@[i as int]@);
    parse_u32(&parts[i])
}

/// The fields of a timestamp, as `rfc3339_fields` reads them.
pub struct Fields {
    pub y: i64,
    pub mo: u32,
    pub d: u32,
    pub h: i64,
    pub mi: i64,
    pub se: i64,
    pub frac: Vec<char>,
}

fn read_date(date: &Vec<char>) -> (r: Option<(i64, u32, u32)>)
    ensures
        match date_fields(date@) {
            None => r is None,
            Some(f) => r matches Some(x) && x.0 == f.0 && x.1 == f.1 && x.2 == f.2,
        },
{
    let dp = split_chars(date, '-');
    assert(dp@.len() == dp@.map_values(|v: Vec<char>| v@).len());
    if dp.len() < 3 {
        return None;
    }
    let y = field_i64(&dp, 0);
    let mo = field_u32(&dp, 1);
    let d = field_u32(&dp, 2);
    match (y, mo, d) {
        (Some(y), Some(mo), Some(d)) => Some((y, mo, d)),
        _ => None,
    }
}

fn read_time(hms: &Vec<char>) -> (r: Option<(i64, i64, i64)>)
    ensures
        match time_fields(hms@) {
            None => r is None,
            Some(f) => r matches Some(x) && x.0 == f.0 && x.1 == f.1 && x.2 == f.2,
        },
{
    let tp = split_chars(hms, ':');
    assert(tp@.len() == tp@.map_values(|v: Vec<char>| v@).len());
    if tp.len() < 3 {
        return None;
    }
    let h = field_i64(&tp, 0);
    let mi = field_i64(&tp, 1);
    let se = field_i64(&tp, 2);
    match (h, mi, se) {
        (Some(h), Some(mi), Some(se)) => Some((h, mi, se)),
        _ => None,
    }
}

fn read_fields(s: &str) -> (r: Option<Fields>)
    ensures
        match rfc3339_fields(s@) {
            None => r is None,
            Some(f) => r matches Some(x) && x.y == f.0 && x.mo == f.1 && x.d == f.2 && x.h == f.3
                && x.mi == f.4 && x.se == f.5 && x.frac@ == f.6,
        },
{
    let t = trimmed(&chars_of(s));
    if !(t.len() > 0 && t[t.len() - 1] == 'Z') {
        return None;
    }
    let u = slice_of(&t, 0, t.len() - 1);
    assert(u@ =~= t@.drop_last());
    let (date, time) = match split_once_chars(&u, 'T') {
        None => {
            return None;
        },
        Some(p) => p,
    };
    let (hms, frac) = match split_once_chars(&time, '.') {
        Some(p) => p,
        None => {
            let e: Vec<char> = Vec::new();
            assert(e@ =~= Seq::<char>::empty());
            (time, e)
        },
    };
    match (read_date(&date), read_time(&hms)) {
        (Some(a), Some(b)) => Some(Fields { y: a.0, mo: a.1, d: a.2, h: b.0, mi: b.1, se: b.2, frac }),
        _ => None,
    }
}

/// `frac_nanos` computed.
fn frac_value(frac: &Vec<char>) -> (r: Option<Option<i64>>)
    ensures
        match frac_nanos(frac@) {
            None => r is None,
            Some(None) => r == Some(None::<i64>),
            Some(Some(v)) => r == Some(Some(v as i64)),
        },
{
    if frac.len() == 0 {
        return Some(Some(0));
    }
    match frac_digits_exec(frac) {
        None => None,
        Some(digits) => Some(parse_i64(&digits)),
    }
}

/// Seconds since the epoch of the date and time fields, or `None` where the
/// `i64` arithmetic overflows.
fn epoch_secs(y: i64, mo: u32, d: u32, h: i64, mi: i64, se: i64) -> (r: Option<i128>)
    ensures
        match r {
            None => civil_overflows(y as int, mo as int, d as int) || secs_overflow(
                days_from_civil(y as int, mo as int, d as int),
                h as int,
                mi as int,
                se as int,
            ),
            Some(v) => !civil_overflows(y as int, mo as int, d as int) && !secs_overflow(
                days_from_civil(y as int, mo as int, d as int),
                h as int,
                mi as int,
                se as int,
            ) && v == days_from_civil(y as int, mo as int, d as int) * 86400 + h * 3600 + mi
                * 60 + se,
        },
{
    let days = match days_from_civil_checked(y, mo, d) {
        Some(v) => v,
        None => {
            return None;
        },
    };
    let a: i128 = days as i128 * 86400;
    let b: i128 = h as i128 * 3600;
    let c: i128 = mi as i128 * 60;
    let e: i128 = se as i128;
    let lo = i64::MIN as i128;
    let hi = i64::MAX as i128;
    if a < lo || a > hi || b < lo || b > hi || a + b < lo || a + b > hi || c < lo || c > hi || a
        + b + c < lo || a + b + c > hi || a + b + c + e < lo || a + b + c + e > hi {
        return None;
    }
    Some(a + b + c + e)
}

/// Whether `y-m-d` is a calendar date.
fn date_ok(y: i64, m: u32, d: u32) -> (r: bool)
    ensures
        r == valid_date(y as int, m as int, d as int),
{
    if m < 1 || m > 12 || d < 1 {
        return false;
    }
    let a: i128 = if y < 0 {
        -(y as i128)
    } else {
        y as i128
    };
    proof {
        assert((y as int) % 4 == 0 <==> a % 4 == 0) by (nonlinear_arith)
            requires
                a == y || a == -y,
        ;
        assert((y as int) % 100 == 0 <==> a % 100 == 0) by (nonlinear_arith)
            requires
                a == y || a == -y,
        ;
        assert((y as int) % 400 == 0 <==> a % 400 == 0) by (nonlinear_arith)
            requires
                a == y || a == -y,
        ;
    }
    let leap = (a % 4 == 0 && a % 100 != 0) || a % 400 == 0;
    let days: u32 = if m == 2 {
        if leap {
            29
        } else {
            28
        }
    } else if m == 4 || m == 6 || m == 9 || m == 11 {
        30
    } else {
        31
    };
    d <= days
}

/// Reads a Ludusavi `when` timestamp.
pub fn parse_rfc3339(s: &str) -> (r: Rfc3339)
    ensures
        r == rfc3339(s@),
{
    let f = match read_fields(s) {
        None => {
            return Rfc3339::Malformed;
        },
        Some(f) => f,
    };
    if !date_ok(f.y, f.mo, f.d) || !(0 <= f.h && f.h <= 23 && 0 <= f.mi && f.mi <= 59 && 0 <= f.se
        && f.se <= 60) {
        return Rfc3339::Malformed;
    }
    let fv = match frac_value(&f.frac) {
        None => {
            return Rfc3339::Unrepresentable;
        },
        Some(None) => {
            return Rfc3339::Malformed;
        },
        Some(Some(v)) => v,
    };
    match epoch_secs(f.y, f.mo, f.d, f.h, f.mi, f.se) {
        None => Rfc3339::Unrepresentable,
        Some(secs) => {
            assert(-10000000000000000000 <= secs <= 10000000000000000000);
            Rfc3339::Epoch(secs * 1000000000 + fv as i128)
        },
    }
}

// ---------------------------------------------------------------------------
// Civil date from a day number
// ---------------------------------------------------------------------------

/// Howard Hinnant's civil-from-days, the inverse of `days_from_civil`:
/// year, month and day of day number `z` (days since 1970-01-01).
pub open spec fn civil_from_days(z: int) -> (int, int, int) {
    let z2 = z + 719468;
    let era = z2 / 146097;
    let doe = z2 - era * 146097;
    let yoe = (doe - doe / 1460 + doe / 36524 - doe / 146096) / 365;
    let y = yoe + era * 400;
    let doy = doe - (365 * yoe + yoe / 4 - yoe / 100);
    let mp = (5 * doy + 2) / 153;
    let d = doy - (153 * mp + 2) / 5 + 1;
    let m = if mp < 10 {
        mp + 3
    } else {
        mp - 9
    };
    (if m <= 2 {
        y + 1
    } else {
        y
    }, m, d)
}

/// Whether the `i64` arithmetic for `civil_from_days(z)` stays in range
/// (its only overflows are the shift of `z` and the era rounding).
pub open spec fn civil_from_days_fits(z: int) -> bool {
    &&& in_i64(z + 719468)
    &&& (z + 719468 < 0 ==> in_i64(z + 719468 - 146096))
}

proof fn lemma_day_of_era(doe: u32)
    requires
        doe <= 146096,
    ensures
        ({
            let yoe = (doe - doe / 1460 + doe / 36524 - doe / 146096) / 365;
            let doy = doe - (365 * yoe + yoe / 4 - yoe / 100);
            let mp = (5 * doy + 2) / 153;
            &&& 0 <= yoe <= 399
            &&& 0 <= doy <= 365
            &&& 0 <= mp <= 11
            &&& 1 <= doy - (153 * mp + 2) / 5 + 1 <= 31
        }),
{
    assert(doe <= 146096 ==> ({
        let yoe = (doe - doe / 1460 + doe / 36524 - doe / 146096) / 365;
        &&& yoe <= 399
        &&& 365 * yoe + yoe / 4 - yoe / 100 <= doe
        &&& doe - (365 * yoe + yoe / 4 - yoe / 100) <= 365
    })) by (bit_vector);
    let yoe = (doe - doe / 1460 + doe / 36524 - doe / 146096) / 365;
    let doy: u32 = (doe - (365 * yoe + yoe / 4 - yoe / 100)) as u32;
    assert(doy <= 365 ==> ({
        let mp = (5 * doy + 2) / 153;
        &&& mp <= 11
        &&& (153 * mp + 2) / 5 <= doy
        &&& doy - (153 * mp + 2) / 5 + 1 <= 31
    })) by (bit_vector);
}

/// Within an era, the day `civil_from_days` picks exists in its month: up
/// to the month's length, and the 29th of February only in a leap year
/// (counted from March, year `yoe + 1` holds that February).
proof fn lemma_day_in_month(doe: u32)
    requires
        doe <= 146096,
    ensures
        ({
            let yoe = (doe - doe / 1460 + doe / 36524 - doe / 146096) / 365;
            let doy = doe - (365 * yoe + yoe / 4 - yoe / 100);
            let mp = (5 * doy + 2) / 153;
            let d = doy - (153 * mp + 2) / 5 + 1;
            let y1 = yoe + 1;
            &&& (mp == 1 || mp == 3 || mp == 6 || mp == 8) ==> d <= 30
            &&& mp == 11 ==> d <= 28 || (d == 29 && y1 % 4 == 0 && (y1 % 100 != 0 || y1 % 400 == 0))
        }),
{
    assert(doe <= 146096 ==> ({
        let yoe = (doe - doe / 1460 + doe / 36524 - doe / 146096) / 365;
        let doy = doe - (365 * yoe + yoe / 4 - yoe / 100);
        &&& yoe <= 399
        &&& 365 * yoe + yoe / 4 - yoe / 100 <= doe
        &&& doy <= 365
        &&& (doy == 365 ==> (yoe + 1) % 4 == 0 && ((yoe + 1) % 100 != 0 || (yoe + 1) % 400 == 0))
    })) by (bit_vector);
    let yoe = (doe - doe / 1460 + doe / 36524 - doe / 146096) / 365;
    let doy: u32 = (doe - (365 * yoe + yoe / 4 - yoe / 100)) as u32;
    assert(doy <= 365 ==> ({
        let mp = (5 * doy + 2) / 153;
        let d = doy - (153 * mp + 2) / 5 + 1;
        &&& (mp == 1 || mp == 3 || mp == 6 || mp == 8) ==> d <= 30
        &&& mp == 11 ==> d <= 28 || doy == 365
        &&& mp == 11 && doy == 365 ==> d == 29
    })) by (bit_vector);
}

pub(crate) proof fn lemma_day_in_month_pub(doe: int)
    requires
        0 <= doe <= 146096,
    ensures
        ({
            let yoe = (doe - doe / 1460 + doe / 36524 - doe / 146096) / 365;
            let doy = doe - (365 * yoe + yoe / 4 - yoe / 100);
            let mp = (5 * doy + 2) / 153;
            let d = doy - (153 * mp + 2) / 5 + 1;
            let y1 = yoe + 1;
            &&& (mp == 1 || mp == 3 || mp == 6 || mp == 8) ==> d <= 30
            &&& mp == 11 ==> d <= 28 || (d == 29 && y1 % 4 == 0 && (y1 % 100 != 0 || y1 % 400 == 0))
        }),
{
    lemma_day_in_month(doe as u32);
}

/// The bounds of the intermediate values of `civil_from_days` within an era.
pub proof fn lemma_day_of_era_pub(doe: int)
    requires
        0 <= doe <= 146096,
    ensures
        ({
            let yoe = (doe - doe / 1460 + doe / 36524 - doe / 146096) / 365;
            let doy = doe - (365 * yoe + yoe / 4 - yoe / 100);
            let mp = (5 * doy + 2) / 153;
            &&& 0 <= yoe <= 399
            &&& 0 <= doy <= 365
            &&& 0 <= mp <= 11
            &&& 1 <= doy - (153 * mp + 2) / 5 + 1 <= 31
        }),
{
    lemma_day_of_era(doe as u32);
}

/// `civil_from_days(z)`: year, month (1 to 12) and day (1 to 31).
pub fn civil_from_days_exec(z: i64) -> (r: (i64, u32, u32))
    requires
        civil_from_days_fits(z as int),
    ensures
        (r.0 as int, r.1 as int, r.2 as int) == civil_from_days(z as int),
        1 <= r.1 <= 12,
        1 <= r.2 <= 31,
{
    let z2: i64 = z + 719468;
    let era: i64 = if z2 >= 0 {
        z2 / 146097
    } else {
        -((-(z2 - 146096)) / 146097)
    };
    assert(era == z2 / 146097) by (nonlinear_arith)
        requires
            z2 >= 0 ==> era == z2 / 146097,
            z2 < 0 ==> era == -((-(z2 - 146096)) / 146097),
    ;
    assert(0 <= z2 - era * 146097 < 146097) by (nonlinear_arith)
        requires
            era == z2 / 146097,
    ;
    assert(-100000000000000 <= era <= 100000000000000) by (nonlinear_arith)
        requires
            era == z2 / 146097,
            i64::MIN <= z2 <= i64::MAX,
    ;
    let doe: u64 = (z2 - era * 146097) as u64;
    proof {
        lemma_day_of_era(doe as u32);
    }
    let yoe: u64 = (doe - doe / 1460 + doe / 36524 - doe / 146096) / 365;
    let y: i64 = yoe as i64 + era * 400;
    let doy: u64 = doe - (365 * yoe + yoe / 4 - yoe / 100);
    let mp: u64 = (5 * doy + 2) / 153;
    let d: u32 = (doy - (153 * mp + 2) / 5 + 1) as u32;
    let m: u32 = if mp < 10 {
        (mp + 3) as u32
    } else {
        (mp - 9) as u32
    };
    (if m <= 2 {
        y + 1
    } else {
        y
    }, m, d)
}

} // verus!

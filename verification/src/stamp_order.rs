//! When backup timestamps could be compared as plain strings: two UTC
//! RFC 3339 timestamps written the same way (`YYYY-MM-DDTHH:MM:SS`, the same
//! number of fraction digits, then `Z`), with fields in range, are in string
//! order exactly when they are in time order. Timestamps of different
//! shapes are not (`…01Z` sorts after `…01.5Z`), which is why the latest
//! backup is picked by time.

use vstd::prelude::*;
use crate::calendar::{calendar_days, lemma_calendar_days_ordered, law_days_from_civil_counts_days, valid_date};
use crate::order::{str_lt, lemma_str_lt_irreflexive};
use crate::ludusavi::latest;
use crate::text::{
    all_digits, digit_value, digits_value, free_of, is_digit, lemma_first_index_of_none,
    lemma_first_index_of_some, lemma_split_on_free, lemma_split_on_join, parse_signed, parse_unsigned,
    split_on, trim, trim_end, trim_start, utf8_len,
};
use crate::timestamp::{
    civil_overflows, date_fields, days_from_civil, frac_digits, frac_nanos, rfc3339, rfc3339_fields,
    secs_overflow, split_once, time_and_frac, time_fields, Rfc3339,
};

verus! {

// ---------------------------------------------------------------------------
// Strings of digits
// ---------------------------------------------------------------------------

pub open spec fn pow10(n: nat) -> nat
    decreases n,
{
    if n == 0 {
        1
    } else {
        10 * pow10((n - 1) as nat)
    }
}

/// Comparing two strings that start with pieces of one length compares the
/// pieces first, and the rests only where the pieces are equal.
proof fn lemma_str_lt_concat(p1: Seq<char>, r1: Seq<char>, p2: Seq<char>, r2: Seq<char>)
    requires
        p1.len() == p2.len(),
    ensures
        str_lt(p1 + r1, p2 + r2) == (str_lt(p1, p2) || (p1 == p2 && str_lt(r1, r2))),
    decreases p1.len(),
{
    if p1.len() == 0 {
        assert(p1 + r1 =~= r1);
        assert(p2 + r2 =~= r2);
        assert(p1 =~= p2);
        lemma_str_lt_irreflexive(p1);
    } else {
        assert((p1 + r1)[0] == p1[0]);
        assert((p2 + r2)[0] == p2[0]);
        if p1[0] == p2[0] {
            assert((p1 + r1).drop_first() =~= p1.drop_first() + r1);
            assert((p2 + r2).drop_first() =~= p2.drop_first() + r2);
            lemma_str_lt_concat(p1.drop_first(), r1, p2.drop_first(), r2);
            if p1.drop_first() == p2.drop_first() {
                assert(p1 =~= seq![p1[0]] + p1.drop_first());
                assert(p2 =~= seq![p2[0]] + p2.drop_first());
            }
        } else {
            assert(p1 != p2);
        }
    }
}

/// Strings of digits of one length compare as their values do.
proof fn lemma_digit_strings(p: Seq<char>, q: Seq<char>)
    requires
        p.len() == q.len(),
        all_digits(p),
        all_digits(q),
    ensures
        str_lt(p, q) == (digits_value(p) < digits_value(q)),
        (p == q) == (digits_value(p) == digits_value(q)),
    decreases p.len(),
{
    if p.len() == 0 {
        assert(p =~= q);
        lemma_str_lt_irreflexive(p);
    } else {
        let p1 = p.drop_last();
        let q1 = q.drop_last();
        let x = p.last();
        let y = q.last();
        assert(is_digit(p[p.len() - 1]) && is_digit(q[q.len() - 1]));
        assert(all_digits(p1) && all_digits(q1)) by {
            assert forall|i: int| 0 <= i < p1.len() implies is_digit(#[trigger] p1[i]) by {
                assert(p1[i] == p[i]);
            }
            assert forall|i: int| 0 <= i < q1.len() implies is_digit(#[trigger] q1[i]) by {
                assert(q1[i] == q[i]);
            }
        }
        lemma_digit_strings(p1, q1);
        assert(p =~= p1 + seq![x]);
        assert(q =~= q1 + seq![y]);
        lemma_str_lt_concat(p1, seq![x], q1, seq![y]);
        assert(str_lt(seq![x], seq![y]) == (x < y)) by {
            assert(seq![x].drop_first() =~= Seq::<char>::empty());
            assert(seq![y].drop_first() =~= Seq::<char>::empty());
            lemma_str_lt_irreflexive(Seq::<char>::empty());
        }
        if p == q {
            assert(p1 == q1 && x == y);
        } else if p1 == q1 {
            assert(x != y);
        }
    }
}

proof fn lemma_digits_value_bound(s: Seq<char>)
    requires
        all_digits(s),
    ensures
        digits_value(s) < pow10(s.len()),
    decreases s.len(),
{
    if s.len() > 0 {
        assert(is_digit(s[s.len() - 1]));
        assert(all_digits(s.drop_last())) by {
            assert forall|i: int| 0 <= i < s.drop_last().len() implies is_digit(#[trigger] s.drop_last()[i]) by {
                assert(s.drop_last()[i] == s[i]);
            }
        }
        lemma_digits_value_bound(s.drop_last());
    }
}

pub open spec fn zeros(n: nat) -> Seq<char> {
    Seq::new(n, |i: int| '0')
}

/// Zeros after a string of digits multiply its value by a power of ten.
proof fn lemma_digits_value_zeros(f: Seq<char>, n: nat)
    ensures
        digits_value(f + zeros(n)) == digits_value(f) * pow10(n),
    decreases n,
{
    let z = zeros(n);
    if n == 0 {
        assert(f + z =~= f);
        assert(pow10(0) == 1);
        assert(digits_value(f) * 1 == digits_value(f));
    } else {
        let z1 = zeros((n - 1) as nat);
        lemma_digits_value_zeros(f, (n - 1) as nat);
        assert((f + z).drop_last() =~= f + z1);
        assert((f + z).last() == '0');
        let a = digits_value(f);
        let b = pow10((n - 1) as nat);
        assert(digits_value(f + z) == digits_value(f + z1) * 10 + digit_value('0'));
        assert(digit_value('0') == 0);
        assert(pow10(n) == 10 * b);
        assert(a * b * 10 == a * (10 * b)) by (nonlinear_arith);
        assert(digits_value(f + z1) == a * b);
        assert(digits_value(f + z) == a * pow10(n));
    }
}

proof fn lemma_digits_utf8_len(s: Seq<char>)
    requires
        all_digits(s),
    ensures
        utf8_len(s) == s.len(),
    decreases s.len(),
{
    if s.len() > 0 {
        assert(is_digit(s[s.len() - 1]));
        assert(all_digits(s.drop_last())) by {
            assert forall|i: int| 0 <= i < s.drop_last().len() implies is_digit(#[trigger] s.drop_last()[i]) by {
                assert(s.drop_last()[i] == s[i]);
            }
        }
        lemma_digits_utf8_len(s.drop_last());
    }
}

/// A non-empty string of digits reads as its value, signed or not.
proof fn lemma_parse_digits(s: Seq<char>, max: nat)
    requires
        s.len() > 0,
        all_digits(s),
        digits_value(s) <= max,
    ensures
        parse_unsigned(s, max) == Some(digits_value(s)),
        parse_signed(s, max) == Some(digits_value(s) as int),
{
    assert(is_digit(s[0]));
}

// ---------------------------------------------------------------------------
// Splitting
// ---------------------------------------------------------------------------

proof fn lemma_split_three(x: Seq<char>, y: Seq<char>, z: Seq<char>, c: char)
    requires
        free_of(x, c),
        free_of(y, c),
        free_of(z, c),
    ensures
        split_on(x + seq![c] + y + seq![c] + z, c) == seq![x, y, z],
{
    lemma_split_on_join(x + seq![c] + y, z, c);
    lemma_split_on_join(x, y, c);
    lemma_split_on_free(x, c);
    lemma_split_on_free(y, c);
    lemma_split_on_free(z, c);
    assert(seq![x] + seq![y] + seq![z] =~= seq![x, y, z]);
}

proof fn lemma_split_once_at(a: Seq<char>, b: Seq<char>, c: char)
    requires
        free_of(a, c),
    ensures
        split_once(a + seq![c] + b, c) == Some((a, b)),
{
    let s = a + seq![c] + b;
    assert forall|j: int| 0 <= j < a.len() implies s[j] != c by {
        assert(s[j] == a[j]);
    }
    lemma_first_index_of_some(s, c, a.len() as int);
    assert(s.take(a.len() as int) =~= a);
    assert(s.skip(a.len() as int + 1) =~= b);
}

proof fn lemma_digits_free_of(s: Seq<char>, c: char)
    requires
        all_digits(s),
        !is_digit(c),
    ensures
        free_of(s, c),
{
    assert forall|j: int| 0 <= j < s.len() implies #[trigger] s[j] != c by {
        assert(is_digit(s[j]));
    }
}

proof fn lemma_free_concat(a: Seq<char>, b: Seq<char>, c: char)
    requires
        free_of(a, c),
        free_of(b, c),
    ensures
        free_of(a + b, c),
{
    assert forall|j: int| 0 <= j < (a + b).len() implies #[trigger] (a + b)[j] != c by {
        if j < a.len() {
            assert((a + b)[j] == a[j]);
        } else {
            assert((a + b)[j] == b[j - a.len()]);
        }
    }
}

// ---------------------------------------------------------------------------
// Reading a timestamp of the expected shape
// ---------------------------------------------------------------------------

/// The pieces of a timestamp: year, month, day, hour, minute, second and
/// the fraction digits (none for a timestamp without fraction).
pub type StampParts = (Seq<char>, Seq<char>, Seq<char>, Seq<char>, Seq<char>, Seq<char>, Seq<char>);

/// `YYYY-MM-DDTHH:MM:SS`, then `.` and the fraction digits when there are
/// any, then `Z`.
pub open spec fn stamp_text(p: StampParts) -> Seq<char> {
    p.0 + seq!['-'] + p.1 + seq!['-'] + p.2 + seq!['T'] + p.3 + seq![':'] + p.4 + seq![':'] + p.5 + if p.6.len()
        == 0 {
        seq!['Z']
    } else {
        seq!['.'] + p.6 + seq!['Z']
    }
}

/// Four digits of year, two each of month, day, hour, minute and second,
/// at most nine of fraction; a valid date, and a time of day in range.
pub open spec fn stamp_parts_ok(p: StampParts) -> bool {
    &&& p.0.len() == 4 && p.1.len() == 2 && p.2.len() == 2
    &&& p.3.len() == 2 && p.4.len() == 2 && p.5.len() == 2
    &&& p.6.len() <= 9
    &&& all_digits(p.0) && all_digits(p.1) && all_digits(p.2)
    &&& all_digits(p.3) && all_digits(p.4) && all_digits(p.5) && all_digits(p.6)
    &&& valid_date(digits_value(p.0) as int, digits_value(p.1) as int, digits_value(p.2) as int)
    &&& digits_value(p.3) < 24 && digits_value(p.4) < 60 && digits_value(p.5) < 60
}

/// The fraction in nanoseconds.
pub open spec fn frac_value(f: Seq<char>) -> int {
    (digits_value(f) * pow10((9 - f.len()) as nat)) as int
}

/// Seconds since the epoch of the date and time pieces.
pub open spec fn stamp_secs(p: StampParts) -> int {
    days_from_civil(digits_value(p.0) as int, digits_value(p.1) as int, digits_value(p.2) as int) * 86400
        + digits_value(p.3) * 3600 + digits_value(p.4) * 60 + digits_value(p.5)
}

pub open spec fn stamp_nanos(p: StampParts) -> int {
    stamp_secs(p) * 1000000000 + frac_value(p.6)
}

#[verifier::rlimit(40)]
proof fn lemma_stamp_fields(p: StampParts)
    requires
        stamp_parts_ok(p),
    ensures
        rfc3339_fields(stamp_text(p)) == Some((
            digits_value(p.0) as int,
            digits_value(p.1) as int,
            digits_value(p.2) as int,
            digits_value(p.3) as int,
            digits_value(p.4) as int,
            digits_value(p.5) as int,
            p.6,
        )),
{
    let t = stamp_text(p);
    let a = p.0 + seq!['-'] + p.1 + seq!['-'] + p.2;
    let h = p.3 + seq![':'] + p.4 + seq![':'] + p.5;
    let r = if p.6.len() == 0 {
        h
    } else {
        h + seq!['.'] + p.6
    };
    assert(t.drop_last() =~= a + seq!['T'] + r);
    assert(t.last() == 'Z');
    assert(t[0] == p.0[0]);
    assert(is_digit(p.0[0]));
    assert(trim_start(t) == t);
    assert(trim_end(t) == t);
    assert(trim(t) == t);
    // the date part
    lemma_digits_free_of(p.0, '-');
    lemma_digits_free_of(p.1, '-');
    lemma_digits_free_of(p.2, '-');
    lemma_digits_free_of(p.0, 'T');
    lemma_digits_free_of(p.1, 'T');
    lemma_digits_free_of(p.2, 'T');
    assert(free_of(seq!['-'], 'T'));
    lemma_free_concat(p.0, seq!['-'], 'T');
    lemma_free_concat(p.0 + seq!['-'], p.1, 'T');
    lemma_free_concat(p.0 + seq!['-'] + p.1, seq!['-'], 'T');
    lemma_free_concat(p.0 + seq!['-'] + p.1 + seq!['-'], p.2, 'T');
    lemma_split_once_at(a, r, 'T');
    lemma_split_three(p.0, p.1, p.2, '-');
    lemma_digits_value_bound(p.0);
    lemma_digits_value_bound(p.1);
    lemma_digits_value_bound(p.2);
    reveal_with_fuel(pow10, 5);
    lemma_parse_digits(p.0, i64::MAX as nat);
    lemma_parse_digits(p.1, u32::MAX as nat);
    lemma_parse_digits(p.2, u32::MAX as nat);
    assert(date_fields(a) == Some((digits_value(p.0) as int, digits_value(p.1) as int, digits_value(p.2) as int)));
    // the time part
    lemma_digits_free_of(p.3, ':');
    lemma_digits_free_of(p.4, ':');
    lemma_digits_free_of(p.5, ':');
    lemma_digits_free_of(p.3, '.');
    lemma_digits_free_of(p.4, '.');
    lemma_digits_free_of(p.5, '.');
    assert(free_of(seq![':'], '.'));
    lemma_free_concat(p.3, seq![':'], '.');
    lemma_free_concat(p.3 + seq![':'], p.4, '.');
    lemma_free_concat(p.3 + seq![':'] + p.4, seq![':'], '.');
    lemma_free_concat(p.3 + seq![':'] + p.4 + seq![':'], p.5, '.');
    if p.6.len() == 0 {
        lemma_first_index_of_none(h, '.');
        assert(time_and_frac(r) == (h, p.6));
    } else {
        lemma_split_once_at(h, p.6, '.');
        assert(time_and_frac(r) == (h, p.6));
    }
    lemma_split_three(p.3, p.4, p.5, ':');
    lemma_digits_value_bound(p.3);
    lemma_digits_value_bound(p.4);
    lemma_digits_value_bound(p.5);
    lemma_parse_digits(p.3, i64::MAX as nat);
    lemma_parse_digits(p.4, i64::MAX as nat);
    lemma_parse_digits(p.5, i64::MAX as nat);
    assert(time_fields(h) == Some((digits_value(p.3) as int, digits_value(p.4) as int, digits_value(p.5) as int)));
}

#[verifier::rlimit(40)]
proof fn lemma_stamp_frac(f: Seq<char>)
    requires
        f.len() <= 9,
        all_digits(f),
    ensures
        frac_nanos(f) == Some(Some(frac_value(f))),
        0 <= frac_value(f) < 1000000000,
{
    reveal_with_fuel(pow10, 10);
    let n = (9 - f.len()) as nat;
    let g = f + zeros(n);
    lemma_digits_value_zeros(f, n);
    assert(all_digits(g)) by {
        assert forall|i: int| 0 <= i < g.len() implies is_digit(#[trigger] g[i]) by {
            if i < f.len() {
                assert(g[i] == f[i]);
            } else {
                assert(g[i] == '0');
            }
        }
    }
    lemma_digits_value_bound(g);
    assert(g.len() == 9);
    if f.len() == 0 {
        assert(digits_value(f) == 0);
        let q = pow10(9);
        assert(0 * q == 0) by (nonlinear_arith);
        assert(frac_value(f) == 0);
    } else {
        lemma_digits_utf8_len(f);
        assert(f + Seq::new((9 - utf8_len(f)) as nat, |i: int| '0') =~= g);
        assert(frac_digits(f) == Some(g));
        lemma_parse_digits(g, i64::MAX as nat);
    }
}

/// A timestamp of the expected shape with fields in range reads as its
/// time in nanoseconds, with no overflow on the way.
#[verifier::rlimit(40)]
pub proof fn lemma_stamp_reads(p: StampParts)
    requires
        stamp_parts_ok(p),
    ensures
        rfc3339(stamp_text(p)) == Rfc3339::Epoch(stamp_nanos(p) as i128),
        i128::MIN <= stamp_nanos(p) <= i128::MAX,
{
    lemma_stamp_fields(p);
    lemma_stamp_frac(p.6);
    lemma_digits_value_bound(p.0);
    reveal_with_fuel(pow10, 5);
    let y = digits_value(p.0) as int;
    let m = digits_value(p.1) as int;
    let d = digits_value(p.2) as int;
    assert(0 <= y < 10000);
    assert(1 <= m <= 12 && 1 <= d <= 31);
    assert(!civil_overflows(y, m, d));
    let days = days_from_civil(y, m, d);
    assert(-800000 <= days <= 4000000);
    assert(!secs_overflow(days, digits_value(p.3) as int, digits_value(p.4) as int, digits_value(p.5) as int));
}

// ---------------------------------------------------------------------------
// String order and time order
// ---------------------------------------------------------------------------

/// The pieces in order, compared by value: year first, fraction last.
pub open spec fn pieces_before(a: StampParts, b: StampParts) -> bool {
    let (ya, ma, da, ha, ia, sa, fa) = (
        digits_value(a.0),
        digits_value(a.1),
        digits_value(a.2),
        digits_value(a.3),
        digits_value(a.4),
        digits_value(a.5),
        digits_value(a.6),
    );
    let (yb, mb, db, hb, ib, sb, fb) = (
        digits_value(b.0),
        digits_value(b.1),
        digits_value(b.2),
        digits_value(b.3),
        digits_value(b.4),
        digits_value(b.5),
        digits_value(b.6),
    );
    ya < yb || (ya == yb && (ma < mb || (ma == mb && (da < db || (da == db && (ha < hb || (ha == hb && (ia
        < ib || (ia == ib && (sa < sb || (sa == sb && fa < fb)))))))))))
}

/// A separator both strings share is skipped.
proof fn lemma_str_lt_shared(c: char, ra: Seq<char>, rb: Seq<char>)
    ensures
        str_lt(seq![c] + ra, seq![c] + rb) == str_lt(ra, rb),
{
    lemma_str_lt_concat(seq![c], ra, seq![c], rb);
    lemma_str_lt_irreflexive(seq![c]);
}

/// One piece of digits, then a shared separator, then the rest.
proof fn lemma_str_lt_piece(x: Seq<char>, y: Seq<char>, c: char, ra: Seq<char>, rb: Seq<char>)
    requires
        x.len() == y.len(),
        all_digits(x),
        all_digits(y),
    ensures
        str_lt(x + (seq![c] + ra), y + (seq![c] + rb)) == (digits_value(x) < digits_value(y) || (
        digits_value(x) == digits_value(y) && str_lt(ra, rb))),
{
    lemma_str_lt_concat(x, seq![c] + ra, y, seq![c] + rb);
    lemma_str_lt_shared(c, ra, rb);
    lemma_digit_strings(x, y);
}

spec fn stamp_tail(f: Seq<char>) -> Seq<char> {
    if f.len() == 0 {
        seq!['Z']
    } else {
        seq!['.'] + (f + seq!['Z'])
    }
}

/// The text after the year, after the month, and so on, down to the
/// seconds and the tail.
spec fn from_second(p: StampParts) -> Seq<char> {
    p.5 + stamp_tail(p.6)
}

spec fn from_minute(p: StampParts) -> Seq<char> {
    p.4 + (seq![':'] + from_second(p))
}

spec fn from_hour(p: StampParts) -> Seq<char> {
    p.3 + (seq![':'] + from_minute(p))
}

spec fn from_day(p: StampParts) -> Seq<char> {
    p.2 + (seq!['T'] + from_hour(p))
}

spec fn from_month(p: StampParts) -> Seq<char> {
    p.1 + (seq!['-'] + from_day(p))
}

proof fn lemma_stamp_text_nested(p: StampParts)
    ensures
        stamp_text(p) == p.0 + (seq!['-'] + from_month(p)),
{
    if p.6.len() == 0 {
        assert(stamp_text(p) =~= p.0 + (seq!['-'] + from_month(p)));
    } else {
        assert(seq!['.'] + p.6 + seq!['Z'] =~= seq!['.'] + (p.6 + seq!['Z']));
        assert(stamp_text(p) =~= p.0 + (seq!['-'] + from_month(p)));
    }
}

proof fn lemma_tail_order(fa: Seq<char>, fb: Seq<char>)
    requires
        fa.len() == fb.len(),
        all_digits(fa),
        all_digits(fb),
    ensures
        str_lt(stamp_tail(fa), stamp_tail(fb)) == (digits_value(fa) < digits_value(fb)),
{
    lemma_str_lt_irreflexive(seq!['Z']);
    if fa.len() == 0 {
        assert(digits_value(fa) == 0 && digits_value(fb) == 0);
    } else {
        lemma_str_lt_shared('.', fa + seq!['Z'], fb + seq!['Z']);
        lemma_str_lt_concat(fa, seq!['Z'], fb, seq!['Z']);
        lemma_digit_strings(fa, fb);
    }
}

#[verifier::rlimit(40)]
proof fn lemma_string_order(a: StampParts, b: StampParts)
    requires
        stamp_parts_ok(a),
        stamp_parts_ok(b),
        a.6.len() == b.6.len(),
    ensures
        str_lt(stamp_text(a), stamp_text(b)) == pieces_before(a, b),
{
    let (ya, ma, da, ha, ia, sa, fa) = (
        digits_value(a.0),
        digits_value(a.1),
        digits_value(a.2),
        digits_value(a.3),
        digits_value(a.4),
        digits_value(a.5),
        digits_value(a.6),
    );
    let (yb, mb, db, hb, ib, sb, fb) = (
        digits_value(b.0),
        digits_value(b.1),
        digits_value(b.2),
        digits_value(b.3),
        digits_value(b.4),
        digits_value(b.5),
        digits_value(b.6),
    );
    let s5 = str_lt(from_second(a), from_second(b));
    assert(s5 == (sa < sb || (sa == sb && fa < fb))) by {
        lemma_tail_order(a.6, b.6);
        lemma_str_lt_concat(a.5, stamp_tail(a.6), b.5, stamp_tail(b.6));
        lemma_digit_strings(a.5, b.5);
    }
    let s4 = str_lt(from_minute(a), from_minute(b));
    assert(s4 == (ia < ib || (ia == ib && s5))) by {
        lemma_str_lt_piece(a.4, b.4, ':', from_second(a), from_second(b));
    }
    let s3 = str_lt(from_hour(a), from_hour(b));
    assert(s3 == (ha < hb || (ha == hb && s4))) by {
        lemma_str_lt_piece(a.3, b.3, ':', from_minute(a), from_minute(b));
    }
    let s2 = str_lt(from_day(a), from_day(b));
    assert(s2 == (da < db || (da == db && s3))) by {
        lemma_str_lt_piece(a.2, b.2, 'T', from_hour(a), from_hour(b));
    }
    let s1 = str_lt(from_month(a), from_month(b));
    assert(s1 == (ma < mb || (ma == mb && s2))) by {
        lemma_str_lt_piece(a.1, b.1, '-', from_day(a), from_day(b));
    }
    assert(str_lt(stamp_text(a), stamp_text(b)) == (ya < yb || (ya == yb && s1))) by {
        lemma_stamp_text_nested(a);
        lemma_stamp_text_nested(b);
        lemma_str_lt_piece(a.0, b.0, '-', from_month(a), from_month(b));
    }
}

#[verifier::rlimit(40)]
proof fn lemma_time_order(a: StampParts, b: StampParts)
    requires
        stamp_parts_ok(a),
        stamp_parts_ok(b),
        a.6.len() == b.6.len(),
    ensures
        (stamp_nanos(a) < stamp_nanos(b)) == pieces_before(a, b),
{
    let (ya, ma, da) = (digits_value(a.0) as int, digits_value(a.1) as int, digits_value(a.2) as int);
    let (yb, mb, db) = (digits_value(b.0) as int, digits_value(b.1) as int, digits_value(b.2) as int);
    law_days_from_civil_counts_days(ya, ma, da);
    law_days_from_civil_counts_days(yb, mb, db);
    let ca = calendar_days(ya, ma, da);
    let cb = calendar_days(yb, mb, db);
    let date_before = ya < yb || (ya == yb && (ma < mb || (ma == mb && da < db)));
    let date_after = yb < ya || (yb == ya && (mb < ma || (mb == ma && db < da)));
    if date_before {
        lemma_calendar_days_ordered(ya, ma, da, yb, mb, db);
    }
    if date_after {
        lemma_calendar_days_ordered(yb, mb, db, ya, ma, da);
    }
    assert(ca < cb <==> date_before);
    assert(ca == cb <==> (ya == yb && ma == mb && da == db));
    // the time of day
    let soda = digits_value(a.3) * 3600 + digits_value(a.4) * 60 + digits_value(a.5);
    let sodb = digits_value(b.3) * 3600 + digits_value(b.4) * 60 + digits_value(b.5);
    assert(0 <= soda < 86400 && 0 <= sodb < 86400);
    let secs_a = ca * 86400 + soda;
    let secs_b = cb * 86400 + sodb;
    assert(stamp_secs(a) == secs_a && stamp_secs(b) == secs_b);
    assert(secs_a < secs_b <==> (ca < cb || (ca == cb && soda < sodb)));
    assert(secs_a == secs_b <==> (ca == cb && soda == sodb));
    // the fraction
    lemma_stamp_frac(a.6);
    lemma_stamp_frac(b.6);
    let q = pow10((9 - a.6.len()) as nat);
    assert(q > 0) by {
        lemma_pow10_positive((9 - a.6.len()) as nat);
    }
    let fa = digits_value(a.6) as int;
    let fb = digits_value(b.6) as int;
    assert((fa * q < fb * q) == (fa < fb)) by (nonlinear_arith)
        requires
            q > 0,
    ;
    assert(frac_value(a.6) == fa * q && frac_value(b.6) == fb * q);
    assert(stamp_nanos(a) < stamp_nanos(b) <==> (secs_a < secs_b || (secs_a == secs_b && frac_value(a.6)
        < frac_value(b.6))));
}

proof fn lemma_pow10_positive(n: nat)
    ensures
        pow10(n) > 0,
    decreases n,
{
    if n > 0 {
        lemma_pow10_positive((n - 1) as nat);
    }
}

/// Two UTC timestamps written the same way (`YYYY-MM-DDTHH:MM:SS`, the same
/// number of fraction digits, at most nine, then `Z`), with a valid date and
/// a time of day in range, both read as times, and the first is the smaller
/// string exactly when it is the earlier time.
pub proof fn law_timestamps_of_one_shape_sort_by_time(a: StampParts, b: StampParts)
    requires
        stamp_parts_ok(a),
        stamp_parts_ok(b),
        a.6.len() == b.6.len(),
    ensures
        rfc3339(stamp_text(a)) is Epoch,
        rfc3339(stamp_text(b)) is Epoch,
        str_lt(stamp_text(a), stamp_text(b)) <==> (rfc3339(stamp_text(a))->0 as int) < (rfc3339(
            stamp_text(b),
        )->0 as int),
{
    lemma_stamp_reads(a);
    lemma_stamp_reads(b);
    lemma_string_order(a, b);
    lemma_time_order(a, b);
}

/// Among a game's backup timestamps, all written the same way, the latest
/// in time (`ludusavi::latest_when`) is also the greatest string: for
/// timestamps of one shape, comparing strings would pick the same backup.
pub proof fn law_latest_backup_is_greatest_string(parts: Seq<StampParts>, k: nat)
    requires
        parts.len() > 0,
        forall|i: int| 0 <= i < parts.len() ==> stamp_parts_ok(#[trigger] parts[i]) && parts[i].6.len() == k,
    ensures
        ({
            let ws = parts.map_values(|p: StampParts| stamp_text(p));
            &&& latest(ws) is Some
            &&& forall|i: int| 0 <= i < ws.len() ==> !str_lt(latest(ws)->0, #[trigger] ws[i])
        }),
{
    let ws = parts.map_values(|p: StampParts| stamp_text(p));
    crate::ludusavi::law_latest_is_greatest(ws);
    let m = latest(ws)->0;
    let j = choose|j: int| 0 <= j < ws.len() && ws[j] == m;
    assert forall|i: int| 0 <= i < ws.len() implies !str_lt(m, #[trigger] ws[i]) by {
        assert(!crate::ludusavi::earlier(crate::ludusavi::stamp_time(m), crate::ludusavi::stamp_time(ws[i])));
        law_timestamps_of_one_shape_sort_by_time(parts[j], parts[i]);
    }
}

} // verus!

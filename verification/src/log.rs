//! The activity log's line format and rotation rule. The program appends
//! the lines to `nimbus.log`.

use vstd::prelude::*;
use crate::text::{append_chars, decimal, string_of, zero_pad, zero_padded};
use crate::timestamp::{civil_from_days, civil_from_days_exec};

verus! {

/// Past this size the log starts over rather than growing without bound.
pub const MAX_LOG_BYTES: u64 = 1_000_000;

/// Whether a log of `len` bytes is reset before the next line.
pub fn should_rotate(len: u64) -> (r: bool)
    ensures
        r == (len > MAX_LOG_BYTES),
{
    len > MAX_LOG_BYTES
}

/// UTC `YYYY-MM-DD HH:MM:SS` of `secs` seconds since the epoch.
pub open spec fn log_timestamp(secs: nat) -> Seq<char> {
    let (y, mo, d) = civil_from_days((secs / 86400) as int);
    let tod = secs % 86400;
    zero_pad(decimal(y as nat), 4) + seq!['-'] + zero_pad(decimal(mo as nat), 2) + seq!['-']
        + zero_pad(decimal(d as nat), 2) + seq![' '] + zero_pad(decimal(tod / 3600), 2) + seq![':']
        + zero_pad(decimal((tod % 3600) / 60), 2) + seq![':'] + zero_pad(decimal(tod % 60), 2)
}

proof fn lemma_year_nonnegative(z: int)
    requires
        z >= 0,
    ensures
        civil_from_days(z).0 >= 0,
{
    let z2 = z + 719468;
    let era = z2 / 146097;
    assert(era >= 0) by (nonlinear_arith)
        requires
            z2 >= 0,
            era == z2 / 146097,
    ;
    let doe = z2 - era * 146097;
    assert(0 <= doe) by (nonlinear_arith)
        requires
            era == z2 / 146097,
            doe == z2 - era * 146097,
    ;
    assert(doe - doe / 1460 >= 0) by (nonlinear_arith)
        requires
            doe >= 0,
    ;
}

fn push_padded(out: &mut Vec<char>, n: u64, width: usize, sep: Option<char>)
    ensures
        final(out)@ == old(out)@ + zero_pad(decimal(n as nat), width as nat) + match sep {
            Some(c) => seq![c],
            None => Seq::<char>::empty(),
        },
{
    let p = zero_padded(n, width);
    append_chars(out, &p);
    let ghost mid = out@;
    match sep {
        Some(c) => {
            out.push(c);
            assert(out@ =~= mid + seq![c]);
        },
        None => {
            assert(out@ =~= mid + Seq::<char>::empty());
        },
    }
}

/// The timestamp that prefixes each log line.
pub fn format_log_timestamp(secs: u64) -> (r: String)
    ensures
        r@ == log_timestamp(secs as nat),
{
    let days: i64 = (secs / 86400) as i64;
    let tod = secs % 86400;
    proof {
        lemma_year_nonnegative(days as int);
    }
    let (y, mo, d) = civil_from_days_exec(days);
    let mut out: Vec<char> = Vec::new();
    push_padded(&mut out, y as u64, 4, Some('-'));
    push_padded(&mut out, mo as u64, 2, Some('-'));
    push_padded(&mut out, d as u64, 2, Some(' '));
    push_padded(&mut out, tod / 3600, 2, Some(':'));
    push_padded(&mut out, (tod % 3600) / 60, 2, Some(':'));
    push_padded(&mut out, tod % 60, 2, None);
    assert(out@ =~= log_timestamp(secs as nat));
    string_of(&out)
}

/// A line of the log file: `[stamp] msg`.
pub fn log_record(stamp: &str, msg: &str) -> (r: String)
    ensures
        r@ == seq!['['] + stamp@ + "] "@ + msg@,
{
    let mut s = "[".to_owned();
    s.append(stamp);
    s.append("] ");
    s.append(msg);
    proof {
        reveal_strlit("[");
    }
    s
}

/// The same message as printed on standard error.
pub fn console_line(msg: &str) -> (r: String)
    ensures
        r@ == "nimbus: "@ + msg@,
{
    let mut s = "nimbus: ".to_owned();
    s.append(msg);
    s
}

} // verus!

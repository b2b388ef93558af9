//! The text of the memory stress program's report: the failure line that
//! names a check and where it failed, and the throughput line with two
//! decimals computed without floating point.

use vstd::prelude::*;

use crate::decimal::{dec_digits, decimal_digits};

verus! {

/// The failure line: `FAIL <what> size=<size> off=<off>` and a newline.
pub open spec fn spec_fail_message(what: Seq<u8>, size: u64, off: u64) -> Seq<u8> {
    seq![70u8, 65, 73, 76, 32] + what + seq![32u8, 115, 105, 122, 101, 61] + dec_digits(size as nat)
        + seq![32u8, 111, 102, 102, 61] + dec_digits(off as nat) + seq![10u8]
}

/// Append all of `b` to `out`.
fn append(out: &mut Vec<u8>, b: &[u8])
    ensures
        final(out)@ == old(out)@ + b@,
{
    let mut k: usize = 0;
    while k < b.len()
        invariant
            k <= b.len(),
            out@ == old(out)@ + b@.subrange(0, k as int),
        decreases b.len() - k,
    {
        out.push(b[k]);
        proof {
            assert(b@.subrange(0, k + 1) =~= b@.subrange(0, k as int).push(b@[k as int]));
        }
        k = k + 1;
    }
    proof {
        assert(b@.subrange(0, b.len() as int) =~= b@);
    }
}

/// The failure line for the check `what` at `size` and offset code `off`.
pub fn fail_message(what: &[u8], size: u64, off: u64) -> (r: Vec<u8>)
    ensures
        r@ == spec_fail_message(what@, size, off),
{
    let mut out: Vec<u8> = Vec::new();
    append(&mut out, &[70u8, 65, 73, 76, 32]);
    append(&mut out, what);
    append(&mut out, &[32u8, 115, 105, 122, 101, 61]);
    let s = decimal_digits(size);
    append(&mut out, s.as_slice());
    append(&mut out, &[32u8, 111, 102, 102, 61]);
    let o = decimal_digits(off);
    append(&mut out, o.as_slice());
    append(&mut out, &[10u8]);
    proof {
        assert(out@ =~= spec_fail_message(what@, size, off));
    }
    out
}

/// A monotonic clock reading as nanoseconds, wrapping as the release build
/// does.
pub fn clock_nanos(sec: i64, nsec: i64) -> (r: u64)
    ensures
        r == (sec as u64).wrapping_mul(1_000_000_000).wrapping_add(nsec as u64),
{
    (sec as u64).wrapping_mul(1_000_000_000).wrapping_add(nsec as u64)
}

/// The copy rate of `bytes` in `best` nanoseconds, in hundredths of a GB/s
/// (a zero time counts as one nanosecond).
pub fn rate_x100(bytes: u64, best: u64) -> (r: u64)
    requires
        bytes * 100_000 <= u64::MAX,
    ensures
        r == bytes * 100_000 / (if best == 0 { 1 } else { best as int }) / 1_000,
{
    let d = if best == 0 {
        1
    } else {
        best
    };
    bytes * 100_000 / d / 1_000
}

/// The rate line: the label, the rate with two decimals, and ` GB/s`.
pub open spec fn spec_rate_line(label: Seq<u8>, x100: u64) -> Seq<u8> {
    label + dec_digits((x100 / 100) as nat) + seq![46u8] + dec_digits((x100 % 100 / 10) as nat)
        + dec_digits((x100 % 10) as nat) + seq![32u8, 71, 66, 47, 115, 10]
}

/// The rate line for a rate of `x100` hundredths of a GB/s.
pub fn rate_line(label: &[u8], x100: u64) -> (r: Vec<u8>)
    ensures
        r@ == spec_rate_line(label@, x100),
{
    let mut out: Vec<u8> = Vec::new();
    append(&mut out, label);
    let whole = decimal_digits(x100 / 100);
    append(&mut out, whole.as_slice());
    append(&mut out, &[46u8]);
    let tenths = decimal_digits(x100 % 100 / 10);
    append(&mut out, tenths.as_slice());
    let hundredths = decimal_digits(x100 % 10);
    append(&mut out, hundredths.as_slice());
    append(&mut out, &[32u8, 71, 66, 47, 115, 10]);
    proof {
        assert(out@ =~= spec_rate_line(label@, x100));
    }
    out
}

} // verus!

//! Decimal text of integers: the digits a progress report prints, and the
//! `/proc/self/fd/<fd>` path through which `fexecve` runs a descriptor.

use vstd::prelude::*;

verus! {

/// The decimal digits of `v`, most significant first, with no leading zero
/// (zero itself is `0`).
pub open spec fn dec_digits(v: nat) -> Seq<u8>
    decreases v,
{
    if v < 10 {
        seq![(48 + v) as u8]
    } else {
        dec_digits(v / 10).push((48 + v % 10) as u8)
    }
}

/// The decimal text of a signed integer: a `-` before the digits of its
/// magnitude when it is negative.
pub open spec fn dec_text(i: int) -> Seq<u8> {
    if i < 0 {
        seq![45u8] + dec_digits((-i) as nat)
    } else {
        dec_digits(i as nat)
    }
}

/// Ten to the power `k`.
pub open spec fn pow10(k: nat) -> nat
    decreases k,
{
    if k == 0 {
        1
    } else {
        10 * pow10((k - 1) as nat)
    }
}

pub proof fn lemma_dec_digits_len(v: nat, k: nat)
    requires
        k >= 1,
        v < pow10(k),
    ensures
        1 <= dec_digits(v).len() <= k,
    decreases v,
{
    if v >= 10 {
        assert(k >= 2) by {
            if k == 1 {
                assert(pow10(1) == 10 * pow10(0));
            }
        }
        let p = pow10((k - 1) as nat);
        assert(pow10(k) == 10 * p);
        assert(v / 10 < p) by (nonlinear_arith)
            requires
                v < 10 * p,
        ;
        lemma_dec_digits_len(v / 10, (k - 1) as nat);
    }
}

/// The decimal digits of `v`.
pub fn decimal_digits(v: u64) -> (r: Vec<u8>)
    ensures
        r@ == dec_digits(v as nat),
{
    let mut buf: Vec<u8> = vec![0u8; 20];
    let mut i: usize = 20;
    let mut v = v;
    let ghost v0 = v as nat;
    proof {
        reveal_with_fuel(pow10, 21);
        assert(pow10(20) == 100000000000000000000);
        lemma_dec_digits_len(v0, 20);
    }
    loop
        invariant_except_break
            buf.len() == 20,
            i <= 20,
            dec_digits(v0) == dec_digits(v as nat) + buf@.subrange(i as int, 20),
            dec_digits(v0).len() <= 20,
            pow10(20) == 100000000000000000000,
        ensures
            buf.len() == 20,
            i <= 20,
            dec_digits(v0) == buf@.subrange(i as int, 20),
        decreases v,
    {
        proof {
            assert(dec_digits(v as nat).len() >= 1) by {
                lemma_dec_digits_len(v as nat, 20);
            }
        }
        i = i - 1;
        let d = (v % 10) as u8;
        buf.set(i, 48 + d);
        let ghost old_v = v as nat;
        v = v / 10;
        if v == 0 {
            proof {
                assert(old_v < 10);
                assert(buf@.subrange(i as int, 20) =~= seq![(48 + old_v) as u8] + buf@.subrange(i + 1, 20));
                assert(dec_digits(v0) =~= buf@.subrange(i as int, 20));
            }
            break;
        }
        proof {
            assert(dec_digits(old_v) == dec_digits(v as nat).push((48 + old_v % 10) as u8));
            assert(buf@.subrange(i as int, 20) =~= seq![(48 + old_v % 10) as u8] + buf@.subrange(i + 1, 20));
            assert(dec_digits(v as nat).push((48 + old_v % 10) as u8) + buf@.subrange(i + 1, 20)
                =~= dec_digits(v as nat) + buf@.subrange(i as int, 20));
        }
    }
    let mut out: Vec<u8> = Vec::new();
    let mut k = i;
    while k < 20
        invariant
            i <= k <= 20,
            buf.len() == 20,
            out@ == buf@.subrange(i as int, k as int),
        decreases 20 - k,
    {
        out.push(buf[k]);
        proof {
            assert(buf@.subrange(i as int, k + 1) =~= buf@.subrange(i as int, k as int).push(buf@[k as int]));
        }
        k = k + 1;
    }
    out
}

/// The decimal text of `i`, from `rustix::path::DecInt::new`, which formats
/// an integer as a path component: the digits of its magnitude, after a `-`
/// when it is negative.
#[verifier::external_body]
fn dec_int_text(i: i32) -> (r: Vec<u8>)
    ensures
        r@ == dec_text(i as int),
{
    rustix::path::DecInt::new(i).as_bytes().to_vec()
}

/// The path that names descriptor `fd` under `/proc/self/fd`, with its
/// terminating NUL.
pub open spec fn spec_proc_fd_path(fd: i32) -> Seq<u8> {
    seq![47u8, 112, 114, 111, 99, 47, 115, 101, 108, 102, 47, 102, 100, 47] + dec_text(fd as int)
        + seq![0u8]
}

/// The path that names descriptor `fd` under `/proc/self/fd`, NUL-terminated.
pub fn proc_fd_path(fd: i32) -> (r: Vec<u8>)
    ensures
        r@ == spec_proc_fd_path(fd),
{
    let mut out: Vec<u8> = vec![47u8, 112, 114, 111, 99, 47, 115, 101, 108, 102, 47, 102, 100, 47];
    let digits = dec_int_text(fd);
    let mut k: usize = 0;
    let ghost prefix = out@;
    while k < digits.len()
        invariant
            k <= digits.len(),
            out@ == prefix + digits@.subrange(0, k as int),
        decreases digits.len() - k,
    {
        out.push(digits[k]);
        proof {
            assert(digits@.subrange(0, k + 1) =~= digits@.subrange(0, k as int).push(digits@[k as int]));
        }
        k = k + 1;
    }
    out.push(0);
    proof {
        assert(digits@.subrange(0, digits.len() as int) =~= digits@);
        assert(out@ =~= spec_proc_fd_path(fd));
    }
    out
}


/// The character of digit `d` (below 16): `0`-`9`, then `a`-`f`, or `A`-`F`
/// when `upper`.
pub open spec fn digit_char(d: nat, upper: bool) -> u8 {
    if d < 10 {
        (48 + d) as u8
    } else if upper {
        (55 + d) as u8
    } else {
        (87 + d) as u8
    }
}

/// The digits of `v` in `base`, most significant first, with no leading
/// zero (zero itself is `0`).
pub open spec fn radix_digits(v: nat, base: nat, upper: bool) -> Seq<u8>
    recommends
        2 <= base <= 16,
    decreases v,
{
    if v < base || base < 2 {
        seq![digit_char(v % 16, upper)]
    } else {
        proof {
            assert(v / base < v) by (nonlinear_arith)
                requires
                    v >= base,
                    base >= 2,
            ;
        }
        radix_digits(v / base, base, upper).push(digit_char(v % base, upper))
    }
}

/// The digits of `v` in `base` (2 to 16), as `{:o}`, `{}`, `{:x}` and
/// `{:X}` print an unsigned integer.
pub fn radix_text(v: u64, base: u64, upper: bool) -> (r: Vec<u8>)
    requires
        2 <= base <= 16,
    ensures
        r@ == radix_digits(v as nat, base as nat, upper),
{
    let mut rev: Vec<u8> = Vec::new();
    let mut w = v;
    let ghost v0 = v as nat;
    loop
        invariant_except_break
            2 <= base <= 16,
            radix_digits(v0, base as nat, upper) == radix_digits(w as nat, base as nat, upper)
                + rev@.reverse(),
        ensures
            radix_digits(v0, base as nat, upper) == rev@.reverse(),
        decreases w,
    {
        let d = w % base;
        let c = if d < 10 {
            48 + d as u8
        } else if upper {
            55 + d as u8
        } else {
            87 + d as u8
        };
        let ghost old_w = w as nat;
        let ghost old_rev = rev@;
        rev.push(c);
        proof {
            assert(rev@.reverse() =~= seq![c] + old_rev.reverse());
        }
        proof {
            assert(c == digit_char(old_w % (base as nat), upper));
        }
        if w < base {
            proof {
                assert(old_w % (base as nat) == old_w) by (nonlinear_arith)
                    requires
                        old_w < base,
                ;
                assert(old_w % 16 == old_w);
                assert(radix_digits(old_w, base as nat, upper) == seq![c]);
            }
            break;
        }
        w = w / base;
        proof {
            assert(radix_digits(old_w, base as nat, upper) == radix_digits(w as nat, base as nat, upper).push(c));
            assert(radix_digits(w as nat, base as nat, upper).push(c) + old_rev.reverse()
                =~= radix_digits(w as nat, base as nat, upper) + rev@.reverse());
        }
    }
    let mut out: Vec<u8> = Vec::new();
    let mut k = rev.len();
    while k > 0
        invariant
            k <= rev.len(),
            out@ == rev@.reverse().subrange(0, (rev.len() - k) as int),
        decreases k,
    {
        k = k - 1;
        out.push(rev[k]);
        proof {
            assert(rev@.reverse().subrange(0, (rev.len() - k) as int) =~= rev@.reverse().subrange(0, (rev.len() - k - 1) as int).push(rev@[k as int]));
        }
    }
    proof {
        assert(rev@.reverse().subrange(0, rev.len() as int) =~= rev@.reverse());
    }
    out
}

/// The text `{}` prints for a signed integer: a `-` before the digits of
/// its magnitude when it is negative.
pub fn signed_text(v: i64) -> (r: Vec<u8>)
    ensures
        r@ == if v < 0 {
            seq![45u8] + radix_digits((-v) as nat, 10, false)
        } else {
            radix_digits(v as nat, 10, false)
        },
{
    if v < 0 {
        let mag: u64 = if v == i64::MIN {
            0x8000_0000_0000_0000
        } else {
            (-v) as u64
        };
        let digits = radix_text(mag, 10, false);
        let mut out: Vec<u8> = vec![45u8];
        let mut k: usize = 0;
        while k < digits.len()
            invariant
                k <= digits.len(),
                out@ == seq![45u8] + digits@.subrange(0, k as int),
            decreases digits.len() - k,
        {
            out.push(digits[k]);
            proof {
                assert(digits@.subrange(0, k + 1) =~= digits@.subrange(0, k as int).push(digits@[k as int]));
            }
            k = k + 1;
        }
        proof {
            assert(digits@.subrange(0, digits.len() as int) =~= digits@);
        }
        out
    } else {
        radix_text(v as u64, 10, false)
    }
}

/// The two renderings of decimal digits agree: the digits of `v` in base
/// ten, lower case, are its decimal digits.
pub proof fn law_decimal_is_radix_ten(v: nat)
    ensures
        radix_digits(v, 10, false) == dec_digits(v),
    decreases v,
{
    if v >= 10 {
        law_decimal_is_radix_ten(v / 10);
    }
}

/// The digit a character writes: `0`-`9`, `a`-`f` and `A`-`F` are 0 to 15,
/// any other character 99.
pub open spec fn char_digit(c: u8) -> int {
    if 48 <= c <= 57 {
        c - 48
    } else if 97 <= c <= 102 {
        c - 87
    } else if 65 <= c <= 70 {
        c - 55
    } else {
        99
    }
}

/// The value of the digit characters `t` in `base`, most significant
/// first.
pub open spec fn text_value(t: Seq<u8>, base: int) -> int
    decreases t.len(),
{
    if t.len() == 0 {
        0
    } else {
        text_value(t.drop_last(), base) * base + char_digit(t.last())
    }
}

/// The digits printed for `v` in `base` read back as `v`: each character
/// is a digit of the base, letters in the case asked for, and the text has
/// no leading zero (zero itself prints as `0`).
pub proof fn law_radix_digits_read_back(v: nat, base: nat, upper: bool)
    requires
        2 <= base <= 16,
    ensures
        text_value(radix_digits(v, base, upper), base as int) == v,
        radix_digits(v, base, upper).len() >= 1,
        forall|k: int|
            0 <= k < radix_digits(v, base, upper).len() ==> char_digit(
                #[trigger] radix_digits(v, base, upper)[k],
            ) < base,
        forall|k: int|
            0 <= k < radix_digits(v, base, upper).len() ==> (upper ==> !(97 <= #[trigger] radix_digits(
                v,
                base,
                upper,
            )[k] <= 102)) && (!upper ==> !(65 <= radix_digits(v, base, upper)[k] <= 70)),
        v > 0 ==> radix_digits(v, base, upper)[0] != 48,
    decreases v,
{
    let t = radix_digits(v, base, upper);
    if v < base {
        assert(v % 16 == v);
        assert(t.drop_last() =~= Seq::<u8>::empty());
        assert(char_digit(digit_char(v, upper)) == v);
        assert(text_value(t, base as int) == text_value(t.drop_last(), base as int) * base + char_digit(t.last()));
        assert(text_value(Seq::<u8>::empty(), base as int) == 0);
    } else {
        let q = v / base;
        let r = v % base;
        assert(q < v && q >= 1 && v == q * base + r && r < base) by (nonlinear_arith)
            requires
                v >= base,
                base >= 2,
                q == v / base,
                r == v % base,
        ;
        law_radix_digits_read_back(q, base, upper);
        let h = radix_digits(q, base, upper);
        assert(t == h.push(digit_char(r, upper)));
        assert(t.drop_last() =~= h);
        assert(t[0] == h[0]);
        assert(char_digit(digit_char(r, upper)) == r);
        assert(text_value(t, base as int) == text_value(h, base as int) * base + r);
        assert forall|k: int| 0 <= k < t.len() implies char_digit(#[trigger] t[k]) < base by {
            if k < h.len() {
                assert(t[k] == h[k]);
            }
        }
        assert forall|k: int| 0 <= k < t.len() implies (upper ==> !(97 <= #[trigger] t[k] <= 102)) && (
        !upper ==> !(65 <= t[k] <= 70)) by {
            if k < h.len() {
                assert(t[k] == h[k]);
            }
        }
    }
}

/// The decimal digits of `v` read back as `v`: each is `0` to `9`, and
/// there is no leading zero (zero itself is `0`).
pub proof fn law_dec_digits_read_back(v: nat)
    ensures
        text_value(dec_digits(v), 10) == v,
        dec_digits(v).len() >= 1,
        forall|k: int| 0 <= k < dec_digits(v).len() ==> 48 <= #[trigger] dec_digits(v)[k] <= 57,
        v > 0 ==> dec_digits(v)[0] != 48,
{
    law_decimal_is_radix_ten(v);
    law_radix_digits_read_back(v, 10, false);
    assert forall|k: int| 0 <= k < dec_digits(v).len() implies 48 <= #[trigger] dec_digits(v)[k] <= 57 by {
        let c = radix_digits(v, 10, false)[k];
        assert(char_digit(c) < 10);
        assert(!(65 <= c <= 70));
    }
}

} // verus!

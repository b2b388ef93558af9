//! Reading the real, effective and saved ids out of `/proc/self/status`,
//! whose `Uid:` and `Gid:` lines each hold the three numbers (and the
//! filesystem id) after their tag.

use vstd::prelude::*;

use crate::maps::{lemma_newline_bounds, newline_from};

verus! {

/// `s[i..j]` starts with `tag`.
pub open spec fn starts_with_at(s: Seq<u8>, i: int, j: int, tag: Seq<u8>) -> bool {
    i + tag.len() <= j && s.subrange(i, i + tag.len()) == tag
}

/// The first line from `i` on that starts with `tag`: the range of the rest
/// of that line after the tag. Lines are cut at each newline; the text after
/// the last newline is a line too, even when empty.
pub open spec fn tagged_line(s: Seq<u8>, tag: Seq<u8>, i: int) -> Option<(int, int)>
    decreases s.len() + 1 - i,
{
    if !(0 <= i <= s.len()) {
        None
    } else {
        let j = newline_from(s, i);
        if starts_with_at(s, i, j, tag) {
            Some((i + tag.len(), j))
        } else if j < s.len() {
            proof {
                lemma_newline_bounds(s, i);
            }
            tagged_line(s, tag, j + 1)
        } else {
            None
        }
    }
}

/// The numbers finished within `s[..p]` and the one still being read, if
/// any. A number is a maximal run of decimal digits, its value wrapping in a
/// `u32`.
pub open spec fn number_scan(s: Seq<u8>, p: int) -> (Seq<u32>, Option<u32>)
    decreases p,
{
    if p <= 0 {
        (Seq::empty(), None)
    } else {
        let (ns, cur) = number_scan(s, p - 1);
        let b = s[p - 1];
        if 48 <= b <= 57 {
            let base: u32 = match cur {
                Some(v) => v,
                None => 0,
            };
            (ns, Some(base.wrapping_mul(10).wrapping_add((b - 48) as u32)))
        } else {
            match cur {
                Some(v) => (ns.push(v), None),
                None => (ns, None),
            }
        }
    }
}

/// The numbers of `s`, in order.
pub open spec fn numbers(s: Seq<u8>) -> Seq<u32> {
    let (ns, cur) = number_scan(s, s.len() as int);
    match cur {
        Some(v) => ns.push(v),
        None => ns,
    }
}

/// The three ids of the first line tagged `tag`, when it holds at least
/// three numbers.
pub open spec fn spec_status_ids(s: Seq<u8>, tag: Seq<u8>) -> Option<Seq<u32>> {
    match tagged_line(s, tag, 0) {
        None => None,
        Some((a, b)) => {
            let ns = numbers(s.subrange(a, b));
            if ns.len() >= 3 {
                Some(ns.take(3))
            } else {
                None
            }
        },
    }
}

/// `s[i..j]` starts with `tag`.
fn line_starts_with(s: &[u8], i: usize, j: usize, tag: &[u8]) -> (r: bool)
    requires
        i <= j <= s.len(),
    ensures
        r == starts_with_at(s@, i as int, j as int, tag@),
{
    if tag.len() > j - i {
        return false;
    }
    let mut k: usize = 0;
    while k < tag.len()
        invariant
            k <= tag.len(),
            i + tag.len() <= j <= s.len(),
            s@.subrange(i as int, i + k) == tag@.subrange(0, k as int),
        decreases tag.len() - k,
    {
        if s[i + k] != tag[k] {
            proof {
                assert(s@.subrange(i as int, i + tag.len())[k as int] != tag@[k as int]);
            }
            return false;
        }
        proof {
            assert(s@.subrange(i as int, i + k + 1) =~= s@.subrange(i as int, i + k).push(s@[i + k]));
            assert(tag@.subrange(0, k + 1) =~= tag@.subrange(0, k as int).push(tag@[k as int]));
        }
        k = k + 1;
    }
    proof {
        assert(tag@.subrange(0, tag.len() as int) =~= tag@);
    }
    true
}

/// The numbers of `s[a..b]`, in order.
fn line_numbers(s: &[u8], a: usize, b: usize) -> (r: Vec<u32>)
    requires
        a <= b <= s.len(),
    ensures
        r@ == numbers(s@.subrange(a as int, b as int)),
{
    let ghost line = s@.subrange(a as int, b as int);
    let mut ns: Vec<u32> = Vec::new();
    let mut cur: Option<u32> = None;
    let mut p = a;
    while p < b
        invariant
            a <= p <= b <= s.len(),
            line == s@.subrange(a as int, b as int),
            (ns@, cur) == number_scan(line, p - a),
        decreases b - p,
    {
        let c = s[p];
        assert(line[p - a] == c);
        if 48 <= c && c <= 57 {
            let base: u32 = match cur {
                Some(v) => v,
                None => 0,
            };
            cur = Some(base.wrapping_mul(10).wrapping_add((c - 48) as u32));
        } else {
            match cur {
                Some(v) => {
                    ns.push(v);
                },
                None => {},
            }
            cur = None;
        }
        p = p + 1;
    }
    match cur {
        Some(v) => {
            ns.push(v);
        },
        None => {},
    }
    ns
}

/// The real, effective and saved ids from the first line of the status
/// text `s` that starts with `tag`; `None` when no line does or that line
/// holds fewer than three numbers.
pub fn status_ids(s: &[u8], tag: &[u8]) -> (r: Option<[u32; 3]>)
    ensures
        match r {
            None => spec_status_ids(s@, tag@) is None,
            Some(ids) => spec_status_ids(s@, tag@) == Some(ids@),
        },
{
    let mut i: usize = 0;
    loop
        invariant
            i <= s.len(),
            tagged_line(s@, tag@, 0) == tagged_line(s@, tag@, i as int),
        decreases s.len() + 1 - i,
    {
        let mut j = i;
        while j < s.len() && s[j] != 10
            invariant
                i <= j <= s.len(),
                newline_from(s@, j as int) == newline_from(s@, i as int),
            decreases s.len() - j,
        {
            j = j + 1;
        }
        if line_starts_with(s, i, j, tag) {
            let ns = line_numbers(s, i + tag.len(), j);
            if ns.len() >= 3 {
                let ids = [ns[0], ns[1], ns[2]];
                proof {
                    assert(ids@ =~= ns@.take(3));
                }
                return Some(ids);
            }
            return None;
        }
        if j == s.len() {
            return None;
        }
        i = j + 1;
    }
}

/// The decimal value of the digit bytes `d`, most significant first.
pub open spec fn digits_number(d: Seq<u8>) -> int
    decreases d.len(),
{
    if d.len() == 0 {
        0
    } else {
        digits_number(d.drop_last()) * 10 + (d.last() - 48)
    }
}

/// The numbers found so far, with the one being read added.
pub open spec fn flushed(scan: (Seq<u32>, Option<u32>)) -> Seq<u32> {
    match scan.1 {
        Some(v) => scan.0.push(v),
        None => scan.0,
    }
}

proof fn lemma_scan_run(s: Seq<u8>, a: int, b: int)
    requires
        0 <= a <= b <= s.len(),
        b - a <= 9,
        forall|m: int| a <= m < b ==> 48 <= #[trigger] s[m] <= 57,
        number_scan(s, a).1 is None,
    ensures
        number_scan(s, b).0 == number_scan(s, a).0,
        a == b ==> number_scan(s, b).1 is None,
        a < b ==> number_scan(s, b).1 == Some(digits_number(s.subrange(a, b)) as u32),
        0 <= digits_number(s.subrange(a, b)) < if b - a <= 8 { 100_000_000int } else { 1_000_000_000int },
        b - a <= 7 ==> digits_number(s.subrange(a, b)) < 10_000_000,
        b - a <= 6 ==> digits_number(s.subrange(a, b)) < 1_000_000,
        b - a <= 5 ==> digits_number(s.subrange(a, b)) < 100_000,
        b - a <= 4 ==> digits_number(s.subrange(a, b)) < 10_000,
        b - a <= 3 ==> digits_number(s.subrange(a, b)) < 1_000,
        b - a <= 2 ==> digits_number(s.subrange(a, b)) < 100,
        b - a <= 1 ==> digits_number(s.subrange(a, b)) < 10,
    decreases b - a,
{
    if b > a {
        lemma_scan_run(s, a, b - 1);
        let d = s.subrange(a, b);
        assert(d.drop_last() =~= s.subrange(a, b - 1));
        assert(d.last() == s[b - 1]);
        let v = digits_number(s.subrange(a, b - 1));
        let c = s[b - 1] - 48;
        assert(0 <= c <= 9);
        assert(0 <= v * 10 + c <= 10 * v + 9) by (nonlinear_arith)
            requires
                0 <= v,
                0 <= c <= 9,
        ;
        if b - 1 > a {
            let w = number_scan(s, b - 1).1.unwrap();
            assert(w as int == v);
            let prod: nat = (w as nat * 10) as nat;
            assert(prod < 0x1_0000_0000);
            vstd::arithmetic::div_mod::lemma_small_mod(prod, 0x1_0000_0000nat);
            assert(w.wrapping_mul(10) as int == prod);
        } else {
            assert(s.subrange(a, b - 1).len() == 0);
            assert(v == 0);
        }
    } else {
        assert(s.subrange(a, b).len() == 0);
    }
}

proof fn lemma_scan_gap(s: Seq<u8>, a: int, b: int)
    requires
        0 <= a < b <= s.len(),
        forall|m: int| a <= m < b ==> !(48 <= #[trigger] s[m] <= 57),
    ensures
        number_scan(s, b) == (flushed(number_scan(s, a)), None::<u32>),
    decreases b - a,
{
    if b - 1 > a {
        lemma_scan_gap(s, a, b - 1);
    }
}

proof fn lemma_scan_prefix(s: Seq<u8>, p: int, q: int)
    requires
        0 <= p <= q <= s.len(),
    ensures
        number_scan(s, p).0.len() <= number_scan(s, q).0.len(),
        number_scan(s, q).0.take(number_scan(s, p).0.len() as int) == number_scan(s, p).0,
        flushed(number_scan(s, q)).len() >= number_scan(s, q).0.len(),
        flushed(number_scan(s, q)).take(number_scan(s, q).0.len() as int) == number_scan(s, q).0,
    decreases q - p,
{
    let f = flushed(number_scan(s, q));
    let ns = number_scan(s, q).0;
    assert(f.take(ns.len() as int) =~= ns);
    if p < q {
        lemma_scan_prefix(s, p, q - 1);
        let a = number_scan(s, p).0;
        let b = number_scan(s, q - 1).0;
        assert(ns.take(b.len() as int) =~= b);
        assert(ns.take(a.len() as int) =~= b.take(a.len() as int));
    } else {
        assert(ns.take(ns.len() as int) =~= ns);
    }
}

/// A status line's numbers are its maximal runs of decimal digits, read in
/// decimal, in order: a line whose first three runs are `t[a1..b1]`,
/// `t[a2..b2]` and `t[a3..b3]` (up to nine digits each, with no digits
/// before or between them) has those three values as its first three
/// numbers.
pub proof fn law_three_numbers(t: Seq<u8>, a1: int, b1: int, a2: int, b2: int, a3: int, b3: int)
    requires
        0 <= a1 < b1 < a2 < b2 < a3 < b3 <= t.len(),
        b1 - a1 <= 9,
        b2 - a2 <= 9,
        b3 - a3 <= 9,
        forall|m: int|
            (a1 <= m < b1 || a2 <= m < b2 || a3 <= m < b3) ==> 48 <= #[trigger] t[m] <= 57,
        forall|m: int|
            (0 <= m < a1 || b1 <= m < a2 || b2 <= m < a3) ==> !(48 <= #[trigger] t[m] <= 57),
        b3 < t.len() ==> !(48 <= t[b3] <= 57),
    ensures
        numbers(t).len() >= 3,
        numbers(t).take(3) == seq![
            digits_number(t.subrange(a1, b1)) as u32,
            digits_number(t.subrange(a2, b2)) as u32,
            digits_number(t.subrange(a3, b3)) as u32,
        ],
{
    let v1 = digits_number(t.subrange(a1, b1)) as u32;
    let v2 = digits_number(t.subrange(a2, b2)) as u32;
    let v3 = digits_number(t.subrange(a3, b3)) as u32;
    assert(number_scan(t, 0) == (Seq::<u32>::empty(), None::<u32>));
    if a1 > 0 {
        lemma_scan_gap(t, 0, a1);
    }
    assert(number_scan(t, a1) == (Seq::<u32>::empty(), None::<u32>));
    lemma_scan_run(t, a1, b1);
    lemma_scan_gap(t, b1, a2);
    assert(number_scan(t, a2).0 =~= seq![v1]);
    lemma_scan_run(t, a2, b2);
    lemma_scan_gap(t, b2, a3);
    assert(number_scan(t, a3).0 =~= seq![v1, v2]);
    lemma_scan_run(t, a3, b3);
    let three = seq![v1, v2, v3];
    if b3 == t.len() {
        assert(numbers(t) == flushed(number_scan(t, b3)));
        assert(numbers(t) =~= three);
    } else {
        lemma_scan_gap(t, b3, b3 + 1);
        assert(number_scan(t, b3 + 1).0 =~= three);
        lemma_scan_prefix(t, b3 + 1, t.len() as int);
        let ns = number_scan(t, t.len() as int).0;
        assert(numbers(t) == flushed(number_scan(t, t.len() as int)));
        assert(ns.take(3) == three);
        assert(numbers(t).take(ns.len() as int) == ns);
        assert(numbers(t).take(3) =~= ns.take(3));
    }
}

/// `proc_status_ids` answers from the first line that starts with the tag:
/// when the text's first line (up to its first newline, at `j`) starts with
/// `tag`, the ids are the first three numbers after the tag, or none when
/// there are fewer than three.
pub proof fn law_status_first_line(s: Seq<u8>, tag: Seq<u8>, j: int)
    requires
        tag.len() <= j <= s.len(),
        s.subrange(0, tag.len() as int) == tag,
        forall|m: int| 0 <= m < j ==> #[trigger] s[m] != 10,
        j < s.len() ==> s[j] == 10,
    ensures
        ({
            let ns = numbers(s.subrange(tag.len() as int, j));
            spec_status_ids(s, tag) == if ns.len() >= 3 { Some(ns.take(3)) } else { None }
        }),
{
    lemma_newline_first(s, 0, j);
}

proof fn lemma_newline_first(s: Seq<u8>, i: int, j: int)
    requires
        0 <= i <= j <= s.len(),
        forall|m: int| i <= m < j ==> #[trigger] s[m] != 10,
        j < s.len() ==> s[j] == 10,
    ensures
        newline_from(s, i) == j,
    decreases j - i,
{
    if i < j {
        lemma_newline_first(s, i + 1, j);
    }
}

} // verus!

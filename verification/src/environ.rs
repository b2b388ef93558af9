//! Splitting the process environment as `/proc/self/environ` holds it
//! (`KEY=VAL\0KEY=VAL\0...`) into the entries that `environ` points at.

use vstd::prelude::*;

verus! {

/// Where the entry that `s[p]` belongs to starts: just after the last NUL
/// before `p`.
pub open spec fn entry_start(s: Seq<u8>, p: int) -> int
    decreases p,
{
    if p <= 0 {
        0
    } else if s[p - 1] == 0 {
        p
    } else {
        entry_start(s, p - 1)
    }
}

/// The starts of the non-empty entries whose terminating NUL lies in
/// `s[..p]`, in order.
pub open spec fn entries_before(s: Seq<u8>, p: int) -> Seq<usize>
    decreases p,
{
    if p <= 0 {
        Seq::empty()
    } else {
        let e = entries_before(s, p - 1);
        let st = entry_start(s, p - 1);
        if s[p - 1] == 0 && p - 1 > st {
            e.push(st as usize)
        } else {
            e
        }
    }
}

/// The starts of the entries of `s` that `environ` gets: the non-empty,
/// NUL-terminated ones (a trailing entry without its NUL is dropped), at
/// most `max` of them.
pub open spec fn spec_environ_entries(s: Seq<u8>, max: int) -> Seq<usize> {
    let all = entries_before(s, s.len() as int);
    if all.len() <= max {
        all
    } else {
        all.take(max)
    }
}

proof fn lemma_entry_start_bounds(s: Seq<u8>, p: int)
    requires
        0 <= p <= s.len(),
    ensures
        0 <= entry_start(s, p) <= p,
    decreases p,
{
    if p > 0 && s[p - 1] != 0 {
        lemma_entry_start_bounds(s, p - 1);
    }
}

/// Entry `st` is a C string of `s`: it starts with a byte other than NUL
/// and a NUL follows it.
pub open spec fn is_entry(s: Seq<u8>, st: int) -> bool {
    &&& 0 <= st < s.len()
    &&& s[st] != 0
    &&& exists|j: int| st < j < s.len() && s[j] == 0
}

proof fn lemma_entry_start_nonzero(s: Seq<u8>, p: int)
    requires
        0 <= p <= s.len(),
    ensures
        forall|m: int| entry_start(s, p) <= m < p ==> #[trigger] s[m] != 0,
    decreases p,
{
    if p > 0 && s[p - 1] != 0 {
        lemma_entry_start_nonzero(s, p - 1);
    }
}

proof fn lemma_entries_are_strings(s: Seq<u8>, p: int)
    requires
        0 <= p <= s.len(),
        s.len() <= usize::MAX,
    ensures
        forall|k: int| 0 <= k < entries_before(s, p).len() ==> is_entry(s, #[trigger] entries_before(s, p)[k] as int),
    decreases p,
{
    if p > 0 {
        lemma_entries_are_strings(s, p - 1);
        lemma_entry_start_bounds(s, p - 1);
        lemma_entry_start_nonzero(s, p - 1);
        let e = entries_before(s, p - 1);
        let st = entry_start(s, p - 1);
        if s[p - 1] == 0 && p - 1 > st {
            assert(s[st] != 0);
            assert(is_entry(s, st));
            assert forall|k: int| 0 <= k < entries_before(s, p).len() implies is_entry(
                s,
                #[trigger] entries_before(s, p)[k] as int,
            ) by {
                if k < e.len() {
                    assert(entries_before(s, p)[k] == e[k]);
                } else {
                    assert(entries_before(s, p)[k] == st as usize);
                }
            }
        }
    }
}

/// The entries found before `p` are the first entries found before `q`.
proof fn lemma_entries_prefix(s: Seq<u8>, p: int, q: int)
    requires
        0 <= p <= q <= s.len(),
    ensures
        entries_before(s, p).len() <= entries_before(s, q).len(),
        entries_before(s, q).take(entries_before(s, p).len() as int) == entries_before(s, p),
    decreases q - p,
{
    if p < q {
        lemma_entries_prefix(s, p, q - 1);
        let a = entries_before(s, p);
        let b = entries_before(s, q - 1);
        assert(entries_before(s, q).take(b.len() as int) =~= b);
        assert(entries_before(s, q).take(a.len() as int) =~= b.take(a.len() as int));
    } else {
        assert(entries_before(s, q).take(entries_before(s, q).len() as int) =~= entries_before(s, q));
    }
}

/// The starts of the environment entries of `s`, at most `max` of them.
pub fn environ_entries(s: &[u8], max: usize) -> (r: Vec<usize>)
    ensures
        r@ == spec_environ_entries(s@, max as int),
        forall|k: int| 0 <= k < r.len() ==> is_entry(s@, #[trigger] r@[k] as int),
{
    proof {
        assert(s@.len() == s.len());
        lemma_entries_are_strings(s@, s.len() as int);
    }
    let mut out: Vec<usize> = Vec::new();
    let mut start: usize = 0;
    let mut i: usize = 0;
    while i < s.len() && out.len() < max
        invariant
            i <= s.len(),
            start == entry_start(s@, i as int),
            out@ == entries_before(s@, i as int),
            out.len() <= max,
        decreases s.len() - i,
    {
        proof {
            lemma_entry_start_bounds(s@, i as int);
        }
        if s[i] == 0 {
            if i > start {
                out.push(start);
            }
            start = i + 1;
        }
        i = i + 1;
    }
    proof {
        lemma_entries_prefix(s@, i as int, s.len() as int);
        let all = entries_before(s@, s.len() as int);
        if i < s.len() {
            assert(out.len() == max);
        } else {
            assert(all == out@);
        }
    }
    out
}

proof fn lemma_start_inside_entry(s: Seq<u8>, st: int, p: int)
    requires
        0 <= st <= p <= s.len(),
        st == 0 || s[st - 1] == 0,
        forall|m: int| st <= m < p ==> #[trigger] s[m] != 0,
    ensures
        entry_start(s, p) == st,
        entries_before(s, p) == entries_before(s, st),
    decreases p - st,
{
    if p > st {
        lemma_start_inside_entry(s, st, p - 1);
    } else if st > 0 {
        assert(s[st - 1] == 0);
    }
}

proof fn lemma_first_nul_after(s: Seq<u8>, st: int, j: int) -> (f: int)
    requires
        0 <= st < j < s.len(),
        s[j] == 0,
    ensures
        st <= f <= j,
        s[f] == 0,
        forall|m: int| st <= m < f ==> #[trigger] s[m] != 0,
    decreases j - st,
{
    if exists|m: int| st <= m < j && s[m] == 0 {
        let m = choose|m: int| st <= m < j && s[m] == 0;
        if m == st {
            st
        } else {
            lemma_first_nul_after(s, st, m)
        }
    } else {
        j
    }
}

/// `environ` gets every non-empty, NUL-terminated entry of the block,
/// whatever its length: an entry that starts at `st` (the block's start or
/// just after a NUL) and is followed by a NUL is among the entries, as long
/// as fewer than `max` entries end before it.
pub proof fn law_environ_every_entry(s: Seq<u8>, max: int, st: int)
    requires
        st == 0 || (0 < st && s[st - 1] == 0),
        is_entry(s, st),
        entries_before(s, st).len() < max,
    ensures
        spec_environ_entries(s, max).contains(st as usize),
{
    let j0 = choose|j: int| st < j < s.len() && s[j] == 0;
    let f = lemma_first_nul_after(s, st, j0);
    assert(f > st);
    lemma_start_inside_entry(s, st, f);
    let before = entries_before(s, st);
    let upto = entries_before(s, f + 1);
    assert(upto == before.push(st as usize));
    lemma_entries_prefix(s, f + 1, s.len() as int);
    let all = entries_before(s, s.len() as int);
    let idx = before.len() as int;
    assert(upto[idx] == st as usize);
    assert(all.take(upto.len() as int)[idx] == all[idx]);
    assert(all[idx] == st as usize);
    let r = spec_environ_entries(s, max);
    if all.len() <= max {
        assert(r[idx] == st as usize);
    } else {
        assert(r[idx] == all[idx]);
    }
}

/// Every entry `environ` gets starts a C string of the block at its start
/// or just after a NUL, and the entries come in increasing order.
pub proof fn law_environ_entries_are_starts(s: Seq<u8>, max: int)
    requires
        s.len() <= usize::MAX,
        max >= 0,
    ensures
        forall|k: int|
            0 <= k < spec_environ_entries(s, max).len() ==> is_entry(
                s,
                #[trigger] spec_environ_entries(s, max)[k] as int,
            ) && (spec_environ_entries(s, max)[k] == 0 || s[spec_environ_entries(s, max)[k] - 1] == 0),
{
    lemma_entries_are_strings(s, s.len() as int);
    lemma_entries_at_starts(s, s.len() as int);
    let all = entries_before(s, s.len() as int);
    let r = spec_environ_entries(s, max);
    assert forall|k: int| 0 <= k < r.len() implies is_entry(s, #[trigger] r[k] as int) && (r[k] == 0
        || s[r[k] - 1] == 0) by {
        assert(r[k] == all[k]);
    }
}

proof fn lemma_entries_at_starts(s: Seq<u8>, p: int)
    requires
        0 <= p <= s.len(),
        s.len() <= usize::MAX,
    ensures
        forall|k: int|
            0 <= k < entries_before(s, p).len() ==> (#[trigger] entries_before(s, p)[k] == 0 || s[entries_before(
                s,
                p,
            )[k] - 1] == 0),
    decreases p,
{
    if p > 0 {
        lemma_entries_at_starts(s, p - 1);
        lemma_entry_start_is_start(s, p - 1);
        lemma_entry_start_bounds(s, p - 1);
        let e = entries_before(s, p - 1);
        let ep = entries_before(s, p);
        let st = entry_start(s, p - 1);
        assert forall|k: int| 0 <= k < ep.len() implies (#[trigger] ep[k] == 0 || s[ep[k] - 1] == 0) by {
            if k < e.len() {
                assert(ep[k] == e[k]);
            } else {
                assert(ep[k] == st as usize);
                assert(ep[k] as int == st);
            }
        }
    }
}

proof fn lemma_entry_start_is_start(s: Seq<u8>, p: int)
    requires
        0 <= p <= s.len(),
    ensures
        entry_start(s, p) == 0 || s[entry_start(s, p) - 1] == 0,
    decreases p,
{
    if p > 0 && s[p - 1] != 0 {
        lemma_entry_start_is_start(s, p - 1);
    }
}

proof fn lemma_entries_count(s: Seq<u8>, p: int)
    requires
        0 <= p <= s.len(),
    ensures
        entries_before(s, p).len() <= p,
    decreases p,
{
    if p > 0 {
        lemma_entries_count(s, p - 1);
    }
}

/// In particular, when `max` exceeds the entry's offset in the block, the
/// entry is among those `environ` gets (each entry before it takes at least
/// one byte).
pub proof fn law_environ_entry_within_max(s: Seq<u8>, max: int, st: int)
    requires
        st == 0 || (0 < st && s[st - 1] == 0),
        is_entry(s, st),
        st < max,
    ensures
        spec_environ_entries(s, max).contains(st as usize),
{
    lemma_entries_count(s, st);
    law_environ_every_entry(s, max, st);
}

proof fn lemma_entries_increasing(s: Seq<u8>, p: int)
    requires
        0 <= p <= s.len(),
        s.len() <= usize::MAX,
    ensures
        forall|k: int| 0 <= k < entries_before(s, p).len() ==> (#[trigger] entries_before(s, p)[k]) < entry_start(s, p),
        forall|a: int, b: int|
            0 <= a < b < entries_before(s, p).len() ==> (#[trigger] entries_before(s, p)[a]) < (#[trigger] entries_before(s, p)[b]),
    decreases p,
{
    if p > 0 {
        lemma_entries_increasing(s, p - 1);
        lemma_entry_start_bounds(s, p - 1);
        let e = entries_before(s, p - 1);
        let ep = entries_before(s, p);
        let st = entry_start(s, p - 1);
        if s[p - 1] == 0 && p - 1 > st {
            assert(ep == e.push(st as usize));
            assert forall|k: int| 0 <= k < ep.len() implies (#[trigger] ep[k]) < entry_start(s, p) by {
                if k < e.len() {
                    assert(ep[k] == e[k]);
                }
            }
            assert forall|a: int, b: int| 0 <= a < b < ep.len() implies (#[trigger] ep[a]) < (#[trigger] ep[b]) by {
                assert(ep[a] == e[a]);
                if b < e.len() {
                    assert(ep[b] == e[b]);
                }
            }
        } else {
            assert(ep == e);
        }
    }
}

/// `environ`'s entries come in the order of the block, each once: their
/// starts strictly increase.
pub proof fn law_environ_entries_increase(s: Seq<u8>, max: int)
    requires
        s.len() <= usize::MAX,
        max >= 0,
    ensures
        forall|a: int, b: int|
            0 <= a < b < spec_environ_entries(s, max).len() ==> (#[trigger] spec_environ_entries(s, max)[a])
                < (#[trigger] spec_environ_entries(s, max)[b]),
{
    lemma_entries_increasing(s, s.len() as int);
    let all = entries_before(s, s.len() as int);
    let r = spec_environ_entries(s, max);
    assert forall|a: int, b: int| 0 <= a < b < r.len() implies (#[trigger] r[a]) < (#[trigger] r[b]) by {
        assert(r[a] == all[a] && r[b] == all[b]);
    }
}

/// `environ` gets at most `max` entries, and when the block holds more it
/// gets the first `max` of them.
pub proof fn law_environ_at_most_max(s: Seq<u8>, max: int)
    requires
        max >= 0,
    ensures
        spec_environ_entries(s, max).len() <= max,
        spec_environ_entries(s, max) == entries_before(s, s.len() as int).take(
            spec_environ_entries(s, max).len() as int,
        ),
{
    let all = entries_before(s, s.len() as int);
    if all.len() <= max {
        assert(all.take(all.len() as int) =~= all);
    }
}

} // verus!

//! The insertion sort of `scandir`, which orders the entries with the
//! caller's comparator. Whatever the comparator answers, the result is a
//! rearrangement of the input in which every neighbouring pair was found in
//! order, and entries come out reversed only where the comparator placed the
//! earlier one after the later one (so equal entries keep their order); with a
//! comparator that follows a total order, the result is sorted.

use vstd::prelude::*;

verus! {

/// The comparator placed `x` before `y`: it answered `x` against `y` with
/// at most 0, or `y` against `x` with more than 0.
pub open spec fn ordered_pair<T, F: Fn(T, T) -> i32>(order: F, x: T, y: T) -> bool {
    (exists|r: i32| #[trigger] order.ensures((x, y), r) && r <= 0) || (exists|r: i32| #[trigger] order.ensures((y, x), r) && r > 0)
}

/// Every neighbouring pair of `s` was found in order.
pub open spec fn adjacent_ordered<T, F: Fn(T, T) -> i32>(order: F, s: Seq<T>) -> bool {
    forall|k: int| 0 <= k < s.len() - 1 ==> ordered_pair(order, #[trigger] s[k], s[k + 1])
}

proof fn lemma_swap_multiset<T>(s: Seq<T>, a: int, b: int)
    requires
        0 <= a < s.len(),
        0 <= b < s.len(),
    ensures
        s.update(a, s[b]).update(b, s[a]).to_multiset() == s.to_multiset(),
{
    broadcast use vstd::seq_lib::to_multiset_update;
    broadcast use vstd::seq_lib::group_to_multiset_ensures;
    broadcast use vstd::multiset::group_multiset_axioms;

    let s1 = s.update(a, s[b]);
    assert(s1.to_multiset() == s.to_multiset().insert(s[b]).remove(s[a]));
    let s2 = s1.update(b, s[a]);
    if a == b {
        assert(s1 =~= s);
        assert(s2 =~= s);
    } else {
        assert(s1[b] == s[b]);
        assert(s2.to_multiset() == s1.to_multiset().insert(s[a]).remove(s[b]));
        assert(s.contains(s[a]));
        assert(s.to_multiset().count(s[a]) > 0);
        assert(s1.contains(s[b]));
        assert(s1.to_multiset().count(s[b]) > 0);
        assert(s2.to_multiset() =~= s.to_multiset());
    }
}

/// The comparator placed `x` after `y`: it answered `x` against `y` with
/// more than 0.
pub open spec fn placed_after<T, F: Fn(T, T) -> i32>(order: F, x: T, y: T) -> bool {
    exists|r: i32| #[trigger] order.ensures((x, y), r) && r > 0
}

/// `p` lists each of the positions `0..n` once.
pub open spec fn is_permutation(p: Seq<int>, n: int) -> bool {
    &&& p.len() == n
    &&& forall|k: int| 0 <= k < n ==> 0 <= #[trigger] p[k] < n
    &&& forall|a: int, b: int| 0 <= a < b < n ==> #[trigger] p[a] != #[trigger] p[b]
}

/// `after` is `before` rearranged, element `k` of `after` coming from
/// position `p[k]` of `before`, and two elements come out in the reverse of
/// their input order only where the comparator placed the earlier one after
/// the later one: entries it answers 0 for keep their order.
pub open spec fn stable_rearrangement<T, F: Fn(T, T) -> i32>(
    order: F,
    before: Seq<T>,
    after: Seq<T>,
    p: Seq<int>,
) -> bool {
    &&& after.len() == before.len()
    &&& is_permutation(p, before.len() as int)
    &&& forall|k: int| 0 <= k < after.len() ==> after[k] == before[#[trigger] p[k]]
    &&& forall|a: int, b: int|
        0 <= a < b < after.len() && #[trigger] p[a] > #[trigger] p[b] ==> placed_after(
            order,
            before[p[b]],
            before[p[a]],
        )
}

/// Sort `v` by insertion with the comparator `order` (an element moves left
/// past each neighbour the comparator places after it). The sort is stable:
/// entries keep their input order unless the comparator placed the earlier
/// one after the later one.
pub fn insertion_sort<T: Copy, F: Fn(T, T) -> i32>(v: &mut Vec<T>, order: &F)
    requires
        forall|x: T, y: T| order.requires((x, y)),
    ensures
        final(v)@.len() == old(v)@.len(),
        final(v)@.to_multiset() == old(v)@.to_multiset(),
        adjacent_ordered(*order, final(v)@),
        exists|p: Seq<int>| stable_rearrangement(*order, old(v)@, final(v)@, p),
{
    let n = v.len();
    let ghost mut perm: Seq<int> = Seq::new(n as nat, |k: int| k);
    if n == 0 {
        proof {
            assert(stable_rearrangement(*order, old(v)@, v@, perm));
        }
        return;
    }
    let mut i: usize = 1;
    while i < n
        invariant
            n == v.len(),
            1 <= i <= n,
            forall|x: T, y: T| order.requires((x, y)),
            v@.to_multiset() == old(v)@.to_multiset(),
            adjacent_ordered(*order, v@.subrange(0, i as int)),
            is_permutation(perm, n as int),
            forall|k: int| 0 <= k < n ==> v@[k] == old(v)@[#[trigger] perm[k]],
            forall|k: int| i <= k < n ==> #[trigger] perm[k] == k,
            forall|k: int| 0 <= k < i ==> #[trigger] perm[k] < i,
            forall|a: int, b: int|
                0 <= a < b < i && #[trigger] perm[a] > #[trigger] perm[b] ==> placed_after(
                    *order,
                    old(v)@[perm[b]],
                    old(v)@[perm[a]],
                ),
        decreases n - i,
    {
        let ghost pre = v@.subrange(0, i as int);
        let ghost e = v@[i as int];
        let mut j: usize = i;
        let mut settled = false;
        proof {
            assert(perm[i as int] == i);
        }
        while !settled
            invariant
                n == v.len(),
                1 <= i < n,
                j <= i,
                forall|x: T, y: T| order.requires((x, y)),
                v@.to_multiset() == old(v)@.to_multiset(),
                adjacent_ordered(*order, pre),
                pre.len() == i,
                v@.subrange(0, i + 1).remove(j as int) == pre,
                v@[j as int] == e,
                j < i ==> ordered_pair(*order, e, v@[j + 1]),
                settled ==> (j == 0 || ordered_pair(*order, v@[j - 1], e)),
                is_permutation(perm, n as int),
                forall|k: int| 0 <= k < n ==> v@[k] == old(v)@[#[trigger] perm[k]],
                forall|k: int| i < k < n ==> #[trigger] perm[k] == k,
                perm[j as int] == i,
                forall|k: int| 0 <= k <= i && k != j ==> #[trigger] perm[k] < i,
                forall|a: int, b: int|
                    0 <= a < b <= i && #[trigger] perm[a] > #[trigger] perm[b] ==> placed_after(
                        *order,
                        old(v)@[perm[b]],
                        old(v)@[perm[a]],
                    ),
            decreases j + if settled { 0int } else { 1int },
        {
            if j == 0 {
                settled = true;
            } else {
                let x = v[j - 1];
                let y = v[j];
                let r = order(x, y);
                if r <= 0 {
                    proof {
                        assert(order.ensures((x, y), r) && r <= 0);
                    }
                    settled = true;
                } else {
                    let ghost before = v@;
                    let ghost old_perm = perm;
                    proof {
                        assert(order.ensures((x, y), r) && r > 0);
                        assert(ordered_pair(*order, e, x));
                        assert(placed_after(*order, x, y));
                        lemma_swap_multiset(before, j - 1, j as int);
                    }
                    v.set(j - 1, y);
                    v.set(j, x);
                    proof {
                        perm = old_perm.update(j - 1, old_perm[j as int]).update(j as int, old_perm[j - 1]);
                        lemma_swap_keeps(*order, old(v)@, old_perm, perm, j - 1, i as int, n as int);
                        assert(v@ == before.update(j - 1, before[j as int]).update(j as int, before[j - 1]));
                        assert(v@.subrange(0, i + 1).remove(j - 1) =~= before.subrange(0, i + 1).remove(j as int));
                        assert forall|k: int| 0 <= k < n implies v@[k] == old(v)@[#[trigger] perm[k]] by {
                            if k == j - 1 {
                                assert(v@[k] == before[j as int]);
                            } else if k == j {
                                assert(v@[k] == before[j - 1]);
                            } else {
                                assert(v@[k] == before[k] && perm[k] == old_perm[k]);
                            }
                        }
                    }
                    j = j - 1;
                }
            }
        }
        proof {
            let s = v@.subrange(0, i + 1);
            assert forall|k: int| 0 <= k < s.len() - 1 implies ordered_pair(*order, #[trigger] s[k], s[k + 1]) by {
                if k + 1 < j {
                    assert(s.remove(j as int)[k] == s[k]);
                    assert(s.remove(j as int)[k + 1] == s[k + 1]);
                    assert(pre[k] == s[k]);
                } else if k + 1 == j {
                } else if k == j {
                } else {
                    assert(s.remove(j as int)[k - 1] == s[k]);
                    assert(s.remove(j as int)[k] == s[k + 1]);
                    assert(pre[k - 1] == s[k]);
                }
            }
        }
        i = i + 1;
    }
    proof {
        assert(v@.subrange(0, n as int) =~= v@);
        assert(stable_rearrangement(*order, old(v)@, v@, perm));
    }
}

/// Swapping the neighbours at `m` and `m + 1`, where the comparator placed
/// the element from `perm[m]` after the one from `perm[m + 1]`, keeps every
/// reversed pair of `0..=i` one the comparator placed so.
proof fn lemma_swap_keeps<T, F: Fn(T, T) -> i32>(
    order: F,
    input: Seq<T>,
    perm: Seq<int>,
    swapped: Seq<int>,
    m: int,
    i: int,
    n: int,
)
    requires
        0 <= m,
        m + 1 <= i < n,
        is_permutation(perm, n),
        swapped == perm.update(m, perm[m + 1]).update(m + 1, perm[m]),
        perm[m + 1] > perm[m],
        placed_after(order, input[perm[m]], input[perm[m + 1]]),
        forall|a: int, b: int|
            0 <= a < b <= i && #[trigger] perm[a] > #[trigger] perm[b] ==> placed_after(
                order,
                input[perm[b]],
                input[perm[a]],
            ),
    ensures
        is_permutation(swapped, n),
        forall|a: int, b: int|
            0 <= a < b <= i && #[trigger] swapped[a] > #[trigger] swapped[b] ==> placed_after(
                order,
                input[swapped[b]],
                input[swapped[a]],
            ),
{
    let sw = |x: int| if x == m { m + 1 } else if x == m + 1 { m } else { x };
    assert forall|k: int| 0 <= k < n implies swapped[k] == perm[sw(k)] by {}
    assert forall|a: int, b: int| 0 <= a < b < n implies #[trigger] swapped[a] != #[trigger] swapped[b] by {
        assert(swapped[a] == perm[sw(a)] && swapped[b] == perm[sw(b)]);
        assert(perm[sw(a)] != perm[sw(b)]) by {
            if sw(a) < sw(b) {
                assert(perm[sw(a)] != perm[sw(b)]);
            } else {
                assert(perm[sw(b)] != perm[sw(a)]);
            }
        }
    }
    assert forall|k: int| 0 <= k < n implies 0 <= #[trigger] swapped[k] < n by {
        assert(swapped[k] == perm[sw(k)]);
    }
    assert forall|a: int, b: int|
        0 <= a < b <= i && #[trigger] swapped[a] > #[trigger] swapped[b] implies placed_after(
        order,
        input[swapped[b]],
        input[swapped[a]],
    ) by {
        assert(swapped[a] == perm[sw(a)] && swapped[b] == perm[sw(b)]);
        if a == m && b == m + 1 {
        } else {
            assert(sw(a) < sw(b));
            assert(perm[sw(a)] > perm[sw(b)]);
        }
    }
}

/// With a comparator whose every answer follows a total order `le`
/// (at most 0 exactly when `le` holds), a sequence whose neighbouring pairs
/// were found in order is sorted by `le`.
pub proof fn law_sorted_under_total_order<T, F: Fn(T, T) -> i32>(
    order: F,
    le: spec_fn(T, T) -> bool,
    s: Seq<T>,
)
    requires
        forall|x: T, y: T, r: i32| #![trigger order.ensures((x, y), r)] order.ensures((x, y), r) ==> (r <= 0 <==> le(x, y)),
        forall|x: T, y: T| #![trigger le(x, y)] le(x, y) || le(y, x),
        forall|x: T, y: T, z: T| #![trigger le(x, y), le(y, z)] le(x, y) && le(y, z) ==> le(x, z),
        adjacent_ordered(order, s),
    ensures
        forall|a: int, b: int| 0 <= a <= b < s.len() ==> le(s[a], s[b]),
{
    assert forall|k: int| 0 <= k < s.len() - 1 implies le(#[trigger] s[k], s[k + 1]) by {
        assert(ordered_pair(order, s[k], s[k + 1]));
        if exists|r: i32| #[trigger] order.ensures((s[k], s[k + 1]), r) && r <= 0 {
            let r = choose|r: i32| #[trigger] order.ensures((s[k], s[k + 1]), r) && r <= 0;
        } else {
            let r = choose|r: i32| #[trigger] order.ensures((s[k + 1], s[k]), r) && r > 0;
            assert(!le(s[k + 1], s[k]));
        }
    }
    assert forall|a: int, b: int| 0 <= a <= b < s.len() implies le(s[a], s[b]) by {
        lemma_chain(le, s, a, b);
    }
}

proof fn lemma_chain<T>(le: spec_fn(T, T) -> bool, s: Seq<T>, a: int, b: int)
    requires
        0 <= a <= b < s.len(),
        forall|k: int| 0 <= k < s.len() - 1 ==> le(#[trigger] s[k], s[k + 1]),
        forall|x: T, y: T| #![trigger le(x, y)] le(x, y) || le(y, x),
        forall|x: T, y: T, z: T| #![trigger le(x, y), le(y, z)] le(x, y) && le(y, z) ==> le(x, z),
    ensures
        le(s[a], s[b]),
    decreases b - a,
{
    if a == b {
        assert(le(s[a], s[a]) || le(s[a], s[a]));
    } else {
        lemma_chain(le, s, a, b - 1);
        assert(le(s[b - 1], s[b]));
    }
}

/// With a comparator whose answers are those of `cmp`, two entries that
/// `cmp` calls equal (at most 0 each way) come out in their input order.
pub proof fn law_equal_keep_order<T, F: Fn(T, T) -> i32>(
    order: F,
    cmp: spec_fn(T, T) -> int,
    before: Seq<T>,
    after: Seq<T>,
    p: Seq<int>,
    a: int,
    b: int,
)
    requires
        forall|x: T, y: T, r: i32| #![trigger order.ensures((x, y), r)] order.ensures((x, y), r) ==> r == cmp(x, y),
        stable_rearrangement(order, before, after, p),
        0 <= a < b < after.len(),
        cmp(after[a], after[b]) <= 0,
        cmp(after[b], after[a]) <= 0,
    ensures
        p[a] < p[b],
{
    assert(after[a] == before[p[a]] && after[b] == before[p[b]]);
    assert(p[a] != p[b]);
    if p[a] > p[b] {
        let r = choose|r: i32| #[trigger] order.ensures((before[p[b]], before[p[a]]), r) && r > 0;
    }
}

} // verus!

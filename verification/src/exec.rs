//! The `PATH` search of `execvp`: each directory of the search path, in
//! order, is tried with the file name appended; a missing file or directory
//! moves on to the next, a permission error is remembered, and any other
//! error ends the search. Candidates are written into a buffer the caller
//! provides, so a forked child can search without allocating.

use vstd::prelude::*;

verus! {

/// Permission denied.
pub const EACCES: i32 = 13;

/// No such file or directory.
pub const ENOENT: i32 = 2;

/// Not a directory.
pub const ENOTDIR: i32 = 20;

/// The first `:` at or after `i`, or the end.
pub open spec fn colon_from(p: Seq<u8>, i: int) -> int
    decreases p.len() - i,
{
    if 0 <= i < p.len() && p[i] != 58 {
        colon_from(p, i + 1)
    } else {
        i
    }
}

pub proof fn lemma_colon_bounds(p: Seq<u8>, i: int)
    requires
        0 <= i <= p.len(),
    ensures
        i <= colon_from(p, i) <= p.len(),
        colon_from(p, i) < p.len() ==> p[colon_from(p, i)] == 58,
        forall|j: int| i <= j < colon_from(p, i) ==> p[j] != 58,
    decreases p.len() - i,
{
    if i < p.len() && p[i] != 58 {
        lemma_colon_bounds(p, i + 1);
    }
}

/// The length of the longest directory of the search path from `i` on.
pub open spec fn longest_from(p: Seq<u8>, i: int) -> int
    decreases p.len() + 1 - i,
{
    if !(0 <= i <= p.len()) {
        0
    } else {
        let e = colon_from(p, i);
        let rest = if e < p.len() {
            proof {
                lemma_colon_bounds(p, i);
            }
            longest_from(p, e + 1)
        } else {
            0
        };
        if e - i > rest {
            e - i
        } else {
            rest
        }
    }
}

pub proof fn lemma_longest_nonneg(p: Seq<u8>, i: int)
    requires
        0 <= i <= p.len(),
    ensures
        longest_from(p, i) >= 0,
    decreases p.len() + 1 - i,
{
    lemma_colon_bounds(p, i);
    let e = colon_from(p, i);
    if e < p.len() {
        lemma_longest_nonneg(p, e + 1);
    }
}

/// `k` starts a directory of the search path: it is the start, or follows
/// a `:`.
pub open spec fn dir_start(p: Seq<u8>, k: int) -> bool {
    0 <= k <= p.len() && (k == 0 || p[k - 1] == 58)
}

/// Every directory from `i` on is at most as long as the longest.
pub proof fn lemma_longest_bounds(p: Seq<u8>, i: int, k: int)
    requires
        0 <= i <= k <= p.len(),
        k == i || p[k - 1] == 58,
    ensures
        colon_from(p, k) - k <= longest_from(p, i),
    decreases p.len() + 1 - i,
{
    lemma_colon_bounds(p, i);
    let e = colon_from(p, i);
    if k != i {
        assert(k - 1 >= e);
        lemma_colon_bounds(p, e + 1);
        lemma_longest_bounds(p, e + 1, k);
    }
}

/// The search path used when the environment has no `PATH`.
pub fn default_search_path() -> (r: [u8; 13])
    ensures
        r@ == seq![47u8, 98, 105, 110, 58, 47, 117, 115, 114, 47, 98, 105, 110],
{
    [47u8, 98, 105, 110, 58, 47, 117, 115, 114, 47, 98, 105, 110]
}

/// `file` holds a `/`, so it is run as it stands, without a search.
pub fn has_slash(file: &[u8]) -> (r: bool)
    ensures
        r == file@.contains(47),
{
    let mut k: usize = 0;
    while k < file.len()
        invariant
            k <= file.len(),
            forall|j: int| 0 <= j < k ==> file@[j] != 47,
        decreases file.len() - k,
    {
        if file[k] == 47 {
            return true;
        }
        k = k + 1;
    }
    false
}

/// The length of the longest directory of the search path `p`.
pub fn longest_dir(p: &[u8]) -> (r: usize)
    ensures
        r == longest_from(p@, 0),
        r <= p.len(),
{
    let mut best: usize = 0;
    let mut i: usize = 0;
    proof {
        lemma_longest_nonneg(p@, 0);
    }
    loop
        invariant
            i <= p.len(),
            dir_start(p@, i as int),
            best <= p.len(),
            longest_from(p@, 0) == if best > longest_from(p@, i as int) { best as int } else { longest_from(p@, i as int) },
        decreases p.len() + 1 - i,
    {
        let mut e = i;
        while e < p.len() && p[e] != 58
            invariant
                i <= e <= p.len(),
                colon_from(p@, e as int) == colon_from(p@, i as int),
            decreases p.len() - e,
        {
            e = e + 1;
        }
        if e - i > best {
            best = e - i;
        }
        if e == p.len() {
            return best;
        }
        proof {
            lemma_colon_bounds(p@, i as int);
        }
        i = e + 1;
    }
}

/// The progress of a search: the start of the next directory to try,
/// whether all have been tried, and whether any failed for permission.
#[derive(Debug, Copy, Clone, PartialEq, Eq, Structural)]
pub struct PathSearch {
    pub pos: usize,
    pub done: bool,
    pub access_error: bool,
}

/// The candidate for the directory at `pos`: the directory, a `/`, the file
/// name and a NUL.
pub open spec fn spec_candidate(p: Seq<u8>, pos: int, file: Seq<u8>) -> Seq<u8> {
    p.subrange(pos, colon_from(p, pos)) + seq![47u8] + file + seq![0u8]
}

impl PathSearch {
    /// The search before its first candidate.
    pub open spec fn initial() -> PathSearch {
        PathSearch { pos: 0, done: false, access_error: false }
    }
}

/// The search after one candidate from `s`: the next directory, or done
/// after the last.
pub open spec fn search_step(p: Seq<u8>, s: PathSearch) -> PathSearch {
    if s.done {
        s
    } else {
        let e = colon_from(p, s.pos as int);
        if e == p.len() {
            PathSearch { done: true, ..s }
        } else {
            PathSearch { pos: (e + 1) as usize, ..s }
        }
    }
}

/// A failed run's error moves the search on: a missing file or directory
/// (`ENOENT`, `ENOTDIR`) or a permission error (`EACCES`) does.
pub open spec fn moves_on(errno: i32) -> bool {
    errno == EACCES || errno == ENOENT || errno == ENOTDIR
}

/// The search after a run failed with `errno`, and the error that ends the
/// search, if it does: a permission error is remembered, and an error that
/// does not move the search on ends it.
pub open spec fn spec_record(s: PathSearch, errno: i32) -> (PathSearch, Option<i32>) {
    if errno == EACCES {
        (PathSearch { access_error: true, ..s }, None)
    } else if moves_on(errno) {
        (s, None)
    } else {
        (s, Some(errno))
    }
}

/// The error of a search that found nothing to run.
pub open spec fn spec_final_errno(s: PathSearch) -> i32 {
    if s.access_error {
        EACCES
    } else {
        ENOENT
    }
}

impl PathSearch {
    /// A search that has tried nothing yet.
    pub fn new() -> (r: PathSearch)
        ensures
            r == (PathSearch { pos: 0, done: false, access_error: false }),
    {
        PathSearch { pos: 0, done: false, access_error: false }
    }

    /// Write the next candidate path into `buf` and return its length
    /// (with the NUL); `None` when every directory has been tried. A buffer
    /// of the longest directory's length plus the file's plus two always
    /// suffices.
    pub fn next_candidate(&mut self, p: &[u8], file: &[u8], buf: &mut [u8]) -> (r: Option<usize>)
        requires
            dir_start(p@, old(self).pos as int),
            old(buf)@.len() >= longest_from(p@, 0) + file.len() + 2,
        ensures
            old(self).done ==> r is None && *final(self) == *old(self) && final(buf)@ == old(buf)@,
            !old(self).done ==> {
                let e = colon_from(p@, old(self).pos as int);
                &&& r == Some((e - old(self).pos + file.len() + 2) as usize)
                &&& final(buf)@.len() == old(buf)@.len()
                &&& final(buf)@.subrange(0, r.unwrap() as int) == spec_candidate(p@, old(self).pos as int, file@)
                &&& final(self).access_error == old(self).access_error
                &&& final(self).done == (e == p.len())
                &&& e < p.len() ==> final(self).pos == e + 1
                &&& e == p.len() ==> final(self).pos == old(self).pos
            },
            dir_start(p@, final(self).pos as int),
            *final(self) == search_step(p@, *old(self)),
    {
        if self.done {
            return None;
        }
        let pos = self.pos;
        let mut e = pos;
        while e < p.len() && p[e] != 58
            invariant
                pos <= e <= p.len(),
                colon_from(p@, e as int) == colon_from(p@, pos as int),
            decreases p.len() - e,
        {
            e = e + 1;
        }
        proof {
            lemma_colon_bounds(p@, pos as int);
            lemma_longest_bounds(p@, 0, pos as int);
        }
        let ghost b0 = buf@;
        let mut k: usize = 0;
        while k < e - pos
            invariant
                pos <= e <= p.len(),
                k <= e - pos,
                e - pos + file.len() + 2 <= buf@.len(),
                buf@.len() == b0.len(),
                buf@.subrange(0, k as int) == p@.subrange(pos as int, pos + k),
            decreases e - pos - k,
        {
            buf[k] = p[pos + k];
            proof {
                assert(buf@.subrange(0, k + 1) =~= buf@.subrange(0, k as int).push(p@[pos + k]));
                assert(p@.subrange(pos as int, pos + k + 1) =~= p@.subrange(pos as int, pos + k).push(p@[pos + k]));
            }
            k = k + 1;
        }
        let d = e - pos;
        buf[d] = 47;
        proof {
            assert(buf@.subrange(0, d + 1) =~= p@.subrange(pos as int, e as int) + seq![47u8]);
        }
        let mut m: usize = 0;
        while m < file.len()
            invariant
                pos <= e <= p.len(),
                d == e - pos,
                m <= file.len(),
                d + file.len() + 2 <= buf@.len(),
                buf@.len() == b0.len(),
                buf@.subrange(0, d + 1 + m) == p@.subrange(pos as int, e as int) + seq![47u8] + file@.subrange(0, m as int),
            decreases file.len() - m,
        {
            assert(d + 1 + m < buf.len());
            buf[d + 1 + m] = file[m];
            proof {
                assert(buf@.subrange(0, d + 1 + m + 1) =~= buf@.subrange(0, d + 1 + m).push(file@[m as int]));
                assert(file@.subrange(0, m + 1) =~= file@.subrange(0, m as int).push(file@[m as int]));
                assert((p@.subrange(pos as int, e as int) + seq![47u8] + file@.subrange(0, m as int)).push(file@[m as int])
                    =~= p@.subrange(pos as int, e as int) + seq![47u8] + file@.subrange(0, m + 1));
            }
            m = m + 1;
        }
        let n = d + 1 + file.len();
        buf[n] = 0;
        proof {
            assert(file@.subrange(0, file.len() as int) =~= file@);
            assert(buf@.subrange(0, n + 1) =~= buf@.subrange(0, n as int).push(0u8));
            assert(buf@.subrange(0, n + 1) =~= spec_candidate(p@, pos as int, file@));
        }
        if e == p.len() {
            self.done = true;
        } else {
            self.pos = e + 1;
        }
        Some(n + 1)
    }

    /// Take the error of a failed run: a missing file or directory moves on,
    /// a permission error is remembered and moves on, any other error ends
    /// the search with that error.
    pub fn record_error(&mut self, errno: i32) -> (r: Option<i32>)
        ensures
            (*final(self), r) == spec_record(*old(self), errno),
    {
        if errno == EACCES {
            self.access_error = true;
            None
        } else if errno == ENOENT || errno == ENOTDIR {
            None
        } else {
            Some(errno)
        }
    }

    /// The error of a search that found nothing to run: permission denied
    /// when any directory denied it, else no such file.
    pub fn final_errno(&self) -> (r: i32)
        ensures
            r == spec_final_errno(*self),
    {
        if self.access_error {
            EACCES
        } else {
            ENOENT
        }
    }
}

/// The number of directories of the search path from `i` on: one more
/// than the colons there.
pub open spec fn dir_count(p: Seq<u8>, i: int) -> nat
    decreases p.len() + 1 - i,
{
    if !(0 <= i <= p.len()) {
        1
    } else {
        let e = colon_from(p, i);
        if e < p.len() {
            proof {
                lemma_colon_bounds(p, i);
            }
            1 + dir_count(p, e + 1)
        } else {
            1
        }
    }
}

/// Where the `k`-th directory of the search path starts (counting from 0).
pub open spec fn dir_pos(p: Seq<u8>, k: nat) -> int
    decreases k,
{
    if k == 0 {
        0
    } else {
        colon_from(p, dir_pos(p, (k - 1) as nat)) + 1
    }
}

/// A search after `k` candidates, from its start (the permission flag
/// aside, which the errors set).
pub open spec fn search_after(p: Seq<u8>, k: nat) -> PathSearch
    decreases k,
{
    if k == 0 {
        PathSearch { pos: 0, done: false, access_error: false }
    } else {
        search_step(p, search_after(p, (k - 1) as nat))
    }
}

proof fn lemma_dirs(p: Seq<u8>, k: nat)
    requires
        k < dir_count(p, 0),
    ensures
        0 <= dir_pos(p, k) <= p.len(),
        dir_count(p, dir_pos(p, k)) == dir_count(p, 0) - k,
    decreases k,
{
    if k > 0 {
        lemma_dirs(p, (k - 1) as nat);
        let q = dir_pos(p, (k - 1) as nat);
        lemma_colon_bounds(p, q);
    }
}

/// The search tries every directory of the search path once, in order: its
/// `k`-th candidate is built from the `k`-th directory, and after as many
/// candidates as there are directories it is done.
pub proof fn law_search_tries_each_dir(p: Seq<u8>, k: nat)
    requires
        p.len() <= usize::MAX,
    ensures
        k < dir_count(p, 0) ==> !search_after(p, k).done && search_after(p, k).pos == dir_pos(p, k),
        k >= dir_count(p, 0) ==> search_after(p, k).done,
    decreases k,
{
    if k > 0 {
        law_search_tries_each_dir(p, (k - 1) as nat);
        let n = dir_count(p, 0);
        if k - 1 < n {
            lemma_dirs(p, (k - 1) as nat);
            let q = dir_pos(p, (k - 1) as nat);
            lemma_colon_bounds(p, q);
            if k < n {
                lemma_dirs(p, k);
            } else {
                assert(dir_count(p, colon_from(p, q) + 1) >= 1);
            }
        }
    }
}

/// The error `execvpe` ends with after the runs it tried failed with `es`,
/// in order, and every directory was tried: the first error that does not
/// move the search on, or else the error of a search that found nothing.
pub open spec fn errors_run(s: PathSearch, es: Seq<i32>) -> i32
    decreases es.len(),
{
    if es.len() == 0 {
        spec_final_errno(s)
    } else {
        let (s2, r) = spec_record(s, es[0]);
        match r {
            Some(e) => e,
            None => errors_run(s2, es.drop_first()),
        }
    }
}

/// After a sequence of failed runs, `execvpe` reports the first error that
/// is neither a missing file or directory nor a permission error; when
/// there is none, permission denied if any run was denied, else no such
/// file.
pub proof fn law_search_errno(es: Seq<i32>)
    ensures
        (forall|k: int| 0 <= k < es.len() ==> moves_on(#[trigger] es[k])) ==> errors_run(
            PathSearch::initial(),
            es,
        ) == if es.contains(EACCES) {
            EACCES
        } else {
            ENOENT
        },
        forall|k: int|
            0 <= k < es.len() && !moves_on(#[trigger] es[k]) && (forall|m: int|
                0 <= m < k ==> moves_on(es[m])) ==> errors_run(PathSearch::initial(), es) == es[k],
{
    lemma_errors_run(PathSearch::initial(), es);
}

proof fn lemma_errors_run(s: PathSearch, es: Seq<i32>)
    ensures
        (forall|k: int| 0 <= k < es.len() ==> moves_on(#[trigger] es[k])) ==> errors_run(s, es) == if s.access_error
            || es.contains(EACCES) {
            EACCES
        } else {
            ENOENT
        },
        forall|k: int|
            0 <= k < es.len() && !moves_on(#[trigger] es[k]) && (forall|m: int|
                0 <= m < k ==> moves_on(es[m])) ==> errors_run(s, es) == es[k],
    decreases es.len(),
{
    if es.len() > 0 {
        let (s2, r) = spec_record(s, es[0]);
        let rest = es.drop_first();
        lemma_errors_run(s2, rest);
        if forall|k: int| 0 <= k < es.len() ==> moves_on(#[trigger] es[k]) {
            assert forall|k: int| 0 <= k < rest.len() implies moves_on(#[trigger] rest[k]) by {
                assert(rest[k] == es[k + 1]);
            }
            assert(es.contains(EACCES) == (es[0] == EACCES || rest.contains(EACCES))) by {
                if es.contains(EACCES) {
                    let k = choose|k: int| 0 <= k < es.len() && es[k] == EACCES;
                    if k > 0 {
                        assert(rest[k - 1] == EACCES);
                    }
                }
                if rest.contains(EACCES) {
                    let k = choose|k: int| 0 <= k < rest.len() && rest[k] == EACCES;
                    assert(es[k + 1] == EACCES);
                }
            }
        }
        assert forall|k: int|
            0 <= k < es.len() && !moves_on(#[trigger] es[k]) && (forall|m: int|
                0 <= m < k ==> moves_on(es[m])) implies errors_run(s, es) == es[k] by {
            if k > 0 {
                assert(moves_on(es[0]));
                assert(rest[k - 1] == es[k]);
                assert forall|m: int| 0 <= m < k - 1 implies moves_on(rest[m]) by {
                    assert(rest[m] == es[m + 1]);
                }
            }
        }
    }
}

proof fn lemma_colon_at(p: Seq<u8>, k: int, e: int)
    requires
        0 <= k <= e <= p.len(),
        forall|m: int| k <= m < e ==> #[trigger] p[m] != 58,
        e < p.len() ==> p[e] == 58,
    ensures
        colon_from(p, k) == e,
    decreases e - k,
{
    if k < e {
        lemma_colon_at(p, k + 1, e);
    }
}

proof fn lemma_longest_attained(p: Seq<u8>, i: int)
    requires
        0 <= i <= p.len(),
    ensures
        exists|k: int| i <= k <= p.len() && (k == i || p[k - 1] == 58) && colon_from(p, k) - k == longest_from(p, i),
    decreases p.len() + 1 - i,
{
    lemma_colon_bounds(p, i);
    let e = colon_from(p, i);
    if e < p.len() {
        lemma_longest_attained(p, e + 1);
        let rest = longest_from(p, e + 1);
        if e - i <= rest {
            let k = choose|k: int| e + 1 <= k <= p.len() && (k == e + 1 || p[k - 1] == 58) && colon_from(p, k) - k == rest;
            assert(i <= k <= p.len() && (k == i || p[k - 1] == 58));
        } else {
            assert(i <= i <= p.len() && colon_from(p, i) - i == longest_from(p, i));
        }
    } else {
        assert(i <= i <= p.len() && colon_from(p, i) - i == longest_from(p, i));
    }
}

/// `p[a..b]` is a directory of the search path: it starts the path or
/// follows a `:`, holds no `:`, and ends at a `:` or the end.
pub open spec fn is_dir(p: Seq<u8>, a: int, b: int) -> bool {
    &&& 0 <= a <= b <= p.len()
    &&& a == 0 || p[a - 1] == 58
    &&& b == p.len() || p[b] == 58
    &&& forall|m: int| a <= m < b ==> #[trigger] p[m] != 58
}

/// The longest directory of a search path: every directory is at most as
/// long, and some directory is exactly as long.
pub proof fn law_longest_dir(p: Seq<u8>, k: int, e: int)
    requires
        is_dir(p, k, e),
    ensures
        e - k <= longest_from(p, 0),
        exists|a: int, b: int| #[trigger] is_dir(p, a, b) && b - a == longest_from(p, 0),
{
    lemma_colon_at(p, k, e);
    lemma_longest_bounds(p, 0, k);
    lemma_longest_attained(p, 0);
    let a = choose|a: int| 0 <= a <= p.len() && (a == 0 || p[a - 1] == 58) && colon_from(p, a) - a == longest_from(p, 0);
    lemma_colon_bounds(p, a);
    let b = colon_from(p, a);
    assert(is_dir(p, a, b) && b - a == longest_from(p, 0));
}

} // verus!

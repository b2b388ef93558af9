//! Reading `/proc/self/maps`: each line is `start-end perms offset dev inode
//! path`, with the addresses in hexadecimal. With no dynamic linker to ask,
//! a file-backed mapping stands for a loaded object and its lowest mapping
//! for the object's load base; this module answers `dladdr`'s and
//! `dl_iterate_phdr`'s questions from that text.

use vstd::prelude::*;

verus! {

/// The value of a hexadecimal digit.
pub open spec fn spec_hexval(b: u8) -> Option<usize> {
    if 48 <= b <= 57 {
        Some((b - 48) as usize)
    } else if 97 <= b <= 102 {
        Some((b - 97 + 10) as usize)
    } else if 65 <= b <= 70 {
        Some((b - 65 + 10) as usize)
    } else {
        None
    }
}

/// The value of a hexadecimal digit.
pub fn hexval(b: u8) -> (r: Option<usize>)
    ensures
        r == spec_hexval(b),
{
    if 48 <= b && b <= 57 {
        Some((b - 48) as usize)
    } else if 97 <= b && b <= 102 {
        Some((b - 97) as usize + 10)
    } else if 65 <= b && b <= 70 {
        Some((b - 65) as usize + 10)
    } else {
        None
    }
}

/// The end of the run of hexadecimal digits that starts at `i`.
pub open spec fn hex_end(d: Seq<u8>, i: int) -> int
    decreases d.len() - i,
{
    if 0 <= i < d.len() && spec_hexval(d[i]) is Some {
        hex_end(d, i + 1)
    } else {
        i
    }
}

/// The value of the hexadecimal digits `d[i..j]`, wrapping in a `usize`.
pub open spec fn hex_number(d: Seq<u8>, i: int, j: int) -> usize
    decreases j - i,
{
    if j <= i {
        0
    } else {
        hex_number(d, i, j - 1).wrapping_mul(16).wrapping_add(spec_hexval(d[j - 1]).unwrap())
    }
}

/// The index of the first newline at or after `i`, or the end.
pub open spec fn newline_from(d: Seq<u8>, i: int) -> int
    decreases d.len() - i,
{
    if 0 <= i < d.len() && d[i] != 10 {
        newline_from(d, i + 1)
    } else {
        i
    }
}

/// The index of the first `/` in `d[i..j]`, or `j`.
pub open spec fn slash_from(d: Seq<u8>, i: int, j: int) -> int
    decreases j - i,
{
    if i < j && d[i] != 47 {
        slash_from(d, i + 1, j)
    } else {
        i
    }
}

/// Where a path stands in the text.
#[derive(Debug, Copy, Clone, PartialEq, Eq, Structural)]
pub struct PathRef {
    pub offset: usize,
    pub len: usize,
}

/// One line of the maps text: its address range, whether it is readable,
/// and where its path stands in the text (offset and length), if it has one.
/// A line that does not start with `start-` reads as an empty range.
#[derive(Debug, Copy, Clone, PartialEq, Eq, Structural)]
pub struct Line {
    pub start: usize,
    pub end: usize,
    pub readable: bool,
    pub path: Option<PathRef>,
}

/// The index after the end of the line in which `i` stands.
pub open spec fn past_newline(d: Seq<u8>, i: int) -> int {
    let j = newline_from(d, i);
    if j < d.len() {
        j + 1
    } else {
        j
    }
}

/// The line that starts at `i`, and where the next one starts; `None` at
/// the end of the text.
pub open spec fn spec_parse_line(d: Seq<u8>, i: int) -> Option<(Line, int)> {
    if i >= d.len() {
        None
    } else {
        let h = hex_end(d, i);
        if h == i || h >= d.len() || d[h] != 45 {
            Some((Line { start: 0, end: 0, readable: false, path: None }, past_newline(d, h)))
        } else {
            let e = hex_end(d, h + 1);
            let j = newline_from(d, e);
            let ps = slash_from(d, e, j);
            Some((
                Line {
                    start: hex_number(d, i, h),
                    end: hex_number(d, h + 1, e),
                    readable: e + 1 < d.len() && d[e] == 32 && d[e + 1] == 114,
                    path: if ps < j {
                        Some(PathRef { offset: ps as usize, len: (j - ps) as usize })
                    } else {
                        None
                    },
                },
                past_newline(d, e),
            ))
        }
    }
}

pub proof fn lemma_hex_end_bounds(d: Seq<u8>, i: int)
    requires
        0 <= i <= d.len(),
    ensures
        i <= hex_end(d, i) <= d.len(),
    decreases d.len() - i,
{
    if i < d.len() && spec_hexval(d[i]) is Some {
        lemma_hex_end_bounds(d, i + 1);
    }
}

pub proof fn lemma_newline_bounds(d: Seq<u8>, i: int)
    requires
        0 <= i <= d.len(),
    ensures
        i <= newline_from(d, i) <= d.len(),
        newline_from(d, i) < d.len() ==> d[newline_from(d, i)] == 10,
    decreases d.len() - i,
{
    if i < d.len() && d[i] != 10 {
        lemma_newline_bounds(d, i + 1);
    }
}

pub proof fn lemma_slash_bounds(d: Seq<u8>, i: int, j: int)
    requires
        i <= j,
    ensures
        i <= slash_from(d, i, j) <= j,
    decreases j - i,
{
    if i < j && d[i] != 47 {
        lemma_slash_bounds(d, i + 1, j);
    }
}

/// A parsed line lies within the text, and the next one starts after it.
pub proof fn lemma_parse_line_progress(d: Seq<u8>, i: int)
    requires
        0 <= i < d.len(),
    ensures
        spec_parse_line(d, i) is Some,
        i < spec_parse_line(d, i).unwrap().1 <= d.len(),
        spec_parse_line(d, i).unwrap().0.path matches Some(p) ==> p.offset + p.len <= d.len(),
{
    lemma_hex_end_bounds(d, i);
    let h = hex_end(d, i);
    if h == i || h >= d.len() || d[h] != 45 {
        lemma_newline_bounds(d, h);
    } else {
        lemma_hex_end_bounds(d, h + 1);
        let e = hex_end(d, h + 1);
        lemma_newline_bounds(d, e);
        lemma_slash_bounds(d, e, newline_from(d, e));
    }
}

/// The lines of the text from `i` on.
pub open spec fn lines_from(d: Seq<u8>, i: int) -> Seq<Line>
    decreases d.len() - i,
{
    if 0 <= i < d.len() {
        proof {
            lemma_parse_line_progress(d, i);
        }
        let (l, n) = spec_parse_line(d, i).unwrap();
        seq![l] + lines_from(d, n)
    } else {
        Seq::empty()
    }
}

/// The lines of the whole text.
pub open spec fn spec_lines(d: Seq<u8>) -> Seq<Line> {
    lines_from(d, 0)
}

/// Parse the line that starts at `i`, returning it and the index where the
/// next line starts; `None` at the end of the text.
pub fn parse_line(d: &[u8], i: usize) -> (r: Option<(Line, usize)>)
    ensures
        match r {
            None => spec_parse_line(d@, i as int) is None,
            Some((l, n)) => spec_parse_line(d@, i as int) == Some((l, n as int)),
        },
        r matches Some((l, n)) ==> i < n <= d.len(),
{
    if i >= d.len() {
        return None;
    }
    proof {
        lemma_parse_line_progress(d@, i as int);
    }
    let mut p = i;
    let mut start: usize = 0;
    while p < d.len() && hexval(d[p]).is_some()
        invariant
            i <= p <= d.len(),
            hex_end(d@, p as int) == hex_end(d@, i as int),
            start == hex_number(d@, i as int, p as int),
        decreases d.len() - p,
    {
        let v = hexval(d[p]).unwrap();
        start = start.wrapping_mul(16).wrapping_add(v);
        p = p + 1;
    }
    if p == i || p >= d.len() || d[p] != 45 {
        let mut q = p;
        while q < d.len() && d[q] != 10
            invariant
                p <= q <= d.len(),
                newline_from(d@, q as int) == newline_from(d@, p as int),
            decreases d.len() - q,
        {
            q = q + 1;
        }
        if q < d.len() {
            q = q + 1;
        }
        return Some((Line { start: 0, end: 0, readable: false, path: None }, q));
    }
    let h = p;
    p = p + 1;
    let mut end: usize = 0;
    while p < d.len() && hexval(d[p]).is_some()
        invariant
            h + 1 <= p <= d.len(),
            hex_end(d@, p as int) == hex_end(d@, h + 1),
            end == hex_number(d@, h + 1, p as int),
        decreases d.len() - p,
    {
        let v = hexval(d[p]).unwrap();
        end = end.wrapping_mul(16).wrapping_add(v);
        p = p + 1;
    }
    let readable = p < d.len() - 1 && d[p] == 32 && d[p + 1] == 114;
    let mut j = p;
    while j < d.len() && d[j] != 10
        invariant
            p <= j <= d.len(),
            newline_from(d@, j as int) == newline_from(d@, p as int),
        decreases d.len() - j,
    {
        j = j + 1;
    }
    let mut ps = p;
    while ps < j && d[ps] != 47
        invariant
            p <= ps <= j,
            j <= d.len(),
            slash_from(d@, ps as int, j as int) == slash_from(d@, p as int, j as int),
        decreases j - ps,
    {
        ps = ps + 1;
    }
    let path = if ps < j {
        Some(PathRef { offset: ps, len: j - ps })
    } else {
        None
    };
    let next = if j < d.len() {
        j + 1
    } else {
        j
    };
    Some((Line { start, end, readable, path }, next))
}


/// The paths `a` and `b` name the same bytes of the text.
pub open spec fn same_path(d: Seq<u8>, a: PathRef, b: PathRef) -> bool {
    a.len == b.len && d.subrange(a.offset as int, a.offset + a.len) == d.subrange(
        b.offset as int,
        b.offset + b.len,
    )
}

/// A path that lies within the text.
pub open spec fn path_in(d: Seq<u8>, p: PathRef) -> bool {
    p.offset + p.len <= d.len()
}

/// The paths `a` and `b` name the same bytes of the text.
pub fn path_eq(d: &[u8], a: PathRef, b: PathRef) -> (r: bool)
    requires
        path_in(d@, a),
        path_in(d@, b),
    ensures
        r == same_path(d@, a, b),
{
    if a.len != b.len {
        return false;
    }
    let mut k: usize = 0;
    while k < a.len
        invariant
            a.len == b.len,
            path_in(d@, a),
            path_in(d@, b),
            k <= a.len,
            d@.subrange(a.offset as int, a.offset + k) == d@.subrange(b.offset as int, b.offset + k),
        decreases a.len - k,
    {
        assert(a.offset + k < d.len());
        assert(b.offset + k < d.len());
        if d[a.offset + k] != d[b.offset + k] {
            proof {
                let sa = d@.subrange(a.offset as int, a.offset + a.len);
                let sb = d@.subrange(b.offset as int, b.offset + b.len);
                assert(sa[k as int] != sb[k as int]);
            }
            return false;
        }
        proof {
            assert(d@.subrange(a.offset as int, a.offset + k + 1) =~= d@.subrange(a.offset as int, a.offset + k).push(d@[a.offset + k]));
            assert(d@.subrange(b.offset as int, b.offset + k + 1) =~= d@.subrange(b.offset as int, b.offset + k).push(d@[b.offset + k]));
        }
        k = k + 1;
    }
    true
}

/// The line's path, if it has one, lies within the text.
pub open spec fn line_path_in(d: Seq<u8>, l: Line) -> bool {
    match l.path {
        Some(p) => path_in(d, p),
        None => true,
    }
}

/// The line has a path, and it lies within the text.
pub open spec fn has_path_in(d: Seq<u8>, l: Line) -> bool {
    match l.path {
        Some(p) => path_in(d, p),
        None => false,
    }
}

/// Every line's path lies within the text.
pub open spec fn paths_in(d: Seq<u8>, ls: Seq<Line>) -> bool {
    forall|k: int| 0 <= k < ls.len() ==> line_path_in(d, #[trigger] ls[k])
}

pub proof fn lemma_lines_paths_in(d: Seq<u8>, i: int)
    requires
        0 <= i <= d.len(),
    ensures
        paths_in(d, lines_from(d, i)),
    decreases d.len() - i,
{
    if i < d.len() {
        lemma_parse_line_progress(d, i);
        let (l, n) = spec_parse_line(d, i).unwrap();
        lemma_lines_paths_in(d, n);
        let ls = lines_from(d, i);
        assert(ls == seq![l] + lines_from(d, n));
        assert forall|k: int| 0 <= k < ls.len() implies line_path_in(d, #[trigger] ls[k]) by {
            if k > 0 {
                assert(ls[k] == lines_from(d, n)[k - 1]);
            }
        }
    }
}

/// The first line whose range holds the address `t`.
pub open spec fn target_line(ls: Seq<Line>, t: usize) -> Option<Line>
    decreases ls.len(),
{
    if ls.len() == 0 {
        None
    } else if ls[0].start <= t < ls[0].end {
        Some(ls[0])
    } else {
        target_line(ls.drop_first(), t)
    }
}

/// The lowest start among the lines mapping the path `p`, or `usize::MAX`
/// when there is none below it.
pub open spec fn lowest_start(d: Seq<u8>, ls: Seq<Line>, p: PathRef) -> usize
    decreases ls.len(),
{
    if ls.len() == 0 {
        usize::MAX
    } else {
        let r = lowest_start(d, ls.drop_last(), p);
        let l = ls.last();
        if l.path matches Some(q) && same_path(d, q, p) && l.start < r {
            l.start
        } else {
            r
        }
    }
}

/// `dladdr`'s answer for the address `t`: the path of the object whose
/// mapping holds `t`, and that object's load base (its lowest mapping).
pub open spec fn spec_dladdr(d: Seq<u8>, t: usize) -> Option<(PathRef, usize)> {
    let ls = spec_lines(d);
    match target_line(ls, t) {
        None => None,
        Some(l) => match l.path {
            None => None,
            Some(p) => {
                let b = lowest_start(d, ls, p);
                Some((p, if b == usize::MAX { t } else { b }))
            },
        },
    }
}

/// Find the object whose mapping holds the address `t`: the path of the
/// first line whose range holds `t` (none when that line has no path), and
/// the lowest start among the lines with the same path.
pub fn dladdr_lookup(d: &[u8], t: usize) -> (r: Option<(PathRef, usize)>)
    ensures
        r == spec_dladdr(d@, t),
        r matches Some((p, b)) ==> path_in(d@, p),
{
    let ghost ls = spec_lines(d@);
    proof {
        lemma_lines_paths_in(d@, 0);
    }
    // pass 1: the line holding the target
    let mut i: usize = 0;
    let ghost mut done: Seq<Line> = Seq::empty();
    let mut found: Option<Line> = None;
    while i < d.len()
        invariant_except_break
            i <= d.len(),
            ls == done + lines_from(d@, i as int),
            target_line(ls, t) == target_line(lines_from(d@, i as int), t),
            found is None,
        ensures
            target_line(ls, t) == found,
        decreases d.len() - i,
    {
        let (l, n) = parse_line(d, i).unwrap();
        proof {
            assert(lines_from(d@, i as int) == seq![l] + lines_from(d@, n as int));
            assert((seq![l] + lines_from(d@, n as int)).drop_first() =~= lines_from(d@, n as int));
        }
        if l.start <= t && t < l.end {
            found = Some(l);
            break;
        }
        proof {
            done = done + seq![l];
            assert(ls == done + lines_from(d@, n as int));
        }
        i = n;
    }
    let p = match found {
        None => return None,
        Some(l) => match l.path {
            None => return None,
            Some(p) => p,
        },
    };
    proof {
        lemma_target_line_in(ls, t);
    }
    // pass 2: the lowest start among the lines with the same path
    let mut base = usize::MAX;
    let mut i: usize = 0;
    let ghost mut done: Seq<Line> = Seq::empty();
    while i < d.len()
        invariant
            i <= d.len(),
            path_in(d@, p),
            paths_in(d@, ls),
            ls == done + lines_from(d@, i as int),
            base == lowest_start(d@, done, p),
        decreases d.len() - i,
    {
        let (l, n) = parse_line(d, i).unwrap();
        proof {
            assert(lines_from(d@, i as int) == seq![l] + lines_from(d@, n as int));
            assert(ls[done.len() as int] == l);
        }
        match l.path {
            Some(q) => {
                if path_eq(d, q, p) && l.start < base {
                    base = l.start;
                }
            },
            None => {},
        }
        proof {
            let nd = done + seq![l];
            assert(nd.drop_last() =~= done);
            done = nd;
            assert(ls =~= done + lines_from(d@, n as int));
        }
        i = n;
    }
    proof {
        assert(done =~= ls);
    }
    if base == usize::MAX {
        base = t;
    }
    Some((p, base))
}

/// The target line is one of the lines.
proof fn lemma_target_line_in(ls: Seq<Line>, t: usize)
    ensures
        target_line(ls, t) matches Some(l) ==> ls.contains(l) && l.start <= t < l.end,
    decreases ls.len(),
{
    if ls.len() > 0 && !(ls[0].start <= t < ls[0].end) {
        lemma_target_line_in(ls.drop_first(), t);
        if let Some(l) = target_line(ls.drop_first(), t) {
            let k = choose|k: int| 0 <= k < ls.drop_first().len() && ls.drop_first()[k] == l;
            assert(ls[k + 1] == l);
        }
    } else if ls.len() > 0 {
        assert(ls[0] == ls[0]);
    }
}

/// `p` names the same bytes as one of `seen`.
pub open spec fn seen_has(d: Seq<u8>, seen: Seq<PathRef>, p: PathRef) -> bool {
    exists|k: int| 0 <= k < seen.len() && same_path(d, seen[k], p)
}

/// The paths remembered before line `k`: each path not yet remembered is
/// remembered when first met.
pub open spec fn seen_before(d: Seq<u8>, ls: Seq<Line>, k: int) -> Seq<PathRef>
    decreases k,
{
    if k <= 0 {
        Seq::empty()
    } else {
        let r = seen_before(d, ls, k - 1);
        match ls[k - 1].path {
            Some(p) => if !seen_has(d, r, p) {
                r.push(p)
            } else {
                r
            },
            None => r,
        }
    }
}

/// Line `k` is reported: it has a path that was not remembered before it
/// (and, with `readable_only`, it is readable).
pub open spec fn reported(d: Seq<u8>, ls: Seq<Line>, k: int, readable_only: bool) -> bool {
    ls[k].path matches Some(p) && !seen_has(d, seen_before(d, ls, k), p) && (!readable_only
        || ls[k].readable)
}

/// The reported lines among the first `k`, in order.
pub open spec fn reported_upto(d: Seq<u8>, ls: Seq<Line>, k: int, readable_only: bool) -> Seq<Line>
    decreases k,
{
    if k <= 0 {
        Seq::empty()
    } else {
        let r = reported_upto(d, ls, k - 1, readable_only);
        if reported(d, ls, k - 1, readable_only) {
            r.push(ls[k - 1])
        } else {
            r
        }
    }
}

/// The lines that `dl_iterate_phdr` offers to its callback, in order: the
/// first mapping of each distinct path, readable ones only when
/// `readable_only` holds.
pub open spec fn spec_objects(d: Seq<u8>, readable_only: bool) -> Seq<Line> {
    let ls = spec_lines(d);
    reported_upto(d, ls, ls.len() as int, readable_only)
}

/// `p` names the same bytes as one of `seen`.
fn seen_contains(d: &[u8], seen: &Vec<PathRef>, p: PathRef) -> (r: bool)
    requires
        path_in(d@, p),
        forall|k: int| 0 <= k < seen.len() ==> path_in(d@, #[trigger] seen@[k]),
    ensures
        r == seen_has(d@, seen@, p),
{
    let mut k: usize = 0;
    while k < seen.len()
        invariant
            k <= seen.len(),
            path_in(d@, p),
            forall|m: int| 0 <= m < seen.len() ==> path_in(d@, #[trigger] seen@[m]),
            forall|m: int| 0 <= m < k ==> !same_path(d@, #[trigger] seen@[m], p),
        decreases seen.len() - k,
    {
        if path_eq(d, seen[k], p) {
            return true;
        }
        k = k + 1;
    }
    false
}

/// The lines to offer `dl_iterate_phdr`'s callback, in order.
pub fn phdr_objects(d: &[u8], readable_only: bool) -> (r: Vec<Line>)
    ensures
        r@ == spec_objects(d@, readable_only),
        forall|k: int| 0 <= k < r.len() ==> has_path_in(d@, #[trigger] r@[k]),
        forall|i1: int, i2: int|
            0 <= i1 < i2 < r.len() ==> !same_path(
                d@,
                (#[trigger] r@[i1]).path.unwrap(),
                (#[trigger] r@[i2]).path.unwrap(),
            ),
{
    let ghost ls = spec_lines(d@);
    proof {
        lemma_lines_paths_in(d@, 0);
    }
    let mut out: Vec<Line> = Vec::new();
    let mut seen: Vec<PathRef> = Vec::new();
    let mut i: usize = 0;
    let ghost mut done: Seq<Line> = Seq::empty();
    while i < d.len()
        invariant
            i <= d.len(),
            paths_in(d@, ls),
            ls == done + lines_from(d@, i as int),
            seen@ == seen_before(d@, ls, done.len() as int),
            out@ == reported_upto(d@, ls, done.len() as int, readable_only),
            forall|m: int| 0 <= m < seen.len() ==> path_in(d@, #[trigger] seen@[m]),
            forall|m: int| 0 <= m < out.len() ==> has_path_in(d@, #[trigger] out@[m]),
        decreases d.len() - i,
    {
        let (l, n) = parse_line(d, i).unwrap();
        let ghost k = done.len() as int;
        proof {
            assert(lines_from(d@, i as int) == seq![l] + lines_from(d@, n as int));
            assert(ls[k] == l);
        }
        match l.path {
            Some(p) => {
                let dup = seen_contains(d, &seen, p);
                if !dup {
                    seen.push(p);
                    if !readable_only || l.readable {
                        out.push(l);
                    }
                }
            },
            None => {},
        }
        proof {
            done = done + seq![l];
            assert(ls =~= done + lines_from(d@, n as int));
        }
        i = n;
    }
    proof {
        assert(done =~= ls);
        lemma_objects_distinct(d@, ls, ls.len() as int, readable_only);
    }
    out
}

proof fn lemma_lowest_start_le(d: Seq<u8>, ls: Seq<Line>, p: PathRef, k: int)
    requires
        0 <= k < ls.len(),
        ls[k].path matches Some(q) && same_path(d, q, p),
    ensures
        lowest_start(d, ls, p) <= ls[k].start,
    decreases ls.len(),
{
    if k < ls.len() - 1 {
        lemma_lowest_start_le(d, ls.drop_last(), p, k);
        assert(ls.drop_last()[k] == ls[k]);
    }
}

/// The load base `dladdr` reports for an address is the object's lowest
/// mapping: it lies at or below the start of every mapping of the same
/// path, and never above the address itself.
pub proof fn law_dladdr_base_is_lowest(d: Seq<u8>, t: usize, k: int)
    ensures
        spec_dladdr(d, t) matches Some((p, b)) ==> b <= t,
        spec_dladdr(d, t) matches Some((p, b)) ==> (0 <= k < spec_lines(d).len() && maps_path(
            d,
            spec_lines(d)[k],
            p,
        ) ==> b <= spec_lines(d)[k].start),
{
    let ls = spec_lines(d);
    lemma_target_line_in(ls, t);
    if let Some(l) = target_line(ls, t) {
        if let Some(p) = l.path {
            let j = choose|j: int| 0 <= j < ls.len() && ls[j] == l;
            assert(same_path(d, p, p));
            lemma_lowest_start_le(d, ls, p, j);
            if 0 <= k < ls.len() && maps_path(d, ls[k], p) {
                lemma_lowest_start_le(d, ls, p, k);
            }
        }
    }
}

proof fn lemma_seen_grows(d: Seq<u8>, ls: Seq<Line>, k1: int, k2: int)
    requires
        0 <= k1 <= k2 <= ls.len(),
    ensures
        seen_before(d, ls, k1).len() <= seen_before(d, ls, k2).len() <= k2,
        forall|j: int| 0 <= j < seen_before(d, ls, k1).len()
            ==> #[trigger] seen_before(d, ls, k2)[j] == seen_before(d, ls, k1)[j],
    decreases k2,
{
    if k2 > k1 {
        lemma_seen_grows(d, ls, k1, k2 - 1);
    } else if k2 > 0 {
        lemma_seen_grows(d, ls, 0, k2 - 1);
    }
}

/// A path remembered before line `k` stays remembered at every later line.
proof fn lemma_seen_kept(d: Seq<u8>, ls: Seq<Line>, k1: int, k2: int, p: PathRef)
    requires
        0 <= k1 <= k2 <= ls.len(),
        seen_has(d, seen_before(d, ls, k1), p),
    ensures
        seen_has(d, seen_before(d, ls, k2), p),
{
    lemma_seen_grows(d, ls, k1, k2);
    let a = seen_before(d, ls, k1);
    let b = seen_before(d, ls, k2);
    let m = choose|m: int| 0 <= m < a.len() && same_path(d, a[m], p);
    assert(b[m] == a[m]);
}

proof fn lemma_objects_distinct(d: Seq<u8>, ls: Seq<Line>, k: int, readable_only: bool)
    requires
        0 <= k <= ls.len(),
    ensures
        forall|i: int|
            0 <= i < reported_upto(d, ls, k, readable_only).len() ==> (#[trigger] reported_upto(
                d,
                ls,
                k,
                readable_only,
            )[i]).path is Some && seen_has(
                d,
                seen_before(d, ls, k),
                reported_upto(d, ls, k, readable_only)[i].path.unwrap(),
            ),
        forall|i1: int, i2: int|
            0 <= i1 < i2 < reported_upto(d, ls, k, readable_only).len() ==> !same_path(
                d,
                (#[trigger] reported_upto(d, ls, k, readable_only)[i1]).path.unwrap(),
                (#[trigger] reported_upto(d, ls, k, readable_only)[i2]).path.unwrap(),
            ),
    decreases k,
{
    if k > 0 {
        lemma_objects_distinct(d, ls, k - 1, readable_only);
        let r = reported_upto(d, ls, k - 1, readable_only);
        let u = reported_upto(d, ls, k, readable_only);
        let sb = seen_before(d, ls, k - 1);
        assert forall|i: int| 0 <= i < u.len() implies (#[trigger] u[i]).path is Some && seen_has(
            d,
            seen_before(d, ls, k),
            u[i].path.unwrap(),
        ) by {
            if i < r.len() {
                assert(u[i] == r[i]);
                lemma_seen_kept(d, ls, k - 1, k, r[i].path.unwrap());
            } else {
                let p = ls[k - 1].path.unwrap();
                assert(u[i] == ls[k - 1]);
                assert(seen_before(d, ls, k) == sb.push(p));
                assert(same_path(d, sb.push(p)[sb.len() as int], p));
            }
        }
        assert forall|i1: int, i2: int| 0 <= i1 < i2 < u.len() implies !same_path(
            d,
            (#[trigger] u[i1]).path.unwrap(),
            (#[trigger] u[i2]).path.unwrap(),
        ) by {
            assert(u[i1] == r[i1]);
            if i2 < r.len() {
                assert(u[i2] == r[i2]);
            } else {
                let p = ls[k - 1].path.unwrap();
                let q = r[i1].path.unwrap();
                assert(u[i2] == ls[k - 1]);
                let m = choose|m: int| 0 <= m < sb.len() && same_path(d, sb[m], q);
                if same_path(d, q, p) {
                    assert(same_path(d, sb[m], p));
                    assert(seen_has(d, sb, p));
                }
            }
        }
    }
}

/// `dl_iterate_phdr` offers each object once: no two offered lines name
/// the same path bytes.
pub proof fn law_phdr_objects_distinct(d: Seq<u8>, i1: int, i2: int, readable_only: bool)
    requires
        0 <= i1 < i2 < spec_objects(d, readable_only).len(),
    ensures
        !same_path(
            d,
            spec_objects(d, readable_only)[i1].path.unwrap(),
            spec_objects(d, readable_only)[i2].path.unwrap(),
        ),
{
    let ls = spec_lines(d);
    lemma_objects_distinct(d, ls, ls.len() as int, readable_only);
}

proof fn lemma_reported_in_upto(d: Seq<u8>, ls: Seq<Line>, j: int, k: int, readable_only: bool)
    requires
        0 <= j < k <= ls.len(),
        reported(d, ls, j, readable_only),
    ensures
        reported_upto(d, ls, k, readable_only).contains(ls[j]),
    decreases k,
{
    let r = reported_upto(d, ls, k - 1, readable_only);
    if j < k - 1 {
        lemma_reported_in_upto(d, ls, j, k - 1, readable_only);
        let i = choose|i: int| 0 <= i < r.len() && r[i] == ls[j];
        if reported(d, ls, k - 1, readable_only) {
            assert(r.push(ls[k - 1])[i] == ls[j]);
        }
    } else {
        assert(r.push(ls[j])[r.len() as int] == ls[j]);
    }
}

/// Some line before `k` was reported with exactly the path `x`.
spec fn reported_before(d: Seq<u8>, ls: Seq<Line>, k: int, x: PathRef) -> bool {
    exists|j: int| 0 <= j < k && reported(d, ls, j, false) && ls[j].path == Some(x)
}

proof fn lemma_seen_were_reported(d: Seq<u8>, ls: Seq<Line>, k: int)
    requires
        0 <= k <= ls.len(),
    ensures
        forall|m: int| 0 <= m < seen_before(d, ls, k).len() ==> reported_before(d, ls, k, #[trigger] seen_before(d, ls, k)[m]),
    decreases k,
{
    if k > 0 {
        lemma_seen_were_reported(d, ls, k - 1);
        let r = seen_before(d, ls, k - 1);
        let sk = seen_before(d, ls, k);
        assert forall|m: int| 0 <= m < sk.len() implies reported_before(d, ls, k, #[trigger] sk[m]) by {
            if m < r.len() {
                assert(sk[m] == r[m]);
                assert(reported_before(d, ls, k - 1, r[m]));
                let j = choose|j: int| 0 <= j < k - 1 && reported(d, ls, j, false) && ls[j].path == Some(r[m]);
                assert(0 <= j < k && reported(d, ls, j, false) && ls[j].path == Some(sk[m]));
            } else {
                let p = ls[k - 1].path.unwrap();
                assert(sk == r.push(p));
                assert(0 <= k - 1 < k && reported(d, ls, k - 1, false) && ls[k - 1].path == Some(sk[m]));
            }
        }
    }
}

/// The line maps the path `p` (a path with the same bytes).
pub open spec fn maps_path(d: Seq<u8>, l: Line, p: PathRef) -> bool {
    match l.path {
        Some(q) => same_path(d, q, p),
        None => false,
    }
}

/// `dl_iterate_phdr` reports every loaded object: each line that maps a
/// path has its path among the offered lines (when unreadable first
/// mappings are offered too).
pub proof fn law_phdr_objects_complete(d: Seq<u8>, k: int)
    requires
        0 <= k < spec_lines(d).len(),
        spec_lines(d)[k].path is Some,
    ensures
        exists|i: int|
            0 <= i < spec_objects(d, false).len() && maps_path(d, #[trigger] spec_objects(d, false)[i], spec_lines(d)[k].path.unwrap()),
{
    let ls = spec_lines(d);
    let p = ls[k].path.unwrap();
    let objs = spec_objects(d, false);
    let j = if reported(d, ls, k, false) {
        k
    } else {
        let seen = seen_before(d, ls, k);
        let m = choose|m: int| 0 <= m < seen.len() && same_path(d, seen[m], p);
        lemma_seen_were_reported(d, ls, k);
        assert(reported_before(d, ls, k, seen[m]));
        let j = choose|j: int| 0 <= j < k && reported(d, ls, j, false) && ls[j].path == Some(seen[m]);
        j
    };
    assert(reported(d, ls, j, false) && same_path(d, ls[j].path.unwrap(), p));
    lemma_reported_in_upto(d, ls, j, ls.len() as int, false);
    let i = choose|i: int| 0 <= i < objs.len() && objs[i] == ls[j];
    assert(maps_path(d, objs[i], p));
}

/// `dl_iterate_phdr`, offering only readable first mappings, reports every
/// loaded object whose first mapping is readable: a readable line that
/// maps a path no earlier line maps is offered.
pub proof fn law_phdr_objects_complete_readable(d: Seq<u8>, k: int)
    requires
        0 <= k < spec_lines(d).len(),
        spec_lines(d)[k].path is Some,
        spec_lines(d)[k].readable,
        forall|j: int|
            0 <= j < k ==> !maps_path(d, #[trigger] spec_lines(d)[j], spec_lines(d)[k].path.unwrap()),
    ensures
        spec_objects(d, true).contains(spec_lines(d)[k]),
{
    let ls = spec_lines(d);
    let p = ls[k].path.unwrap();
    let seen = seen_before(d, ls, k);
    lemma_seen_were_reported(d, ls, k);
    if seen_has(d, seen, p) {
        let m = choose|m: int| 0 <= m < seen.len() && same_path(d, seen[m], p);
        assert(reported_before(d, ls, k, seen[m]));
        let j = choose|j: int| 0 <= j < k && reported(d, ls, j, false) && ls[j].path == Some(seen[m]);
        assert(maps_path(d, ls[j], p));
        assert(false);
    }
    assert(reported(d, ls, k, true));
    lemma_reported_in_upto(d, ls, k, ls.len() as int, true);
}

/// Where `dl_iterate_phdr` stands after its callback answered `answer` for
/// an object: it stops and returns the answer when it is not 0, and goes
/// on to the next object (`None`) when it is.
pub open spec fn callback_after(answer: i32) -> Option<i32> {
    if answer != 0 {
        Some(answer)
    } else {
        None
    }
}

/// `dl_iterate_phdr`'s step after the callback answered `answer`.
pub fn phdr_callback_step(answer: i32) -> (r: Option<i32>)
    ensures
        r == callback_after(answer),
{
    if answer != 0 {
        Some(answer)
    } else {
        None
    }
}

/// What `dl_iterate_phdr` returns when its callback answers `answers`, in
/// order, for the objects it is offered: the first answer that is not 0,
/// or 0 when every object was offered.
pub open spec fn walk_result(answers: Seq<i32>) -> i32
    decreases answers.len(),
{
    if answers.len() == 0 {
        0
    } else {
        match callback_after(answers[0]) {
            Some(r) => r,
            None => walk_result(answers.drop_first()),
        }
    }
}

proof fn lemma_walk_prefix(answers: Seq<i32>, j: int)
    requires
        0 <= j < answers.len(),
        answers[j] != 0,
        forall|i: int| 0 <= i < j ==> answers[i] == 0,
    ensures
        walk_result(answers) == answers[j],
    decreases j,
{
    if j > 0 {
        let t = answers.drop_first();
        assert forall|i: int| 0 <= i < j - 1 implies t[i] == 0 by {
            assert(t[i] == answers[i + 1]);
        }
        assert(t[j - 1] == answers[j]);
        lemma_walk_prefix(t, j - 1);
    }
}

proof fn lemma_walk_zeros(answers: Seq<i32>)
    requires
        forall|i: int| 0 <= i < answers.len() ==> answers[i] == 0,
    ensures
        walk_result(answers) == 0,
    decreases answers.len(),
{
    if answers.len() > 0 {
        let t = answers.drop_first();
        assert forall|i: int| 0 <= i < t.len() implies t[i] == 0 by {
            assert(t[i] == answers[i + 1]);
        }
        lemma_walk_zeros(t);
    }
}

/// `dl_iterate_phdr` stops at the callback's first answer that is not 0 and
/// returns it, whatever the callback would have answered for the objects
/// after it; when every answer is 0 it returns 0.
pub proof fn law_walk_stops_at_first_nonzero(answers: Seq<i32>, j: int)
    requires
        0 <= j <= answers.len(),
        forall|i: int| 0 <= i < j ==> answers[i] == 0,
        j < answers.len() ==> answers[j] != 0,
    ensures
        j < answers.len() ==> walk_result(answers) == answers[j],
        j < answers.len() ==> walk_result(answers.take(j + 1)) == answers[j],
        j == answers.len() ==> walk_result(answers) == 0,
{
    if j < answers.len() {
        lemma_walk_prefix(answers, j);
        let p = answers.take(j + 1);
        assert forall|i: int| 0 <= i < j implies p[i] == 0 by {
            assert(p[i] == answers[i]);
        }
        lemma_walk_prefix(p, j);
    } else {
        lemma_walk_zeros(answers);
    }
}

/// The paths `a` and `b` are byte for byte the same: equal lengths and
/// equal bytes at every position.
pub open spec fn same_bytes(d: Seq<u8>, a: PathRef, b: PathRef) -> bool {
    a.len == b.len && forall|k: int| 0 <= k < a.len ==> #[trigger] d[a.offset + k] == d[b.offset + k]
}

/// The line maps a path byte for byte the same as `p`.
pub open spec fn maps_bytes(d: Seq<u8>, l: Line, p: PathRef) -> bool {
    match l.path {
        Some(q) => same_bytes(d, q, p),
        None => false,
    }
}

/// Two paths name the same object exactly when they are byte for byte the
/// same, over their whole length.
pub proof fn law_same_path_is_byte_equality(d: Seq<u8>, a: PathRef, b: PathRef)
    requires
        path_in(d, a),
        path_in(d, b),
    ensures
        same_path(d, a, b) <==> same_bytes(d, a, b),
{
    let sa = d.subrange(a.offset as int, a.offset + a.len);
    let sb = d.subrange(b.offset as int, b.offset + b.len);
    if same_path(d, a, b) {
        assert forall|k: int| 0 <= k < a.len implies #[trigger] d[a.offset + k] == d[b.offset + k] by {
            assert(sa[k] == sb[k]);
        }
    }
    if same_bytes(d, a, b) {
        assert forall|k: int| 0 <= k < sa.len() implies sa[k] == sb[k] by {
            assert(d[a.offset + k] == d[b.offset + k]);
        }
        assert(sa =~= sb);
    }
}

proof fn lemma_first_mapping_offered(d: Seq<u8>, k: int, readable_only: bool)
    requires
        0 <= k < spec_lines(d).len(),
        spec_lines(d)[k].path is Some,
        readable_only ==> spec_lines(d)[k].readable,
        forall|j: int|
            0 <= j < k ==> !maps_path(d, #[trigger] spec_lines(d)[j], spec_lines(d)[k].path.unwrap()),
    ensures
        spec_objects(d, readable_only).contains(spec_lines(d)[k]),
{
    let ls = spec_lines(d);
    let p = ls[k].path.unwrap();
    let seen = seen_before(d, ls, k);
    lemma_seen_were_reported(d, ls, k);
    if seen_has(d, seen, p) {
        let m = choose|m: int| 0 <= m < seen.len() && same_path(d, seen[m], p);
        assert(reported_before(d, ls, k, seen[m]));
        let j = choose|j: int| 0 <= j < k && reported(d, ls, j, false) && ls[j].path == Some(seen[m]);
        assert(maps_path(d, ls[j], p));
        assert(false);
    }
    assert(reported(d, ls, k, readable_only));
    lemma_reported_in_upto(d, ls, k, ls.len() as int, readable_only);
}

/// `dl_iterate_phdr` offers one line for every distinct full path: a line
/// whose path differs, in length or in some byte, from the path of every
/// line before it is offered (when it is readable, if only readable first
/// mappings are offered); and any two offered lines have paths that differ
/// in length or in some byte.
pub proof fn law_phdr_objects_by_bytes(d: Seq<u8>, k: int, readable_only: bool)
    requires
        0 <= k < spec_lines(d).len(),
        spec_lines(d)[k].path is Some,
        readable_only ==> spec_lines(d)[k].readable,
        forall|j: int|
            0 <= j < k && (#[trigger] spec_lines(d)[j]).path is Some ==> !same_bytes(
                d,
                spec_lines(d)[j].path.unwrap(),
                spec_lines(d)[k].path.unwrap(),
            ),
    ensures
        spec_objects(d, readable_only).contains(spec_lines(d)[k]),
        forall|i1: int, i2: int|
            0 <= i1 < i2 < spec_objects(d, readable_only).len() ==> !same_bytes(
                d,
                (#[trigger] spec_objects(d, readable_only)[i1]).path.unwrap(),
                (#[trigger] spec_objects(d, readable_only)[i2]).path.unwrap(),
            ),
{
    let ls = spec_lines(d);
    lemma_lines_paths_in(d, 0);
    let p = ls[k].path.unwrap();
    assert(line_path_in(d, ls[k]));
    assert forall|j: int| 0 <= j < k implies !maps_path(d, #[trigger] ls[j], p) by {
        assert(line_path_in(d, ls[j]));
        if let Some(q) = ls[j].path {
            law_same_path_is_byte_equality(d, q, p);
        }
    }
    lemma_first_mapping_offered(d, k, readable_only);
    let objs = spec_objects(d, readable_only);
    assert forall|i1: int, i2: int| 0 <= i1 < i2 < objs.len() implies !same_bytes(
        d,
        (#[trigger] objs[i1]).path.unwrap(),
        (#[trigger] objs[i2]).path.unwrap(),
    ) by {
        law_phdr_objects_distinct(d, i1, i2, readable_only);
        lemma_objects_have_paths(d, readable_only, i1);
        lemma_objects_have_paths(d, readable_only, i2);
        law_same_path_is_byte_equality(d, objs[i1].path.unwrap(), objs[i2].path.unwrap());
    }
}

proof fn lemma_objects_have_paths(d: Seq<u8>, readable_only: bool, i: int)
    requires
        0 <= i < spec_objects(d, readable_only).len(),
    ensures
        has_path_in(d, spec_objects(d, readable_only)[i]),
{
    let ls = spec_lines(d);
    lemma_lines_paths_in(d, 0);
    lemma_reported_have_paths(d, ls, ls.len() as int, readable_only);
}

proof fn lemma_reported_have_paths(d: Seq<u8>, ls: Seq<Line>, k: int, readable_only: bool)
    requires
        0 <= k <= ls.len(),
        paths_in(d, ls),
    ensures
        forall|i: int|
            0 <= i < reported_upto(d, ls, k, readable_only).len() ==> has_path_in(
                d,
                #[trigger] reported_upto(d, ls, k, readable_only)[i],
            ),
    decreases k,
{
    if k > 0 {
        lemma_reported_have_paths(d, ls, k - 1, readable_only);
        let r = reported_upto(d, ls, k - 1, readable_only);
        let rk = reported_upto(d, ls, k, readable_only);
        assert(line_path_in(d, ls[k - 1]));
        assert forall|i: int| 0 <= i < rk.len() implies has_path_in(d, #[trigger] rk[i]) by {
            if i < r.len() {
                assert(rk[i] == r[i]);
            } else {
                assert(rk[i] == ls[k - 1]);
            }
        }
    }
}

proof fn lemma_lowest_start_witness(d: Seq<u8>, ls: Seq<Line>, p: PathRef)
    ensures
        lowest_start(d, ls, p) < usize::MAX ==> exists|k: int|
            0 <= k < ls.len() && maps_path(d, #[trigger] ls[k], p)
                && ls[k].start == lowest_start(d, ls, p),
        forall|k: int|
            0 <= k < ls.len() && maps_path(d, #[trigger] ls[k], p)
                ==> lowest_start(d, ls, p) <= ls[k].start,
    decreases ls.len(),
{
    if ls.len() > 0 {
        let pre = ls.drop_last();
        lemma_lowest_start_witness(d, pre, p);
        let r = lowest_start(d, pre, p);
        assert forall|k: int|
            0 <= k < ls.len() && maps_path(d, #[trigger] ls[k], p)
                implies lowest_start(d, ls, p) <= ls[k].start by {
            if k < pre.len() {
                assert(pre[k] == ls[k]);
            }
        }
        if lowest_start(d, ls, p) < usize::MAX {
            if lowest_start(d, ls, p) == r && r < usize::MAX {
                let k = choose|k: int|
                    0 <= k < pre.len() && maps_path(d, #[trigger] pre[k], p)
                        && pre[k].start == r;
                assert(ls[k] == pre[k]);
            } else {
                assert(ls[ls.len() - 1] == ls.last());
            }
        }
    }
}

/// `dladdr` answers with the load base of the object that holds the
/// address: a line whose path is byte for byte the target line's starts at
/// the base, and no such line starts below it.
pub proof fn law_dladdr_base_by_bytes(d: Seq<u8>, t: usize)
    ensures
        spec_dladdr(d, t) matches Some((p, b)) ==> (exists|k: int|
            0 <= k < spec_lines(d).len() && maps_bytes(d, #[trigger] spec_lines(d)[k], p) && spec_lines(d)[k].start == b),
        spec_dladdr(d, t) matches Some((p, b)) ==> (forall|k: int|
            0 <= k < spec_lines(d).len() && maps_bytes(d, #[trigger] spec_lines(d)[k], p) ==> b <= spec_lines(d)[k].start),
{
    let ls = spec_lines(d);
    lemma_lines_paths_in(d, 0);
    lemma_target_line_in(ls, t);
    if let Some(l) = target_line(ls, t) {
        if let Some(p) = l.path {
            let j = choose|j: int| 0 <= j < ls.len() && ls[j] == l;
            assert(line_path_in(d, ls[j]));
            lemma_lowest_start_witness(d, ls, p);
            assert(same_path(d, p, p));
            let b = lowest_start(d, ls, p);
            assert(b <= l.start);
            assert(b < usize::MAX);
            let k = choose|k: int|
                0 <= k < ls.len() && maps_path(d, #[trigger] ls[k], p)
                    && ls[k].start == b;
            assert(line_path_in(d, ls[k]));
            law_same_path_is_byte_equality(d, ls[k].path.unwrap(), p);
            assert forall|m: int|
                0 <= m < ls.len() && maps_bytes(d, #[trigger] ls[m], p)
                    implies b <= ls[m].start by {
                assert(line_path_in(d, ls[m]));
                law_same_path_is_byte_equality(d, ls[m].path.unwrap(), p);
            }
        }
    }
}

/// The digit a hexadecimal character writes (`0`-`9`, `a`-`f`, `A`-`F`), or
/// 16 for a character that is no hexadecimal digit.
pub open spec fn hex_digit_of(b: u8) -> int {
    if 48 <= b <= 57 {
        b - 48
    } else if 97 <= b <= 102 {
        b - 87
    } else if 65 <= b <= 70 {
        b - 55
    } else {
        16
    }
}

/// The value of the hexadecimal digits `t`, most significant first.
pub open spec fn hex_text_value(t: Seq<u8>) -> int
    decreases t.len(),
{
    if t.len() == 0 {
        0
    } else {
        hex_text_value(t.drop_last()) * 16 + hex_digit_of(t.last())
    }
}

proof fn lemma_hex_run_ends(d: Seq<u8>, i: int, h: int)
    requires
        0 <= i <= h <= d.len(),
        forall|m: int| i <= m < h ==> hex_digit_of(#[trigger] d[m]) < 16,
        h < d.len() ==> hex_digit_of(d[h]) == 16,
    ensures
        hex_end(d, i) == h,
    decreases h - i,
{
    if i < h {
        lemma_hex_run_ends(d, i + 1, h);
    }
}

proof fn lemma_hex_number_exact(d: Seq<u8>, i: int, j: int)
    requires
        0 <= i <= j <= d.len(),
        forall|m: int| i <= m < j ==> hex_digit_of(#[trigger] d[m]) < 16,
        hex_text_value(d.subrange(i, j)) <= usize::MAX,
    ensures
        hex_number(d, i, j) as int == hex_text_value(d.subrange(i, j)),
    decreases j - i,
{
    if j > i {
        let t = d.subrange(i, j);
        assert(t.drop_last() =~= d.subrange(i, j - 1));
        assert(t.last() == d[j - 1]);
        let v = hex_text_value(d.subrange(i, j - 1));
        lemma_hex_value_nonneg(d.subrange(i, j - 1));
        assert(v <= v * 16) by (nonlinear_arith)
            requires
                v >= 0,
        ;
        lemma_hex_number_exact(d, i, j - 1);
        let w = hex_number(d, i, j - 1);
        let prod: nat = (w as nat * 16) as nat;
        assert(prod <= usize::MAX);
        vstd::arithmetic::div_mod::lemma_small_mod(prod, (usize::MAX + 1) as nat);
        assert(w.wrapping_mul(16) as int == prod);
    }
}

proof fn lemma_hex_value_nonneg(t: Seq<u8>)
    ensures
        hex_text_value(t) >= 0,
    decreases t.len(),
{
    if t.len() > 0 {
        lemma_hex_value_nonneg(t.drop_last());
    }
}

proof fn lemma_newline_at(d: Seq<u8>, e: int, j: int)
    requires
        0 <= e <= j <= d.len(),
        forall|m: int| e <= m < j ==> #[trigger] d[m] != 10,
        j < d.len() ==> d[j] == 10,
    ensures
        newline_from(d, e) == j,
    decreases j - e,
{
    if e < j {
        lemma_newline_at(d, e + 1, j);
    }
}

proof fn lemma_slash_at(d: Seq<u8>, e: int, ps: int, j: int)
    requires
        0 <= e <= ps <= j <= d.len(),
        forall|m: int| e <= m < ps ==> #[trigger] d[m] != 47,
        ps < j ==> d[ps] == 47,
    ensures
        slash_from(d, e, j) == ps,
    decreases ps - e,
{
    if e < ps {
        lemma_slash_at(d, e + 1, ps, j);
    }
}

/// A maps line `start-end perms ... path` read from `i`: the start and end
/// are the hexadecimal values of their digits, the mapping is readable
/// exactly when the permissions begin with `r`, the path runs from the
/// first `/` after the addresses to the end of the line, and the next line
/// starts after the newline.
pub proof fn law_maps_line_fields(d: Seq<u8>, i: int, h: int, e: int, ps: int, j: int)
    requires
        0 <= i < h,
        h + 1 < e,
        e + 1 < ps <= j <= d.len(),
        d.len() <= usize::MAX,
        forall|m: int| i <= m < h ==> hex_digit_of(#[trigger] d[m]) < 16,
        d[h] == 45,
        forall|m: int| h + 1 <= m < e ==> hex_digit_of(#[trigger] d[m]) < 16,
        d[e] == 32,
        forall|m: int| e <= m < ps ==> #[trigger] d[m] != 47 && d[m] != 10,
        forall|m: int| ps <= m < j ==> #[trigger] d[m] != 10,
        ps < j ==> d[ps] == 47,
        j < d.len() ==> d[j] == 10,
        hex_text_value(d.subrange(i, h)) <= usize::MAX,
        hex_text_value(d.subrange(h + 1, e)) <= usize::MAX,
    ensures
        spec_parse_line(d, i) == Some(
            (
                Line {
                    start: hex_text_value(d.subrange(i, h)) as usize,
                    end: hex_text_value(d.subrange(h + 1, e)) as usize,
                    readable: d[e + 1] == 114,
                    path: if ps < j {
                        Some(PathRef { offset: ps as usize, len: (j - ps) as usize })
                    } else {
                        None
                    },
                },
                if j < d.len() { j + 1 } else { j },
            ),
        ),
{
    lemma_hex_run_ends(d, i, h);
    lemma_hex_run_ends(d, h + 1, e);
    lemma_hex_number_exact(d, i, h);
    lemma_hex_number_exact(d, h + 1, e);
    assert forall|m: int| e <= m < j implies #[trigger] d[m] != 10 by {
        if m >= ps {
            assert(d[m] != 10);
        }
    }
    lemma_newline_at(d, e, j);
    lemma_slash_at(d, e, ps, j);
}

/// Line `l`'s range holds the address `t`.
pub open spec fn holds(l: Line, t: usize) -> bool {
    l.start <= t < l.end
}

proof fn lemma_target_is_first(ls: Seq<Line>, t: usize)
    ensures
        target_line(ls, t) matches Some(l) ==> exists|k: int|
            0 <= k < ls.len() && ls[k] == l && holds(ls[k], t) && forall|j: int|
                0 <= j < k ==> !holds(#[trigger] ls[j], t),
        target_line(ls, t) is None ==> forall|k: int| 0 <= k < ls.len() ==> !holds(#[trigger] ls[k], t),
    decreases ls.len(),
{
    if ls.len() > 0 {
        let tl = ls.drop_first();
        lemma_target_is_first(tl, t);
        if holds(ls[0], t) {
            assert(0 <= 0 < ls.len() && ls[0] == ls[0] && holds(ls[0], t) && forall|j: int|
                0 <= j < 0 ==> !holds(#[trigger] ls[j], t));
        } else {
            if let Some(l) = target_line(tl, t) {
                let k = choose|k: int|
                    0 <= k < tl.len() && tl[k] == l && holds(tl[k], t) && forall|j: int|
                        0 <= j < k ==> !holds(#[trigger] tl[j], t);
                assert forall|j: int| 0 <= j < k + 1 implies !holds(#[trigger] ls[j], t) by {
                    if j > 0 {
                        assert(ls[j] == tl[j - 1]);
                    }
                }
                assert(ls[k + 1] == l);
            } else {
                assert forall|k: int| 0 <= k < ls.len() implies !holds(#[trigger] ls[k], t) by {
                    if k > 0 {
                        assert(ls[k] == tl[k - 1]);
                    }
                }
            }
        }
    }
}

/// `dladdr` finds the object from the first line whose range holds the
/// address: its answer is that line's path, it has none when that line has
/// no path, and it has none when no line holds the address.
pub proof fn law_dladdr_target(d: Seq<u8>, t: usize)
    ensures
        spec_dladdr(d, t) matches Some((p, b)) ==> exists|k: int|
            0 <= k < spec_lines(d).len() && holds(spec_lines(d)[k], t) && spec_lines(d)[k].path
                == Some(p) && forall|j: int| 0 <= j < k ==> !holds(#[trigger] spec_lines(d)[j], t),
        (forall|k: int| 0 <= k < spec_lines(d).len() ==> !holds(#[trigger] spec_lines(d)[k], t))
            ==> spec_dladdr(d, t) is None,
        (exists|k: int|
            0 <= k < spec_lines(d).len() && holds(spec_lines(d)[k], t) && spec_lines(d)[k].path is None
                && forall|j: int| 0 <= j < k ==> !holds(#[trigger] spec_lines(d)[j], t)) ==> spec_dladdr(
            d,
            t,
        ) is None,
{
    let ls = spec_lines(d);
    lemma_target_is_first(ls, t);
    if exists|k: int|
        0 <= k < ls.len() && holds(ls[k], t) && ls[k].path is None && forall|j: int|
            0 <= j < k ==> !holds(#[trigger] ls[j], t) {
        let k = choose|k: int|
            0 <= k < ls.len() && holds(ls[k], t) && ls[k].path is None && forall|j: int|
                0 <= j < k ==> !holds(#[trigger] ls[j], t);
        if let Some(l) = target_line(ls, t) {
            let k2 = choose|k2: int|
                0 <= k2 < ls.len() && ls[k2] == l && holds(ls[k2], t) && forall|j: int|
                    0 <= j < k2 ==> !holds(#[trigger] ls[j], t);
            if k2 < k {
                assert(!holds(ls[k2], t));
            } else if k < k2 {
                assert(!holds(ls[k], t));
            }
        }
    }
}

} // verus!

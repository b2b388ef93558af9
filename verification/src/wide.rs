//! The "C" locale of the wide-character and multibyte functions: every byte
//! is one character, the classes are the ASCII ones, and collation is byte
//! order. Strings arrive as slices that end at (and hold) their terminator.

use vstd::prelude::*;

verus! {

/// The end-of-file marker of the wide functions.
pub const WEOF: u32 = 0xffff_ffff;

/// The end-of-file marker of the byte functions.
pub const EOF: i32 = -1;

/// The `nl_langinfo` item that names the character set.
pub const CODESET: i32 = 14;

/// The C locale's lower case of `wc`: `A`-`Z` to `a`-`z`, all else
/// unchanged.
pub open spec fn lower_of(wc: u32) -> u32 {
    if 65 <= wc <= 90 {
        (wc + 32) as u32
    } else {
        wc
    }
}

/// The C locale's upper case of `wc`: `a`-`z` to `A`-`Z`, all else
/// unchanged.
pub open spec fn upper_of(wc: u32) -> u32 {
    if 97 <= wc <= 122 {
        (wc - 32) as u32
    } else {
        wc
    }
}

/// `towlower` in the C locale: `A`-`Z` to `a`-`z`, all else unchanged.
pub fn towlower(wc: u32) -> (r: u32)
    ensures
        r == lower_of(wc),
{
    if 65 <= wc && wc <= 90 {
        wc + 32
    } else {
        wc
    }
}

/// `towupper` in the C locale: `a`-`z` to `A`-`Z`, all else unchanged.
pub fn towupper(wc: u32) -> (r: u32)
    ensures
        r == upper_of(wc),
{
    if 97 <= wc && wc <= 122 {
        wc - 32
    } else {
        wc
    }
}

/// The class names `wctype` knows, with their ids.
pub open spec fn class_name(id: u64) -> Seq<u8> {
    if id == 1 {
        seq![97u8, 108, 110, 117, 109]  // alnum
    } else if id == 2 {
        seq![97u8, 108, 112, 104, 97]  // alpha
    } else if id == 3 {
        seq![99u8, 110, 116, 114, 108]  // cntrl
    } else if id == 4 {
        seq![100u8, 105, 103, 105, 116]  // digit
    } else if id == 5 {
        seq![103u8, 114, 97, 112, 104]  // graph
    } else if id == 6 {
        seq![108u8, 111, 119, 101, 114]  // lower
    } else if id == 7 {
        seq![112u8, 114, 105, 110, 116]  // print
    } else if id == 8 {
        seq![112u8, 117, 110, 99, 116]  // punct
    } else if id == 9 {
        seq![115u8, 112, 97, 99, 101]  // space
    } else if id == 10 {
        seq![117u8, 112, 112, 101, 114]  // upper
    } else if id == 11 {
        seq![120u8, 100, 105, 103, 105, 116]  // xdigit
    } else {
        seq![98u8, 108, 97, 110, 107]  // blank
    }
}

fn class_name_bytes(id: u64) -> (r: Vec<u8>)
    requires
        1 <= id <= 12,
    ensures
        r@ == class_name(id),
{
    if id == 1 {
        vec![97u8, 108, 110, 117, 109]
    } else if id == 2 {
        vec![97u8, 108, 112, 104, 97]
    } else if id == 3 {
        vec![99u8, 110, 116, 114, 108]
    } else if id == 4 {
        vec![100u8, 105, 103, 105, 116]
    } else if id == 5 {
        vec![103u8, 114, 97, 112, 104]
    } else if id == 6 {
        vec![108u8, 111, 119, 101, 114]
    } else if id == 7 {
        vec![112u8, 114, 105, 110, 116]
    } else if id == 8 {
        vec![112u8, 117, 110, 99, 116]
    } else if id == 9 {
        vec![115u8, 112, 97, 99, 101]
    } else if id == 10 {
        vec![117u8, 112, 112, 101, 114]
    } else if id == 11 {
        vec![120u8, 100, 105, 103, 105, 116]
    } else {
        vec![98u8, 108, 97, 110, 107]
    }
}

fn bytes_eq(a: &[u8], b: &Vec<u8>) -> (r: bool)
    ensures
        r == (a@ == b@),
{
    if a.len() != b.len() {
        return false;
    }
    let mut k: usize = 0;
    while k < a.len()
        invariant
            a.len() == b.len(),
            k <= a.len(),
            forall|m: int| 0 <= m < k ==> a@[m] == b@[m],
        decreases a.len() - k,
    {
        if a[k] != b[k] {
            return false;
        }
        k = k + 1;
    }
    proof {
        assert(a@ =~= b@);
    }
    true
}

/// `wctype`: the id of the class named `name` (its bytes before the
/// terminator); 0 for an unknown name or no name.
pub fn wctype_id(name: Option<&[u8]>) -> (r: u64)
    ensures
        name is None ==> r == 0,
        name matches Some(n) ==> (
            (exists|id: u64| 1 <= id <= 12 && n@ == class_name(id)) ==> 1 <= r <= 12 && n@ == class_name(r)
        ),
        name matches Some(n) ==> (
            !(exists|id: u64| 1 <= id <= 12 && n@ == class_name(id)) ==> r == 0
        ),
{
    let n = match name {
        None => return 0,
        Some(n) => n,
    };
    let mut id: u64 = 1;
    while id <= 12
        invariant
            1 <= id <= 13,
            name == Some(n),
            forall|m: u64| 1 <= m < id ==> n@ != class_name(m),
        decreases 13 - id,
    {
        let c = class_name_bytes(id);
        if bytes_eq(n, &c) {
            return id;
        }
        id = id + 1;
    }
    0
}

pub open spec fn is_upper_ascii(b: u8) -> bool {
    65 <= b <= 90
}

pub open spec fn is_lower_ascii(b: u8) -> bool {
    97 <= b <= 122
}

pub open spec fn is_digit_ascii(b: u8) -> bool {
    48 <= b <= 57
}

pub open spec fn is_graph_ascii(b: u8) -> bool {
    33 <= b <= 126
}

/// Whether the ASCII byte `b` is in class `desc`.
pub open spec fn in_class(b: u8, desc: u64) -> bool {
    if desc == 1 {
        is_digit_ascii(b) || is_upper_ascii(b) || is_lower_ascii(b)
    } else if desc == 2 {
        is_upper_ascii(b) || is_lower_ascii(b)
    } else if desc == 3 {
        b < 32 || b == 127
    } else if desc == 4 {
        is_digit_ascii(b)
    } else if desc == 5 {
        is_graph_ascii(b)
    } else if desc == 6 {
        is_lower_ascii(b)
    } else if desc == 7 {
        is_graph_ascii(b) || b == 32
    } else if desc == 8 {
        is_graph_ascii(b) && !(is_digit_ascii(b) || is_upper_ascii(b) || is_lower_ascii(b))
    } else if desc == 9 {
        b == 32 || b == 9 || b == 10 || b == 11 || b == 12 || b == 13
    } else if desc == 10 {
        is_upper_ascii(b)
    } else if desc == 11 {
        is_digit_ascii(b) || (97 <= b <= 102) || (65 <= b <= 70)
    } else if desc == 12 {
        b == 32 || b == 9
    } else {
        false
    }
}

/// `iswctype` in the C locale: 1 when `wc` is an ASCII character of class
/// `desc`, else 0 (non-ASCII characters are in no class).
pub fn iswctype(wc: u32, desc: u64) -> (r: i32)
    ensures
        r == if wc <= 0x7f && in_class(wc as u8, desc) { 1i32 } else { 0i32 },
{
    if wc > 0x7f {
        return 0;
    }
    let b = wc as u8;
    let upper = 65 <= b && b <= 90;
    let lower = 97 <= b && b <= 122;
    let digit = 48 <= b && b <= 57;
    let graph = 33 <= b && b <= 126;
    let r = if desc == 1 {
        digit || upper || lower
    } else if desc == 2 {
        upper || lower
    } else if desc == 3 {
        b < 32 || b == 127
    } else if desc == 4 {
        digit
    } else if desc == 5 {
        graph
    } else if desc == 6 {
        lower
    } else if desc == 7 {
        graph || b == 32
    } else if desc == 8 {
        graph && !(digit || upper || lower)
    } else if desc == 9 {
        b == 32 || b == 9 || b == 10 || b == 11 || b == 12 || b == 13
    } else if desc == 10 {
        upper
    } else if desc == 11 {
        digit || (97 <= b && b <= 102) || (65 <= b && b <= 70)
    } else if desc == 12 {
        b == 32 || b == 9
    } else {
        false
    };
    if r {
        1
    } else {
        0
    }
}

/// `nl_langinfo` in the C locale: the character set is named, every other
/// item is empty.
pub fn langinfo_names_codeset(item: i32) -> (r: bool)
    ensures
        r == (item == CODESET),
{
    item == CODESET
}

/// `btowc`: a byte is its own wide character; `EOF` is `WEOF`.
/// The wide character of byte `c` (its low 8 bits); `EOF` is `WEOF`.
pub open spec fn byte_to_wide(c: i32) -> u32 {
    if c == EOF {
        WEOF
    } else {
        c as u8 as u32
    }
}

/// The byte of wide character `wc`: itself below 256, else `EOF`.
pub open spec fn wide_to_byte(wc: u32) -> i32 {
    if wc < 0x100 {
        wc as i32
    } else {
        EOF
    }
}

pub fn btowc(c: i32) -> (r: u32)
    ensures
        r == byte_to_wide(c),
{
    if c == EOF {
        WEOF
    } else {
        (c as u8) as u32
    }
}

/// `wctob`: a wide character below 256 is its own byte; any other is `EOF`.
pub fn wctob(wc: u32) -> (r: i32)
    ensures
        r == wide_to_byte(wc),
{
    if wc < 0x100 {
        wc as i32
    } else {
        EOF
    }
}

/// The byte a wide character becomes: its low 8 bits.
pub fn narrow(wc: i32) -> (r: u8)
    ensures
        r == wc as u8,
{
    wc as u8
}

/// What a multibyte function finds at its source: no source, an empty
/// one, or a first byte.
#[derive(Debug, Copy, Clone, PartialEq, Eq, Structural)]
pub enum MbSource {
    Null,
    Empty,
    Byte(u8),
}

/// `mblen`: 0 for no source or a terminator, -1 for an empty source, else 1.
pub fn mblen(s: MbSource) -> (r: i32)
    ensures
        r == match s {
            MbSource::Null => 0i32,
            MbSource::Empty => -1i32,
            MbSource::Byte(b) => if b == 0 { 0i32 } else { 1i32 },
        },
{
    match s {
        MbSource::Null => 0,
        MbSource::Empty => -1,
        MbSource::Byte(b) => if b == 0 {
            0
        } else {
            1
        },
    }
}

/// `mbrtowc`: the return value (0 for no source or a terminator, `(size_t)-2`
/// for an empty source, else 1) and the wide character to store, if any.
pub fn mbrtowc(s: MbSource) -> (r: (usize, Option<i32>))
    ensures
        r == match s {
            MbSource::Null => (0usize, None::<i32>),
            MbSource::Empty => ((usize::MAX - 1) as usize, None::<i32>),
            MbSource::Byte(b) => (if b == 0 { 0usize } else { 1usize }, Some(b as i32)),
        },
{
    match s {
        MbSource::Null => (0, None),
        MbSource::Empty => (usize::MAX - 1, None),
        MbSource::Byte(b) => (
            if b == 0 {
                0
            } else {
                1
            },
            Some(b as i32),
        ),
    }
}

/// The index of the first element equal to 0 from `i` on, or the length.
pub open spec fn first_zero_i32(s: Seq<i32>, i: int) -> int
    decreases s.len() - i,
{
    if 0 <= i < s.len() && s[i] != 0 {
        first_zero_i32(s, i + 1)
    } else {
        i
    }
}

/// The index of the first element equal to 0 from `i` on, or the length.
pub open spec fn first_zero_u8(s: Seq<u8>, i: int) -> int
    decreases s.len() - i,
{
    if 0 <= i < s.len() && s[i] != 0 {
        first_zero_u8(s, i + 1)
    } else {
        i
    }
}

pub proof fn lemma_first_zero_i32(s: Seq<i32>, i: int)
    requires
        0 <= i <= s.len(),
    ensures
        i <= first_zero_i32(s, i) <= s.len(),
        first_zero_i32(s, i) < s.len() ==> s[first_zero_i32(s, i)] == 0,
        forall|j: int| i <= j < first_zero_i32(s, i) ==> s[j] != 0,
    decreases s.len() - i,
{
    if i < s.len() && s[i] != 0 {
        lemma_first_zero_i32(s, i + 1);
    }
}

pub proof fn lemma_first_zero_u8(s: Seq<u8>, i: int)
    requires
        0 <= i <= s.len(),
    ensures
        i <= first_zero_u8(s, i) <= s.len(),
        first_zero_u8(s, i) < s.len() ==> s[first_zero_u8(s, i)] == 0,
        forall|j: int| i <= j < first_zero_u8(s, i) ==> s[j] != 0,
    decreases s.len() - i,
{
    if i < s.len() && s[i] != 0 {
        lemma_first_zero_u8(s, i + 1);
    }
}

/// `wcslen`: the number of wide characters before the terminator.
pub fn wcslen(s: &[i32]) -> (r: usize)
    requires
        s@.contains(0),
    ensures
        r == first_zero_i32(s@, 0),
        r < s.len(),
        s@[r as int] == 0,
{
    proof {
        lemma_first_zero_i32(s@, 0);
        let w = choose|w: int| 0 <= w < s.len() && s@[w] == 0;
        assert(first_zero_i32(s@, 0) <= w);
    }
    let mut n: usize = 0;
    while s[n] != 0
        invariant
            n <= first_zero_i32(s@, 0) < s.len(),
            first_zero_i32(s@, n as int) == first_zero_i32(s@, 0),
        decreases s.len() - n,
    {
        proof {
            lemma_first_zero_i32(s@, n + 1);
        }
        n = n + 1;
    }
    n
}

/// The sign of the comparison of `x` with `y`.
pub open spec fn sign_of(x: int, y: int) -> i32 {
    if x < y {
        -1i32
    } else if x > y {
        1
    } else {
        0
    }
}

/// The wide string comparison's answer from `i` on: the sign of the first difference, or 0
/// when both strings end together.
pub open spec fn spec_wide_compare(a: Seq<i32>, b: Seq<i32>, i: int) -> i32
    decreases a.len() - i,
{
    if !(0 <= i < a.len() && i < b.len()) {
        0
    } else if a[i] != b[i] {
        sign_of(a[i] as int, b[i] as int)
    } else if a[i] == 0 {
        0
    } else {
        spec_wide_compare(a, b, i + 1)
    }
}

/// Wide string comparison (`wcs` family): compare two wide strings element by element up to the first
/// difference or their common terminator.
pub fn wide_compare(a: &[i32], b: &[i32]) -> (r: i32)
    requires
        a@.contains(0),
    ensures
        r == spec_wide_compare(a@, b@, 0),
{
    proof {
        lemma_first_zero_i32(a@, 0);
        let w = choose|w: int| 0 <= w < a.len() && a@[w] == 0;
        assert(first_zero_i32(a@, 0) <= w);
    }
    let mut i: usize = 0;
    loop
        invariant
            i <= first_zero_i32(a@, 0) < a.len(),
            forall|j: int| 0 <= j < i ==> a@[j] != 0,
            spec_wide_compare(a@, b@, 0) == spec_wide_compare(a@, b@, i as int),
        decreases a.len() - i,
    {
        if i >= b.len() {
            return 0;
        }
        let x = a[i];
        let y = b[i];
        if x != y {
            return if x < y {
                -1
            } else {
                1
            };
        }
        if x == 0 {
            return 0;
        }
        proof {
            lemma_first_zero_i32(a@, 0);
        }
        i = i + 1;
    }
}

/// `wmemchr`: the index of the first element equal to `c`, if any.
pub fn wmemchr(s: &[i32], c: i32) -> (r: Option<usize>)
    ensures
        r matches Some(i) ==> i < s.len() && s@[i as int] == c && forall|j: int| 0 <= j < i ==> s@[j] != c,
        r is None ==> !s@.contains(c),
{
    let mut i: usize = 0;
    while i < s.len()
        invariant
            i <= s.len(),
            forall|j: int| 0 <= j < i ==> s@[j] != c,
        decreases s.len() - i,
    {
        if s[i] == c {
            return Some(i);
        }
        i = i + 1;
    }
    None
}

/// The wide array comparison's answer from `i` on over `n` elements: the sign of the first
/// difference, or 0.
pub open spec fn spec_wide_mem_compare(a: Seq<i32>, b: Seq<i32>, i: int, n: int) -> i32
    decreases n - i,
{
    if i >= n {
        0
    } else if a[i] != b[i] {
        sign_of(a[i] as int, b[i] as int)
    } else {
        spec_wide_mem_compare(a, b, i + 1, n)
    }
}

/// Wide array comparison (`wmem` family): compare two equally long arrays of wide characters.
pub fn wide_mem_compare(a: &[i32], b: &[i32]) -> (r: i32)
    requires
        a.len() == b.len(),
    ensures
        r == spec_wide_mem_compare(a@, b@, 0, a.len() as int),
{
    let mut i: usize = 0;
    while i < a.len()
        invariant
            a.len() == b.len(),
            i <= a.len(),
            spec_wide_mem_compare(a@, b@, 0, a.len() as int) == spec_wide_mem_compare(a@, b@, i as int, a.len() as int),
        decreases a.len() - i,
    {
        let x = a[i];
        let y = b[i];
        if x != y {
            return if x < y {
                -1
            } else {
                1
            };
        }
        i = i + 1;
    }
    0
}

/// `wmemset`: every element becomes `c`.
pub fn wmemset(d: &mut [i32], c: i32)
    ensures
        final(d)@.len() == old(d)@.len(),
        forall|j: int| 0 <= j < final(d)@.len() ==> final(d)@[j] == c,
{
    let mut i: usize = 0;
    while i < d.len()
        invariant
            i <= d.len(),
            d@.len() == old(d)@.len(),
            forall|j: int| 0 <= j < i ==> d@[j] == c,
        decreases d.len() - i,
    {
        d[i] = c;
        i = i + 1;
    }
}

/// `wcsxfrm`: the identity transform copies at most `n - 1` characters and
/// a terminator (nothing when `n` is 0) and returns the source length.
pub fn wcsxfrm_copy(len: usize, n: usize) -> (r: Option<usize>)
    ensures
        n == 0 ==> r is None,
        n != 0 ==> r == Some(if len < n - 1 { len } else { (n - 1) as usize }),
{
    if n == 0 {
        None
    } else if len < n - 1 {
        Some(len)
    } else {
        Some(n - 1)
    }
}

/// What a string conversion does to the caller's source pointer.
#[derive(Debug, Copy, Clone, PartialEq, Eq, Structural)]
pub enum SourceUpdate {
    /// Leave it (no destination was given).
    Unchanged,
    /// Advance it past this many elements.
    Advance(usize),
    /// Set it to null (the terminator was converted).
    Null,
}

/// The outcome of converting a string: the count returned, the elements to
/// write to the destination, and the update of the source pointer.
pub struct Converted<T> {
    pub count: usize,
    pub out: Vec<T>,
    pub update: SourceUpdate,
}

/// The outcome of a conversion of a source whose terminator is at `z`,
/// reading at most `limit` elements, into a destination with room for `len`
/// elements (`None`: no destination, only count): the count, how many
/// source elements are written, and the source update.
pub open spec fn spec_convert(z: int, limit: int, len: Option<usize>) -> (int, int, SourceUpdate) {
    match len {
        None => (if z < limit { z } else { limit }, 0, SourceUpdate::Unchanged),
        Some(len) => if len as int <= z && (len as int) < limit {
            (len as int, len as int, SourceUpdate::Advance(len))
        } else if z < len && z < limit {
            (z, z + 1, SourceUpdate::Null)
        } else {
            (limit, limit, SourceUpdate::Advance(limit as usize))
        },
    }
}

/// `mbsnrtowcs` (and, with `limit` at least the terminator's index plus
/// one, `mbsrtowcs`): convert the bytes of `src` to wide characters, reading
/// at most `limit` of them. `src` holds the bytes that may be read: through
/// the terminator, or at least `limit`.
pub fn mbs_to_wcs(src: &[u8], limit: usize, len: Option<usize>) -> (r: Converted<i32>)
    requires
        src@.contains(0) || src.len() >= limit,
    ensures
        r.count == spec_convert(first_zero_u8(src@, 0), limit as int, len).0,
        r.update == spec_convert(first_zero_u8(src@, 0), limit as int, len).2,
        r.out@.len() == spec_convert(first_zero_u8(src@, 0), limit as int, len).1,
        forall|j: int| 0 <= j < r.out@.len() ==> r.out@[j] == src@[j] as i32,
{
    let ghost z = first_zero_u8(src@, 0);
    proof {
        lemma_first_zero_u8(src@, 0);
        if src@.contains(0) {
            let w = choose|w: int| 0 <= w < src.len() && src@[w] == 0;
            assert(z <= w);
        }
    }
    let mut out: Vec<i32> = Vec::new();
    let mut i: usize = 0;
    while i < limit
        invariant
            z == first_zero_u8(src@, 0),
            i <= limit,
            i <= z,
            z < src.len() || src.len() >= limit,
            z <= src.len(),
            z < src.len() ==> src@[z] == 0,
            forall|j: int| 0 <= j < z ==> src@[j] != 0,
            len is None ==> out@.len() == 0,
            len matches Some(l) ==> out@.len() == i && i <= l,
            forall|j: int| 0 <= j < out@.len() ==> out@[j] == src@[j] as i32,
        decreases limit - i,
    {
        let b = src[i];
        match len {
            Some(l) => {
                if i >= l {
                    assert(i == l);
                    return Converted { count: i, out, update: SourceUpdate::Advance(i) };
                }
                out.push(b as i32);
            },
            None => {},
        }
        if b == 0 {
            assert(i == z);
            return Converted {
                count: i,
                out,
                update: match len {
                    Some(_) => SourceUpdate::Null,
                    None => SourceUpdate::Unchanged,
                },
            };
        }
        i = i + 1;
    }
    Converted {
        count: i,
        out,
        update: match len {
            Some(_) => SourceUpdate::Advance(i),
            None => SourceUpdate::Unchanged,
        },
    }
}

/// `wcsnrtombs`: convert the wide characters of `src` to bytes (each keeps
/// its low 8 bits), reading at most `limit` of them. `src` holds the
/// elements that may be read: through the terminator, or at least `limit`.
pub fn wcs_to_mbs(src: &[i32], limit: usize, len: Option<usize>) -> (r: Converted<u8>)
    requires
        src@.contains(0) || src.len() >= limit,
    ensures
        r.count == spec_convert(first_zero_i32(src@, 0), limit as int, len).0,
        r.update == spec_convert(first_zero_i32(src@, 0), limit as int, len).2,
        r.out@.len() == spec_convert(first_zero_i32(src@, 0), limit as int, len).1,
        forall|j: int| 0 <= j < r.out@.len() ==> r.out@[j] == src@[j] as u8,
{
    let ghost z = first_zero_i32(src@, 0);
    proof {
        lemma_first_zero_i32(src@, 0);
        if src@.contains(0) {
            let w = choose|w: int| 0 <= w < src.len() && src@[w] == 0;
            assert(z <= w);
        }
    }
    let mut out: Vec<u8> = Vec::new();
    let mut i: usize = 0;
    while i < limit
        invariant
            z == first_zero_i32(src@, 0),
            i <= limit,
            i <= z,
            z < src.len() || src.len() >= limit,
            z <= src.len(),
            z < src.len() ==> src@[z] == 0,
            forall|j: int| 0 <= j < z ==> src@[j] != 0,
            len is None ==> out@.len() == 0,
            len matches Some(l) ==> out@.len() == i && i <= l,
            forall|j: int| 0 <= j < out@.len() ==> out@[j] == src@[j] as u8,
        decreases limit - i,
    {
        let wc = src[i];
        match len {
            Some(l) => {
                if i >= l {
                    assert(i == l);
                    return Converted { count: i, out, update: SourceUpdate::Advance(i) };
                }
                out.push(wc as u8);
            },
            None => {},
        }
        if wc == 0 {
            assert(i == z);
            return Converted {
                count: i,
                out,
                update: match len {
                    Some(_) => SourceUpdate::Null,
                    None => SourceUpdate::Unchanged,
                },
            };
        }
        i = i + 1;
    }
    Converted {
        count: i,
        out,
        update: match len {
            Some(_) => SourceUpdate::Advance(i),
            None => SourceUpdate::Unchanged,
        },
    }
}

/// `sigisemptyset`: 1 when every word of the set is zero, else 0.
pub fn all_words_zero(words: &[u64]) -> (r: i32)
    ensures
        r == if forall|j: int| 0 <= j < words.len() ==> words@[j] == 0 { 1i32 } else { 0i32 },
{
    let mut i: usize = 0;
    while i < words.len()
        invariant
            i <= words.len(),
            forall|j: int| 0 <= j < i ==> words@[j] == 0,
        decreases words.len() - i,
    {
        if words[i] != 0 {
            return 0;
        }
        i = i + 1;
    }
    1
}

/// Case mapping in the C locale: lowering an upper-cased character gives
/// its lower case, upper-casing a lowered one gives its upper case, and
/// each mapping is idempotent.
pub proof fn law_case_round_trip(wc: u32)
    ensures
        lower_of(upper_of(wc)) == lower_of(wc),
        upper_of(lower_of(wc)) == upper_of(wc),
        lower_of(lower_of(wc)) == lower_of(wc),
        upper_of(upper_of(wc)) == upper_of(wc),
{
}

/// A byte value (0 to 255) or `EOF` comes back unchanged from `btowc`
/// then `wctob`.
pub proof fn law_byte_round_trip(c: i32)
    requires
        c == EOF || 0 <= c < 256,
    ensures
        wide_to_byte(byte_to_wide(c)) == c,
{
    if c != EOF {
        assert(c as u8 as u32 == c) by (bit_vector)
            requires
                0 <= c < 256,
        ;
    }
}

proof fn lemma_first_zero_widened(b: Seq<u8>, i: int)
    requires
        0 <= i <= b.len(),
    ensures
        first_zero_i32(b.map_values(|x: u8| x as i32), i) == first_zero_u8(b, i),
    decreases b.len() - i,
{
    let w = b.map_values(|x: u8| x as i32);
    if i < b.len() {
        assert(w[i] == b[i] as i32);
        if b[i] != 0 {
            lemma_first_zero_widened(b, i + 1);
        }
    }
}

/// Bytes converted to wide characters and back are unchanged: each byte
/// survives the round trip, and the terminator stays where it was (so
/// `mbsrtowcs` then `wcsrtombs` give back the string).
pub proof fn law_multibyte_round_trip(b: Seq<u8>)
    ensures
        forall|j: int| 0 <= j < b.len() ==> ((b[j] as i32) as u8) == b[j],
        first_zero_i32(b.map_values(|x: u8| x as i32), 0) == first_zero_u8(b, 0),
{
    assert forall|j: int| 0 <= j < b.len() implies ((b[j] as i32) as u8) == b[j] by {
        let x = b[j];
        assert((x as i32) as u8 == x) by (bit_vector);
    }
    lemma_first_zero_widened(b, 0);
}

/// The C locale's classes, by name: for every class id, the characters the
/// class holds are the ASCII ones its name says, and nothing above 0x7f.
/// `upper` is `A`-`Z`, `lower` `a`-`z`, `alpha` both, `digit` `0`-`9`,
/// `alnum` letters and digits, `xdigit` digits and `a`-`f`, `A`-`F`,
/// `space` the space and tab to carriage return, `blank` space and tab,
/// `cntrl` below 32 and 127, `graph` 33 to 126, `print` 32 to 126, and
/// `punct` the graphic characters that are not letters or digits.
pub proof fn law_class_members(wc: u32, id: u64)
    requires
        1 <= id <= 12,
    ensures
        ({
            let member = wc <= 0x7f && in_class(wc as u8, id);
            let name = class_name(id);
            &&& name == seq![117u8, 112, 112, 101, 114] ==> (member <==> 65 <= wc <= 90)
            &&& name == seq![108u8, 111, 119, 101, 114] ==> (member <==> 97 <= wc <= 122)
            &&& name == seq![97u8, 108, 112, 104, 97] ==> (member <==> (65 <= wc <= 90 || 97 <= wc <= 122))
            &&& name == seq![100u8, 105, 103, 105, 116] ==> (member <==> 48 <= wc <= 57)
            &&& name == seq![97u8, 108, 110, 117, 109] ==> (member <==> (48 <= wc <= 57 || 65 <= wc <= 90
                || 97 <= wc <= 122))
            &&& name == seq![120u8, 100, 105, 103, 105, 116] ==> (member <==> (48 <= wc <= 57 || 65 <= wc
                <= 70 || 97 <= wc <= 102))
            &&& name == seq![115u8, 112, 97, 99, 101] ==> (member <==> (wc == 32 || 9 <= wc <= 13))
            &&& name == seq![98u8, 108, 97, 110, 107] ==> (member <==> (wc == 32 || wc == 9))
            &&& name == seq![99u8, 110, 116, 114, 108] ==> (member <==> (wc < 32 || wc == 127))
            &&& name == seq![103u8, 114, 97, 112, 104] ==> (member <==> 33 <= wc <= 126)
            &&& name == seq![112u8, 114, 105, 110, 116] ==> (member <==> 32 <= wc <= 126)
            &&& name == seq![112u8, 117, 110, 99, 116] ==> (member <==> (33 <= wc <= 47 || 58 <= wc <= 64
                || 91 <= wc <= 96 || 123 <= wc <= 126))
            &&& wc > 0x7f ==> !member
        }),
{
    if wc <= 0x7f {
        assert(wc as u8 == wc);
    }
    let name = class_name(id);
    if id == 1 { assert(name[0] == 97 && name[2] == 110); }
    if id == 2 { assert(name[0] == 97 && name[2] == 112); }
    if id == 3 { assert(name[0] == 99); }
    if id == 4 { assert(name[0] == 100); }
    if id == 5 { assert(name[0] == 103); }
    if id == 6 { assert(name[0] == 108); }
    if id == 7 { assert(name[0] == 112 && name[1] == 114); }
    if id == 8 { assert(name[0] == 112 && name[1] == 117); }
    if id == 9 { assert(name[0] == 115); }
    if id == 10 { assert(name[0] == 117); }
    if id == 11 { assert(name[0] == 120); }
    if id == 12 { assert(name[0] == 98); }
}

/// Every class name names one class: distinct ids have distinct names, so
/// `wctype` finds exactly the class a name says.
pub proof fn law_class_names_distinct(a: u64, b: u64)
    requires
        1 <= a <= 12,
        1 <= b <= 12,
        a != b,
    ensures
        class_name(a) != class_name(b),
{
    let na = class_name(a);
    let nb = class_name(b);
    if na == nb {
        assert(na[0] == nb[0] && na[1] == nb[1] && na[2] == nb[2] && na.len() == nb.len());
    }
}

/// Case mapping in the C locale: `towlower` moves `A`-`Z` up by 32 onto
/// `a`-`z` and leaves every other character alone; `towupper` moves `a`-`z`
/// down by 32 onto `A`-`Z` and leaves every other character alone.
pub proof fn law_case_mapping(wc: u32)
    ensures
        65 <= wc <= 90 ==> lower_of(wc) == wc + 32 && 97 <= lower_of(wc) <= 122,
        !(65 <= wc <= 90) ==> lower_of(wc) == wc,
        97 <= wc <= 122 ==> upper_of(wc) == wc - 32 && 65 <= upper_of(wc) <= 90,
        !(97 <= wc <= 122) ==> upper_of(wc) == wc,
{
}

/// `btowc` and `wctob` in the C locale: a byte value 0 to 255 is its own
/// wide character, `EOF` is `WEOF`; a wide character below 256 is its own
/// byte and any other gives `EOF`.
pub proof fn law_byte_wide_values(c: i32, wc: u32)
    ensures
        0 <= c < 256 ==> byte_to_wide(c) == c,
        c == -1 ==> byte_to_wide(c) == 0xffff_ffff,
        wc < 256 ==> wide_to_byte(wc) == wc,
        wc >= 256 ==> wide_to_byte(wc) == -1,
{
    if 0 <= c < 256 {
        assert(c as u8 as u32 == c) by (bit_vector)
            requires
                0 <= c < 256,
        ;
    }
}

proof fn lemma_compare_at(a: Seq<i32>, b: Seq<i32>, i: int, k: int)
    requires
        0 <= i <= k < a.len(),
        k < b.len(),
        forall|j: int| i <= j < k ==> #[trigger] a[j] == b[j] && a[j] != 0,
    ensures
        spec_wide_compare(a, b, i) == spec_wide_compare(a, b, k),
    decreases k - i,
{
    if i < k {
        lemma_compare_at(a, b, i + 1, k);
    }
}

/// Wide strings compare at their first difference: when `a` and `b` agree,
/// with no terminator, before index `k`, the comparison is -1 when `a[k]`
/// is below `b[k]`, 1 when it is above, and 0 when both end there; and
/// swapping the strings flips the sign.
pub proof fn law_wide_compare(a: Seq<i32>, b: Seq<i32>, k: int)
    requires
        0 <= k < a.len(),
        k < b.len(),
        forall|j: int| 0 <= j < k ==> #[trigger] a[j] == b[j] && a[j] != 0,
    ensures
        a[k] < b[k] ==> spec_wide_compare(a, b, 0) == -1,
        a[k] > b[k] ==> spec_wide_compare(a, b, 0) == 1,
        a[k] == 0 && b[k] == 0 ==> spec_wide_compare(a, b, 0) == 0,
        a[k] != b[k] || a[k] == 0 ==> spec_wide_compare(b, a, 0) == -spec_wide_compare(a, b, 0),
{
    lemma_compare_at(a, b, 0, k);
    assert forall|j: int| 0 <= j < k implies #[trigger] b[j] == a[j] && b[j] != 0 by {
        assert(a[j] == b[j]);
    }
    lemma_compare_at(b, a, 0, k);
}

proof fn lemma_mem_compare_at(a: Seq<i32>, b: Seq<i32>, i: int, k: int, n: int)
    requires
        0 <= i <= k <= n,
        forall|j: int| i <= j < k ==> #[trigger] a[j] == b[j],
    ensures
        spec_wide_mem_compare(a, b, i, n) == spec_wide_mem_compare(a, b, k, n),
    decreases k - i,
{
    if i < k {
        lemma_mem_compare_at(a, b, i + 1, k, n);
    }
}

/// Wide arrays of `n` elements compare at their first difference: when
/// they agree before index `k`, the comparison is -1 when `a[k]` is below
/// `b[k]` and 1 when it is above; equal arrays compare 0.
pub proof fn law_wide_mem_compare(a: Seq<i32>, b: Seq<i32>, n: int, k: int)
    requires
        0 <= k <= n,
        forall|j: int| 0 <= j < k ==> #[trigger] a[j] == b[j],
    ensures
        k < n && a[k] < b[k] ==> spec_wide_mem_compare(a, b, 0, n) == -1,
        k < n && a[k] > b[k] ==> spec_wide_mem_compare(a, b, 0, n) == 1,
        k == n ==> spec_wide_mem_compare(a, b, 0, n) == 0,
{
    lemma_mem_compare_at(a, b, 0, k, n);
}

/// The length of a wide string is the index of its first terminator: the
/// element there is 0 and none before it is.
pub proof fn law_wide_length(s: Seq<i32>)
    requires
        s.contains(0),
    ensures
        0 <= first_zero_i32(s, 0) < s.len(),
        s[first_zero_i32(s, 0)] == 0,
        forall|j: int| 0 <= j < first_zero_i32(s, 0) ==> s[j] != 0,
{
    lemma_first_zero_i32(s, 0);
    let w = choose|w: int| 0 <= w < s.len() && s[w] == 0;
    assert(first_zero_i32(s, 0) <= w);
}

/// A string conversion whose source ends at `z`: with no destination it
/// only counts, up to `limit`; with room for more than `z` elements (and
/// `limit` past `z`) it converts the whole string, terminator included,
/// returns `z` and sets the source to null; with room for `n` elements up
/// to the terminator it converts `n` and advances the source by `n`; and
/// when `limit` comes first it converts `limit` elements and advances by
/// `limit`.
pub proof fn law_conversion_outcomes(z: int, limit: int, len: Option<usize>)
    requires
        0 <= z,
        0 <= limit <= usize::MAX,
    ensures
        len is None ==> spec_convert(z, limit, len) == (
            if z < limit { z } else { limit },
            0int,
            SourceUpdate::Unchanged,
        ),
        len matches Some(n) && z < n && z < limit ==> spec_convert(z, limit, len) == (
            z,
            z + 1,
            SourceUpdate::Null,
        ),
        len is Some && len.unwrap() <= z && len.unwrap() < limit ==> spec_convert(z, limit, len) == (
            len.unwrap() as int,
            len.unwrap() as int,
            SourceUpdate::Advance(len.unwrap()),
        ),
        len matches Some(n) && limit <= z && limit <= n ==> spec_convert(z, limit, len) == (
            limit,
            limit,
            SourceUpdate::Advance(limit as usize),
        ),
{
}

} // verus!

//! The `sscanf` engine: matches an input string against a format, one
//! format element per step.
//!
//! It covers the conversions `d u i o x X p s c n %`, the `*` suppressor,
//! field widths, and the `h`/`hh`/`l`/`ll` family of length modifiers, and
//! matches literals and skips whitespace as C `scanf` does. Each step says
//! what to store through the next argument pointer; the caller fetches the
//! pointers and writes, so a step never touches an argument list itself.

use vstd::prelude::*;

use crate::printf::parser::{at, byte_at, is_digit, skip_digits};

verus! {

/// The C `isspace` set: space, `\t`, `\n`, `\v`, `\f`, `\r`.
pub open spec fn spec_is_space(b: u8) -> bool {
    b == 32 || b == 9 || b == 10 || b == 13 || b == 11 || b == 12
}

/// `b` is a C whitespace character.
pub fn is_space(b: u8) -> (r: bool)
    ensures
        r == spec_is_space(b),
{
    b == 32 || b == 9 || b == 10 || b == 13 || b == 11 || b == 12
}

/// The value of a hexadecimal digit character, if it is one.
pub open spec fn hex_value(b: u8) -> Option<i32> {
    if 48 <= b <= 57 {
        Some((b - 48) as i32)
    } else if 97 <= b <= 102 {
        Some((b - 97 + 10) as i32)
    } else if 65 <= b <= 70 {
        Some((b - 65 + 10) as i32)
    } else {
        None
    }
}

/// The value of `b` as a digit in `base`, if it is one.
pub open spec fn spec_digit_val(b: u8, base: i32) -> Option<i32> {
    match hex_value(b) {
        Some(v) => if v < base {
            Some(v)
        } else {
            None
        },
        None => None,
    }
}

/// The value of `b` as a digit in `base`, if it is one.
pub fn digit_val(b: u8, base: i32) -> (r: Option<i32>)
    ensures
        r == spec_digit_val(b, base),
{
    let v: i32 = if 48 <= b && b <= 57 {
        (b - 48) as i32
    } else if 97 <= b && b <= 102 {
        (b - 97) as i32 + 10
    } else if 65 <= b && b <= 70 {
        (b - 65) as i32 + 10
    } else {
        return None;
    };
    if v < base {
        Some(v)
    } else {
        None
    }
}

/// The first index from `i` on that does not hold whitespace.
pub open spec fn skip_ws(s: Seq<u8>, i: int) -> int
    decreases s.len() - i,
{
    if 0 <= i < s.len() && spec_is_space(s[i]) {
        skip_ws(s, i + 1)
    } else {
        i
    }
}

pub proof fn lemma_skip_ws_bounds(s: Seq<u8>, i: int)
    requires
        0 <= i <= s.len(),
    ensures
        i <= skip_ws(s, i) <= s.len(),
    decreases s.len() - i,
{
    if i < s.len() && spec_is_space(s[i]) {
        lemma_skip_ws_bounds(s, i + 1);
    }
}

/// The first index from `i` on that does not hold whitespace.
fn skip_space(s: &[u8], i: usize) -> (r: usize)
    requires
        i <= s.len(),
    ensures
        r == skip_ws(s@, i as int),
        i <= r <= s.len(),
{
    let mut j = i;
    while j < s.len() && is_space(s[j])
        invariant
            i <= j <= s.len(),
            skip_ws(s@, j as int) == skip_ws(s@, i as int),
        decreases s.len() - j,
    {
        j = j + 1;
    }
    j
}

/// The decimal value of `s[i..j]` in a `usize`, wrapping on overflow.
pub open spec fn decimal_usize(s: Seq<u8>, i: int, j: int) -> usize
    decreases j - i,
{
    if j <= i {
        0
    } else {
        decimal_usize(s, i, j - 1).wrapping_mul(10).wrapping_add((s[j - 1] - 48) as usize)
    }
}

pub open spec fn is_length_mod(c: u8) -> bool {
    c == 104 /* h */ || c == 108 /* l */ || c == 76 /* L */ || c == 113 /* q */ || c == 106 /* j */
        || c == 122 /* z */ || c == 116  /* t */
}

/// The end of the run of length-modifier characters that starts at `i`.
pub open spec fn skip_mods(s: Seq<u8>, i: int) -> int
    decreases s.len() - i,
{
    if 0 <= i < s.len() && is_length_mod(s[i]) {
        skip_mods(s, i + 1)
    } else {
        i
    }
}

/// The size class named by the modifiers `s[i..j]`: each `h` counts -1 and
/// each of `l L q j z t` counts +1 (so -2 is `char`, -1 `short`, 0 `int`,
/// and anything above `long`), wrapping as a C `int` in the release build.
pub open spec fn mods_value(s: Seq<u8>, i: int, j: int) -> i32
    decreases j - i,
{
    if j <= i {
        0
    } else if s[j - 1] == 104 {
        mods_value(s, i, j - 1).wrapping_sub(1)
    } else {
        mods_value(s, i, j - 1).wrapping_add(1)
    }
}

/// A directive's header: what follows its `%` up to the conversion.
#[derive(Debug, Copy, Clone, PartialEq, Eq, Structural)]
pub struct Header {
    /// `*`: convert but store nothing.
    pub suppress: bool,
    /// The field width; 0 when none is given.
    pub width: usize,
    /// The size class of the length modifiers.
    pub len: i32,
    /// The conversion character (0 when the format ends after the `%`).
    pub conv: u8,
    /// The index after the conversion character.
    pub next: usize,
}

/// The header of the directive whose fields start at `i`.
pub open spec fn spec_header(fmt: Seq<u8>, i: int) -> Header {
    let suppress = at(fmt, i) == 42;
    let i1 = if suppress { i + 1 } else { i };
    let e = skip_digits(fmt, i1);
    let m = skip_mods(fmt, e);
    Header {
        suppress,
        width: decimal_usize(fmt, i1, e),
        len: mods_value(fmt, e, m),
        conv: at(fmt, m),
        next: (m + 1) as usize,
    }
}

proof fn lemma_skip_digits_bounds(s: Seq<u8>, i: int)
    requires
        0 <= i <= s.len(),
    ensures
        i <= skip_digits(s, i) <= s.len(),
    decreases s.len() - i,
{
    if i < s.len() && is_digit(s[i]) {
        lemma_skip_digits_bounds(s, i + 1);
    }
}

proof fn lemma_skip_mods_bounds(s: Seq<u8>, i: int)
    requires
        0 <= i <= s.len(),
    ensures
        i <= skip_mods(s, i) <= s.len(),
    decreases s.len() - i,
{
    if i < s.len() && is_length_mod(s[i]) {
        lemma_skip_mods_bounds(s, i + 1);
    }
}

/// Parse the header of the directive whose fields start at `i`.
fn parse_header(fmt: &[u8], i: usize) -> (r: Header)
    requires
        i <= fmt.len(),
        fmt.len() < usize::MAX,
    ensures
        r == spec_header(fmt@, i as int),
        i < r.next <= fmt.len() + 1,
{
    let suppress = byte_at(fmt, i) == 42;
    let i1 = if suppress { i + 1 } else { i };
    let mut width: usize = 0;
    let mut e = i1;
    while e < fmt.len() && 48 <= fmt[e] && fmt[e] <= 57
        invariant
            i1 <= e <= fmt.len(),
            skip_digits(fmt@, e as int) == skip_digits(fmt@, i1 as int),
            width == decimal_usize(fmt@, i1 as int, e as int),
        decreases fmt.len() - e,
    {
        width = width.wrapping_mul(10).wrapping_add((fmt[e] - 48) as usize);
        e = e + 1;
    }
    let mut len: i32 = 0;
    let mut m = e;
    while m < fmt.len() && (fmt[m] == 104 || fmt[m] == 108 || fmt[m] == 76 || fmt[m] == 113
        || fmt[m] == 106 || fmt[m] == 122 || fmt[m] == 116)
        invariant
            e <= m <= fmt.len(),
            skip_mods(fmt@, m as int) == skip_mods(fmt@, e as int),
            len == mods_value(fmt@, e as int, m as int),
        decreases fmt.len() - m,
    {
        if fmt[m] == 104 {
            len = len.wrapping_sub(1);
        } else {
            len = len.wrapping_add(1);
        }
        m = m + 1;
    }
    let conv = byte_at(fmt, m);
    Header { suppress, width, len, conv, next: m + 1 }
}

/// The base that an integer conversion starts from (0: taken from the
/// input's prefix).
pub open spec fn initial_base(conv: u8) -> i32 {
    if conv == 100 || conv == 117 {
        10
    } else if conv == 111 {
        8
    } else if conv == 120 || conv == 88 || conv == 112 {
        16
    } else {
        0
    }
}

/// The number of digits of `base` that follow `i`, taking at most `cap`.
pub open spec fn digit_run(s: Seq<u8>, i: int, base: i32, cap: int) -> int
    decreases cap,
{
    if cap <= 0 {
        0
    } else if spec_digit_val(at(s, i), base) is Some {
        1 + digit_run(s, i + 1, base, cap - 1)
    } else {
        0
    }
}

/// The value of the digits `s[i..j]` in `base`, wrapping in a `u64`.
pub open spec fn digits_value(s: Seq<u8>, i: int, j: int, base: i32) -> u64
    decreases j - i,
{
    if j <= i {
        0
    } else {
        digits_value(s, i, j - 1, base).wrapping_mul(base as u64).wrapping_add(
            spec_digit_val(at(s, j - 1), base).unwrap() as u64,
        )
    }
}

/// Two's complement negation in a `u64`.
pub open spec fn negate_u64(v: u64) -> u64 {
    if v == 0 {
        0
    } else {
        (0x1_0000_0000_0000_0000 - v) as u64
    }
}

/// An integer field read at `ii` with at most `wcap` characters: the value
/// to store (already negated for a `-` sign) and the index after the field;
/// `None` when no digit follows the sign and prefix.
pub open spec fn spec_int_field(inp: Seq<u8>, ii: int, conv: u8, wcap: int) -> Option<(u64, int)> {
    let i0 = skip_ws(inp, ii);
    let c = at(inp, i0);
    let signed = (c == 43 || c == 45) && 0 < wcap;
    let neg = signed && c == 45;
    let i1 = if signed { i0 + 1 } else { i0 };
    let used1: int = if signed { 1 } else { 0 };
    let base0 = initial_base(conv);
    let hex = (base0 == 16 || base0 == 0) && at(inp, i1) == 48 && (at(inp, i1 + 1) == 120 || at(
        inp,
        i1 + 1,
    ) == 88);
    let i2 = if hex { i1 + 2 } else { i1 };
    let used2 = if hex { used1 + 2 } else { used1 };
    let base: i32 = if hex {
        16
    } else if base0 == 0 {
        if at(inp, i1) == 48 {
            8
        } else {
            10
        }
    } else {
        base0
    };
    let n = digit_run(inp, i2, base, wcap - used2);
    if n == 0 {
        None
    } else {
        let v = digits_value(inp, i2, i2 + n, base);
        Some((if neg { negate_u64(v) } else { v }, i2 + n))
    }
}

proof fn lemma_digit_run_bounds(s: Seq<u8>, i: int, base: i32, cap: int)
    requires
        0 <= i <= s.len(),
    ensures
        0 <= digit_run(s, i, base, cap),
        digit_run(s, i, base, cap) <= if cap > 0 { cap } else { 0 },
        i + digit_run(s, i, base, cap) <= s.len(),
    decreases cap,
{
    if cap > 0 && spec_digit_val(at(s, i), base) is Some {
        assert(i < s.len());
        lemma_digit_run_bounds(s, i + 1, base, cap - 1);
    }
}

/// Read an integer field at `ii`.
fn scan_int(inp: &[u8], ii: usize, conv: u8, wcap: usize) -> (r: Option<(u64, usize)>)
    requires
        ii <= inp.len(),
    ensures
        match r {
            Some((v, j)) => spec_int_field(inp@, ii as int, conv, wcap as int) == Some((v, j as int))
                && j <= inp.len(),
            None => spec_int_field(inp@, ii as int, conv, wcap as int) is None,
        },
{
    let i0 = skip_space(inp, ii);
    let c = byte_at(inp, i0);
    let mut i = i0;
    let mut used: usize = 0;
    let mut neg = false;
    if (c == 43 || c == 45) && used < wcap {
        neg = c == 45;
        i = i + 1;
        used = used + 1;
    }
    let ghost i1 = i;
    let ghost used1 = used;
    let mut base: i32 = if conv == 100 || conv == 117 {
        10
    } else if conv == 111 {
        8
    } else if conv == 120 || conv == 88 || conv == 112 {
        16
    } else {
        0
    };
    if (base == 16 || base == 0) && byte_at(inp, i) == 48 && (byte_at(inp, i + 1) == 120
        || byte_at(inp, i + 1) == 88) {
        i = i + 2;
        used = used + 2;
        base = 16;
    } else if base == 0 {
        base = if byte_at(inp, i) == 48 {
            8
        } else {
            10
        };
    }
    let ghost i2 = i;
    let ghost cap: int = wcap - used;
    proof {
        lemma_digit_run_bounds(inp@, i2 as int, base, cap);
    }
    let mut val: u64 = 0;
    let mut got = false;
    while used < wcap
        invariant_except_break
            i2 <= i <= inp.len(),
            used - used1 == i - i1 + (used - used1 - (i - i1)),
            used as int - (i - i2) == wcap - cap,
            digit_run(inp@, i2 as int, base, cap) == (i - i2) + digit_run(inp@, i as int, base, wcap - used),
            val == digits_value(inp@, i2 as int, i as int, base),
            got == (i > i2),
            2 <= base <= 16,
        ensures
            i2 <= i <= inp.len(),
            digit_run(inp@, i2 as int, base, cap) == i - i2,
            val == digits_value(inp@, i2 as int, i as int, base),
            got == (i > i2),
        decreases wcap - used,
    {
        match digit_val(byte_at(inp, i), base) {
            Some(d) => {
                proof {
                    lemma_digit_run_bounds(inp@, i as int, base, wcap - used);
                }
                val = val.wrapping_mul(base as u64).wrapping_add(d as u64);
                i = i + 1;
                used = used + 1;
                got = true;
            },
            None => {
                break;
            },
        }
    }
    if !got {
        return None;
    }
    let stored = if neg {
        0u64.wrapping_sub(val)
    } else {
        val
    };
    Some((stored, i))
}


/// The length of a `%s` field at `i0`: the non-whitespace, non-NUL bytes
/// there, taking at most `cap`.
pub open spec fn word_run(s: Seq<u8>, i0: int, cap: int) -> int
    decreases cap,
{
    if cap <= 0 {
        0
    } else if at(s, i0) != 0 && !spec_is_space(at(s, i0)) {
        1 + word_run(s, i0 + 1, cap - 1)
    } else {
        0
    }
}

/// The length of a `%c` field at `i0`: the bytes before the terminator,
/// taking at most `cap`.
pub open spec fn char_run(s: Seq<u8>, i0: int, cap: int) -> int
    decreases cap,
{
    if cap <= 0 {
        0
    } else if at(s, i0) != 0 {
        1 + char_run(s, i0 + 1, cap - 1)
    } else {
        0
    }
}

proof fn lemma_word_run_bounds(s: Seq<u8>, i: int, cap: int)
    requires
        0 <= i <= s.len(),
    ensures
        0 <= word_run(s, i, cap) <= if cap > 0 { cap } else { 0 },
        i + word_run(s, i, cap) <= s.len(),
    decreases cap,
{
    if cap > 0 && at(s, i) != 0 && !spec_is_space(at(s, i)) {
        lemma_word_run_bounds(s, i + 1, cap - 1);
    }
}

proof fn lemma_char_run_bounds(s: Seq<u8>, i: int, cap: int)
    requires
        0 <= i <= s.len(),
    ensures
        0 <= char_run(s, i, cap) <= if cap > 0 { cap } else { 0 },
        i + char_run(s, i, cap) <= s.len(),
    decreases cap,
{
    if cap > 0 && at(s, i) != 0 {
        lemma_char_run_bounds(s, i + 1, cap - 1);
    }
}

/// Copy the bytes of `s[i..]` for which `keep` holds, at most `cap` of
/// them: the `%s` field when `word` holds, the `%c` field otherwise.
fn take_run(s: &[u8], i: usize, cap: usize, word: bool) -> (r: Vec<u8>)
    requires
        i <= s.len(),
    ensures
        word ==> r@ == s@.subrange(i as int, i + word_run(s@, i as int, cap as int)),
        !word ==> r@ == s@.subrange(i as int, i + char_run(s@, i as int, cap as int)),
{
    let mut out: Vec<u8> = Vec::new();
    let mut j = i;
    let mut n: usize = 0;
    proof {
        lemma_word_run_bounds(s@, i as int, cap as int);
        lemma_char_run_bounds(s@, i as int, cap as int);
    }
    while n < cap
        invariant_except_break
            i <= j <= s.len(),
            j == i + n,
            n <= cap,
            out@ == s@.subrange(i as int, j as int),
            word ==> word_run(s@, i as int, cap as int) == n + word_run(s@, j as int, cap - n),
            !word ==> char_run(s@, i as int, cap as int) == n + char_run(s@, j as int, cap - n),
        ensures
            i <= j <= s.len(),
            out@ == s@.subrange(i as int, j as int),
            word ==> word_run(s@, i as int, cap as int) == j - i,
            !word ==> char_run(s@, i as int, cap as int) == j - i,
        decreases cap - n,
    {
        let c = byte_at(s, j);
        if c == 0 || (word && is_space(c)) {
            break;
        }
        proof {
            lemma_word_run_bounds(s@, j as int, cap - n);
            lemma_char_run_bounds(s@, j as int, cap - n);
        }
        out.push(c);
        j = j + 1;
        n = n + 1;
    }
    out
}

/// Where a step has got to: the input and format indices, the count of
/// stored conversions, and whether any input has been consumed.
#[derive(Debug, Copy, Clone, PartialEq, Eq, Structural)]
pub struct ScanState {
    pub ii: usize,
    pub fi: usize,
    pub matched: i32,
    pub any_input: bool,
}

impl ScanState {
    /// The state before the first step.
    pub fn new() -> (r: ScanState)
        ensures
            r == (ScanState { ii: 0, fi: 0, matched: 0, any_input: false }),
    {
        ScanState { ii: 0, fi: 0, matched: 0, any_input: false }
    }

    /// Count a `%s` or `%c` field as stored: the caller does this when the
    /// destination pointer it fetched is not null. The count is a C `int`,
    /// wrapping in the release build.
    pub fn count_store(&mut self)
        ensures
            *final(self) == counted(*old(self)),
    {
        self.matched = self.matched.wrapping_add(1);
    }
}

/// What one step asks of the caller.
#[derive(Debug, Clone)]
pub enum ScanAction {
    /// Stop; the call returns this value.
    Finish(i32),
    /// Go on to the next step; nothing to store.
    Next,
    /// `%n`: store this count through the next `int *` argument.
    StoreCount(i32),
    /// An integer conversion: store `value` through the next argument, whose
    /// width `len` names (see [`stored_int`]).
    StoreInt { value: u64, len: i32 },
    /// `%s` (with `nul`) or `%c` (without): fetch the next `char *`; when it
    /// is not null, write `bytes` (and a terminator when `nul`), and unless
    /// `finish` is set, count the store with [`ScanState::count_store`].
    /// When `finish` is set, the call then returns it.
    StoreBytes { bytes: Vec<u8>, nul: bool, finish: Option<i32> },
}

/// The mathematical form of a [`ScanAction`].
pub enum ScanActionView {
    Finish(i32),
    Next,
    StoreCount(i32),
    StoreInt { value: u64, len: i32 },
    StoreBytes { bytes: Seq<u8>, nul: bool, finish: Option<i32> },
}

impl View for ScanAction {
    type V = ScanActionView;

    open spec fn view(&self) -> ScanActionView {
        match self {
            ScanAction::Finish(r) => ScanActionView::Finish(*r),
            ScanAction::Next => ScanActionView::Next,
            ScanAction::StoreCount(n) => ScanActionView::StoreCount(*n),
            ScanAction::StoreInt { value, len } => ScanActionView::StoreInt { value: *value, len: *len },
            ScanAction::StoreBytes { bytes, nul, finish } => ScanActionView::StoreBytes {
                bytes: bytes@,
                nul: *nul,
                finish: *finish,
            },
        }
    }
}

/// The value a failed conversion returns: -1 when nothing was stored yet.
pub open spec fn fail_value(matched: i32) -> i32 {
    if matched == 0 {
        -1i32
    } else {
        matched
    }
}

/// `c` is one of the integer conversions `d u i o x X p`.
pub open spec fn is_int_conv(c: u8) -> bool {
    c == 100 || c == 117 || c == 105 || c == 111 || c == 120 || c == 88 || c == 112
}

/// The field cap of a width: no cap when the width is 0.
pub open spec fn width_cap(width: usize) -> int {
    if width == 0 {
        usize::MAX as int
    } else {
        width as int
    }
}

/// An integer conversion from `st` (whose format index is already past the
/// directive).
pub open spec fn spec_int_step(inp: Seq<u8>, st: ScanState, h: Header) -> (ScanState, ScanActionView) {
    match spec_int_field(inp, st.ii as int, h.conv, width_cap(h.width)) {
        None => (st, ScanActionView::Finish(fail_value(st.matched))),
        Some((v, j)) => if h.suppress {
            (ScanState { ii: j as usize, any_input: true, ..st }, ScanActionView::Next)
        } else {
            (
                ScanState { ii: j as usize, any_input: true, matched: st.matched.wrapping_add(1), ..st },
                ScanActionView::StoreInt { value: v, len: h.len },
            )
        },
    }
}

/// A `%s` conversion from `st`.
pub open spec fn spec_str_step(inp: Seq<u8>, st: ScanState, h: Header) -> (ScanState, ScanActionView) {
    let i0 = skip_ws(inp, st.ii as int);
    if at(inp, i0) == 0 {
        (st, ScanActionView::Finish(fail_value(st.matched)))
    } else {
        let n = word_run(inp, i0, width_cap(h.width));
        let st2 = ScanState { ii: (i0 + n) as usize, any_input: true, ..st };
        if h.suppress {
            (st2, ScanActionView::Next)
        } else {
            (st2, ScanActionView::StoreBytes { bytes: inp.subrange(i0, i0 + n), nul: true, finish: None })
        }
    }
}

/// A `%c` conversion from `st`.
pub open spec fn spec_char_step(inp: Seq<u8>, st: ScanState, h: Header) -> (ScanState, ScanActionView) {
    let count: int = if h.width == 0 { 1 } else { h.width as int };
    let n = char_run(inp, st.ii as int, count);
    let finish = if n < count { Some(fail_value(st.matched)) } else { None };
    let st2 = if n < count {
        st
    } else {
        ScanState { ii: (st.ii + n) as usize, any_input: true, ..st }
    };
    if h.suppress {
        (
            st2,
            match finish {
                Some(r) => ScanActionView::Finish(r),
                None => ScanActionView::Next,
            },
        )
    } else {
        (st2, ScanActionView::StoreBytes { bytes: inp.subrange(st.ii as int, st.ii + n), nul: false, finish })
    }
}

/// A directive with header `h`, from `st` (whose format index is already
/// past the directive).
pub open spec fn spec_directive_step(inp: Seq<u8>, st: ScanState, h: Header) -> (ScanState, ScanActionView) {
    if h.conv == 37 {
        let i0 = skip_ws(inp, st.ii as int);
        if at(inp, i0) != 37 {
            (st, ScanActionView::Finish(st.matched))
        } else {
            (ScanState { ii: (i0 + 1) as usize, ..st }, ScanActionView::Next)
        }
    } else if h.conv == 110 {
        if h.suppress {
            (st, ScanActionView::Next)
        } else {
            (st, ScanActionView::StoreCount(st.ii as i32))
        }
    } else if is_int_conv(h.conv) {
        spec_int_step(inp, st, h)
    } else if h.conv == 115 {
        spec_str_step(inp, st, h)
    } else if h.conv == 99 {
        spec_char_step(inp, st, h)
    } else {
        (st, ScanActionView::Finish(st.matched))
    }
}

/// One step of the scan from state `st`: the next state and the action.
pub open spec fn spec_step(inp: Seq<u8>, fmt: Seq<u8>, st: ScanState) -> (ScanState, ScanActionView) {
    let f = at(fmt, st.fi as int);
    if f == 0 {
        (st, ScanActionView::Finish(st.matched))
    } else if spec_is_space(f) {
        (
            ScanState {
                fi: skip_ws(fmt, st.fi as int) as usize,
                ii: skip_ws(inp, st.ii as int) as usize,
                ..st
            },
            ScanActionView::Next,
        )
    } else if f != 37 {
        let c = at(inp, st.ii as int);
        if c == 0 || c != f {
            (
                st,
                ScanActionView::Finish(
                    if st.matched == 0 && c == 0 && !st.any_input {
                        -1i32
                    } else {
                        st.matched
                    },
                ),
            )
        } else {
            (
                ScanState { ii: (st.ii + 1) as usize, fi: (st.fi + 1) as usize, any_input: true, ..st },
                ScanActionView::Next,
            )
        }
    } else {
        let h = spec_header(fmt, st.fi + 1);
        spec_directive_step(inp, ScanState { fi: h.next, ..st }, h)
    }
}

/// A state the steps can reach: indices within bounds.
pub open spec fn state_ok(inp: Seq<u8>, fmt: Seq<u8>, st: ScanState) -> bool {
    &&& st.ii <= inp.len()
    &&& st.fi <= fmt.len() + 1
}

/// The count of stores of a state the steps reach from the start: at most
/// half the format index (every store takes a `%` and a conversion
/// character).
pub open spec fn count_ok(st: ScanState) -> bool {
    &&& 0 <= st.matched
    &&& 2 * st.matched <= st.fi
}

fn fail_result(matched: i32) -> (r: i32)
    ensures
        r == fail_value(matched),
{
    if matched == 0 {
        -1
    } else {
        matched
    }
}

fn int_step(inp: &[u8], st: &mut ScanState, h: Header) -> (r: ScanAction)
    requires
        old(st).ii <= inp.len(),
    ensures
        (*final(st), r@) == spec_int_step(inp@, *old(st), h),
        final(st).ii <= inp.len(),
{
    let wcap: usize = if h.width == 0 {
        usize::MAX
    } else {
        h.width
    };
    match scan_int(inp, st.ii, h.conv, wcap) {
        None => ScanAction::Finish(fail_result(st.matched)),
        Some((v, j)) => {
            st.ii = j;
            st.any_input = true;
            if h.suppress {
                ScanAction::Next
            } else {
                st.matched = st.matched.wrapping_add(1);
                ScanAction::StoreInt { value: v, len: h.len }
            }
        },
    }
}

fn str_step(inp: &[u8], st: &mut ScanState, h: Header) -> (r: ScanAction)
    requires
        old(st).ii <= inp.len(),
    ensures
        (*final(st), r@) == spec_str_step(inp@, *old(st), h),
        final(st).ii <= inp.len(),
{
    let wcap: usize = if h.width == 0 {
        usize::MAX
    } else {
        h.width
    };
    let i0 = skip_space(inp, st.ii);
    if byte_at(inp, i0) == 0 {
        return ScanAction::Finish(fail_result(st.matched));
    }
    proof {
        lemma_word_run_bounds(inp@, i0 as int, wcap as int);
    }
    let bytes = take_run(inp, i0, wcap, true);
    st.ii = i0 + bytes.len();
    st.any_input = true;
    if h.suppress {
        ScanAction::Next
    } else {
        ScanAction::StoreBytes { bytes, nul: true, finish: None }
    }
}

fn char_step(inp: &[u8], st: &mut ScanState, h: Header) -> (r: ScanAction)
    requires
        old(st).ii <= inp.len(),
    ensures
        (*final(st), r@) == spec_char_step(inp@, *old(st), h),
        final(st).ii <= inp.len(),
{
    let count: usize = if h.width == 0 {
        1
    } else {
        h.width
    };
    proof {
        lemma_char_run_bounds(inp@, st.ii as int, count as int);
    }
    let bytes = take_run(inp, st.ii, count, false);
    let finish = if bytes.len() < count {
        Some(fail_result(st.matched))
    } else {
        st.ii = st.ii + bytes.len();
        st.any_input = true;
        None
    };
    if h.suppress {
        match finish {
            Some(r) => ScanAction::Finish(r),
            None => ScanAction::Next,
        }
    } else {
        ScanAction::StoreBytes { bytes, nul: false, finish }
    }
}

fn directive_step(inp: &[u8], st: &mut ScanState, h: Header) -> (r: ScanAction)
    requires
        old(st).ii <= inp.len(),
    ensures
        (*final(st), r@) == spec_directive_step(inp@, *old(st), h),
        final(st).ii <= inp.len(),
        final(st).fi == old(st).fi,
{
    if h.conv == 37 {
        let i0 = skip_space(inp, st.ii);
        if byte_at(inp, i0) != 37 {
            return ScanAction::Finish(st.matched);
        }
        st.ii = i0 + 1;
        ScanAction::Next
    } else if h.conv == 110 {
        if h.suppress {
            ScanAction::Next
        } else {
            ScanAction::StoreCount(st.ii as i32)
        }
    } else if h.conv == 100 || h.conv == 117 || h.conv == 105 || h.conv == 111 || h.conv == 120
        || h.conv == 88 || h.conv == 112 {
        int_step(inp, st, h)
    } else if h.conv == 115 {
        str_step(inp, st, h)
    } else if h.conv == 99 {
        char_step(inp, st, h)
    } else {
        ScanAction::Finish(st.matched)
    }
}

/// Run one step of the scan: advance `st` and say what to store.
pub fn scan_step(inp: &[u8], fmt: &[u8], st: &mut ScanState) -> (r: ScanAction)
    requires
        fmt.len() < usize::MAX,
        state_ok(inp@, fmt@, *old(st)),
    ensures
        (*final(st), r@) == spec_step(inp@, fmt@, *old(st)),
        state_ok(inp@, fmt@, *final(st)),
        r@ is Finish || final(st).fi > old(st).fi,
{
    let f = byte_at(fmt, st.fi);
    if f == 0 {
        return ScanAction::Finish(st.matched);
    }
    if is_space(f) {
        proof {
            lemma_skip_ws_bounds(fmt@, st.fi + 1);
            lemma_skip_ws_bounds(inp@, st.ii as int);
        }
        st.fi = skip_space(fmt, st.fi);
        st.ii = skip_space(inp, st.ii);
        return ScanAction::Next;
    }
    if f != 37 {
        let c = byte_at(inp, st.ii);
        if c == 0 || c != f {
            return ScanAction::Finish(
                if st.matched == 0 && c == 0 && !st.any_input {
                    -1
                } else {
                    st.matched
                },
            );
        }
        assert(st.ii < inp.len());
        st.ii = st.ii + 1;
        st.fi = st.fi + 1;
        st.any_input = true;
        return ScanAction::Next;
    }
    let h = parse_header(fmt, st.fi + 1);
    st.fi = h.next;
    directive_step(inp, st, h)
}

/// The value an integer conversion stores, narrowed to the pointer's type.
#[derive(Debug, Copy, Clone, PartialEq, Eq, Structural)]
pub enum StoredInt {
    /// `hh`: a `char`.
    I8(i8),
    /// `h`: a `short`.
    I16(i16),
    /// no modifier: an `int`.
    I32(i32),
    /// `l`, `ll` and longer: a `long`.
    I64(i64),
}

/// Narrow `val` for a conversion of size class `len`: -2 stores a `char`,
/// -1 a `short`, 0 an `int`, and any other class a `long`, each keeping the
/// low bits.
pub fn stored_int(val: u64, len: i32) -> (r: StoredInt)
    ensures
        len == -2 ==> r == StoredInt::I8(val as i8),
        len == -1 ==> r == StoredInt::I16(val as i16),
        len == 0 ==> r == StoredInt::I32(val as i32),
        len != -2 && len != -1 && len != 0 ==> r == StoredInt::I64(val as i64),
{
    if len == -2 {
        StoredInt::I8(val as i8)
    } else if len == -1 {
        StoredInt::I16(val as i16)
    } else if len == 0 {
        StoredInt::I32(val as i32)
    } else {
        StoredInt::I64(val as i64)
    }
}

proof fn lemma_int_field_forward(inp: Seq<u8>, ii: int, conv: u8, wcap: int)
    requires
        0 <= ii <= inp.len(),
    ensures
        spec_int_field(inp, ii, conv, wcap) matches Some((v, j)) ==> ii <= j <= inp.len(),
{
    lemma_skip_ws_bounds(inp, ii);
    let i0 = skip_ws(inp, ii);
    let c = at(inp, i0);
    let signed = (c == 43 || c == 45) && 0 < wcap;
    let i1 = if signed { i0 + 1 } else { i0 };
    let base0 = initial_base(conv);
    let hex = (base0 == 16 || base0 == 0) && at(inp, i1) == 48 && (at(inp, i1 + 1) == 120 || at(
        inp,
        i1 + 1,
    ) == 88);
    let i2 = if hex { i1 + 2 } else { i1 };
    let used1: int = if signed { 1 } else { 0 };
    let used2 = if hex { used1 + 2 } else { used1 };
    let base: i32 = if hex {
        16
    } else if base0 == 0 {
        if at(inp, i1) == 48 {
            8
        } else {
            10
        }
    } else {
        base0
    };
    lemma_digit_run_bounds(inp, i2, base, wcap - used2);
}

/// The state after a string or character field was stored: one more
/// stored conversion.
pub open spec fn counted(st: ScanState) -> ScanState {
    ScanState { matched: st.matched.wrapping_add(1), ..st }
}

proof fn lemma_header_next(fmt: Seq<u8>, i: int)
    requires
        0 <= i <= fmt.len(),
        fmt.len() < usize::MAX,
    ensures
        i < spec_header(fmt, i).next <= fmt.len() + 1,
{
    let suppress = at(fmt, i) == 42;
    let i1 = if suppress { i + 1 } else { i };
    lemma_skip_digits_bounds(fmt, i1);
    lemma_skip_mods_bounds(fmt, skip_digits(fmt, i1));
}

/// Each step of the scan moves forward and keeps count: the input index
/// never goes back; the count of stored conversions grows by one exactly
/// when the step stores an integer (a stored string or character field is
/// counted by the caller); and a step that stops the scan leaves both as
/// they were and returns the count, or -1 when nothing was stored.
pub proof fn law_scan_moves_forward(inp: Seq<u8>, fmt: Seq<u8>, st: ScanState)
    requires
        inp.len() <= usize::MAX,
        fmt.len() < i32::MAX,
        state_ok(inp, fmt, st),
        count_ok(st),
    ensures
        ({
            let (next, action) = spec_step(inp, fmt, st);
            &&& st.ii <= next.ii <= inp.len()
            &&& next.matched == st.matched + if action is StoreInt { 1int } else { 0int }
            &&& action is Finish ==> next.ii == st.ii
            &&& action matches ScanActionView::Finish(v) ==> (v == st.matched || (v == -1
                && st.matched == 0))
            &&& action matches ScanActionView::StoreBytes { finish: Some(v), .. } ==> v == fail_value(
                st.matched,
            )
            &&& !(action is Finish) ==> state_ok(inp, fmt, next) && count_ok(next) && st.fi < next.fi
            &&& action is StoreBytes ==> state_ok(inp, fmt, counted(next)) && count_ok(counted(next))
        }),
{
    lemma_skip_ws_bounds(inp, st.ii as int);
    let i0 = skip_ws(inp, st.ii as int);
    let f = at(fmt, st.fi as int);
    if f == 0 {
    } else if spec_is_space(f) {
        lemma_skip_ws_bounds(fmt, st.fi + 1);
    } else if f != 37 {
    } else {
        lemma_header_next(fmt, st.fi + 1);
        let h = spec_header(fmt, st.fi + 1);
        if h.conv == 37 || h.conv == 110 {
        } else if is_int_conv(h.conv) {
            lemma_int_field_forward(inp, st.ii as int, h.conv, width_cap(h.width));
        } else if h.conv == 115 {
            lemma_word_run_bounds(inp, i0, width_cap(h.width));
        } else if h.conv == 99 {
            let count: int = if h.width == 0 { 1 } else { h.width as int };
            lemma_char_run_bounds(inp, st.ii as int, count);
        }
    }
}

/// The value a scan from `st` returns when every destination pointer is
/// present, if it stops within `fuel` steps.
pub open spec fn scan_result(inp: Seq<u8>, fmt: Seq<u8>, st: ScanState, fuel: nat) -> Option<i32>
    decreases fuel,
{
    if fuel == 0 {
        None
    } else {
        let (next, action) = spec_step(inp, fmt, st);
        match action {
            ScanActionView::Finish(v) => Some(v),
            ScanActionView::StoreBytes { finish: Some(v), .. } => Some(v),
            ScanActionView::StoreBytes { finish: None, .. } => scan_result(
                inp,
                fmt,
                counted(next),
                (fuel - 1) as nat,
            ),
            _ => scan_result(inp, fmt, next, (fuel - 1) as nat),
        }
    }
}

/// The conversions a scan from `st` stores within `fuel` steps when every
/// destination pointer is present.
pub open spec fn scan_stores(inp: Seq<u8>, fmt: Seq<u8>, st: ScanState, fuel: nat) -> nat
    decreases fuel,
{
    if fuel == 0 {
        0
    } else {
        let (next, action) = spec_step(inp, fmt, st);
        match action {
            ScanActionView::Finish(_) => 0,
            ScanActionView::StoreBytes { finish: Some(_), .. } => 0,
            ScanActionView::StoreBytes { finish: None, .. } => 1 + scan_stores(
                inp,
                fmt,
                counted(next),
                (fuel - 1) as nat,
            ),
            ScanActionView::StoreInt { .. } => 1 + scan_stores(inp, fmt, next, (fuel - 1) as nat),
            _ => scan_stores(inp, fmt, next, (fuel - 1) as nat),
        }
    }
}

proof fn lemma_scan_result(inp: Seq<u8>, fmt: Seq<u8>, st: ScanState, fuel: nat)
    requires
        inp.len() <= usize::MAX,
        fmt.len() < i32::MAX,
        state_ok(inp, fmt, st),
        count_ok(st),
    ensures
        fuel >= fmt.len() + 2 - st.fi ==> scan_result(inp, fmt, st, fuel) is Some,
        scan_result(inp, fmt, st, fuel) matches Some(v) ==> (v == st.matched + scan_stores(inp, fmt, st, fuel)
            || (v == -1 && st.matched + scan_stores(inp, fmt, st, fuel) == 0)),
    decreases fuel,
{
    if fuel > 0 {
        law_scan_moves_forward(inp, fmt, st);
        let (next, action) = spec_step(inp, fmt, st);
        match action {
            ScanActionView::Finish(_) => {},
            ScanActionView::StoreBytes { finish: Some(_), .. } => {},
            ScanActionView::StoreBytes { finish: None, .. } => {
                lemma_scan_result(inp, fmt, counted(next), (fuel - 1) as nat);
            },
            _ => {
                lemma_scan_result(inp, fmt, next, (fuel - 1) as nat);
            },
        }
    }
}

/// A scan always stops, within two steps more than its format has bytes,
/// and what it returns is the count of the conversions it stored, or -1,
/// which it returns only when it stored none (with every destination
/// pointer present; a string or character field stored through a null
/// pointer is not counted).
/// The count is a C `int`: for a format of `i32::MAX` bytes or more it could
/// wrap, and the law is stated for shorter ones.
pub proof fn law_scan_returns_count(inp: Seq<u8>, fmt: Seq<u8>)
    requires
        inp.len() <= usize::MAX,
        fmt.len() < i32::MAX,
    ensures
        ({
            let st = ScanState { ii: 0, fi: 0, matched: 0, any_input: false };
            let fuel = (fmt.len() + 2) as nat;
            &&& scan_result(inp, fmt, st, fuel) is Some
            &&& scan_result(inp, fmt, st, fuel) matches Some(v) ==> (v == scan_stores(inp, fmt, st, fuel)
                || (v == -1 && scan_stores(inp, fmt, st, fuel) == 0))
        }),
{
    let st = ScanState { ii: 0, fi: 0, matched: 0, any_input: false };
    lemma_scan_result(inp, fmt, st, (fmt.len() + 2) as nat);
}

/// The digit that the byte `b` writes in a base up to 16 (`0`-`9`, `a`-`f`,
/// `A`-`F`), or 16 for a byte that is no digit.
pub open spec fn digit_of(b: u8) -> int {
    if 48 <= b <= 57 {
        b - 48
    } else if 97 <= b <= 102 {
        b - 87
    } else if 65 <= b <= 70 {
        b - 55
    } else {
        16
    }
}

/// The value of the digits `d` in `base`, most significant first.
pub open spec fn value_in_base(d: Seq<u8>, base: int) -> int
    decreases d.len(),
{
    if d.len() == 0 {
        0
    } else {
        value_in_base(d.drop_last(), base) * base + digit_of(d.last())
    }
}

/// The base that the conversion character `conv` reads in: 10 for `d` and
/// `u`, 8 for `o`, 16 for `x` and `X`.
pub open spec fn conversion_base(conv: u8) -> int {
    if conv == 100 || conv == 117 {
        10
    } else if conv == 111 {
        8
    } else {
        16
    }
}

proof fn lemma_digit_of(b: u8, base: i32)
    requires
        2 <= base <= 16,
    ensures
        (spec_digit_val(b, base) is Some) == (digit_of(b) < base),
        spec_digit_val(b, base) is Some ==> spec_digit_val(b, base).unwrap() == digit_of(b),
        0 <= digit_of(b) <= 16,
{
}

proof fn lemma_value_grows(d: Seq<u8>, base: int)
    requires
        d.len() > 0,
        base >= 1,
    ensures
        0 <= value_in_base(d.drop_last(), base) <= value_in_base(d.drop_last(), base) * base,
        value_in_base(d.drop_last(), base) * base <= value_in_base(d, base),
    decreases d.len(),
{
    let p = d.drop_last();
    if p.len() > 0 {
        lemma_value_grows(p, base);
    }
    let v = value_in_base(p, base);
    assert(v >= 0);
    assert(v <= v * base) by (nonlinear_arith)
        requires
            v >= 0,
            base >= 1,
    ;
}

proof fn lemma_digit_run_exact(inp: Seq<u8>, i: int, n: int, base: i32, cap: int)
    requires
        2 <= base <= 16,
        0 <= i <= n <= inp.len(),
        n <= i + cap,
        forall|k: int| i <= k < n ==> digit_of(#[trigger] inp[k]) < base,
        n < inp.len() ==> digit_of(inp[n]) >= base,
    ensures
        digit_run(inp, i, base, cap) == n - i,
    decreases n - i,
{
    lemma_digit_of(at(inp, i), base);
    if i < n {
        lemma_digit_run_exact(inp, i + 1, n, base, cap - 1);
    } else if cap > 0 {
        if n == inp.len() {
            assert(at(inp, i) == 0);
        }
    }
}

proof fn lemma_digit_run_capped(inp: Seq<u8>, i: int, n: int, base: i32, cap: int)
    requires
        2 <= base <= 16,
        0 <= i,
        0 <= cap,
        i + cap <= n <= inp.len(),
        forall|k: int| i <= k < n ==> digit_of(#[trigger] inp[k]) < base,
    ensures
        digit_run(inp, i, base, cap) == cap,
    decreases cap,
{
    if cap > 0 {
        lemma_digit_of(at(inp, i), base);
        lemma_digit_run_capped(inp, i + 1, n, base, cap - 1);
    }
}

proof fn lemma_digits_value_exact(inp: Seq<u8>, i: int, j: int, base: i32)
    requires
        2 <= base <= 16,
        0 <= i <= j <= inp.len(),
        forall|k: int| i <= k < j ==> digit_of(#[trigger] inp[k]) < base,
        value_in_base(inp.subrange(i, j), base as int) < 0x1_0000_0000_0000_0000,
    ensures
        digits_value(inp, i, j, base) as int == value_in_base(inp.subrange(i, j), base as int),
    decreases j - i,
{
    if j > i {
        let t = inp.subrange(i, j);
        assert(t.drop_last() =~= inp.subrange(i, j - 1));
        lemma_value_grows(t, base as int);
        lemma_digits_value_exact(inp, i, j - 1, base);
        let v = digits_value(inp, i, j - 1, base);
        lemma_digit_of(inp[j - 1], base);
        assert(at(inp, j - 1) == inp[j - 1]);
        let prod: nat = (v as nat * base as u64 as nat) as nat;
        assert(prod < 0x1_0000_0000_0000_0000);
        vstd::arithmetic::div_mod::lemma_small_mod(prod, 0x1_0000_0000_0000_0000nat);
        assert(v.wrapping_mul(base as u64) as int == prod);
    }
}

/// `%d` and `%u` read decimal, `%o` octal, and `%x` and `%X` hexadecimal:
/// on an input that starts with a run of `n` digits of that base (not a
/// `0x` prefix), whose value fits in 64 bits, an integer conversion takes
/// exactly those digits and stores their value in that base.
pub proof fn law_int_conversion_bases(inp: Seq<u8>, n: int, conv: u8, cap: int)
    requires
        conv == 100 || conv == 117 || conv == 111 || conv == 120 || conv == 88,
        1 <= n <= inp.len(),
        n <= cap,
        forall|k: int| 0 <= k < n ==> digit_of(#[trigger] inp[k]) < conversion_base(conv),
        n < inp.len() ==> digit_of(inp[n]) >= conversion_base(conv),
        conversion_base(conv) == 16 && inp[0] == 48 && n < inp.len() ==> inp[n] != 120 && inp[n] != 88,
        value_in_base(inp.take(n), conversion_base(conv)) < 0x1_0000_0000_0000_0000,
    ensures
        spec_int_field(inp, 0, conv, cap) == Some(
            (value_in_base(inp.take(n), conversion_base(conv)) as u64, n),
        ),
{
    let base: i32 = initial_base(conv);
    assert(base as int == conversion_base(conv));
    assert(digit_of(inp[0]) < base);
    assert(!spec_is_space(inp[0]));
    assert(skip_ws(inp, 0) == 0);
    assert(at(inp, 0) == inp[0]);
    if n >= 2 {
        assert(digit_of(inp[1]) < base);
    }
    lemma_digit_run_exact(inp, 0, n, base, cap);
    assert(inp.take(n) =~= inp.subrange(0, n));
    lemma_digits_value_exact(inp, 0, n, base);
}

/// A scan step at a `%d`, `%u`, `%o`, `%x` or `%X` directive (no width or
/// modifier) over an input that starts with a run of `n` digits of the
/// conversion's base (not a `0x` prefix) whose value fits in 64 bits:
/// the step stores that value as an `int`, counts one more conversion, and
/// moves past the digits and the directive.
pub proof fn law_scan_step_stores_int(inp: Seq<u8>, fmt: Seq<u8>, n: int, matched: i32, any_input: bool)
    requires
        fmt.len() >= 2,
        fmt[0] == 37,
        fmt[1] == 100 || fmt[1] == 117 || fmt[1] == 111 || fmt[1] == 120 || fmt[1] == 88,
        1 <= n <= inp.len(),
        inp.len() <= usize::MAX,
        forall|k: int| 0 <= k < n ==> digit_of(#[trigger] inp[k]) < conversion_base(fmt[1]),
        n < inp.len() ==> digit_of(inp[n]) >= conversion_base(fmt[1]),
        conversion_base(fmt[1]) == 16 && inp[0] == 48 && n < inp.len() ==> inp[n] != 120 && inp[n] != 88,
        value_in_base(inp.take(n), conversion_base(fmt[1])) < 0x1_0000_0000_0000_0000,
    ensures
        spec_step(inp, fmt, ScanState { ii: 0, fi: 0, matched, any_input }) == (
            ScanState { ii: n as usize, fi: 2, matched: matched.wrapping_add(1), any_input: true },
            ScanActionView::StoreInt {
                value: value_in_base(inp.take(n), conversion_base(fmt[1])) as u64,
                len: 0,
            },
        ),
{
    let st = ScanState { ii: 0, fi: 0, matched, any_input };
    assert(at(fmt, 0) == 37);
    assert(at(fmt, 1) == fmt[1]);
    assert(skip_digits(fmt, 1) == 1);
    assert(skip_mods(fmt, 1) == 1);
    let h = spec_header(fmt, 1);
    assert(h.width == 0 && !h.suppress && h.conv == fmt[1] && h.next == 2 && h.len == 0);
    law_int_conversion_bases(inp, n, fmt[1], usize::MAX as int);
}

/// A signed field and a width: a `-` before the digits stores the
/// two's-complement negation of their value (a `+` stores the value), and
/// a width `cap` shorter than the digit run takes only the first `cap`
/// characters, the sign counting as one.
pub proof fn law_int_sign_and_width(inp: Seq<u8>, n: int, conv: u8, cap: int)
    requires
        conv == 100 || conv == 117 || conv == 111 || conv == 120 || conv == 88,
        inp.len() >= 2,
        inp[0] == 45 || inp[0] == 43,
        2 <= n <= inp.len(),
        forall|k: int| 1 <= k < n ==> digit_of(#[trigger] inp[k]) < conversion_base(conv),
        n < inp.len() ==> digit_of(inp[n]) >= conversion_base(conv),
        conversion_base(conv) == 16 ==> inp[1] != 48,
        value_in_base(inp.subrange(1, n), conversion_base(conv)) < 0x1_0000_0000_0000_0000,
        2 <= cap,
    ensures
        ({
            let m = if cap < n { cap } else { n };
            let v = value_in_base(inp.subrange(1, m), conversion_base(conv));
            spec_int_field(inp, 0, conv, cap) == Some(
                (
                    if inp[0] == 45 && v != 0 {
                        (0x1_0000_0000_0000_0000 - v) as u64
                    } else {
                        v as u64
                    },
                    m,
                ),
            )
        }),
{
    let base: i32 = initial_base(conv);
    assert(base as int == conversion_base(conv));
    assert(!spec_is_space(inp[0]));
    assert(skip_ws(inp, 0) == 0);
    assert(at(inp, 0) == inp[0]);
    assert(at(inp, 1) == inp[1]);
    let m = if cap < n { cap } else { n };
    if cap < n {
        lemma_digit_run_capped(inp, 1, n, base, cap - 1);
    } else {
        lemma_digit_run_exact(inp, 1, n, base, cap - 1);
    }
    lemma_value_prefix_fits(inp, 1, m, n, base as int);
    lemma_digits_value_exact(inp, 1, m, base);
}

proof fn lemma_value_prefix_fits(inp: Seq<u8>, i: int, m: int, n: int, base: int)
    requires
        0 <= i <= m <= n <= inp.len(),
        base >= 1,
    ensures
        value_in_base(inp.subrange(i, m), base) <= value_in_base(inp.subrange(i, n), base),
    decreases n - m,
{
    if m < n {
        let t = inp.subrange(i, n);
        assert(t.drop_last() =~= inp.subrange(i, n - 1));
        lemma_value_grows(t, base);
        lemma_value_prefix_fits(inp, i, m, n - 1, base);
    }
}

/// The bytes C counts as white space.
pub open spec fn c_space(b: u8) -> bool {
    b == 32 || 9 <= b <= 13
}

proof fn lemma_skip_spaces(s: Seq<u8>, i: int, a: int)
    requires
        0 <= i <= a <= s.len(),
        forall|m: int| i <= m < a ==> c_space(#[trigger] s[m]),
        a < s.len() ==> !c_space(s[a]),
    ensures
        skip_ws(s, i) == a,
    decreases a - i,
{
    if i < a {
        lemma_skip_spaces(s, i + 1, a);
    }
}

proof fn lemma_word_run_exact(s: Seq<u8>, i: int, b: int, cap: int)
    requires
        0 <= i <= b <= s.len(),
        b - i <= cap,
        forall|m: int| i <= m < b ==> #[trigger] s[m] != 0 && !c_space(s[m]),
        b < s.len() ==> s[b] == 0 || c_space(s[b]),
    ensures
        word_run(s, i, cap) == b - i,
    decreases b - i,
{
    if i < b {
        lemma_word_run_exact(s, i + 1, b, cap - 1);
    }
}

/// A step at a `%s` directive reads a word: it skips the white space
/// `inp[..a]`, stores the non-blank bytes `inp[a..b]` that follow with a
/// terminator, and moves past them; a `%s` at the end of the input fails.
pub proof fn law_scan_step_string(inp: Seq<u8>, fmt: Seq<u8>, a: int, b: int, matched: i32, any_input: bool)
    requires
        fmt.len() >= 2,
        fmt[0] == 37,
        fmt[1] == 115,
        0 <= a <= b <= inp.len(),
        inp.len() <= usize::MAX,
        forall|m: int| 0 <= m < a ==> c_space(#[trigger] inp[m]),
        forall|m: int| a <= m < b ==> #[trigger] inp[m] != 0 && !c_space(inp[m]),
        b < inp.len() ==> inp[b] == 0 || c_space(inp[b]),
        a < b || a == inp.len() || inp[a] == 0,
    ensures
        a < b ==> spec_step(inp, fmt, ScanState { ii: 0, fi: 0, matched, any_input }) == (
            ScanState { ii: b as usize, fi: 2, matched, any_input: true },
            ScanActionView::StoreBytes { bytes: inp.subrange(a, b), nul: true, finish: None },
        ),
        a == b ==> spec_step(inp, fmt, ScanState { ii: 0, fi: 0, matched, any_input }) == (
            ScanState { ii: 0, fi: 2, matched, any_input },
            ScanActionView::Finish(if matched == 0 { -1i32 } else { matched }),
        ),
{
    assert(at(fmt, 0) == 37);
    assert(at(fmt, 1) == fmt[1]);
    assert(skip_digits(fmt, 1) == 1);
    assert(skip_mods(fmt, 1) == 1);
    lemma_skip_spaces(inp, 0, a);
    if a < b {
        lemma_word_run_exact(inp, a, b, usize::MAX as int);
    }
}

/// A step at a `%c` directive takes the next byte as it is, white space
/// included, and stores it without a terminator; at the end of the input
/// it fails.
pub proof fn law_scan_step_char(inp: Seq<u8>, fmt: Seq<u8>, matched: i32, any_input: bool)
    requires
        fmt.len() >= 2,
        fmt[0] == 37,
        fmt[1] == 99,
        inp.len() <= usize::MAX,
    ensures
        inp.len() > 0 && inp[0] != 0 ==> spec_step(inp, fmt, ScanState { ii: 0, fi: 0, matched, any_input })
            == (
            ScanState { ii: 1, fi: 2, matched, any_input: true },
            ScanActionView::StoreBytes { bytes: seq![inp[0]], nul: false, finish: None },
        ),
        (inp.len() == 0 || inp[0] == 0) ==> spec_step(inp, fmt, ScanState { ii: 0, fi: 0, matched, any_input })
            == (
            ScanState { ii: 0, fi: 2, matched, any_input },
            ScanActionView::StoreBytes {
                bytes: Seq::empty(),
                nul: false,
                finish: Some(if matched == 0 { -1i32 } else { matched }),
            },
        ),
{
    assert(at(fmt, 0) == 37);
    assert(at(fmt, 1) == fmt[1]);
    assert(skip_digits(fmt, 1) == 1);
    assert(skip_mods(fmt, 1) == 1);
    assert(char_run(inp, 1, 0) == 0);
    if inp.len() > 0 && inp[0] != 0 {
        assert(inp.subrange(0, 1) =~= seq![inp[0]]);
    } else {
        assert(inp.subrange(0, 0) =~= Seq::<u8>::empty());
    }
}

/// Outside directives the format is matched byte by byte: a white-space
/// byte skips white space in both, and any other byte must be the next
/// input byte (the step moves past both) or the scan stops, returning the
/// count, or -1 when the input ended before anything was stored or read.
pub proof fn law_scan_step_literal(inp: Seq<u8>, fmt: Seq<u8>, st: ScanState)
    requires
        state_ok(inp, fmt, st),
        st.fi < fmt.len(),
        inp.len() <= usize::MAX,
        fmt.len() < usize::MAX,
        fmt[st.fi as int] != 37,
        fmt[st.fi as int] != 0,
    ensures
        !c_space(fmt[st.fi as int]) && st.ii < inp.len() && inp[st.ii as int] == fmt[st.fi as int] ==> spec_step(
            inp,
            fmt,
            st,
        ) == (
            ScanState { ii: (st.ii + 1) as usize, fi: (st.fi + 1) as usize, any_input: true, ..st },
            ScanActionView::Next,
        ),
        !c_space(fmt[st.fi as int]) && st.ii < inp.len() && inp[st.ii as int] != fmt[st.fi as int] && inp[st.ii as int]
            != 0 ==> spec_step(inp, fmt, st) == (st, ScanActionView::Finish(st.matched)),
        !c_space(fmt[st.fi as int]) && (st.ii == inp.len() || inp[st.ii as int] == 0) ==> spec_step(inp, fmt, st)
            == (st, ScanActionView::Finish(
            if st.matched == 0 && !st.any_input { -1i32 } else { st.matched },
        )),
        c_space(fmt[st.fi as int]) ==> spec_step(inp, fmt, st).1 is Next && spec_step(inp, fmt, st).0.ii
            == skip_ws(inp, st.ii as int) && spec_step(inp, fmt, st).0.fi == skip_ws(fmt, st.fi as int),
{
    assert(at(fmt, st.fi as int) == fmt[st.fi as int]);
    if st.ii < inp.len() {
        assert(at(inp, st.ii as int) == inp[st.ii as int]);
    }
    lemma_skip_ws_bounds(inp, st.ii as int);
    lemma_skip_ws_bounds(fmt, st.fi as int);
}

/// A suppressed integer conversion (`%*d` and the like) reads its field but
/// stores nothing; `%n` stores the count of input bytes read so far and
/// reads nothing.
pub proof fn law_scan_step_suppress_and_count(inp: Seq<u8>, fmt: Seq<u8>, n: int, ii: usize, matched: i32, any_input: bool)
    requires
        fmt.len() >= 3,
        fmt[0] == 37,
        inp.len() <= usize::MAX,
        ii <= inp.len(),
    ensures
        fmt[1] == 110 ==> spec_step(inp, fmt, ScanState { ii, fi: 0, matched, any_input }) == (
            ScanState { ii, fi: 2, matched, any_input },
            ScanActionView::StoreCount(ii as i32),
        ),
        fmt[1] == 42 && (fmt[2] == 100 || fmt[2] == 117) && 1 <= n <= inp.len() && ii == 0 && (forall|k: int|
            0 <= k < n ==> 48 <= #[trigger] inp[k] <= 57) && (n < inp.len() ==> !(48 <= inp[n] <= 57))
            && value_in_base(inp.take(n), 10) < 0x1_0000_0000_0000_0000 ==> spec_step(
            inp,
            fmt,
            ScanState { ii, fi: 0, matched, any_input },
        ) == (ScanState { ii: n as usize, fi: 3, matched, any_input: true }, ScanActionView::Next),
{
    assert(at(fmt, 0) == 37);
    assert(at(fmt, 1) == fmt[1]);
    assert(at(fmt, 2) == fmt[2]);
    if fmt[1] == 110 {
        assert(skip_digits(fmt, 1) == 1);
        assert(skip_mods(fmt, 1) == 1);
    }
    if fmt[1] == 42 && (fmt[2] == 100 || fmt[2] == 117) && 1 <= n <= inp.len() && ii == 0 && (forall|k: int|
        0 <= k < n ==> 48 <= #[trigger] inp[k] <= 57) && (n < inp.len() ==> !(48 <= inp[n] <= 57))
        && value_in_base(inp.take(n), 10) < 0x1_0000_0000_0000_0000 {
        assert(skip_digits(fmt, 2) == 2);
        assert(skip_mods(fmt, 2) == 2);
        assert forall|k: int| 0 <= k < n implies digit_of(#[trigger] inp[k]) < conversion_base(fmt[2]) by {}
        if n < inp.len() {
            assert(digit_of(inp[n]) >= 10);
        }
        law_int_conversion_bases(inp, n, fmt[2], usize::MAX as int);
    }
}

/// `%i` reads the base from the field's prefix: `0x` or `0X` then
/// hexadecimal digits, a leading `0` then octal digits, and otherwise
/// decimal digits; it takes exactly the digits of that base and stores
/// their value (when it fits in 64 bits).
pub proof fn law_int_prefix_bases(inp: Seq<u8>, n: int, cap: int)
    requires
        1 <= n <= inp.len(),
        n <= cap,
    ensures
        n >= 3 && inp[0] == 48 && (inp[1] == 120 || inp[1] == 88) && (forall|k: int|
            2 <= k < n ==> digit_of(#[trigger] inp[k]) < 16) && (n < inp.len() ==> digit_of(inp[n]) >= 16)
            && value_in_base(inp.subrange(2, n), 16) < 0x1_0000_0000_0000_0000 ==> spec_int_field(
            inp,
            0,
            105,
            cap,
        ) == Some((value_in_base(inp.subrange(2, n), 16) as u64, n)),
        inp[0] == 48 && (n < 2 || (inp[1] != 120 && inp[1] != 88)) && (forall|k: int|
            0 <= k < n ==> digit_of(#[trigger] inp[k]) < 8) && (n < inp.len() ==> digit_of(inp[n]) >= 8 && (
        n != 1 || (inp[1] != 120 && inp[1] != 88))) && value_in_base(inp.subrange(0, n), 8)
            < 0x1_0000_0000_0000_0000 ==> spec_int_field(inp, 0, 105, cap) == Some(
            (value_in_base(inp.subrange(0, n), 8) as u64, n),
        ),
        49 <= inp[0] <= 57 && (forall|k: int| 0 <= k < n ==> digit_of(#[trigger] inp[k]) < 10) && (n
            < inp.len() ==> digit_of(inp[n]) >= 10) && value_in_base(inp.subrange(0, n), 10)
            < 0x1_0000_0000_0000_0000 ==> spec_int_field(inp, 0, 105, cap) == Some(
            (value_in_base(inp.subrange(0, n), 10) as u64, n),
        ),
{
    assert(at(inp, 0) == inp[0]);
    if inp.len() > 1 {
        assert(at(inp, 1) == inp[1]);
    }
    if 48 <= inp[0] <= 57 {
        assert(!spec_is_space(inp[0]));
        assert(skip_ws(inp, 0) == 0);
    }
    if n >= 3 && inp[0] == 48 && (inp[1] == 120 || inp[1] == 88) && (forall|k: int|
        2 <= k < n ==> digit_of(#[trigger] inp[k]) < 16) && (n < inp.len() ==> digit_of(inp[n]) >= 16)
        && value_in_base(inp.subrange(2, n), 16) < 0x1_0000_0000_0000_0000 {
        lemma_digit_run_exact(inp, 2, n, 16, cap - 2);
        lemma_digits_value_exact(inp, 2, n, 16);
    }
    if inp[0] == 48 && (n < 2 || (inp[1] != 120 && inp[1] != 88)) && (forall|k: int|
        0 <= k < n ==> digit_of(#[trigger] inp[k]) < 8) && (n < inp.len() ==> digit_of(inp[n]) >= 8 && (
    n != 1 || (inp[1] != 120 && inp[1] != 88))) && value_in_base(inp.subrange(0, n), 8)
        < 0x1_0000_0000_0000_0000 {
        lemma_digit_run_exact(inp, 0, n, 8, cap);
        lemma_digits_value_exact(inp, 0, n, 8);
    }
    if 49 <= inp[0] <= 57 && (forall|k: int| 0 <= k < n ==> digit_of(#[trigger] inp[k]) < 10) && (n
        < inp.len() ==> digit_of(inp[n]) >= 10) && value_in_base(inp.subrange(0, n), 10)
        < 0x1_0000_0000_0000_0000 {
        lemma_digit_run_exact(inp, 0, n, 10, cap);
        lemma_digits_value_exact(inp, 0, n, 10);
    }
}

/// `%%` in a scan format skips white space and then matches a literal
/// `%`: the step moves past it, or stops the scan with the count when the
/// next byte is something else.
pub proof fn law_scan_step_percent(inp: Seq<u8>, fmt: Seq<u8>, a: int, matched: i32, any_input: bool)
    requires
        fmt.len() >= 2,
        fmt[0] == 37,
        fmt[1] == 37,
        0 <= a <= inp.len() <= usize::MAX,
        forall|m: int| 0 <= m < a ==> c_space(#[trigger] inp[m]),
        a < inp.len() ==> !c_space(inp[a]),
    ensures
        a < inp.len() && inp[a] == 37 ==> spec_step(inp, fmt, ScanState { ii: 0, fi: 0, matched, any_input })
            == (ScanState { ii: (a + 1) as usize, fi: 2, matched, any_input }, ScanActionView::Next),
        !(a < inp.len() && inp[a] == 37) ==> spec_step(inp, fmt, ScanState { ii: 0, fi: 0, matched, any_input })
            == (ScanState { ii: 0, fi: 2, matched, any_input }, ScanActionView::Finish(matched)),
{
    assert(at(fmt, 0) == 37);
    assert(at(fmt, 1) == fmt[1]);
    assert(skip_digits(fmt, 1) == 1);
    assert(skip_mods(fmt, 1) == 1);
    lemma_skip_spaces(inp, 0, a);
    if a < inp.len() {
        assert(at(inp, a) == inp[a]);
    }
}

/// The length modifiers of a scan directive name the size it stores: no
/// modifier an `int` (class 0), `h` a `short` (-1), `hh` a `char` (-2),
/// `l` a `long` (1), `ll` a `long long` (2); the conversion character
/// follows them.
pub proof fn law_scan_length_modifiers(fmt: Seq<u8>, m: int)
    requires
        1 <= m <= 3,
        m < fmt.len(),
        forall|k: int| 1 <= k < m ==> (#[trigger] fmt[k] == 104 || fmt[k] == 108),
        m == 3 ==> fmt[1] == fmt[2],
        fmt[m] == 100 || fmt[m] == 117 || fmt[m] == 111 || fmt[m] == 120 || fmt[m] == 88 || fmt[m] == 105,
    ensures
        spec_header(fmt, 1).conv == fmt[m],
        spec_header(fmt, 1).next == m + 1,
        !spec_header(fmt, 1).suppress && spec_header(fmt, 1).width == 0,
        m == 1 ==> spec_header(fmt, 1).len == 0,
        m == 2 && fmt[1] == 104 ==> spec_header(fmt, 1).len == -1,
        m == 3 && fmt[1] == 104 ==> spec_header(fmt, 1).len == -2,
        m == 2 && fmt[1] == 108 ==> spec_header(fmt, 1).len == 1,
        m == 3 && fmt[1] == 108 ==> spec_header(fmt, 1).len == 2,
{
    assert(at(fmt, 1) == fmt[1]);
    assert(skip_digits(fmt, 1) == 1);
    assert(at(fmt, m) == fmt[m]);
    if m == 1 {
        assert(skip_mods(fmt, 1) == 1);
    } else if m == 2 {
        assert(skip_mods(fmt, 2) == 2);
        assert(skip_mods(fmt, 1) == 2);
    } else {
        assert(skip_mods(fmt, 3) == 3);
        assert(skip_mods(fmt, 2) == 3);
        assert(skip_mods(fmt, 1) == 3);
    }
    assert(mods_value(fmt, 1, 1) == 0);
    if m >= 2 {
        assert(mods_value(fmt, 1, 2) == if fmt[1] == 104 { -1i32 } else { 1i32 });
    }
    if m == 3 {
        assert(mods_value(fmt, 1, 3) == if fmt[1] == 104 { -2i32 } else { 2i32 });
    }
}

proof fn lemma_char_run_full(s: Seq<u8>, i: int, cap: int)
    requires
        0 <= i,
        0 <= cap,
        i + cap <= s.len(),
        forall|m: int| i <= m < i + cap ==> #[trigger] s[m] != 0,
    ensures
        char_run(s, i, cap) == cap,
    decreases cap,
{
    if cap > 0 {
        lemma_char_run_full(s, i + 1, cap - 1);
    }
}

/// A field width caps `%c` and `%s`: `%Nc` (a width of one digit, 1 to 9)
/// takes the next `N` bytes as they are when the input holds them, and
/// `%Ns` takes at most `N` bytes of the word that follows the white space.
pub proof fn law_scan_field_widths(inp: Seq<u8>, fmt: Seq<u8>, a: int, b: int, matched: i32, any_input: bool)
    requires
        fmt.len() >= 3,
        fmt[0] == 37,
        49 <= fmt[1] <= 57,
        fmt[2] == 99 || fmt[2] == 115,
        inp.len() <= usize::MAX,
    ensures
        ({
            let w = fmt[1] - 48;
            let st = ScanState { ii: 0, fi: 0, matched, any_input };
            &&& fmt[2] == 99 && w <= inp.len() && (forall|m: int| 0 <= m < w ==> #[trigger] inp[m] != 0)
                ==> spec_step(inp, fmt, st) == (
                ScanState { ii: w as usize, fi: 3, matched, any_input: true },
                ScanActionView::StoreBytes { bytes: inp.subrange(0, w), nul: false, finish: None },
            )
            &&& fmt[2] == 115 && 0 <= a < b <= inp.len() && b - a >= w && (forall|m: int| 0 <= m < a ==> c_space(#[trigger] inp[m]))
                && (forall|m: int| a <= m < b ==> #[trigger] inp[m] != 0 && !c_space(inp[m])) && (a < inp.len()
                ==> !c_space(inp[a])) ==> spec_step(inp, fmt, st) == (
                ScanState { ii: (a + w) as usize, fi: 3, matched, any_input: true },
                ScanActionView::StoreBytes { bytes: inp.subrange(a, a + w), nul: true, finish: None },
            )
        }),
{
    let w = fmt[1] - 48;
    assert(at(fmt, 0) == 37);
    assert(at(fmt, 1) == fmt[1]);
    assert(at(fmt, 2) == fmt[2]);
    assert(skip_digits(fmt, 2) == 2);
    assert(skip_digits(fmt, 1) == 2);
    assert(skip_mods(fmt, 2) == 2);
    assert(decimal_usize(fmt, 1, 1) == 0);
    assert(decimal_usize(fmt, 1, 2) == w);
    if fmt[2] == 99 && w <= inp.len() && (forall|m: int| 0 <= m < w ==> #[trigger] inp[m] != 0) {
        lemma_char_run_full(inp, 0, w as int);
    }
    if fmt[2] == 115 && 0 <= a < b <= inp.len() && b - a >= w && (forall|m: int| 0 <= m < a ==> c_space(#[trigger] inp[m]))
        && (forall|m: int| a <= m < b ==> #[trigger] inp[m] != 0 && !c_space(inp[m])) && (a < inp.len()
        ==> !c_space(inp[a])) {
        lemma_skip_spaces(inp, 0, a);
        lemma_word_run_capped(inp, a, b, w as int);
    }
}

proof fn lemma_word_run_capped(s: Seq<u8>, i: int, b: int, cap: int)
    requires
        0 <= i,
        0 <= cap,
        i + cap <= b <= s.len(),
        forall|m: int| i <= m < b ==> #[trigger] s[m] != 0 && !c_space(s[m]),
    ensures
        word_run(s, i, cap) == cap,
    decreases cap,
{
    if cap > 0 {
        assert(at(s, i) == s[i]);
        lemma_word_run_capped(s, i + 1, b, cap - 1);
    }
}

} // verus!

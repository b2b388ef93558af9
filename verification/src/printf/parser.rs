//! The `printf` format-string parser.
//!
//! A format string is cut at each `%`. The first chunk is literal text. Each
//! later chunk starts a directive: flags, a width, a precision, a length
//! modifier and a conversion character, followed by literal text up to the
//! next `%`. A `%%` directive makes the chunk after it literal as a whole.
//! The parse depends on the format alone: a `*` width or precision only marks
//! where an argument is to be fetched.

use vstd::prelude::*;

use super::{DoubleFormat, Flags, SignedInt, UnsignedInt};

verus! {

/// The byte at `i`, or 0 past the end (a C string's terminator).
pub open spec fn at(s: Seq<u8>, i: int) -> u8 {
    if 0 <= i < s.len() {
        s[i]
    } else {
        0
    }
}

/// The byte at `i`, or 0 past the end.
pub fn byte_at(s: &[u8], i: usize) -> (r: u8)
    ensures
        r == at(s@, i as int),
{
    if i < s.len() {
        s[i]
    } else {
        0
    }
}

pub open spec fn is_flag_char(c: u8) -> bool {
    c == 45 /* - */ || c == 43 /* + */ || c == 32 /* space */ || c == 48 /* 0 */ || c == 39 /* ' */
        || c == 35  /* # */
}

/// The end of the run of flag characters that starts at `i`.
pub open spec fn skip_flags(s: Seq<u8>, i: int) -> int
    decreases s.len() - i,
{
    if 0 <= i < s.len() && is_flag_char(s[i]) {
        skip_flags(s, i + 1)
    } else {
        i
    }
}

/// Some byte of `s[i..end]` is `c`.
pub open spec fn run_has(s: Seq<u8>, i: int, end: int, c: u8) -> bool {
    exists|j: int| i <= j < end && s[j] == c
}

/// The flags named by the flag run that starts at `i`.
pub open spec fn spec_flags(s: Seq<u8>, i: int) -> Flags {
    let e = skip_flags(s, i);
    Flags {
        left_align: run_has(s, i, e, 45),
        prepend_plus: run_has(s, i, e, 43),
        prepend_space: run_has(s, i, e, 32),
        prepend_zero: run_has(s, i, e, 48),
        thousands_grouping: run_has(s, i, e, 39),
        alternate_form: run_has(s, i, e, 35),
    }
}

pub open spec fn is_digit(c: u8) -> bool {
    48 <= c <= 57
}

/// The end of the run of decimal digits that starts at `i`.
pub open spec fn skip_digits(s: Seq<u8>, i: int) -> int
    decreases s.len() - i,
{
    if 0 <= i < s.len() && is_digit(s[i]) {
        skip_digits(s, i + 1)
    } else {
        i
    }
}

/// The decimal value of `s[i..j]` in a C `int`, wrapping on overflow.
pub open spec fn decimal_i32(s: Seq<u8>, i: int, j: int) -> i32
    decreases j - i,
{
    if j <= i {
        0
    } else {
        decimal_i32(s, i, j - 1).wrapping_mul(10).wrapping_add((s[j - 1] - 48) as i32)
    }
}

/// A width or precision: a number written in the format, or `*`, which takes
/// it from the next argument.
#[derive(Debug, Copy, Clone, PartialEq, Eq, Structural)]
pub enum Count {
    Fixed(i32),
    Star,
}

/// The width at `i`, and the index after it.
pub open spec fn spec_width(s: Seq<u8>, i: int) -> (Count, int) {
    if at(s, i) == 42 {
        (Count::Star, i + 1)
    } else {
        let e = skip_digits(s, i);
        (Count::Fixed(decimal_i32(s, i, e)), e)
    }
}

/// The precision at `i` (present when a `.` stands there), and the index
/// after it.
pub open spec fn spec_precision(s: Seq<u8>, i: int) -> (Option<Count>, int) {
    if at(s, i) == 46 {
        let (c, e) = spec_width(s, i + 1);
        (Some(c), e)
    } else {
        (None, i)
    }
}

/// The length modifier of a directive.
#[derive(Debug, Copy, Clone, PartialEq, Eq, Structural)]
pub enum Length {
    Int,
    /// `hh`
    Char,
    /// `h`
    Short,
    /// `l`
    Long,
    /// `ll`
    LongLong,
    /// `z`
    Usize,
    /// `t`
    Isize,
}

/// The length modifier at `i`, and the index after it.
pub open spec fn spec_length(s: Seq<u8>, i: int) -> (Length, int) {
    let c = at(s, i);
    if c == 104 {
        if at(s, i + 1) == 104 {
            (Length::Char, i + 2)
        } else {
            (Length::Short, i + 1)
        }
    } else if c == 108 {
        if at(s, i + 1) == 108 {
            (Length::LongLong, i + 2)
        } else {
            (Length::Long, i + 1)
        }
    } else if c == 122 {
        (Length::Usize, i + 1)
    } else if c == 116 {
        (Length::Isize, i + 1)
    } else {
        (Length::Int, i)
    }
}

/// The conversion of a directive.
#[derive(Debug, Copy, Clone, PartialEq, Eq, Structural)]
pub enum Conversion {
    /// `%`
    Percent,
    /// `d`, `i`
    Int,
    /// `u`
    Uint,
    /// `o`
    Octal,
    /// `x`
    Hex,
    /// `X`
    UpperHex,
    /// `f`, `F`, `e`, `E`, `g`, `G`, `a`, `A`
    Double(DoubleFormat),
    /// `s`
    Str,
    /// `c`
    Char,
    /// `p`
    Pointer,
    /// `n`
    WriteBytesWritten,
}

/// The conversion that a character names, if any.
pub open spec fn conversion_of(c: u8) -> Option<Conversion> {
    if c == 37 {
        Some(Conversion::Percent)
    } else if c == 100 || c == 105 {
        Some(Conversion::Int)
    } else if c == 120 {
        Some(Conversion::Hex)
    } else if c == 88 {
        Some(Conversion::UpperHex)
    } else if c == 117 {
        Some(Conversion::Uint)
    } else if c == 111 {
        Some(Conversion::Octal)
    } else if c == 102 {
        Some(Conversion::Double(DoubleFormat::Normal))
    } else if c == 70 {
        Some(Conversion::Double(DoubleFormat::UpperNormal))
    } else if c == 101 {
        Some(Conversion::Double(DoubleFormat::Scientific))
    } else if c == 69 {
        Some(Conversion::Double(DoubleFormat::UpperScientific))
    } else if c == 103 {
        Some(Conversion::Double(DoubleFormat::Auto))
    } else if c == 71 {
        Some(Conversion::Double(DoubleFormat::UpperAuto))
    } else if c == 97 {
        Some(Conversion::Double(DoubleFormat::Hex))
    } else if c == 65 {
        Some(Conversion::Double(DoubleFormat::UpperHex))
    } else if c == 115 {
        Some(Conversion::Str)
    } else if c == 99 {
        Some(Conversion::Char)
    } else if c == 112 {
        Some(Conversion::Pointer)
    } else if c == 110 {
        Some(Conversion::WriteBytesWritten)
    } else {
        None
    }
}

/// One parsed directive.
#[derive(Debug, Copy, Clone, PartialEq, Eq, Structural)]
pub struct Directive {
    pub flags: Flags,
    pub width: Count,
    pub precision: Option<Count>,
    pub length: Length,
    pub conversion: Conversion,
}

/// The directive whose fields start at `i` (just after its `%`), if its
/// conversion character is known, and the index of that character.
pub open spec fn spec_directive(s: Seq<u8>, i: int) -> (Option<Directive>, int) {
    let f = spec_flags(s, i);
    let i1 = skip_flags(s, i);
    let (w, i2) = spec_width(s, i1);
    let (p, i3) = spec_precision(s, i2);
    let (l, k) = spec_length(s, i3);
    match conversion_of(at(s, k)) {
        Some(c) => (
            Some(Directive { flags: f, width: w, precision: p, length: l, conversion: c }),
            k,
        ),
        None => (None, k),
    }
}

/// A piece of a parsed format: literal bytes `format[start..end]`, a
/// directive, or an unknown conversion, which ends the parse.
#[derive(Debug, Copy, Clone, PartialEq, Eq, Structural)]
pub enum Piece {
    Text { start: usize, end: usize },
    Directive(Directive),
    Invalid,
}

/// The end of the chunk that starts at `i`: the next `%`, or the end.
pub open spec fn chunk_end(s: Seq<u8>, i: int) -> int
    decreases s.len() - i,
{
    if 0 <= i < s.len() && s[i] != 37 {
        chunk_end(s, i + 1)
    } else {
        i
    }
}

/// The pieces of the chunks from `i` on, where `i` follows a `%`;
/// `literal` holds when the previous directive was `%%`.
pub open spec fn pieces_from(s: Seq<u8>, i: int, literal: bool) -> Seq<Piece>
    decreases s.len() - i,
{
    if !(0 <= i <= s.len()) {
        Seq::empty()
    } else {
        let e = chunk_end(s, i);
        let rest = if e < s.len() {
            proof {
                lemma_chunk_end_bounds(s, i);
            }
            pieces_from(s, e + 1, literal_next(s, i, literal))
        } else {
            Seq::empty()
        };
        if literal {
            seq![Piece::Text { start: i as usize, end: e as usize }] + rest
        } else {
            let (d, k) = spec_directive(s, i);
            match d {
                None => seq![Piece::Invalid],
                Some(d) => if d.conversion == Conversion::Percent {
                    seq![Piece::Directive(d), Piece::Text { start: k as usize, end: k as usize }]
                        + rest
                } else {
                    seq![Piece::Directive(d), Piece::Text { start: (k + 1) as usize, end: e as usize }]
                        + rest
                },
            }
        }
    }
}

/// Whether the chunk after the one at `i` is literal.
pub open spec fn literal_next(s: Seq<u8>, i: int, literal: bool) -> bool {
    !literal && match spec_directive(s, i).0 {
        Some(d) => d.conversion == Conversion::Percent,
        None => false,
    }
}

/// The pieces of a whole format string.
pub open spec fn format_pieces(s: Seq<u8>) -> Seq<Piece> {
    let e = chunk_end(s, 0);
    seq![Piece::Text { start: 0, end: e as usize }] + if e < s.len() {
        pieces_from(s, e + 1, false)
    } else {
        Seq::empty()
    }
}

proof fn lemma_skip_flags_bounds(s: Seq<u8>, i: int)
    requires
        0 <= i <= s.len(),
    ensures
        i <= skip_flags(s, i) <= s.len(),
        forall|m: int| i <= m < skip_flags(s, i) ==> is_flag_char(#[trigger] s[m]),
    decreases s.len() - i,
{
    if i < s.len() && is_flag_char(s[i]) {
        lemma_skip_flags_bounds(s, i + 1);
    }
}

proof fn lemma_skip_digits_bounds(s: Seq<u8>, i: int)
    requires
        0 <= i <= s.len(),
    ensures
        i <= skip_digits(s, i) <= s.len(),
        forall|m: int| i <= m < skip_digits(s, i) ==> is_digit(#[trigger] s[m]),
    decreases s.len() - i,
{
    if i < s.len() && is_digit(s[i]) {
        lemma_skip_digits_bounds(s, i + 1);
    }
}

pub proof fn lemma_chunk_end_bounds(s: Seq<u8>, i: int)
    requires
        0 <= i <= s.len(),
    ensures
        i <= chunk_end(s, i) <= s.len(),
        chunk_end(s, i) < s.len() ==> s[chunk_end(s, i)] == 37,
        forall|j: int| i <= j < chunk_end(s, i) ==> s[j] != 37,
    decreases s.len() - i,
{
    if i < s.len() && s[i] != 37 {
        lemma_chunk_end_bounds(s, i + 1);
    }
}

/// The index just past `i` within a slice, clamped to its end.
fn next_char(s: &[u8], i: usize) -> (r: usize)
    requires
        i <= s.len(),
    ensures
        r == if i < s.len() { i + 1 } else { i as int },
{
    if i < s.len() {
        i + 1
    } else {
        i
    }
}

/// `c` is a flag character.
fn is_flag(c: u8) -> (r: bool)
    ensures
        r == is_flag_char(c),
{
    c == 45 || c == 43 || c == 32 || c == 48 || c == 39 || c == 35
}

/// Parse the flags field that starts at `i`.
fn parse_flags(s: &[u8], i: usize) -> (r: (Flags, usize))
    requires
        i <= s.len(),
    ensures
        r.0 == spec_flags(s@, i as int),
        r.1 == skip_flags(s@, i as int),
{
    let mut flags = Flags::empty();
    let mut j = i;
    while j < s.len() && is_flag(s[j])
        invariant
            i <= j <= s.len(),
            skip_flags(s@, j as int) == skip_flags(s@, i as int),
            flags.left_align == run_has(s@, i as int, j as int, 45),
            flags.prepend_plus == run_has(s@, i as int, j as int, 43),
            flags.prepend_space == run_has(s@, i as int, j as int, 32),
            flags.prepend_zero == run_has(s@, i as int, j as int, 48),
            flags.thousands_grouping == run_has(s@, i as int, j as int, 39),
            flags.alternate_form == run_has(s@, i as int, j as int, 35),
        decreases s.len() - j,
    {
        let ch = s[j];
        if ch == 45 {
            flags.left_align = true;
        } else if ch == 43 {
            flags.prepend_plus = true;
        } else if ch == 32 {
            flags.prepend_space = true;
        } else if ch == 48 {
            flags.prepend_zero = true;
        } else if ch == 39 {
            flags.thousands_grouping = true;
        } else {
            flags.alternate_form = true;
        }
        proof {
            assert forall|c: u8| run_has(s@, i as int, j + 1, c) == (run_has(s@, i as int, j as int, c) || s@[j as int] == c) by {
                if run_has(s@, i as int, j + 1, c) && !run_has(s@, i as int, j as int, c) {
                    let w = choose|w: int| i <= w < j + 1 && s@[w] == c;
                    assert(w == j);
                }
                if s@[j as int] == c {
                    assert(i <= j < j + 1 && s@[j as int] == c);
                }
            }
        }
        j = j + 1;
    }
    (flags, j)
}

/// Parse a width (a `*` or a run of digits) that starts at `i`.
fn parse_width(s: &[u8], i: usize) -> (r: (Count, usize))
    requires
        i <= s.len(),
    ensures
        (r.0, r.1 as int) == spec_width(s@, i as int),
        r.1 <= s.len(),
{
    if byte_at(s, i) == 42 {
        return (Count::Star, next_char(s, i));
    }
    let mut width: i32 = 0;
    let mut j = i;
    while j < s.len() && 48 <= s[j] && s[j] <= 57
        invariant
            i <= j <= s.len(),
            skip_digits(s@, j as int) == skip_digits(s@, i as int),
            width == decimal_i32(s@, i as int, j as int),
        decreases s.len() - j,
    {
        let ch = s[j];
        width = width.wrapping_mul(10).wrapping_add((ch - 48) as i32);
        j = j + 1;
    }
    (Count::Fixed(width), j)
}

/// Parse a precision (a `.` and a width) that starts at `i`, if present.
fn parse_precision(s: &[u8], i: usize) -> (r: (Option<Count>, usize))
    requires
        i <= s.len(),
    ensures
        (r.0, r.1 as int) == spec_precision(s@, i as int),
        r.1 <= s.len(),
{
    if byte_at(s, i) == 46 {
        let (prec, j) = parse_width(s, next_char(s, i));
        (Some(prec), j)
    } else {
        (None, i)
    }
}

/// Parse a length modifier that starts at `i`.
fn parse_length(s: &[u8], i: usize) -> (r: (Length, usize))
    requires
        i <= s.len(),
    ensures
        (r.0, r.1 as int) == spec_length(s@, i as int),
        r.1 <= s.len(),
{
    let c = byte_at(s, i);
    if c == 104 {
        if byte_at(s, i + 1) == 104 {
            (Length::Char, i + 2)
        } else {
            (Length::Short, i + 1)
        }
    } else if c == 108 {
        if byte_at(s, i + 1) == 108 {
            (Length::LongLong, i + 2)
        } else {
            (Length::Long, i + 1)
        }
    } else if c == 122 {
        (Length::Usize, i + 1)
    } else if c == 116 {
        (Length::Isize, i + 1)
    } else {
        (Length::Int, i)
    }
}

/// The conversion named by `c`, if any.
fn conversion(c: u8) -> (r: Option<Conversion>)
    ensures
        r == conversion_of(c),
{
    if c == 37 {
        Some(Conversion::Percent)
    } else if c == 100 || c == 105 {
        Some(Conversion::Int)
    } else if c == 120 {
        Some(Conversion::Hex)
    } else if c == 88 {
        Some(Conversion::UpperHex)
    } else if c == 117 {
        Some(Conversion::Uint)
    } else if c == 111 {
        Some(Conversion::Octal)
    } else if c == 102 || c == 70 {
        Some(Conversion::Double(DoubleFormat::Normal.set_upper(c == 70)))
    } else if c == 101 || c == 69 {
        Some(Conversion::Double(DoubleFormat::Scientific.set_upper(c == 69)))
    } else if c == 103 || c == 71 {
        Some(Conversion::Double(DoubleFormat::Auto.set_upper(c == 71)))
    } else if c == 97 || c == 65 {
        Some(Conversion::Double(DoubleFormat::Hex.set_upper(c == 65)))
    } else if c == 115 {
        Some(Conversion::Str)
    } else if c == 99 {
        Some(Conversion::Char)
    } else if c == 112 {
        Some(Conversion::Pointer)
    } else if c == 110 {
        Some(Conversion::WriteBytesWritten)
    } else {
        None
    }
}

/// Parse the directive whose fields start at `i`.
fn parse_directive(s: &[u8], i: usize) -> (r: (Option<Directive>, usize))
    requires
        i <= s.len(),
    ensures
        (r.0, r.1 as int) == spec_directive(s@, i as int),
        r.1 <= s.len(),
{
    let (flags, i1) = parse_flags(s, i);
    proof {
        lemma_skip_flags_bounds(s@, i as int);
    }
    let (width, i2) = parse_width(s, i1);
    let (precision, i3) = parse_precision(s, i2);
    let (length, k) = parse_length(s, i3);
    match conversion(byte_at(s, k)) {
        Some(conversion) => (Some(Directive { flags, width, precision, length, conversion }), k),
        None => (None, k),
    }
}

/// The end of the chunk that starts at `i`.
fn find_chunk_end(s: &[u8], i: usize) -> (r: usize)
    requires
        i <= s.len(),
    ensures
        r == chunk_end(s@, i as int),
{
    let mut j = i;
    while j < s.len() && s[j] != 37
        invariant
            i <= j <= s.len(),
            chunk_end(s@, j as int) == chunk_end(s@, i as int),
        decreases s.len() - j,
    {
        j = j + 1;
    }
    j
}

/// Parse a whole format string into its pieces, in the order in which a
/// formatter handles them (and fetches their arguments).
pub fn parse_format(s: &[u8]) -> (r: Vec<Piece>)
    ensures
        r@ == format_pieces(s@),
        forall|n: int| 0 <= n < r.len() ==> (#[trigger] r@[n] matches Piece::Text { start, end }
            ==> start <= end <= s.len()),
{
    proof {
        assert(s@.len() == s.len());
        law_text_pieces_in_bounds(s@);
    }
    let mut out: Vec<Piece> = Vec::new();
    let e0 = find_chunk_end(s, 0);
    proof {
        lemma_chunk_end_bounds(s@, 0);
    }
    out.push(Piece::Text { start: 0, end: e0 });
    if e0 == s.len() {
        return out;
    }
    let mut pos = e0 + 1;
    let mut literal = false;
    loop
        invariant
            0 < pos <= s.len(),
            format_pieces(s@) == out@ + pieces_from(s@, pos as int, literal),
            forall|n: int| 0 <= n < format_pieces(s@).len() ==> (#[trigger] format_pieces(s@)[n] matches Piece::Text {
                start,
                end,
            } ==> start <= end <= s.len()),
        decreases s.len() - pos,
    {
        let e = find_chunk_end(s, pos);
        proof {
            lemma_chunk_end_bounds(s@, pos as int);
        }
        let ghost before = out@;
        let next_literal;
        if literal {
            out.push(Piece::Text { start: pos, end: e });
            next_literal = false;
        } else {
            let (d, k) = parse_directive(s, pos);
            match d {
                None => {
                    out.push(Piece::Invalid);
                    return out;
                },
                Some(d) => {
                    out.push(Piece::Directive(d));
                    if d.conversion == Conversion::Percent {
                        out.push(Piece::Text { start: k, end: k });
                        next_literal = true;
                    } else {
                        out.push(Piece::Text { start: next_char(s, k), end: e });
                        next_literal = false;
                    }
                },
            }
        }
        assert(next_literal == literal_next(s@, pos as int, literal));
        if e == s.len() {
            return out;
        }
        pos = e + 1;
        literal = next_literal;
    }
}


/// The C type of an argument as the variadic call passed it.
#[derive(Debug, Copy, Clone, PartialEq, Eq, Structural)]
pub enum ArgType {
    /// `int` (and the `char`/`short` promotions to it).
    Int,
    /// `long`
    Long,
    /// `long long`
    LongLong,
    /// `ssize_t`/`size_t`
    Size,
    /// `double` (and the `float` promotion to it).
    Double,
    /// A pointer.
    Pointer,
}

/// The type an integer conversion with length modifier `l` fetches.
pub open spec fn int_arg(l: Length) -> ArgType {
    match l {
        Length::Int | Length::Char | Length::Short => ArgType::Int,
        Length::Long => ArgType::Long,
        Length::LongLong => ArgType::LongLong,
        Length::Usize | Length::Isize => ArgType::Size,
    }
}

/// The arguments a directive fetches, in order: a `*` width, a `*`
/// precision, then its value (none for `%%`).
pub open spec fn spec_fetches(d: Directive) -> Seq<ArgType> {
    let w: Seq<ArgType> = if d.width == Count::Star {
        seq![ArgType::Int]
    } else {
        Seq::empty()
    };
    let p: Seq<ArgType> = if d.precision == Some(Count::Star) {
        seq![ArgType::Int]
    } else {
        Seq::empty()
    };
    let v: Seq<ArgType> = match d.conversion {
        Conversion::Percent => Seq::empty(),
        Conversion::Int | Conversion::Uint | Conversion::Octal | Conversion::Hex
        | Conversion::UpperHex => seq![int_arg(d.length)],
        Conversion::Double(_) => seq![ArgType::Double],
        Conversion::Char => seq![ArgType::Int],
        Conversion::Str | Conversion::Pointer | Conversion::WriteBytesWritten => seq![ArgType::Pointer],
    };
    w + p + v
}

impl Directive {
    /// The arguments this directive fetches, in the order the formatter
    /// fetches them.
    pub fn fetches(&self) -> (r: Vec<ArgType>)
        ensures
            r@ == spec_fetches(*self),
    {
        let mut r: Vec<ArgType> = Vec::new();
        if self.width == Count::Star {
            r.push(ArgType::Int);
        }
        if self.precision == Some(Count::Star) {
            r.push(ArgType::Int);
        }
        match self.conversion {
            Conversion::Percent => {},
            Conversion::Int | Conversion::Uint | Conversion::Octal | Conversion::Hex
            | Conversion::UpperHex => r.push(self.length.arg_type()),
            Conversion::Double(_) => r.push(ArgType::Double),
            Conversion::Char => r.push(ArgType::Int),
            Conversion::Str | Conversion::Pointer | Conversion::WriteBytesWritten => r.push(ArgType::Pointer),
        }
        proof {
            assert(r@ =~= spec_fetches(*self));
        }
        r
    }
}

impl Length {
    /// The type to fetch for an integer conversion with this modifier.
    pub fn arg_type(self) -> (r: ArgType)
        ensures
            r == int_arg(self),
    {
        match self {
            Length::Int | Length::Char | Length::Short => ArgType::Int,
            Length::Long => ArgType::Long,
            Length::LongLong => ArgType::LongLong,
            Length::Usize | Length::Isize => ArgType::Size,
        }
    }

    /// The signed argument for this modifier from the fetched value `raw`
    /// (widened to 64 bits): `hh` and `h` keep the low 8 and 16 bits of the
    /// promoted `int`.
    pub fn parse_signed(self, raw: i64) -> (r: SignedInt)
        ensures
            r == match self {
                Length::Int => SignedInt::Int(raw as i32),
                Length::Char => SignedInt::Char(raw as i32 as i8),
                Length::Short => SignedInt::Short(raw as i32 as i16),
                Length::Long => SignedInt::Long(raw),
                Length::LongLong => SignedInt::LongLong(raw),
                Length::Usize | Length::Isize => SignedInt::Isize(raw as isize),
            },
    {
        match self {
            Length::Int => SignedInt::Int(raw as i32),
            Length::Char => SignedInt::Char(raw as i32 as i8),
            Length::Short => SignedInt::Short(raw as i32 as i16),
            Length::Long => SignedInt::Long(raw),
            Length::LongLong => SignedInt::LongLong(raw),
            Length::Usize | Length::Isize => SignedInt::Isize(raw as isize),
        }
    }

    /// The unsigned argument for this modifier from the fetched value `raw`
    /// (widened to 64 bits): `hh` and `h` keep the low 8 and 16 bits of the
    /// promoted `unsigned int`.
    pub fn parse_unsigned(self, raw: u64) -> (r: UnsignedInt)
        ensures
            r == match self {
                Length::Int => UnsignedInt::Int(raw as u32),
                Length::Char => UnsignedInt::Char(raw as u32 as u8),
                Length::Short => UnsignedInt::Short(raw as u32 as u16),
                Length::Long => UnsignedInt::Long(raw),
                Length::LongLong => UnsignedInt::LongLong(raw),
                Length::Usize | Length::Isize => UnsignedInt::Isize(raw as usize),
            },
    {
        match self {
            Length::Int => UnsignedInt::Int(raw as u32),
            Length::Char => UnsignedInt::Char(raw as u32 as u8),
            Length::Short => UnsignedInt::Short(raw as u32 as u16),
            Length::Long => UnsignedInt::Long(raw),
            Length::LongLong => UnsignedInt::LongLong(raw),
            Length::Usize | Length::Isize => UnsignedInt::Isize(raw as usize),
        }
    }
}

/// The character of a `%c` conversion: the low byte of the promoted `int`.
pub fn char_arg(raw: i32) -> (r: i8)
    ensures
        r == raw as i8,
{
    raw as i8
}

/// The text `%s` prints for a null pointer, as glibc and musl do: `(null)`.
pub open spec fn null_text() -> Seq<u8> {
    seq![40u8, 110u8, 117u8, 108u8, 108u8, 41u8]
}

/// What a `%s` conversion prints in place of its pointer: `Some` of
/// [`null_text`] when the pointer is null, `None` when it is not (the C
/// string it points at is printed).
pub fn string_arg_text(is_null: bool) -> (r: Option<Vec<u8>>)
    ensures
        is_null <==> r is Some,
        r matches Some(t) ==> t@ == null_text(),
{
    if is_null {
        let mut t: Vec<u8> = Vec::new();
        t.push(40);
        t.push(110);
        t.push(117);
        t.push(108);
        t.push(108);
        t.push(41);
        assert(t@ =~= null_text());
        Some(t)
    } else {
        None
    }
}

/// The count of bytes a formatter has written, and whether a handler
/// failed.
#[derive(Debug, Copy, Clone, PartialEq, Eq, Structural)]
pub struct Tally {
    pub written: i32,
}

impl Tally {
    /// Nothing written yet.
    pub fn new() -> (r: Tally)
        ensures
            r.written == 0,
    {
        Tally { written: 0 }
    }

    /// Take a handler's result: a negative one fails the whole format
    /// (`false`, and the format returns -1); any other adds to the count,
    /// wrapping as a C `int` in the release build.
    pub fn add(&mut self, res: i32) -> (r: bool)
        ensures
            r == tally_after(old(self).written, res) is Some,
            r ==> Some(final(self).written) == tally_after(old(self).written, res),
            !r ==> *final(self) == *old(self),
    {
        if res < 0 {
            false
        } else {
            self.written = self.written.wrapping_add(res);
            true
        }
    }
}

/// The count after a handler answers `res`, from `written`: `None` when the
/// answer is negative and the format fails, else the count grown by the
/// answer, wrapping as a C `int`.
pub open spec fn tally_after(written: i32, res: i32) -> Option<i32> {
    if res < 0 {
        None
    } else {
        Some(written.wrapping_add(res))
    }
}

/// The count after a run of handler answers, taken in order from nothing
/// written: `None` once one of them was negative.
pub open spec fn run_tally(answers: Seq<i32>) -> Option<i32>
    decreases answers.len(),
{
    if answers.len() == 0 {
        Some(0i32)
    } else {
        match run_tally(answers.drop_last()) {
            Some(w) => tally_after(w, answers.last()),
            None => None,
        }
    }
}

/// The plain sum of the handler answers.
pub open spec fn answer_sum(answers: Seq<i32>) -> int
    decreases answers.len(),
{
    if answers.len() == 0 {
        0
    } else {
        answer_sum(answers.drop_last()) + answers.last()
    }
}

proof fn lemma_failed_run_stays_failed(answers: Seq<i32>, j: int, k: int)
    requires
        0 <= j < k <= answers.len(),
        answers[j] < 0,
    ensures
        run_tally(answers.take(k)) is None,
    decreases k,
{
    let p = answers.take(k);
    assert(p.drop_last() =~= answers.take(k - 1));
    if k - 1 > j {
        lemma_failed_run_stays_failed(answers, j, k - 1);
    } else {
        assert(p.last() == answers[j]);
    }
}

proof fn lemma_run_goes_on(answers: Seq<i32>, k: int)
    requires
        0 <= k <= answers.len(),
        forall|i: int| 0 <= i < k ==> answers[i] >= 0,
    ensures
        run_tally(answers.take(k)) is Some,
    decreases k,
{
    if k > 0 {
        let p = answers.take(k);
        assert(p.drop_last() =~= answers.take(k - 1));
        lemma_run_goes_on(answers, k - 1);
        assert(p.last() == answers[k - 1]);
    }
}

proof fn lemma_run_is_sum(answers: Seq<i32>)
    requires
        forall|i: int| 0 <= i < answers.len() ==> answers[i] >= 0,
        answer_sum(answers) <= i32::MAX,
    ensures
        answer_sum(answers) >= 0,
        run_tally(answers) == Some(answer_sum(answers) as i32),
    decreases answers.len(),
{
    if answers.len() > 0 {
        let d = answers.drop_last();
        assert forall|i: int| 0 <= i < d.len() implies d[i] >= 0 by {
            assert(d[i] == answers[i]);
        }
        assert(answers.last() == answers[answers.len() - 1]);
        lemma_run_is_sum(d);
    }
}

/// A format run fails at the first negative handler answer: while the
/// answers before it are all non-negative the run goes on, and once the
/// `j`-th answer is negative the run's result is -1 whatever the answers
/// after it, so no handler call after it can change it.
pub proof fn law_run_fails_at_first_negative(answers: Seq<i32>, j: int)
    requires
        0 <= j < answers.len(),
        answers[j] < 0,
        forall|i: int| 0 <= i < j ==> answers[i] >= 0,
    ensures
        forall|k: int| 0 <= k <= j ==> #[trigger] run_tally(answers.take(k)) is Some,
        forall|k: int| j < k <= answers.len() ==> #[trigger] run_tally(answers.take(k)) is None,
{
    assert forall|k: int| 0 <= k <= j implies #[trigger] run_tally(answers.take(k)) is Some by {
        lemma_run_goes_on(answers, k);
    }
    assert forall|k: int| j < k <= answers.len() implies #[trigger] run_tally(
        answers.take(k),
    ) is None by {
        lemma_failed_run_stays_failed(answers, j, k);
    }
}

/// A format run whose handler answers are all non-negative, and whose sum
/// fits in a C `int`, returns that sum; and before each call the count
/// (what a `%n` directive is handed) is the sum of the answers before it.
pub proof fn law_run_sums_answers(answers: Seq<i32>)
    requires
        forall|i: int| 0 <= i < answers.len() ==> answers[i] >= 0,
        answer_sum(answers) <= i32::MAX,
    ensures
        run_tally(answers) == Some(answer_sum(answers) as i32),
        forall|k: int|
            0 <= k <= answers.len() ==> #[trigger] run_tally(answers.take(k)) == Some(
                answer_sum(answers.take(k)) as i32,
            ),
{
    lemma_run_is_sum(answers);
    assert forall|k: int| 0 <= k <= answers.len() implies #[trigger] run_tally(answers.take(k))
        == Some(answer_sum(answers.take(k)) as i32) by {
        lemma_prefix_sum_bounded(answers, k);
        let p = answers.take(k);
        assert forall|i: int| 0 <= i < p.len() implies p[i] >= 0 by {
            assert(p[i] == answers[i]);
        }
        lemma_run_is_sum(p);
    }
}

proof fn lemma_prefix_sum_bounded(answers: Seq<i32>, k: int)
    requires
        0 <= k <= answers.len(),
        forall|i: int| 0 <= i < answers.len() ==> answers[i] >= 0,
    ensures
        answer_sum(answers.take(k)) <= answer_sum(answers),
    decreases answers.len(),
{
    if k < answers.len() {
        let d = answers.drop_last();
        assert(d.take(k) =~= answers.take(k));
        assert forall|i: int| 0 <= i < d.len() implies d[i] >= 0 by {
            assert(d[i] == answers[i]);
        }
        assert(answers.last() == answers[answers.len() - 1]);
        lemma_prefix_sum_bounded(d, k);
    } else {
        assert(answers.take(k) =~= answers);
    }
}


proof fn lemma_width_no_percent(s: Seq<u8>, i: int)
    requires
        0 <= i <= s.len(),
    ensures
        i <= spec_width(s, i).1 <= s.len(),
        forall|m: int| i <= m < spec_width(s, i).1 ==> #[trigger] s[m] != 37,
{
    if at(s, i) != 42 {
        lemma_skip_digits_bounds(s, i);
        assert forall|m: int| i <= m < spec_width(s, i).1 implies #[trigger] s[m] != 37 by {
            assert(is_digit(s[m]));
        }
    }
}

/// The bytes of a known directive, from `i` to its conversion character,
/// all lie in the format, and none but a `%%` conversion is a `%`.
proof fn lemma_directive_no_percent(s: Seq<u8>, i: int)
    requires
        0 <= i <= s.len(),
    ensures
        spec_directive(s, i).0 is Some ==> i <= spec_directive(s, i).1 < s.len(),
        spec_directive(s, i).0 is Some ==> forall|m: int|
            i <= m < spec_directive(s, i).1 ==> #[trigger] s[m] != 37,
{
    lemma_skip_flags_bounds(s, i);
    let i1 = skip_flags(s, i);
    assert forall|m: int| i <= m < i1 implies #[trigger] s[m] != 37 by {
        assert(is_flag_char(s[m]));
    }
    lemma_width_no_percent(s, i1);
    let i2 = spec_width(s, i1).1;
    if at(s, i2) == 46 {
        lemma_width_no_percent(s, i2 + 1);
    }
    let i3 = spec_precision(s, i2).1;
    let k = spec_length(s, i3).1;
    assert(forall|m: int| i <= m < i3 ==> #[trigger] s[m] != 37);
    assert(forall|m: int| i3 <= m < k ==> #[trigger] s[m] != 37);
}

proof fn lemma_pieces_in_bounds(s: Seq<u8>, i: int, literal: bool)
    requires
        0 <= i <= s.len(),
        s.len() <= usize::MAX,
    ensures
        forall|n: int| 0 <= n < pieces_from(s, i, literal).len() ==> (#[trigger] pieces_from(
            s,
            i,
            literal,
        )[n] matches Piece::Text { start, end } ==> start <= end <= s.len()),
    decreases s.len() - i,
{
    lemma_chunk_end_bounds(s, i);
    let e = chunk_end(s, i);
    if e < s.len() {
        lemma_pieces_in_bounds(s, e + 1, literal_next(s, i, literal));
    }
    if !literal {
        lemma_directive_no_percent(s, i);
    }
    let ps = pieces_from(s, i, literal);
    let rest = if e < s.len() {
        pieces_from(s, e + 1, literal_next(s, i, literal))
    } else {
        Seq::empty()
    };
    assert forall|n: int| 0 <= n < ps.len() implies (#[trigger] ps[n] matches Piece::Text {
        start,
        end,
    } ==> start <= end <= s.len()) by {
        if literal {
            if n >= 1 {
                assert(ps[n] == rest[n - 1]);
            }
        } else {
            let (d, k) = spec_directive(s, i);
            if let Some(dd) = d {
                if n >= 2 {
                    assert(ps[n] == rest[n - 2]);
                } else if n == 1 && dd.conversion != Conversion::Percent {
                    assert(k < e);
                }
            }
        }
    }
}

/// Every literal piece of a parsed format lies within the format: its
/// start is at most its end, and its end at most the format's length.
pub proof fn law_text_pieces_in_bounds(s: Seq<u8>)
    requires
        s.len() <= usize::MAX,
    ensures
        forall|n: int| 0 <= n < format_pieces(s).len() ==> (#[trigger] format_pieces(s)[n] matches Piece::Text {
            start,
            end,
        } ==> start <= end <= s.len()),
{
    lemma_chunk_end_bounds(s, 0);
    let e = chunk_end(s, 0);
    if e < s.len() {
        lemma_pieces_in_bounds(s, e + 1, false);
    }
    let ps = format_pieces(s);
    assert forall|n: int| 0 <= n < ps.len() implies (#[trigger] ps[n] matches Piece::Text {
        start,
        end,
    } ==> start <= end <= s.len()) by {
        if n >= 1 {
            assert(ps[n] == pieces_from(s, e + 1, false)[n - 1]);
        }
    }
}

/// The piece is literal text that starts at or after `i`, or no text.
pub open spec fn text_from(p: Piece, i: int) -> bool {
    match p {
        Piece::Text { start, end } => i <= start,
        _ => true,
    }
}

/// The piece is literal text that ends at or before `e`, or no text.
pub open spec fn text_ends_by(p: Piece, e: int) -> bool {
    match p {
        Piece::Text { start, end } => end <= e,
        _ => true,
    }
}

/// Literal piece `a` ends at or before literal piece `b` starts.
pub open spec fn text_before(a: Piece, b: Piece) -> bool {
    match (a, b) {
        (Piece::Text { end, .. }, Piece::Text { start, .. }) => end <= start,
        _ => true,
    }
}

proof fn lemma_pieces_ordered(s: Seq<u8>, i: int, literal: bool)
    requires
        0 <= i <= s.len(),
        s.len() <= usize::MAX,
    ensures
        forall|n: int| 0 <= n < pieces_from(s, i, literal).len() ==> text_from(
            #[trigger] pieces_from(s, i, literal)[n],
            i,
        ),
        forall|a: int, b: int|
            0 <= a < b < pieces_from(s, i, literal).len() ==> text_before(
                #[trigger] pieces_from(s, i, literal)[a],
                #[trigger] pieces_from(s, i, literal)[b],
            ),
    decreases s.len() - i,
{
    lemma_chunk_end_bounds(s, i);
    let e = chunk_end(s, i);
    let rest = if e < s.len() {
        pieces_from(s, e + 1, literal_next(s, i, literal))
    } else {
        Seq::empty()
    };
    if e < s.len() {
        lemma_pieces_ordered(s, e + 1, literal_next(s, i, literal));
    }
    if !literal {
        lemma_directive_no_percent(s, i);
    }
    let ps = pieces_from(s, i, literal);
    let h: int = if literal {
        1
    } else {
        match spec_directive(s, i).0 {
            Some(_) => 2,
            None => 1,
        }
    };
    assert forall|n: int| 0 <= n < ps.len() implies text_from(#[trigger] ps[n], i) && (n >= h ==> ps[n]
        == rest[n - h]) && (n < h ==> text_ends_by(ps[n], e)) by {
        if n >= h {
            assert(ps[n] == rest[n - h]);
        }
    }
    assert forall|a: int, b: int| 0 <= a < b < ps.len() implies text_before(
        #[trigger] ps[a],
        #[trigger] ps[b],
    ) by {
        if b >= h && a >= h {
            assert(rest[a - h] == ps[a] && rest[b - h] == ps[b]);
        } else if b >= h {
            assert(text_from(rest[b - h], e + 1));
        }
    }
}

/// The literal pieces of a parsed format come in the order of the format
/// and do not overlap: each ends at or before the next one starts.
pub proof fn law_text_pieces_ordered(s: Seq<u8>)
    requires
        s.len() <= usize::MAX,
    ensures
        forall|a: int, b: int|
            0 <= a < b < format_pieces(s).len() ==> text_before(
                #[trigger] format_pieces(s)[a],
                #[trigger] format_pieces(s)[b],
            ),
{
    lemma_chunk_end_bounds(s, 0);
    let e = chunk_end(s, 0);
    let ps = format_pieces(s);
    if e < s.len() {
        lemma_pieces_ordered(s, e + 1, false);
        let rest = pieces_from(s, e + 1, false);
        assert forall|a: int, b: int| 0 <= a < b < ps.len() implies text_before(
            #[trigger] ps[a],
            #[trigger] ps[b],
        ) by {
            assert(ps[b] == rest[b - 1]);
            if a >= 1 {
                assert(ps[a] == rest[a - 1]);
            } else {
                assert(text_from(rest[b - 1], e + 1));
            }
        }
    }
}

/// A format with no `%` is one literal piece: the whole format.
pub proof fn law_plain_format_is_literal(s: Seq<u8>)
    requires
        !s.contains(37),
    ensures
        format_pieces(s) == seq![Piece::Text { start: 0, end: s.len() as usize }],
{
    lemma_chunk_end_bounds(s, 0);
    if chunk_end(s, 0) < s.len() {
        assert(s[chunk_end(s, 0)] == 37);
        assert(s.contains(37));
    }
    assert(format_pieces(s) =~= seq![Piece::Text { start: 0, end: s.len() as usize }]);
}

proof fn lemma_flag_run_ends(s: Seq<u8>, i: int, e: int)
    requires
        0 <= i <= e <= s.len(),
        forall|m: int| i <= m < e ==> is_flag_char(#[trigger] s[m]),
        e < s.len() ==> !is_flag_char(s[e]),
    ensures
        skip_flags(s, i) == e,
    decreases e - i,
{
    if i < e {
        lemma_flag_run_ends(s, i + 1, e);
    }
}

/// A format that starts with a directive made of a flag run `s[1..e]` and
/// a conversion character parses, after its empty leading text, into that
/// directive: each flag character sets its own flag (`-` left alignment,
/// `+` a plus sign, a space a leading space, `0` zero padding, `'`
/// grouping, `#` the alternate form), there is no width, precision or
/// length modifier, and the character names the conversion.
pub proof fn law_flag_characters(s: Seq<u8>, e: int)
    requires
        1 <= e < s.len(),
        s[0] == 37,
        forall|m: int|
            1 <= m < e ==> (#[trigger] s[m] == 45 || s[m] == 43 || s[m] == 32 || s[m] == 48 || s[m]
                == 39 || s[m] == 35),
        s[e] == 100 || s[e] == 105 || s[e] == 117 || s[e] == 111 || s[e] == 120 || s[e] == 88
            || s[e] == 99 || s[e] == 115 || s[e] == 112,
    ensures
        format_pieces(s).len() >= 2,
        format_pieces(s)[0] == (Piece::Text { start: 0, end: 0 }),
        format_pieces(s)[1] is Directive,
        ({
            let d = format_pieces(s)[1]->0;
            &&& d.flags.left_align == (exists|m: int| 1 <= m < e && s[m] == 45)
            &&& d.flags.prepend_plus == (exists|m: int| 1 <= m < e && s[m] == 43)
            &&& d.flags.prepend_space == (exists|m: int| 1 <= m < e && s[m] == 32)
            &&& d.flags.prepend_zero == (exists|m: int| 1 <= m < e && s[m] == 48)
            &&& d.flags.thousands_grouping == (exists|m: int| 1 <= m < e && s[m] == 39)
            &&& d.flags.alternate_form == (exists|m: int| 1 <= m < e && s[m] == 35)
            &&& d.width == Count::Fixed(0)
            &&& d.precision is None
            &&& d.length == Length::Int
            &&& (s[e] == 100 || s[e] == 105) ==> d.conversion == Conversion::Int
            &&& s[e] == 117 ==> d.conversion == Conversion::Uint
            &&& s[e] == 111 ==> d.conversion == Conversion::Octal
            &&& s[e] == 120 ==> d.conversion == Conversion::Hex
            &&& s[e] == 88 ==> d.conversion == Conversion::UpperHex
            &&& s[e] == 99 ==> d.conversion == Conversion::Char
            &&& s[e] == 115 ==> d.conversion == Conversion::Str
            &&& s[e] == 112 ==> d.conversion == Conversion::Pointer
        }),
{
    assert(chunk_end(s, 0) == 0);
    assert forall|m: int| 1 <= m < e implies is_flag_char(#[trigger] s[m]) by {}
    lemma_flag_run_ends(s, 1, e);
    assert(skip_digits(s, e) == e);
    assert(decimal_i32(s, e, e) == 0);
    lemma_chunk_end_bounds(s, 1);
    let ps = pieces_from(s, 1, false);
    let (dd, k) = spec_directive(s, 1);
    assert(k == e);
    assert(dd is Some);
    assert(ps[0] == Piece::Directive(dd.unwrap()));
    assert(format_pieces(s)[1] == ps[0]);
}

/// The decimal value of the digit bytes `d`, most significant first.
pub open spec fn dec_value(d: Seq<u8>) -> int
    decreases d.len(),
{
    if d.len() == 0 {
        0
    } else {
        dec_value(d.drop_last()) * 10 + (d.last() - 48)
    }
}

proof fn lemma_digit_run_ends(s: Seq<u8>, i: int, e: int)
    requires
        0 <= i <= e <= s.len(),
        forall|m: int| i <= m < e ==> is_digit(#[trigger] s[m]),
        e < s.len() ==> !is_digit(s[e]),
    ensures
        skip_digits(s, i) == e,
    decreases e - i,
{
    if i < e {
        lemma_digit_run_ends(s, i + 1, e);
    }
}

/// Ten to the power `n`.
pub open spec fn pow10(n: nat) -> int
    decreases n,
{
    if n == 0 {
        1
    } else {
        10 * pow10((n - 1) as nat)
    }
}

proof fn lemma_decimal_bounded(s: Seq<u8>, i: int, j: int)
    requires
        0 <= i <= j <= s.len(),
        forall|m: int| i <= m < j ==> is_digit(#[trigger] s[m]),
    ensures
        0 <= dec_value(s.subrange(i, j)) < pow10((j - i) as nat),
    decreases j - i,
{
    if j > i {
        lemma_decimal_bounded(s, i, j - 1);
        let d = s.subrange(i, j);
        assert(d.drop_last() =~= s.subrange(i, j - 1));
        assert(d.last() == s[j - 1]);
        let v = dec_value(s.subrange(i, j - 1));
        let c = s[j - 1] - 48;
        let q = pow10((j - 1 - i) as nat);
        assert(pow10((j - i) as nat) == 10 * q);
        assert(0 <= v * 10 + c < 10 * q) by (nonlinear_arith)
            requires
                0 <= v < q,
                0 <= c <= 9,
        ;
    }
}

proof fn lemma_decimal_exact(s: Seq<u8>, i: int, j: int)
    requires
        0 <= i <= j <= s.len(),
        j - i <= 9,
        forall|m: int| i <= m < j ==> is_digit(#[trigger] s[m]),
    ensures
        decimal_i32(s, i, j) as int == dec_value(s.subrange(i, j)),
    decreases j - i,
{
    if j > i {
        lemma_decimal_exact(s, i, j - 1);
        lemma_decimal_bounded(s, i, j);
        assert(pow10(9) == 1_000_000_000) by {
            reveal_with_fuel(pow10, 10);
        }
        lemma_pow10_mono((j - i) as nat, 9);
        let d = s.subrange(i, j);
        assert(d.drop_last() =~= s.subrange(i, j - 1));
        assert(d.last() == s[j - 1]);
        let w = decimal_i32(s, i, j - 1);
        lemma_decimal_bounded(s, i, j - 1);
        let prod: int = w * 10;
        assert(0 <= prod < 0x1_0000_0000);
        vstd::arithmetic::div_mod::lemma_small_mod(prod as nat, 0x1_0000_0000nat);
        assert(w.wrapping_mul(10) as int == prod);
    }
}

proof fn lemma_pow10_mono(a: nat, b: nat)
    requires
        a <= b,
    ensures
        1 <= pow10(a) <= pow10(b),
    decreases b,
{
    if b > 0 {
        if a < b {
            lemma_pow10_mono(a, (b - 1) as nat);
        } else {
            lemma_pow10_mono((a - 1) as nat, (b - 1) as nat);
        }
    }
}

/// A format that starts with a directive `%`, width digits `s[1..w]`, `.`,
/// precision digits `s[w+1..p]`, a length modifier `s[p..e]` and a
/// conversion character parses into that directive: no flags, the width
/// and the precision are the decimal values of their digits (up to nine
/// each), and the modifier names the length: none `int`, `hh` `char`, `h`
/// `short`, `l` `long`, `ll` `long long`, `z` `size_t`, `t` `ptrdiff_t`.
pub proof fn law_width_precision_length(s: Seq<u8>, w: int, p: int, e: int)
    requires
        1 <= w < p <= e < s.len(),
        s[0] == 37,
        w - 1 <= 9,
        p - w - 1 <= 9,
        forall|m: int| 1 <= m < w ==> 48 <= #[trigger] s[m] <= 57,
        w > 1 ==> s[1] != 48,
        s[w] == 46,
        forall|m: int| w < m < p ==> 48 <= #[trigger] s[m] <= 57,
        e == p || (e == p + 1 && (s[p] == 104 || s[p] == 108 || s[p] == 122 || s[p] == 116)) || (e
            == p + 2 && ((s[p] == 104 && s[p + 1] == 104) || (s[p] == 108 && s[p + 1] == 108))),
        s[e] == 100 || s[e] == 105 || s[e] == 117 || s[e] == 111 || s[e] == 120 || s[e] == 88
            || s[e] == 99 || s[e] == 115 || s[e] == 112,
    ensures
        format_pieces(s).len() >= 2,
        format_pieces(s)[1] is Directive,
        ({
            let d = format_pieces(s)[1]->0;
            &&& !d.flags.left_align && !d.flags.prepend_plus && !d.flags.prepend_space
            &&& !d.flags.prepend_zero && !d.flags.thousands_grouping && !d.flags.alternate_form
            &&& d.width == Count::Fixed(dec_value(s.subrange(1, w)) as i32)
            &&& d.precision == Some(Count::Fixed(dec_value(s.subrange(w + 1, p)) as i32))
            &&& e == p ==> d.length == Length::Int
            &&& e == p + 2 && s[p] == 104 ==> d.length == Length::Char
            &&& e == p + 1 && s[p] == 104 ==> d.length == Length::Short
            &&& e == p + 1 && s[p] == 108 ==> d.length == Length::Long
            &&& e == p + 2 && s[p] == 108 ==> d.length == Length::LongLong
            &&& e == p + 1 && s[p] == 122 ==> d.length == Length::Usize
            &&& e == p + 1 && s[p] == 116 ==> d.length == Length::Isize
        }),
{
    assert(chunk_end(s, 0) == 0);
    lemma_flag_run_ends(s, 1, 1);
    assert forall|m: int| 1 <= m < w implies is_digit(#[trigger] s[m]) by {}
    assert forall|m: int| w + 1 <= m < p implies is_digit(#[trigger] s[m]) by {}
    lemma_digit_run_ends(s, 1, w);
    lemma_digit_run_ends(s, w + 1, p);
    lemma_decimal_exact(s, 1, w);
    lemma_decimal_exact(s, w + 1, p);
    lemma_chunk_end_bounds(s, 1);
    let ps = pieces_from(s, 1, false);
    let (dd, k) = spec_directive(s, 1);
    assert(k == e);
    assert(dd is Some);
    assert(ps[0] == Piece::Directive(dd.unwrap()));
    assert(format_pieces(s)[1] == ps[0]);
}

/// The conversion characters outside the integer ones: after a leading
/// `%`, `f F e E g G a A` name the floating conversions in their styles
/// (`F`, `E`, `G`, `A` upper case), `n` the count of bytes written, and a
/// character that is no conversion, flag, digit, `.`, `*` or length
/// modifier makes the directive unknown, which ends the parse. `%%` is a
/// literal percent sign, and the text after it is a literal piece.
pub proof fn law_conversion_characters(s: Seq<u8>)
    requires
        2 <= s.len() <= usize::MAX,
        s[0] == 37,
    ensures
        s[1] == 102 ==> format_pieces(s)[1] is Directive && format_pieces(s)[1]->0.conversion
            == Conversion::Double(DoubleFormat::Normal),
        s[1] == 70 ==> format_pieces(s)[1] is Directive && format_pieces(s)[1]->0.conversion
            == Conversion::Double(DoubleFormat::UpperNormal),
        s[1] == 101 ==> format_pieces(s)[1] is Directive && format_pieces(s)[1]->0.conversion
            == Conversion::Double(DoubleFormat::Scientific),
        s[1] == 69 ==> format_pieces(s)[1] is Directive && format_pieces(s)[1]->0.conversion
            == Conversion::Double(DoubleFormat::UpperScientific),
        s[1] == 103 ==> format_pieces(s)[1] is Directive && format_pieces(s)[1]->0.conversion
            == Conversion::Double(DoubleFormat::Auto),
        s[1] == 71 ==> format_pieces(s)[1] is Directive && format_pieces(s)[1]->0.conversion
            == Conversion::Double(DoubleFormat::UpperAuto),
        s[1] == 97 ==> format_pieces(s)[1] is Directive && format_pieces(s)[1]->0.conversion
            == Conversion::Double(DoubleFormat::Hex),
        s[1] == 65 ==> format_pieces(s)[1] is Directive && format_pieces(s)[1]->0.conversion
            == Conversion::Double(DoubleFormat::UpperHex),
        s[1] == 110 ==> format_pieces(s)[1] is Directive && format_pieces(s)[1]->0.conversion
            == Conversion::WriteBytesWritten,
        (s[1] == 107 || s[1] == 109 || s[1] == 118 || s[1] == 119 || s[1] == 121 || s[1] == 0)
            ==> format_pieces(s) == seq![Piece::Text { start: 0, end: 0 }, Piece::Invalid],
        s[1] == 37 && (forall|m: int| 2 <= m < s.len() ==> #[trigger] s[m] != 37) ==> (
        format_pieces(s).len() == 4 && format_pieces(s)[1] is Directive && format_pieces(s)[1]->0.conversion
            == Conversion::Percent && format_pieces(s)[3] == (Piece::Text {
            start: 2,
            end: s.len() as usize,
        })),
{
    assert(chunk_end(s, 0) == 0);
    let c = s[1];
    if c == 102 || c == 70 || c == 101 || c == 69 || c == 103 || c == 71 || c == 97 || c == 65
        || c == 110 || c == 107 || c == 109 || c == 118 || c == 119 || c == 121 || c == 0 || c
        == 37 {
        lemma_flag_run_ends(s, 1, 1);
        lemma_digit_run_ends(s, 1, 1);
        lemma_chunk_end_bounds(s, 1);
        let ps = pieces_from(s, 1, false);
        assert(format_pieces(s) == seq![Piece::Text { start: 0, end: 0 }] + ps);
        let (dd, k) = spec_directive(s, 1);
        assert(k == 1);
        if s[1] == 37 && (forall|m: int| 2 <= m < s.len() ==> #[trigger] s[m] != 37) {
            assert(chunk_end(s, 1) == 1);
            lemma_chunk_end_bounds(s, 2);
            assert(chunk_end(s, 2) == s.len());
            let rest = pieces_from(s, 2, true);
            assert(rest == seq![Piece::Text { start: 2, end: s.len() as usize }]);
            assert(ps[2] == rest[0]);
        }
        if dd is Some {
            assert(ps[0] == Piece::Directive(dd.unwrap()));
        } else {
            assert(ps =~= seq![Piece::Invalid]);
        }
    }
}

/// The arguments a directive fetches: an `int` for a `*` width, then an
/// `int` for a `*` precision, then its value, which `%%` does not have.
/// An integer conversion fetches an `int` without a modifier or with `hh`
/// or `h`, a `long` with `l`, a `long long` with `ll`, a size with `z` or
/// `t`; a floating conversion a `double`; `%c` an `int`; `%s`, `%p` and
/// `%n` a pointer.
pub proof fn law_fetch_order(d: Directive)
    ensures
        ({
            let f = spec_fetches(d);
            let ws: int = if d.width == Count::Star { 1 } else { 0 };
            let ps: int = if d.precision == Some(Count::Star) { 1 } else { 0 };
            let vs: int = if d.conversion == Conversion::Percent { 0 } else { 1 };
            let last = f[f.len() - 1];
            let integer = d.conversion == Conversion::Int || d.conversion == Conversion::Uint
                || d.conversion == Conversion::Octal || d.conversion == Conversion::Hex
                || d.conversion == Conversion::UpperHex;
            &&& f.len() == ws + ps + vs
            &&& ws == 1 ==> f[0] == ArgType::Int
            &&& ps == 1 ==> f[ws] == ArgType::Int
            &&& integer && (d.length == Length::Int || d.length == Length::Char || d.length
                == Length::Short) ==> last == ArgType::Int
            &&& integer && d.length == Length::Long ==> last == ArgType::Long
            &&& integer && d.length == Length::LongLong ==> last == ArgType::LongLong
            &&& integer && (d.length == Length::Usize || d.length == Length::Isize) ==> last
                == ArgType::Size
            &&& d.conversion is Double ==> last == ArgType::Double
            &&& d.conversion == Conversion::Char ==> last == ArgType::Int
            &&& (d.conversion == Conversion::Str || d.conversion == Conversion::Pointer
                || d.conversion == Conversion::WriteBytesWritten) ==> last == ArgType::Pointer
        }),
{
}

proof fn lemma_chunk_at(s: Seq<u8>, i: int, e: int)
    requires
        0 <= i <= e <= s.len(),
        forall|m: int| i <= m < e ==> #[trigger] s[m] != 37,
        e < s.len() ==> s[e] == 37,
    ensures
        chunk_end(s, i) == e,
    decreases e - i,
{
    if i < e {
        lemma_chunk_at(s, i + 1, e);
    }
}

/// Literal text around a directive: a format made of text without `%`
/// (`s[..a]`), a `%` and a conversion character, and more text without `%`
/// parses into exactly three pieces: the first text, the directive, and
/// the text after it.
pub proof fn law_text_around_directive(s: Seq<u8>, a: int)
    requires
        0 <= a,
        a + 2 <= s.len() <= usize::MAX,
        forall|m: int| 0 <= m < a ==> #[trigger] s[m] != 37,
        s[a] == 37,
        s[a + 1] == 100 || s[a + 1] == 105 || s[a + 1] == 117 || s[a + 1] == 111 || s[a + 1] == 120
            || s[a + 1] == 88 || s[a + 1] == 99 || s[a + 1] == 115 || s[a + 1] == 112,
        forall|m: int| a + 2 <= m < s.len() ==> #[trigger] s[m] != 37,
    ensures
        format_pieces(s).len() == 3,
        format_pieces(s)[0] == (Piece::Text { start: 0, end: a as usize }),
        format_pieces(s)[1] is Directive,
        format_pieces(s)[2] == (Piece::Text { start: (a + 2) as usize, end: s.len() as usize }),
        (s[a + 1] == 100 || s[a + 1] == 105) ==> format_pieces(s)[1]->0.conversion == Conversion::Int,
        s[a + 1] == 115 ==> format_pieces(s)[1]->0.conversion == Conversion::Str,
{
    lemma_chunk_at(s, 0, a);
    assert forall|m: int| a + 1 <= m < s.len() implies #[trigger] s[m] != 37 by {}
    lemma_chunk_at(s, a + 1, s.len() as int);
    lemma_flag_run_ends(s, a + 1, a + 1);
    lemma_digit_run_ends(s, a + 1, a + 1);
    let ps = pieces_from(s, a + 1, false);
    let (dd, k) = spec_directive(s, a + 1);
    assert(k == a + 1);
    assert(dd is Some);
    assert(ps =~= seq![Piece::Directive(dd.unwrap()), Piece::Text { start: (a + 2) as usize, end: s.len() as usize }]);
    assert(format_pieces(s) =~= seq![Piece::Text { start: 0, end: a as usize }] + ps);
}

/// A `*` width and a `*` precision come from the arguments: `%*.*` before
/// a conversion character gives a directive whose width and precision are
/// both taken from arguments, fetched as `int`s before the value.
pub proof fn law_star_counts(s: Seq<u8>)
    requires
        s.len() >= 5,
        s[0] == 37,
        s[1] == 42,
        s[2] == 46,
        s[3] == 42,
        s[4] == 100 || s[4] == 105 || s[4] == 117 || s[4] == 111 || s[4] == 120 || s[4] == 88
            || s[4] == 99 || s[4] == 115 || s[4] == 112,
    ensures
        format_pieces(s)[1] is Directive,
        format_pieces(s)[1]->0.width == Count::Star,
        format_pieces(s)[1]->0.precision == Some(Count::Star),
        spec_fetches(format_pieces(s)[1]->0).len() == 3,
        spec_fetches(format_pieces(s)[1]->0)[0] == ArgType::Int,
        spec_fetches(format_pieces(s)[1]->0)[1] == ArgType::Int,
{
    assert(chunk_end(s, 0) == 0);
    lemma_flag_run_ends(s, 1, 1);
    lemma_chunk_end_bounds(s, 1);
    let ps = pieces_from(s, 1, false);
    let (dd, k) = spec_directive(s, 1);
    assert(k == 4);
    assert(dd is Some);
    assert(ps[0] == Piece::Directive(dd.unwrap()));
    assert(format_pieces(s)[1] == ps[0]);
}

} // verus!

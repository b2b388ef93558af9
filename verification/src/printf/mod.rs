//! The value types of the `printf` engine: flags, the floating-point
//! conversion styles, and the integer arguments as fetched by length modifier.

use vstd::prelude::*;

use crate::decimal::{radix_digits, radix_text, signed_text};

pub mod parser;

verus! {

/// The floating-point conversion style of a directive.
#[derive(Debug, Copy, Clone, PartialEq, Eq, Structural)]
pub enum DoubleFormat {
    /// `f`
    Normal,
    /// `F`
    UpperNormal,
    /// `e`
    Scientific,
    /// `E`
    UpperScientific,
    /// `g`
    Auto,
    /// `G`
    UpperAuto,
    /// `a`
    Hex,
    /// `A`
    UpperHex,
}

impl DoubleFormat {
    /// The style is one of the uppercase forms `F`, `E`, `G`, `A`.
    pub open spec fn spec_is_upper(self) -> bool {
        matches!(self, DoubleFormat::UpperNormal | DoubleFormat::UpperScientific
            | DoubleFormat::UpperAuto | DoubleFormat::UpperHex)
    }

    /// The family of a style: 0 for `f`/`F`, 1 for `e`/`E`, 2 for `g`/`G`,
    /// 3 for `a`/`A`.
    pub open spec fn family(self) -> int {
        match self {
            DoubleFormat::Normal | DoubleFormat::UpperNormal => 0,
            DoubleFormat::Scientific | DoubleFormat::UpperScientific => 1,
            DoubleFormat::Auto | DoubleFormat::UpperAuto => 2,
            DoubleFormat::Hex | DoubleFormat::UpperHex => 3,
        }
    }

    /// If the format is uppercase.
    pub fn is_upper(self) -> (r: bool)
        ensures
            r == self.spec_is_upper(),
    {
        match self {
            DoubleFormat::UpperNormal | DoubleFormat::UpperScientific | DoubleFormat::UpperAuto
            | DoubleFormat::UpperHex => true,
            _ => false,
        }
    }

    /// The style of the same family in the requested case.
    pub fn set_upper(self, upper: bool) -> (r: Self)
        ensures
            r.family() == self.family(),
            r.spec_is_upper() == upper,
    {
        match self {
            DoubleFormat::Normal | DoubleFormat::UpperNormal => {
                if upper {
                    DoubleFormat::UpperNormal
                } else {
                    DoubleFormat::Normal
                }
            },
            DoubleFormat::Scientific | DoubleFormat::UpperScientific => {
                if upper {
                    DoubleFormat::UpperScientific
                } else {
                    DoubleFormat::Scientific
                }
            },
            DoubleFormat::Auto | DoubleFormat::UpperAuto => {
                if upper {
                    DoubleFormat::UpperAuto
                } else {
                    DoubleFormat::Auto
                }
            },
            DoubleFormat::Hex | DoubleFormat::UpperHex => {
                if upper {
                    DoubleFormat::UpperHex
                } else {
                    DoubleFormat::Hex
                }
            },
        }
    }
}


/// A signed integer argument, as fetched for its length modifier.
#[derive(Debug, Copy, Clone, PartialEq, Eq, Structural)]
#[non_exhaustive]
pub enum SignedInt {
    Int(i32),
    Char(i8),
    Short(i16),
    Long(i64),
    LongLong(i64),
    Isize(isize),
}

/// A style is fixed by its family and its case, so setting a style's own
/// case gives it back.
pub proof fn law_style_determined(a: DoubleFormat, b: DoubleFormat)
    ensures
        a.family() == b.family() && a.spec_is_upper() == b.spec_is_upper() ==> a == b,
{
}

impl SignedInt {
    /// The mathematical value held, whatever its width.
    pub open spec fn value(self) -> int {
        match self {
            SignedInt::Int(x) => x as int,
            SignedInt::Char(x) => x as int,
            SignedInt::Short(x) => x as int,
            SignedInt::Long(x) => x as int,
            SignedInt::LongLong(x) => x as int,
            SignedInt::Isize(x) => x as int,
        }
    }

    /// The value is below zero.
    pub fn is_sign_negative(self) -> (r: bool)
        ensures
            r == (self.value() < 0),
    {
        match self {
            SignedInt::Int(x) => x < 0,
            SignedInt::Char(x) => x < 0,
            SignedInt::Short(x) => x < 0,
            SignedInt::Long(x) => x < 0,
            SignedInt::LongLong(x) => x < 0,
            SignedInt::Isize(x) => x < 0,
        }
    }
}

impl SignedInt {
    /// The text `{}` prints for the value: its decimal digits, after a `-`
    /// when it is negative.
    pub fn display(self) -> (r: Vec<u8>)
        ensures
            r@ == if self.value() < 0 {
                seq![45u8] + radix_digits((-self.value()) as nat, 10, false)
            } else {
                radix_digits(self.value() as nat, 10, false)
            },
    {
        let v: i64 = match self {
            SignedInt::Int(x) => x as i64,
            SignedInt::Char(x) => x as i64,
            SignedInt::Short(x) => x as i64,
            SignedInt::Long(x) => x,
            SignedInt::LongLong(x) => x,
            SignedInt::Isize(x) => x as i64,
        };
        signed_text(v)
    }
}

impl From<SignedInt> for i64 {
    fn from(num: SignedInt) -> (r: i64) {
        match num {
            SignedInt::Int(x) => x as i64,
            SignedInt::Char(x) => x as i64,
            SignedInt::Short(x) => x as i64,
            SignedInt::Long(x) => x,
            SignedInt::LongLong(x) => x,
            SignedInt::Isize(x) => x as i64,
        }
    }
}

impl vstd::std_specs::convert::FromSpecImpl<SignedInt> for i64 {
    open spec fn obeys_from_spec() -> bool {
        true
    }

    open spec fn from_spec(num: SignedInt) -> i64 {
        num.value() as i64
    }
}

/// An unsigned integer argument, as fetched for its length modifier.
#[derive(Debug, Copy, Clone, PartialEq, Eq, Structural)]
#[non_exhaustive]
pub enum UnsignedInt {
    Int(u32),
    Char(u8),
    Short(u16),
    Long(u64),
    LongLong(u64),
    Isize(usize),
}

impl UnsignedInt {
    /// The mathematical value held, whatever its width.
    pub open spec fn value(self) -> int {
        match self {
            UnsignedInt::Int(x) => x as int,
            UnsignedInt::Char(x) => x as int,
            UnsignedInt::Short(x) => x as int,
            UnsignedInt::Long(x) => x as int,
            UnsignedInt::LongLong(x) => x as int,
            UnsignedInt::Isize(x) => x as int,
        }
    }
}

impl UnsignedInt {
    fn widen(self) -> (r: u64)
        ensures
            r as int == self.value(),
    {
        match self {
            UnsignedInt::Int(x) => x as u64,
            UnsignedInt::Char(x) => x as u64,
            UnsignedInt::Short(x) => x as u64,
            UnsignedInt::Long(x) => x,
            UnsignedInt::LongLong(x) => x,
            UnsignedInt::Isize(x) => x as u64,
        }
    }

    /// The text `{}` prints for the value: its decimal digits.
    pub fn display(self) -> (r: Vec<u8>)
        ensures
            r@ == radix_digits(self.value() as nat, 10, false),
    {
        radix_text(self.widen(), 10, false)
    }

    /// The text `{:x}` prints for the value: lowercase hexadecimal digits.
    pub fn lower_hex(self) -> (r: Vec<u8>)
        ensures
            r@ == radix_digits(self.value() as nat, 16, false),
    {
        radix_text(self.widen(), 16, false)
    }

    /// The text `{:X}` prints for the value: uppercase hexadecimal digits.
    pub fn upper_hex(self) -> (r: Vec<u8>)
        ensures
            r@ == radix_digits(self.value() as nat, 16, true),
    {
        radix_text(self.widen(), 16, true)
    }

    /// The text `{:o}` prints for the value: octal digits.
    pub fn octal(self) -> (r: Vec<u8>)
        ensures
            r@ == radix_digits(self.value() as nat, 8, false),
    {
        radix_text(self.widen(), 8, false)
    }
}

impl From<UnsignedInt> for u64 {
    fn from(num: UnsignedInt) -> (r: u64) {
        match num {
            UnsignedInt::Int(x) => x as u64,
            UnsignedInt::Char(x) => x as u64,
            UnsignedInt::Short(x) => x as u64,
            UnsignedInt::Long(x) => x,
            UnsignedInt::LongLong(x) => x,
            UnsignedInt::Isize(x) => x as u64,
        }
    }
}

impl vstd::std_specs::convert::FromSpecImpl<UnsignedInt> for u64 {
    open spec fn obeys_from_spec() -> bool {
        true
    }

    open spec fn from_spec(num: UnsignedInt) -> u64 {
        num.value() as u64
    }
}

/// The flags field of a directive; each flag is set when its character
/// occurs anywhere in the flag run.
#[derive(Debug, Copy, Clone, PartialEq, Eq, Structural)]
pub struct Flags {
    /// `-`: left-align within the width.
    pub left_align: bool,
    /// `+`: prepend a plus to non-negative signed numbers.
    pub prepend_plus: bool,
    /// ` `: prepend a space to non-negative signed numbers.
    pub prepend_space: bool,
    /// `0`: pad numbers with zeros up to the width.
    pub prepend_zero: bool,
    /// `'`: group thousands.
    pub thousands_grouping: bool,
    /// `#`: alternate form.
    pub alternate_form: bool,
}

impl Flags {
    /// No flag set.
    pub fn empty() -> (r: Flags)
        ensures
            r == Flags::spec_empty(),
    {
        Flags {
            left_align: false,
            prepend_plus: false,
            prepend_space: false,
            prepend_zero: false,
            thousands_grouping: false,
            alternate_form: false,
        }
    }

    pub open spec fn spec_empty() -> Flags {
        Flags {
            left_align: false,
            prepend_plus: false,
            prepend_space: false,
            prepend_zero: false,
            thousands_grouping: false,
            alternate_form: false,
        }
    }

    /// The bit encoding: `-` 1, `+` 2, ` ` 4, `0` 8, `'` 16, `#` 32.
    pub open spec fn spec_bits(self) -> int {
        (if self.left_align { 1int } else { 0 }) + (if self.prepend_plus { 2int } else { 0 })
            + (if self.prepend_space { 4int } else { 0 }) + (if self.prepend_zero { 8int } else { 0 })
            + (if self.thousands_grouping { 16int } else { 0 }) + (if self.alternate_form { 32int } else { 0 })
    }

    /// The flags as a bit set, in the C library's usual bit order.
    pub fn bits(&self) -> (r: u8)
        ensures
            r as int == self.spec_bits(),
    {
        let mut r: u8 = 0;
        if self.left_align {
            r = r + 1;
        }
        if self.prepend_plus {
            r = r + 2;
        }
        if self.prepend_space {
            r = r + 4;
        }
        if self.prepend_zero {
            r = r + 8;
        }
        if self.thousands_grouping {
            r = r + 16;
        }
        if self.alternate_form {
            r = r + 32;
        }
        r
    }
}

/// The flag bits are distinct: each flag owns its own bit (`-` 1, `+` 2,
/// space 4, `0` 8, `'` 16, `#` 32), so the bit set tells every flag apart;
/// and no flag is set in the empty set.
pub proof fn law_flag_bits(f: Flags)
    ensures
        0 <= f.spec_bits() < 64,
        (f.spec_bits() % 2 == 1) == f.left_align,
        (f.spec_bits() / 2 % 2 == 1) == f.prepend_plus,
        (f.spec_bits() / 4 % 2 == 1) == f.prepend_space,
        (f.spec_bits() / 8 % 2 == 1) == f.prepend_zero,
        (f.spec_bits() / 16 % 2 == 1) == f.thousands_grouping,
        (f.spec_bits() / 32 % 2 == 1) == f.alternate_form,
        Flags::spec_empty().spec_bits() == 0,
        !Flags::spec_empty().left_align && !Flags::spec_empty().prepend_plus
            && !Flags::spec_empty().prepend_space && !Flags::spec_empty().prepend_zero
            && !Flags::spec_empty().thousands_grouping && !Flags::spec_empty().alternate_form,
{
}

/// The floating styles by case and family: `F`, `E`, `G`, `A` are the upper
/// case ones, and `f`/`F`, `e`/`E`, `g`/`G`, `a`/`A` each share a family
/// that no other pair shares.
pub proof fn law_style_cases()
    ensures
        !DoubleFormat::Normal.spec_is_upper() && DoubleFormat::UpperNormal.spec_is_upper(),
        !DoubleFormat::Scientific.spec_is_upper() && DoubleFormat::UpperScientific.spec_is_upper(),
        !DoubleFormat::Auto.spec_is_upper() && DoubleFormat::UpperAuto.spec_is_upper(),
        !DoubleFormat::Hex.spec_is_upper() && DoubleFormat::UpperHex.spec_is_upper(),
        DoubleFormat::Normal.family() == DoubleFormat::UpperNormal.family(),
        DoubleFormat::Scientific.family() == DoubleFormat::UpperScientific.family(),
        DoubleFormat::Auto.family() == DoubleFormat::UpperAuto.family(),
        DoubleFormat::Hex.family() == DoubleFormat::UpperHex.family(),
        DoubleFormat::Normal.family() != DoubleFormat::Scientific.family(),
        DoubleFormat::Normal.family() != DoubleFormat::Auto.family(),
        DoubleFormat::Normal.family() != DoubleFormat::Hex.family(),
        DoubleFormat::Scientific.family() != DoubleFormat::Auto.family(),
        DoubleFormat::Scientific.family() != DoubleFormat::Hex.family(),
        DoubleFormat::Auto.family() != DoubleFormat::Hex.family(),
{
}

} // verus!

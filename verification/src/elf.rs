//! The part of an ELF file header that `dl_iterate_phdr` reads at an
//! object's load base: the magic number, and where the program headers are
//! and how many there are.

use vstd::prelude::*;

verus! {

/// The length of a 64-bit ELF file header.
pub const EHDR_LEN: usize = 64;

/// The little-endian value of the `n` bytes of `h` from `off`.
pub open spec fn le_value(h: Seq<u8>, off: int, n: nat) -> nat
    decreases n,
{
    if n == 0 {
        0
    } else {
        h[off] as nat + 256 * le_value(h, off + 1, (n - 1) as nat)
    }
}

/// 256 to the power `n`.
pub open spec fn pow256(n: nat) -> nat
    decreases n,
{
    if n == 0 {
        1
    } else {
        256 * pow256((n - 1) as nat)
    }
}

proof fn lemma_le_value_bound(h: Seq<u8>, off: int, n: nat)
    ensures
        le_value(h, off, n) < pow256(n),
    decreases n,
{
    if n > 0 {
        lemma_le_value_bound(h, off + 1, (n - 1) as nat);
        let rest = le_value(h, off + 1, (n - 1) as nat);
        let p = pow256((n - 1) as nat);
        assert(h[off] as nat + 256 * rest < 256 * p) by (nonlinear_arith)
            requires
                rest < p,
                h[off] < 256,
        ;
    }
}

/// The header starts with the ELF magic number: `0x7f`, `E`, `L`, `F`.
pub open spec fn has_elf_magic(h: Seq<u8>) -> bool {
    h.len() >= 4 && h[0] == 0x7f && h[1] == 69 && h[2] == 76 && h[3] == 70
}

/// The little-endian value of the `n` bytes of `h` from `off`.
fn read_le(h: &[u8], off: usize, n: usize) -> (r: u64)
    requires
        off + n <= h.len(),
        n <= 8,
    ensures
        r == le_value(h@, off as int, n as nat),
{
    proof {
        reveal_with_fuel(pow256, 9);
        assert(pow256(8) == 0x1_0000_0000_0000_0000);
    }
    let mut v: u64 = 0;
    let mut k: usize = n;
    while k > 0
        invariant
            off + n <= h.len(),
            n <= 8,
            k <= n,
            v == le_value(h@, off + k, (n - k) as nat),
            pow256(8) == 0x1_0000_0000_0000_0000,
        decreases k,
    {
        k = k - 1;
        proof {
            lemma_le_value_bound(h@, off + k + 1, (n - k - 1) as nat);
            lemma_pow256_grows((n - k - 1) as nat, 7);
            assert(le_value(h@, off + k, (n - k) as nat) == h@[off + k] as nat + 256 * le_value(
                h@,
                off + k + 1,
                (n - k - 1) as nat,
            ));
            assert(v * 256 + h@[off + k] < 0x1_0000_0000_0000_0000) by (nonlinear_arith)
                requires
                    v < pow256((n - k - 1) as nat),
                    pow256((n - k - 1) as nat) <= pow256(7),
                    256 * pow256(7) == pow256(8),
                    pow256(8) == 0x1_0000_0000_0000_0000,
                    h@[off + k] < 256,
            ;
        }
        v = v * 256 + h[off + k] as u64;
    }
    v
}

proof fn lemma_pow256_grows(a: nat, b: nat)
    requires
        a <= b,
    ensures
        pow256(a) <= pow256(b),
        256 * pow256(b) == pow256(b + 1),
    decreases b,
{
    if a < b {
        lemma_pow256_grows(a, (b - 1) as nat);
    }
}

/// Where the program headers of the object whose header is `h` are (the
/// `e_phoff` offset, the little-endian `u64` at 0x20) and how many there are
/// (`e_phnum`, the `u16` at 0x38); `None` when `h` is no ELF header.
pub open spec fn spec_phdr_location(h: Seq<u8>) -> Option<(u64, u16)> {
    if h.len() >= EHDR_LEN && has_elf_magic(h) {
        Some((le_value(h, 0x20, 8) as u64, le_value(h, 0x38, 2) as u16))
    } else {
        None
    }
}

/// Read the program header location from the header bytes `h` taken at a
/// load base.
pub fn phdr_location(h: &[u8]) -> (r: Option<(u64, u16)>)
    ensures
        r == spec_phdr_location(h@),
{
    if h.len() < EHDR_LEN || h[0] != 0x7f || h[1] != 69 || h[2] != 76 || h[3] != 70 {
        return None;
    }
    let phoff = read_le(h, 0x20, 8);
    let phnum = read_le(h, 0x38, 2);
    proof {
        lemma_le_value_bound(h@, 0x38, 2);
        reveal_with_fuel(pow256, 3);
    }
    Some((phoff, phnum as u16))
}

/// A 64-bit ELF header tells where its program headers are: with the
/// magic `0x7f E L F` and at least 64 bytes, the offset is the
/// little-endian eight bytes at 0x20 and the count the little-endian two
/// bytes at 0x38; any other bytes are no ELF header.
pub proof fn law_phdr_fields(h: Seq<u8>)
    ensures
        (h.len() < 64 || h[0] != 0x7f || h[1] != 69 || h[2] != 76 || h[3] != 70)
            ==> spec_phdr_location(h) is None,
        h.len() >= 64 && h[0] == 0x7f && h[1] == 69 && h[2] == 76 && h[3] == 70 ==> spec_phdr_location(h)
            == Some(
            (
                (h[0x20] + 0x100 * h[0x21] + 0x1_0000 * h[0x22] + 0x100_0000 * h[0x23] + 0x1_0000_0000
                    * h[0x24] + 0x100_0000_0000 * h[0x25] + 0x1_0000_0000_0000 * h[0x26]
                    + 0x100_0000_0000_0000 * h[0x27]) as u64,
                (h[0x38] + 0x100 * h[0x39]) as u16,
            ),
        ),
{
    if h.len() >= 64 && h[0] == 0x7f && h[1] == 69 && h[2] == 76 && h[3] == 70 {
        reveal_with_fuel(le_value, 9);
        assert(le_value(h, 0x20, 8) == h[0x20] + 0x100 * h[0x21] + 0x1_0000 * h[0x22] + 0x100_0000 * h[0x23]
            + 0x1_0000_0000 * h[0x24] + 0x100_0000_0000 * h[0x25] + 0x1_0000_0000_0000 * h[0x26]
            + 0x100_0000_0000_0000 * h[0x27]) by (nonlinear_arith)
            requires
                le_value(h, 0x20, 8) == h[0x20] as nat + 256 * le_value(h, 0x21, 7),
                le_value(h, 0x21, 7) == h[0x21] as nat + 256 * le_value(h, 0x22, 6),
                le_value(h, 0x22, 6) == h[0x22] as nat + 256 * le_value(h, 0x23, 5),
                le_value(h, 0x23, 5) == h[0x23] as nat + 256 * le_value(h, 0x24, 4),
                le_value(h, 0x24, 4) == h[0x24] as nat + 256 * le_value(h, 0x25, 3),
                le_value(h, 0x25, 3) == h[0x25] as nat + 256 * le_value(h, 0x26, 2),
                le_value(h, 0x26, 2) == h[0x26] as nat + 256 * le_value(h, 0x27, 1),
                le_value(h, 0x27, 1) == h[0x27] as nat + 256 * le_value(h, 0x28, 0),
                le_value(h, 0x28, 0) == 0,
        ;
    }
}

} // verus!

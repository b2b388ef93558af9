use taproot::elf::{phdr_location, EHDR_LEN};

fn header(phoff: u64, phnum: u16) -> Vec<u8> {
    let mut h = vec![0u8; EHDR_LEN];
    h[..4].copy_from_slice(b"\x7fELF");
    h[0x20..0x28].copy_from_slice(&phoff.to_le_bytes());
    h[0x38..0x3a].copy_from_slice(&phnum.to_le_bytes());
    h
}

#[test]
fn reads_program_header_location() {
    assert_eq!(phdr_location(&header(64, 13)), Some((64, 13)));
    assert_eq!(
        phdr_location(&header(0x0102_0304_0506_0708, 0xfffe)),
        Some((0x0102_0304_0506_0708, 0xfffe))
    );
    assert_eq!(phdr_location(&header(u64::MAX, 0)), Some((u64::MAX, 0)));
}

#[test]
fn rejects_what_is_not_an_elf_header() {
    let mut h = header(64, 13);
    h[1] = b'X';
    assert_eq!(phdr_location(&h), None);
    assert_eq!(phdr_location(&header(64, 13)[..63]), None);
    assert_eq!(phdr_location(b""), None);
}

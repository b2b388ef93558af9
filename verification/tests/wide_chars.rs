use taproot::wide::{
    all_words_zero, btowc, iswctype, langinfo_names_codeset, mblen, mbrtowc, mbs_to_wcs, narrow,
    towlower, towupper, wcs_to_mbs, wcslen, wcsxfrm_copy, wctob, wctype_id, wide_compare,
    wide_mem_compare, wmemchr, wmemset, MbSource, SourceUpdate, CODESET, EOF, WEOF,
};

#[test]
fn case_mapping() {
    assert_eq!(towlower('A' as u32), 'a' as u32);
    assert_eq!(towlower('z' as u32), 'z' as u32);
    assert_eq!(towlower('@' as u32), '@' as u32);
    assert_eq!(towupper('q' as u32), 'Q' as u32);
    assert_eq!(towupper('{' as u32), '{' as u32);
    assert_eq!(towupper(0xe9), 0xe9);
    for c in 0..300u32 {
        assert_eq!(towlower(towupper(c)), towlower(c));
        assert_eq!(towupper(towlower(c)), towupper(c));
    }
}

#[test]
fn byte_and_wide_round_trip() {
    assert_eq!(btowc(EOF), WEOF);
    assert_eq!(btowc(65), 65);
    assert_eq!(wctob(65), 65);
    assert_eq!(wctob(0x100), EOF);
    assert_eq!(wctob(WEOF), EOF);
    for c in 0..256 {
        assert_eq!(wctob(btowc(c)), c);
    }
    assert_eq!(narrow(0x141), 0x41);
}

#[test]
fn character_classes() {
    let alpha = wctype_id(Some(b"alpha"));
    let digit = wctype_id(Some(b"digit"));
    let space = wctype_id(Some(b"space"));
    assert_ne!(alpha, 0);
    assert_ne!(digit, 0);
    assert_eq!(wctype_id(Some(b"nonsense")), 0);
    assert_eq!(wctype_id(None), 0);
    assert_ne!(iswctype('a' as u32, alpha), 0);
    assert_eq!(iswctype('1' as u32, alpha), 0);
    assert_ne!(iswctype('7' as u32, digit), 0);
    assert_ne!(iswctype(' ' as u32, space), 0);
    assert_eq!(iswctype('a' as u32, 0), 0);
    // Outside ASCII nothing is in a class.
    assert_eq!(iswctype(0x3b1, alpha), 0);
}

#[test]
fn langinfo_and_multibyte() {
    assert!(langinfo_names_codeset(CODESET));
    assert!(!langinfo_names_codeset(0));
    assert_eq!(mblen(MbSource::Null), 0);
    assert_eq!(mblen(MbSource::Empty), -1);
    assert_eq!(mblen(MbSource::Byte(0)), 0);
    assert_eq!(mblen(MbSource::Byte(b'x')), 1);
    assert_eq!(mbrtowc(MbSource::Null), (0, None));
    assert_eq!(mbrtowc(MbSource::Empty), (usize::MAX - 1, None));
    assert_eq!(mbrtowc(MbSource::Byte(b'x')), (1, Some(b'x' as i32)));
    assert_eq!(mbrtowc(MbSource::Byte(0)), (0, Some(0)));
}

#[test]
fn wide_strings() {
    let a = [104, 105, 0];
    let b = [104, 106, 0];
    assert_eq!(wcslen(&a), 2);
    assert_eq!(wcslen(&[0]), 0);
    assert!(wide_compare(&a, &b) < 0);
    assert!(wide_compare(&b, &a) > 0);
    assert_eq!(wide_compare(&a, &a), 0);
    assert!(wide_compare(&[104, 0], &a) < 0);
    assert_eq!(wmemchr(&[1, 2, 3, 2], 2), Some(1));
    assert_eq!(wmemchr(&[1, 2, 3], 9), None);
    assert_eq!(wide_mem_compare(&[1, 2, 3], &[1, 2, 4]), -1);
    assert_eq!(wide_mem_compare(&[1, 5], &[1, 2]), 1);
    assert_eq!(wide_mem_compare(&[1, 2], &[1, 2]), 0);
    let mut d = [0; 4];
    wmemset(&mut d, 7);
    assert_eq!(d, [7, 7, 7, 7]);
    assert_eq!(wcsxfrm_copy(3, 10), Some(3));
    assert_eq!(all_words_zero(&[0, 0]), 1);
    assert_eq!(all_words_zero(&[0, 4]), 0);
}

#[test]
fn string_conversions() {
    let r = mbs_to_wcs(b"ab\0", 10, Some(10));
    assert_eq!((r.count, r.out, r.update), (2, vec![97, 98, 0], SourceUpdate::Null));
    let r = wcs_to_mbs(&[97, 98, 0], 10, Some(10));
    assert_eq!((r.count, r.out, r.update), (2, vec![97, 98, 0], SourceUpdate::Null));
    // The reading limit stops the conversion before the terminator.
    let r = mbs_to_wcs(b"abc\0", 2, Some(10));
    assert_eq!((r.count, r.out, r.update), (2, vec![97, 98], SourceUpdate::Advance(2)));
    // The destination fills up first.
    let r = wcs_to_mbs(&[97, 98, 99, 0], 10, Some(1));
    assert_eq!((r.count, r.out, r.update), (1, vec![97], SourceUpdate::Advance(1)));
    // Without a destination only the count is wanted.
    let r = mbs_to_wcs(b"abc\0", 10, None);
    assert_eq!((r.count, r.out, r.update), (3, vec![], SourceUpdate::Unchanged));
}

#[test]
fn multibyte_round_trip() {
    let bytes = b"h\xe9llo\xff\0";
    let wide = mbs_to_wcs(bytes, usize::MAX, Some(16));
    assert_eq!(wide.count, 6);
    let back = wcs_to_mbs(&wide.out, usize::MAX, Some(16));
    assert_eq!(back.count, 6);
    assert_eq!(back.out, bytes.to_vec());
    assert_eq!(back.update, SourceUpdate::Null);
}

use taproot::scanf::{scan_step, stored_int, ScanAction, ScanState, StoredInt};

#[derive(Debug, PartialEq)]
enum Stored {
    Int(StoredInt),
    Count(i32),
    Bytes(Vec<u8>, bool),
}

/// Drive the steps the way the C entry point does, with every destination
/// present, and collect what would be stored.
fn scan(inp: &[u8], fmt: &[u8]) -> (i32, Vec<Stored>) {
    let mut st = ScanState::new();
    let mut out = Vec::new();
    for _ in 0..1000 {
        match scan_step(inp, fmt, &mut st) {
            ScanAction::Finish(r) => return (r, out),
            ScanAction::Next => {}
            ScanAction::StoreCount(n) => out.push(Stored::Count(n)),
            ScanAction::StoreInt { value, len } => out.push(Stored::Int(stored_int(value, len))),
            ScanAction::StoreBytes { bytes, nul, finish } => {
                out.push(Stored::Bytes(bytes, nul));
                match finish {
                    Some(r) => return (r, out),
                    None => st.count_store(),
                }
            }
        }
    }
    panic!("scan did not finish");
}

fn int32(v: i32) -> Stored {
    Stored::Int(StoredInt::I32(v))
}

#[test]
fn hex_id_from_sysfs() {
    assert_eq!(scan(b"0x8086\n\0", b"%x\0"), (1, vec![int32(0x8086)]));
    assert_eq!(scan(b"ff", b"%x"), (1, vec![int32(255)]));
}

#[test]
fn two_decimals_with_whitespace() {
    assert_eq!(scan(b"12 -34", b"%d %d"), (2, vec![int32(12), int32(-34)]));
    assert_eq!(scan(b"  +7", b"%d"), (1, vec![int32(7)]));
}

#[test]
fn field_width_splits_a_run() {
    assert_eq!(
        scan(b"1234abcd rest", b"%4x%s"),
        (2, vec![int32(0x1234), Stored::Bytes(b"abcd".to_vec(), true)])
    );
    assert_eq!(
        scan(b"hello", b"%2s%s"),
        (2, vec![Stored::Bytes(b"he".to_vec(), true), Stored::Bytes(b"llo".to_vec(), true)])
    );
}

#[test]
fn i_detects_the_base() {
    assert_eq!(scan(b"0x1A", b"%i"), (1, vec![int32(26)]));
    assert_eq!(scan(b"017", b"%i"), (1, vec![int32(15)]));
    assert_eq!(scan(b"-9", b"%i"), (1, vec![int32(-9)]));
    assert_eq!(scan(b"17", b"%o"), (1, vec![int32(15)]));
}

#[test]
fn length_modifiers_narrow_the_store() {
    assert_eq!(scan(b"300", b"%hhd"), (1, vec![Stored::Int(StoredInt::I8(44))]));
    assert_eq!(scan(b"70000", b"%hd"), (1, vec![Stored::Int(StoredInt::I16(4464))]));
    assert_eq!(
        scan(b"5000000000", b"%ld"),
        (1, vec![Stored::Int(StoredInt::I64(5_000_000_000))])
    );
    assert_eq!(scan(b"-1", b"%llu"), (1, vec![Stored::Int(StoredInt::I64(-1))]));
    assert_eq!(scan(b"-1", b"%u"), (1, vec![int32(-1)]));
}

#[test]
fn suppressed_conversion_is_not_counted() {
    assert_eq!(scan(b"1 2", b"%*d %d"), (1, vec![int32(2)]));
    assert_eq!(scan(b"abc 9", b"%*s %d"), (1, vec![int32(9)]));
}

#[test]
fn input_failure_before_any_conversion_is_eof() {
    assert_eq!(scan(b"   ", b"%s"), (-1, vec![]));
    assert_eq!(scan(b"abc", b"%d"), (-1, vec![]));
    assert_eq!(scan(b"0x", b"%x"), (-1, vec![]));
    assert_eq!(scan(b"", b"a%d"), (-1, vec![]));
}

#[test]
fn failure_after_a_conversion_returns_the_count() {
    assert_eq!(scan(b"5 x", b"%d %d"), (1, vec![int32(5)]));
    assert_eq!(scan(b"5", b"%d %d"), (1, vec![int32(5)]));
}

#[test]
fn literals_must_match() {
    assert_eq!(scan(b"a7", b"a%d"), (1, vec![int32(7)]));
    assert_eq!(scan(b"b7", b"a%d"), (0, vec![]));
    assert_eq!(scan(b"x=3,y=4", b"x=%d,y=%d"), (2, vec![int32(3), int32(4)]));
}

#[test]
fn n_stores_the_input_position() {
    assert_eq!(scan(b"123 ", b"%d%n"), (1, vec![int32(123), Stored::Count(3)]));
    assert_eq!(scan(b"123", b"%d%*n"), (1, vec![int32(123)]));
}

#[test]
fn percent_matches_a_percent() {
    assert_eq!(scan(b"5%", b"%d%%"), (1, vec![int32(5)]));
    assert_eq!(scan(b"5 %", b"%d%%"), (1, vec![int32(5)]));
    assert_eq!(scan(b"5x", b"%d%%"), (1, vec![int32(5)]));
}

#[test]
fn c_takes_exactly_its_width() {
    assert_eq!(scan(b"abcdef", b"%3c"), (1, vec![Stored::Bytes(b"abc".to_vec(), false)]));
    assert_eq!(scan(b" z", b"%c"), (1, vec![Stored::Bytes(b" ".to_vec(), false)]));
    // Too few bytes: what was read is written, and the call fails.
    assert_eq!(scan(b"ab", b"%3c"), (-1, vec![Stored::Bytes(b"ab".to_vec(), false)]));
}

#[test]
fn unsupported_conversion_stops_the_scan() {
    assert_eq!(scan(b"1 2.5", b"%d %f"), (1, vec![int32(1)]));
    assert_eq!(scan(b"1", b"%q"), (0, vec![]));
}

#[test]
fn empty_format_matches_nothing() {
    assert_eq!(scan(b"abc", b""), (0, vec![]));
}

#[test]
fn stored_int_keeps_the_low_bits() {
    assert_eq!(stored_int(0x1ff, -2), StoredInt::I8(-1));
    assert_eq!(stored_int(0x18000, -1), StoredInt::I16(-32768));
    assert_eq!(stored_int(0x1_0000_0005, 0), StoredInt::I32(5));
    assert_eq!(stored_int(u64::MAX, 1), StoredInt::I64(-1));
    assert_eq!(stored_int(7, 3), StoredInt::I64(7));
}

#[test]
fn a_step_moves_forward() {
    let mut st = ScanState::new();
    let inp = b"12 34";
    let fmt = b"%d %d";
    let before = st;
    match scan_step(inp, fmt, &mut st) {
        ScanAction::StoreInt { value, len } => {
            assert_eq!(value, 12);
            assert_eq!(len, 0);
        }
        other => panic!("unexpected {:?}", other),
    }
    assert!(st.ii > before.ii);
    assert!(st.fi > before.fi);
    assert_eq!(st.matched, 1);
}

/// Run a scan with every destination present: the result, and how many
/// conversions were stored and counted.
fn run_counting(inp: &[u8], fmt: &[u8]) -> (i32, i32) {
    let mut st = ScanState::new();
    let mut counted = 0;
    let mut steps = 0;
    loop {
        steps += 1;
        assert!(steps <= fmt.len() + 2, "the scan runs too long");
        match scan_step(inp, fmt, &mut st) {
            ScanAction::Finish(r) => return (r, counted),
            ScanAction::StoreInt { .. } => counted += 1,
            ScanAction::StoreBytes { finish: Some(r), .. } => return (r, counted),
            ScanAction::StoreBytes { finish: None, .. } => {
                st.count_store();
                counted += 1;
            }
            _ => {}
        }
    }
}

#[test]
fn result_is_the_count_of_stores() {
    let cases: [(&[u8], &[u8]); 10] = [
        (b"12 34 56", b"%d %d %d"),
        (b"12 x", b"%d %d"),
        (b"abc def", b"%s %s %d"),
        (b"", b"%d"),
        (b"ab", b"%3c"),
        (b"ab", b"%2c%d"),
        (b"a=1", b"a=%d%n"),
        (b"zz", b"%*s"),
        (b"q", b"x"),
        (b"7%", b"%d%%"),
    ];
    for (inp, fmt) in cases {
        let (r, counted) = run_counting(inp, fmt);
        assert!(r == counted || (r == -1 && counted == 0), "{:?} {:?}", inp, fmt);
    }
}

#[test]
fn store_count_wraps_as_a_c_int() {
    let mut st = ScanState { ii: 0, fi: 0, matched: i32::MAX, any_input: true };
    st.count_store();
    assert_eq!(st.matched, i32::MIN);
    let mut st = ScanState::new();
    st.count_store();
    assert_eq!(st.matched, 1);
}

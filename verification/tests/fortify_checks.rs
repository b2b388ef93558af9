use taproot::fortify::{vsnprintf_chk_ok, vsprintf_chk_fits, vsprintf_chk_room};

#[test]
fn snprintf_buffer_must_hold_the_asked_size() {
    assert!(vsnprintf_chk_ok(10, 10));
    assert!(vsnprintf_chk_ok(10, 64));
    assert!(!vsnprintf_chk_ok(64, 10));
    assert!(vsnprintf_chk_ok(0, 0));
}

#[test]
fn sprintf_output_must_fit() {
    assert!(!vsprintf_chk_room(0));
    assert!(vsprintf_chk_room(1));
    assert!(vsprintf_chk_fits(9, 10));
    assert!(!vsprintf_chk_fits(10, 10));
    assert!(!vsprintf_chk_fits(11, 10));
    assert!(vsprintf_chk_fits(-1, 10));
}

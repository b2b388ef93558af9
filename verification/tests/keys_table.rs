use taproot::keys::{get_specific, next_epoch, set_specific, KeyTable, ThreadValues, PTHREAD_KEYS_MAX};
use taproot::sync::{EAGAIN, EINVAL};

#[test]
fn keys_are_handed_out_in_order() {
    let mut t: KeyTable<u8> = KeyTable::new();
    assert_eq!(t.create(1), Ok((0, false)));
    assert_eq!(t.create(2), Ok((1, false)));
    assert_eq!(t.destructor(0), Some(1));
    assert_eq!(t.destructor(1), Some(2));
    assert_eq!(t.destructor(2), None);
    t.delete(0);
    assert_eq!(t.destructor(0), None);
    // While never-used keys remain, a deleted one is not reused.
    assert_eq!(t.create(3), Ok((2, false)));
}

#[test]
fn a_full_table_reuses_the_lowest_free_key() {
    let mut t: KeyTable<u32> = KeyTable::new();
    for k in 0..PTHREAD_KEYS_MAX {
        assert_eq!(t.create(k), Ok((k, false)));
    }
    assert_eq!(t.create(9999), Err(EAGAIN));
    t.delete(700);
    t.delete(5);
    // Reuse: the caller must move the key to a new epoch.
    assert_eq!(t.create(42), Ok((5, true)));
    assert_eq!(t.destructor(5), Some(42));
    assert_eq!(t.create(43), Ok((700, true)));
    assert_eq!(t.create(44), Err(EAGAIN));
}

#[test]
fn get_after_set() {
    let mut v = ThreadValues::new();
    assert_eq!(v.get(3, 0), 0);
    assert_eq!(set_specific(&mut v, 3, Some(0), 0xdead), 0);
    assert_eq!(get_specific(Some(&v), 3, Some(0)), 0xdead);
    // Other keys are untouched.
    assert_eq!(get_specific(Some(&v), 4, Some(0)), 0);
    // Once the key is handed out again (a later epoch), the old value reads
    // as null.
    assert_eq!(get_specific(Some(&v), 3, Some(1)), 0);
    assert_eq!(set_specific(&mut v, 3, Some(1), 7), 0);
    assert_eq!(get_specific(Some(&v), 3, Some(1)), 7);
}

#[test]
fn out_of_range_keys() {
    let mut v = ThreadValues::new();
    assert_eq!(set_specific(&mut v, PTHREAD_KEYS_MAX, None, 1), EINVAL);
    assert_eq!(set_specific(&mut v, 5000, Some(0), 1), EINVAL);
    assert_eq!(get_specific(Some(&v), 5000, None), 0);
    // A thread that stored nothing reads null everywhere.
    assert_eq!(get_specific(None, 3, Some(0)), 0);
}

#[test]
fn values_built_in_a_caller_buffer_start_null() {
    let mut buf = Vec::new();
    buf.try_reserve_exact(PTHREAD_KEYS_MAX as usize).unwrap();
    let mut v = ThreadValues::from_buffer(buf);
    assert_eq!(v.get(5, 0), 0);
    assert_eq!(set_specific(&mut v, 5, Some(0), 42), 0);
    assert_eq!(v.get(5, 0), 42);
}

#[test]
fn reused_key_epochs() {
    assert_eq!(next_epoch(0), Some(1));
    assert_eq!(next_epoch(41), Some(42));
    assert_eq!(next_epoch(u32::MAX), None);
}

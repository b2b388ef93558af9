use taproot::report::{clock_nanos, fail_message, rate_line, rate_x100};

#[test]
fn failure_line() {
    assert_eq!(fail_message(b"memcpy", 4097, 107), b"FAIL memcpy size=4097 off=107\n".to_vec());
    assert_eq!(fail_message(b"", 0, 0), b"FAIL  size=0 off=0\n".to_vec());
}

#[test]
fn rate_with_two_decimals() {
    let big = 128 * 1024 * 1024;
    // 128 MiB in 10 ms is 13.42 GB/s.
    let x = rate_x100(big, 10_000_000);
    assert_eq!(x, 1342);
    assert_eq!(rate_line(b"memcpy 128MiB best: ", x), b"memcpy 128MiB best: 13.42 GB/s\n".to_vec());
    assert_eq!(rate_line(b"r: ", 5), b"r: 0.05 GB/s\n".to_vec());
    // A zero time counts as one nanosecond.
    assert_eq!(rate_x100(1, 0), 100);
}

#[test]
fn clock_reading() {
    assert_eq!(clock_nanos(2, 5), 2_000_000_005);
    assert_eq!(clock_nanos(0, 0), 0);
}

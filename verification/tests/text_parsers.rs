use taproot::decimal::{decimal_digits, proc_fd_path, radix_text, signed_text};
use taproot::environ::environ_entries;
use taproot::status::status_ids;

const STATUS: &[u8] = b"Name:\tcat\nUmask:\t0022\nState:\tR (running)\n\
Uid:\t1000\t1001\t1002\t1003\nGid:\t100\t101\t102\t103\nGroups:\t10 100\n";

#[test]
fn status_ids_reads_real_effective_saved() {
    assert_eq!(status_ids(STATUS, b"Uid:"), Some([1000, 1001, 1002]));
    assert_eq!(status_ids(STATUS, b"Gid:"), Some([100, 101, 102]));
}

#[test]
fn status_ids_needs_three_numbers() {
    // `Groups:` has two numbers only.
    assert_eq!(status_ids(STATUS, b"Groups:"), None);
    assert_eq!(status_ids(STATUS, b"Nope:"), None);
    assert_eq!(status_ids(b"", b"Uid:"), None);
}

#[test]
fn status_ids_takes_the_first_tagged_line() {
    let s = b"Uid:\t1 2\nUid:\t4 5 6\n";
    // The first `Uid:` line decides, even when it is short.
    assert_eq!(status_ids(s, b"Uid:"), None);
    let s = b"X\nUid: 7 8 9";
    assert_eq!(status_ids(s, b"Uid:"), Some([7, 8, 9]));
}

#[test]
fn status_numbers_wrap_as_u32() {
    let s = b"Uid:\t4294967296 4294967297 3\n";
    assert_eq!(status_ids(s, b"Uid:"), Some([0, 1, 3]));
}

#[test]
fn environ_splits_on_nul() {
    let block = b"A=1\0B=22\0\0C=3\0D";
    // The empty entry is skipped and the unterminated one dropped.
    assert_eq!(environ_entries(block, 4095), vec![0, 4, 10]);
    assert_eq!(environ_entries(block, 2), vec![0, 4]);
    assert_eq!(environ_entries(block, 0), Vec::<usize>::new());
    assert_eq!(environ_entries(b"", 10), Vec::<usize>::new());
    assert_eq!(environ_entries(b"\0\0", 10), Vec::<usize>::new());
}

#[test]
fn decimal_digits_of_u64() {
    assert_eq!(decimal_digits(0), b"0".to_vec());
    assert_eq!(decimal_digits(7), b"7".to_vec());
    assert_eq!(decimal_digits(1234567890), b"1234567890".to_vec());
    assert_eq!(decimal_digits(u64::MAX), b"18446744073709551615".to_vec());
}

#[test]
fn proc_fd_path_names_the_descriptor() {
    assert_eq!(proc_fd_path(3), b"/proc/self/fd/3\0".to_vec());
    assert_eq!(proc_fd_path(1234), b"/proc/self/fd/1234\0".to_vec());
    assert_eq!(proc_fd_path(0), b"/proc/self/fd/0\0".to_vec());
    assert_eq!(proc_fd_path(-5), b"/proc/self/fd/-5\0".to_vec());
    assert_eq!(proc_fd_path(i32::MIN), b"/proc/self/fd/-2147483648\0".to_vec());
}

#[test]
fn radix_text_in_each_base() {
    assert_eq!(radix_text(255, 16, false), b"ff".to_vec());
    assert_eq!(radix_text(255, 16, true), b"FF".to_vec());
    assert_eq!(radix_text(8, 8, false), b"10".to_vec());
    assert_eq!(radix_text(5, 2, false), b"101".to_vec());
    assert_eq!(radix_text(0, 10, false), b"0".to_vec());
    assert_eq!(radix_text(u64::MAX, 16, false), b"ffffffffffffffff".to_vec());
    assert_eq!(radix_text(12345, 10, false), decimal_digits(12345));
}

#[test]
fn signed_text_has_a_minus() {
    assert_eq!(signed_text(-1), b"-1".to_vec());
    assert_eq!(signed_text(0), b"0".to_vec());
    assert_eq!(signed_text(42), b"42".to_vec());
    assert_eq!(signed_text(i64::MIN), b"-9223372036854775808".to_vec());
}

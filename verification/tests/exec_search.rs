use taproot::exec::{default_search_path, has_slash, longest_dir, PathSearch, EACCES, ENOENT, ENOTDIR};

/// Every candidate of a search over `path` for `file`, in order.
fn candidates(path: &[u8], file: &[u8]) -> Vec<Vec<u8>> {
    let mut buf = vec![0u8; longest_dir(path) + file.len() + 2];
    let mut search = PathSearch::new();
    let mut out = Vec::new();
    while let Some(n) = search.next_candidate(path, file, &mut buf) {
        out.push(buf[..n].to_vec());
    }
    out
}

#[test]
fn default_path_is_bin_then_usr_bin() {
    assert_eq!(&default_search_path(), b"/bin:/usr/bin");
    assert_eq!(
        candidates(&default_search_path(), b"ls"),
        vec![b"/bin/ls\0".to_vec(), b"/usr/bin/ls\0".to_vec()]
    );
}

#[test]
fn each_directory_in_order() {
    assert_eq!(
        candidates(b"/a:/bb/c:/d", b"prog"),
        vec![b"/a/prog\0".to_vec(), b"/bb/c/prog\0".to_vec(), b"/d/prog\0".to_vec()]
    );
}

#[test]
fn empty_items_are_tried_as_they_stand() {
    assert_eq!(candidates(b"", b"x"), vec![b"/x\0".to_vec()]);
    assert_eq!(
        candidates(b"/a::", b"x"),
        vec![b"/a/x\0".to_vec(), b"/x\0".to_vec(), b"/x\0".to_vec()]
    );
}

#[test]
fn longest_directory() {
    assert_eq!(longest_dir(b"/bin:/usr/bin"), 8);
    assert_eq!(longest_dir(b""), 0);
    assert_eq!(longest_dir(b"abc::de"), 3);
}

#[test]
fn slash_means_no_search() {
    assert!(has_slash(b"./run"));
    assert!(has_slash(b"/usr/bin/env"));
    assert!(!has_slash(b"env"));
    assert!(!has_slash(b""));
}

#[test]
fn errors_decide_whether_the_search_goes_on() {
    let mut s = PathSearch::new();
    assert_eq!(s.record_error(ENOENT), None);
    assert_eq!(s.final_errno(), ENOENT);
    assert_eq!(s.record_error(ENOTDIR), None);
    assert!(!s.access_error);
    assert_eq!(s.record_error(EACCES), None);
    assert!(s.access_error);
    assert_eq!(s.final_errno(), EACCES);
    // Any other error ends the search with it.
    assert_eq!(s.record_error(8), Some(8));
    assert_eq!(s.record_error(12), Some(12));
}

#[test]
fn a_finished_search_stays_finished() {
    let path = b"/only";
    let mut buf = vec![0u8; 32];
    let mut s = PathSearch::new();
    assert_eq!(s.next_candidate(path, b"f", &mut buf), Some(8));
    assert!(s.done);
    let before = buf.clone();
    assert_eq!(s.next_candidate(path, b"f", &mut buf), None);
    assert_eq!(buf, before);
}

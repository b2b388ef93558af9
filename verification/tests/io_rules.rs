use taproot::fcntl::{
    fcntl_op, flock_op, lockf_op, lockf_releases_after, open_mode, whole_file, FcntlOp, LockOp, F_DUPFD_CLOEXEC,
    F_GETFD, F_GETFL, F_LOCK, F_RDLCK, F_SETFD, F_SETFL, F_SETLK, F_SETLKW, F_TEST, F_TLOCK,
    F_ULOCK, F_UNLCK, F_WRLCK, SEEK_SET,
};
use taproot::io::{
    dirent_records, getdelim_grow, getdelim_result, getdelim_start, getdelim_step, LineStep, ioctl_op, IoctlOp, FICLONE,
    FIONBIO, GETDELIM_INITIAL_CAP, TCGETS, TIOCGWINSZ, TIOCINQ,
};
use taproot::syslog::{log_mask_step, LOG_DEFAULT_MASK};

#[test]
fn fcntl_commands() {
    assert_eq!(fcntl_op(F_GETFL, 0), FcntlOp::GetFl);
    assert_eq!(fcntl_op(F_SETFL, 0x800), FcntlOp::SetFl(0x800));
    assert_eq!(fcntl_op(F_GETFD, 0), FcntlOp::GetFd);
    assert_eq!(fcntl_op(F_SETFD, 1), FcntlOp::SetFd(1));
    assert_eq!(fcntl_op(F_SETLK, 0), FcntlOp::SetLock { blocking: false });
    assert_eq!(fcntl_op(F_SETLKW, 0), FcntlOp::SetLock { blocking: true });
    assert_eq!(fcntl_op(F_DUPFD_CLOEXEC, 10), FcntlOp::DupFdCloexec(10));
    // The integer argument is the low 32 bits.
    assert_eq!(fcntl_op(F_SETFL, 0x1_0000_0002), FcntlOp::SetFl(2));
    // Unknown commands are EINVAL, not a crash.
    assert_eq!(fcntl_op(0x7fff, 0), FcntlOp::Invalid);
    assert_eq!(fcntl_op(-1, 0), FcntlOp::Invalid);
}

#[test]
fn record_locks() {
    assert_eq!(flock_op(F_RDLCK, true), Some(LockOp::LockShared));
    assert_eq!(flock_op(F_WRLCK, true), Some(LockOp::LockExclusive));
    assert_eq!(flock_op(F_UNLCK, true), Some(LockOp::Unlock));
    assert_eq!(flock_op(F_RDLCK, false), Some(LockOp::NonBlockingLockShared));
    assert_eq!(flock_op(F_WRLCK, false), Some(LockOp::NonBlockingLockExclusive));
    assert_eq!(flock_op(F_UNLCK, false), Some(LockOp::NonBlockingUnlock));
    assert_eq!(flock_op(7, true), None);
    assert!(whole_file(SEEK_SET, 0, 0));
    assert!(!whole_file(SEEK_SET, 10, 0));
    assert!(!whole_file(1, 0, 0));
    assert!(!whole_file(SEEK_SET, 0, 100));
}

#[test]
fn lockf_commands() {
    assert_eq!(lockf_op(F_ULOCK), Some(LockOp::Unlock));
    assert_eq!(lockf_op(F_LOCK), Some(LockOp::LockExclusive));
    assert_eq!(lockf_op(F_TLOCK), Some(LockOp::NonBlockingLockExclusive));
    assert_eq!(lockf_op(F_TEST), Some(LockOp::NonBlockingLockExclusive));
    assert_eq!(lockf_op(9), None);
    assert!(lockf_releases_after(F_TEST));
    assert!(!lockf_releases_after(F_TLOCK));
}

#[test]
fn ioctl_requests() {
    assert_eq!(ioctl_op(TCGETS), IoctlOp::GetTermios);
    assert_eq!(ioctl_op(FIONBIO), IoctlOp::SetNonBlocking);
    assert_eq!(ioctl_op(TIOCINQ), IoctlOp::SetNonBlocking);
    assert_eq!(ioctl_op(TIOCGWINSZ), IoctlOp::GetWindowSize);
    assert_eq!(ioctl_op(FICLONE), IoctlOp::CloneFile);
    // Driver-specific requests go to the kernel.
    assert_eq!(ioctl_op(0xc010_6440), IoctlOp::Passthrough);
}

fn dirent(name: &[u8], reclen: u16) -> Vec<u8> {
    let mut v = vec![0u8; reclen as usize];
    v[16] = (reclen & 0xff) as u8;
    v[17] = (reclen >> 8) as u8;
    v[19..19 + name.len()].copy_from_slice(name);
    v
}

#[test]
fn directory_records() {
    let mut buf = dirent(b".", 24);
    buf.extend(dirent(b"..", 24));
    buf.extend(dirent(b"a-long-file-name", 40));
    assert_eq!(dirent_records(&buf), vec![(0, 24), (24, 24), (48, 40)]);
    assert_eq!(dirent_records(&[]), vec![]);
    // A record whose length runs past the buffer ends the walk.
    let mut short = dirent(b"x", 24);
    short.extend(dirent(b"y", 24));
    short[24 + 16] = 200;
    assert_eq!(dirent_records(&short), vec![(0, 24)]);
    // So does a zero length.
    let mut zero = dirent(b"x", 24);
    zero[16] = 0;
    assert_eq!(dirent_records(&zero), vec![]);
    // A record length above 255 uses both bytes.
    assert_eq!(dirent_records(&dirent(b"big", 300)), vec![(0, 300)]);
}

#[test]
fn getdelim_buffer() {
    assert_eq!(getdelim_start(true, 0), Some(GETDELIM_INITIAL_CAP));
    assert_eq!(getdelim_start(false, 0), Some(128));
    assert_eq!(getdelim_start(false, 10), None);
    assert_eq!(getdelim_grow(0, 128), None);
    assert_eq!(getdelim_grow(126, 128), None);
    assert_eq!(getdelim_grow(127, 128), Some(256));
    assert_eq!(getdelim_grow(200, 128), Some(256));
    assert_eq!(getdelim_result(0), -1);
    assert_eq!(getdelim_result(17), 17);
}

#[test]
fn log_mask_round_trips() {
    let (m, old) = log_mask_step(LOG_DEFAULT_MASK, 0);
    assert_eq!((m, old), (0xff, 0xff));
    let (m, old) = log_mask_step(m, 0x0f);
    assert_eq!((m, old), (0x0f, 0xff));
    let (m, answer) = log_mask_step(m, 0);
    assert_eq!((m, answer), (0x0f, 0x0f));
}

#[test]
fn open_reads_the_mode_only_when_creating() {
    const O_WRONLY: u32 = 0o1;
    const O_RDWR: u32 = 0o2;
    const O_DIRECTORY: u32 = 0o200000;
    // The file type bits are dropped.
    assert_eq!(open_mode(0o100 | O_WRONLY, 0o100644), 0o644);
    assert_eq!(open_mode(0o20000000 | O_DIRECTORY | O_RDWR, 0o600), 0o600);
    // Without O_CREAT or O_TMPFILE the mode argument is garbage and ignored.
    assert_eq!(open_mode(O_RDWR, 0o777), 0);
    assert_eq!(open_mode(O_DIRECTORY, 0o755), 0);
    // Half of O_TMPFILE's bits do not make a temporary file.
    assert_eq!(open_mode(0o20000000, 0o600), 0);
}

/// One `getdelim` call over the stream `s` from `pos`: its result, the new
/// position, the capacity, and the stored line.
fn getdelim_once(s: &[u8], pos: usize, delim: u8, buf_null: bool, cap: usize) -> (isize, usize, usize, Vec<u8>) {
    let mut cap = cap;
    if let Some(c) = getdelim_start(buf_null, cap) {
        cap = c;
    }
    let mut line = Vec::new();
    let mut p = pos;
    loop {
        // The stream's byte, or -1 at its end.
        let c: i32 = if p < s.len() { s[p] as i32 } else { -1 };
        match getdelim_step(line.len(), cap, c, delim as i32) {
            LineStep::End => break,
            LineStep::Store { grow, last } => {
                p += 1;
                if let Some(g) = grow {
                    cap = g;
                }
                line.push(c as u8);
                if last {
                    break;
                }
            }
        }
    }
    (getdelim_result(line.len()), p, cap, line)
}

#[test]
fn getdelim_reads_line_by_line() {
    let s = b"ab\ncd";
    let (r1, p1, c1, l1) = getdelim_once(s, 0, b'\n', true, 0);
    assert_eq!((r1, p1, c1), (3, 3, 128));
    assert_eq!(l1, b"ab\n".to_vec());
    let (r2, p2, c2, l2) = getdelim_once(s, p1, b'\n', false, c1);
    assert_eq!((r2, p2, c2), (2, 5, 128));
    assert_eq!(l2, b"cd".to_vec());
    let (r3, p3, c3, _) = getdelim_once(s, p2, b'\n', false, c2);
    assert_eq!((r3, p3, c3), (-1, 5, 128));
}

#[test]
fn getdelim_steps() {
    assert!(matches!(getdelim_step(0, 128, -1, 10), LineStep::End));
    assert!(matches!(getdelim_step(0, 128, 97, 10), LineStep::Store { grow: None, last: false }));
    assert!(matches!(getdelim_step(5, 128, 10, 10), LineStep::Store { grow: None, last: true }));
    assert!(matches!(getdelim_step(127, 128, 97, 10), LineStep::Store { grow: Some(256), last: false }));
    // A delimiter outside the byte range never ends a line.
    assert!(matches!(getdelim_step(0, 128, 10, 266), LineStep::Store { grow: None, last: false }));
}

//! The commands of `fcntl` and `lockf`, and the mode `open` passes on.
//! Record locks are served as
//! whole-file locks: a lock request names a read, write or unlock operation,
//! waiting or not, and only a lock on the whole file (start and length zero
//! from the beginning) is supported.

use vstd::prelude::*;

verus! {

/// Get the descriptor flags.
pub const F_GETFD: i32 = 1;
/// Set the descriptor flags.
pub const F_SETFD: i32 = 2;
/// Get the file status flags.
pub const F_GETFL: i32 = 3;
/// Set the file status flags.
pub const F_SETFL: i32 = 4;
/// Set a record lock without waiting.
pub const F_SETLK: i32 = 6;
/// Set a record lock, waiting for it.
pub const F_SETLKW: i32 = 7;
/// Duplicate a descriptor with close-on-exec set.
pub const F_DUPFD_CLOEXEC: i32 = 1030;

/// A read lock.
pub const F_RDLCK: i16 = 0;
/// A write lock.
pub const F_WRLCK: i16 = 1;
/// No lock.
pub const F_UNLCK: i16 = 2;
/// Offsets from the start of the file.
pub const SEEK_SET: i16 = 0;

/// `lockf`: unlock.
pub const F_ULOCK: i32 = 0;
/// `lockf`: lock, waiting.
pub const F_LOCK: i32 = 1;
/// `lockf`: lock without waiting.
pub const F_TLOCK: i32 = 2;
/// `lockf`: test for a lock.
pub const F_TEST: i32 = 3;

/// What an `fcntl` call does.
#[derive(Debug, Copy, Clone, PartialEq, Eq, Structural)]
pub enum FcntlOp {
    /// Return the file status flags.
    GetFl,
    /// Set the file status flags to these bits.
    SetFl(i32),
    /// Return the descriptor flags.
    GetFd,
    /// Set the descriptor flags to these bits.
    SetFd(i32),
    /// Lock or unlock the file as the record at the argument says.
    SetLock { blocking: bool },
    /// Duplicate onto the lowest descriptor at or above this one, with
    /// close-on-exec.
    DupFdCloexec(i32),
    /// An unsupported command: `EINVAL`.
    Invalid,
}

/// The operation of `fcntl(fd, cmd, arg)`.
pub open spec fn spec_fcntl_op(cmd: i32, arg: i64) -> FcntlOp {
    if cmd == F_GETFL {
        FcntlOp::GetFl
    } else if cmd == F_SETFL {
        FcntlOp::SetFl(arg as i32)
    } else if cmd == F_GETFD {
        FcntlOp::GetFd
    } else if cmd == F_SETFD {
        FcntlOp::SetFd(arg as i32)
    } else if cmd == F_SETLK || cmd == F_SETLKW {
        FcntlOp::SetLock { blocking: cmd == F_SETLKW }
    } else if cmd == F_DUPFD_CLOEXEC {
        FcntlOp::DupFdCloexec(arg as i32)
    } else {
        FcntlOp::Invalid
    }
}

/// The operation of `fcntl(fd, cmd, arg)`; an integer argument is the low
/// 32 bits of `arg`.
pub fn fcntl_op(cmd: i32, arg: i64) -> (r: FcntlOp)
    ensures
        r == spec_fcntl_op(cmd, arg),
{
    if cmd == F_GETFL {
        FcntlOp::GetFl
    } else if cmd == F_SETFL {
        FcntlOp::SetFl(arg as i32)
    } else if cmd == F_GETFD {
        FcntlOp::GetFd
    } else if cmd == F_SETFD {
        FcntlOp::SetFd(arg as i32)
    } else if cmd == F_SETLK || cmd == F_SETLKW {
        FcntlOp::SetLock { blocking: cmd == F_SETLKW }
    } else if cmd == F_DUPFD_CLOEXEC {
        FcntlOp::DupFdCloexec(arg as i32)
    } else {
        FcntlOp::Invalid
    }
}

/// A whole-file lock operation.
#[derive(Debug, Copy, Clone, PartialEq, Eq, Structural)]
pub enum LockOp {
    LockShared,
    LockExclusive,
    Unlock,
    NonBlockingLockShared,
    NonBlockingLockExclusive,
    NonBlockingUnlock,
}

/// The lock operation of a record lock of type `l_type`.
pub open spec fn spec_flock_op(l_type: i16, blocking: bool) -> Option<LockOp> {
    if l_type == F_RDLCK {
        Some(if blocking { LockOp::LockShared } else { LockOp::NonBlockingLockShared })
    } else if l_type == F_WRLCK {
        Some(if blocking { LockOp::LockExclusive } else { LockOp::NonBlockingLockExclusive })
    } else if l_type == F_UNLCK {
        Some(if blocking { LockOp::Unlock } else { LockOp::NonBlockingUnlock })
    } else {
        None
    }
}

/// The lock operation of a record lock of type `l_type`; `None` (`EINVAL`)
/// for an unknown type.
pub fn flock_op(l_type: i16, blocking: bool) -> (r: Option<LockOp>)
    ensures
        r == spec_flock_op(l_type, blocking),
{
    if l_type == F_RDLCK {
        Some(
            if blocking {
                LockOp::LockShared
            } else {
                LockOp::NonBlockingLockShared
            },
        )
    } else if l_type == F_WRLCK {
        Some(
            if blocking {
                LockOp::LockExclusive
            } else {
                LockOp::NonBlockingLockExclusive
            },
        )
    } else if l_type == F_UNLCK {
        Some(
            if blocking {
                LockOp::Unlock
            } else {
                LockOp::NonBlockingUnlock
            },
        )
    } else {
        None
    }
}

/// A record that covers the whole file: from the start, with offset and
/// length zero. Only such records are supported.
pub fn whole_file(whence: i16, start: i64, len: i64) -> (r: bool)
    ensures
        r == (whence == SEEK_SET && start == 0 && len == 0),
{
    whence == SEEK_SET && start == 0 && len == 0
}

/// The lock operation of `lockf(fd, cmd, _)`.
pub open spec fn spec_lockf_op(cmd: i32) -> Option<LockOp> {
    if cmd == F_ULOCK {
        Some(LockOp::Unlock)
    } else if cmd == F_LOCK {
        Some(LockOp::LockExclusive)
    } else if cmd == F_TLOCK || cmd == F_TEST {
        Some(LockOp::NonBlockingLockExclusive)
    } else {
        None
    }
}

/// The lock operation of `lockf(fd, cmd, _)`; a section lock locks the
/// whole file. `None` (`EINVAL`) for an unknown command.
pub fn lockf_op(cmd: i32) -> (r: Option<LockOp>)
    ensures
        r == spec_lockf_op(cmd),
{
    if cmd == F_ULOCK {
        Some(LockOp::Unlock)
    } else if cmd == F_LOCK {
        Some(LockOp::LockExclusive)
    } else if cmd == F_TLOCK || cmd == F_TEST {
        Some(LockOp::NonBlockingLockExclusive)
    } else {
        None
    }
}

/// `lockf` with `F_TEST` only probes: a lock it took is released again.
pub fn lockf_releases_after(cmd: i32) -> (r: bool)
    ensures
        r == (cmd == F_TEST),
{
    cmd == F_TEST
}

/// Create the file if it does not exist.
pub const O_CREAT: u32 = 0o100;
/// Make an unnamed temporary file in the directory (with `O_DIRECTORY`'s
/// bit).
pub const O_TMPFILE: u32 = 0o20200000;
/// The file type bits of a mode.
pub const S_IFMT: u32 = 0o170000;

/// The mode `open` passes on for `flags` and the caller's `mode`.
pub open spec fn spec_open_mode(flags: u32, mode: u32) -> u32 {
    if flags & O_CREAT == O_CREAT || flags & O_TMPFILE == O_TMPFILE {
        mode & !S_IFMT
    } else {
        0
    }
}

/// The mode `open` passes on: the caller's mode without its file type
/// bits when the flags create a file (`O_CREAT`, or all of `O_TMPFILE`'s
/// bits), else none (the mode argument was not passed and is not read).
pub fn open_mode(flags: u32, mode: u32) -> (r: u32)
    ensures
        r == spec_open_mode(flags, mode),
{
    if flags & O_CREAT == O_CREAT || flags & O_TMPFILE == O_TMPFILE {
        mode & !S_IFMT
    } else {
        0
    }
}

/// The `fcntl` commands by their Linux numbers: 3 gets and 4 sets the file
/// status flags, 1 gets and 2 sets the descriptor flags (taking the low 32
/// bits of the argument), 6 locks without waiting and 7 waiting, 1030
/// duplicates with close-on-exec, and any other command is refused.
pub proof fn law_fcntl_commands(cmd: i32, arg: i64)
    ensures
        spec_fcntl_op(3, arg) == FcntlOp::GetFl,
        spec_fcntl_op(4, arg) == FcntlOp::SetFl(arg as i32),
        spec_fcntl_op(1, arg) == FcntlOp::GetFd,
        spec_fcntl_op(2, arg) == FcntlOp::SetFd(arg as i32),
        spec_fcntl_op(6, arg) == (FcntlOp::SetLock { blocking: false }),
        spec_fcntl_op(7, arg) == (FcntlOp::SetLock { blocking: true }),
        spec_fcntl_op(1030, arg) == FcntlOp::DupFdCloexec(arg as i32),
        !(1 <= cmd <= 4 || cmd == 6 || cmd == 7 || cmd == 1030) ==> spec_fcntl_op(cmd, arg)
            == FcntlOp::Invalid,
{
}

/// Record lock types by their Linux numbers: 0 is a shared lock, 1 an
/// exclusive lock, 2 an unlock, each waiting or not as asked; any other
/// type is refused.
pub proof fn law_lock_types(l_type: i16, blocking: bool)
    ensures
        spec_flock_op(0, true) == Some(LockOp::LockShared),
        spec_flock_op(0, false) == Some(LockOp::NonBlockingLockShared),
        spec_flock_op(1, true) == Some(LockOp::LockExclusive),
        spec_flock_op(1, false) == Some(LockOp::NonBlockingLockExclusive),
        spec_flock_op(2, true) == Some(LockOp::Unlock),
        spec_flock_op(2, false) == Some(LockOp::NonBlockingUnlock),
        !(0 <= l_type <= 2) ==> spec_flock_op(l_type, blocking) is None,
{
}

/// `lockf` commands by their numbers: 0 unlocks, 1 locks exclusively,
/// waiting, 2 and 3 lock exclusively without waiting (3 only to test, so
/// that lock is released again); any other command is refused.
pub proof fn law_lockf_commands(cmd: i32)
    ensures
        spec_lockf_op(0) == Some(LockOp::Unlock),
        spec_lockf_op(1) == Some(LockOp::LockExclusive),
        spec_lockf_op(2) == Some(LockOp::NonBlockingLockExclusive),
        spec_lockf_op(3) == Some(LockOp::NonBlockingLockExclusive),
        !(0 <= cmd <= 3) ==> spec_lockf_op(cmd) is None,
        F_TEST == 3,
{
}

/// The mode `open` passes on when it creates a file (the flags hold
/// `O_CREAT`, 0o100, or all of `O_TMPFILE`'s bits, 0o20200000) is the
/// caller's mode with the file type bits (0o170000) cleared and every other
/// bit kept; otherwise it is 0.
pub proof fn law_open_mode(flags: u32, mode: u32)
    ensures
        ({
            let creates = flags & 0o100 == 0o100 || flags & 0o20200000 == 0o20200000;
            let r = spec_open_mode(flags, mode);
            &&& creates ==> r & 0o170000 == 0 && r | (mode & 0o170000) == mode
            &&& !creates ==> r == 0
        }),
{
    assert((mode & !0o170000u32) & 0o170000 == 0 && (mode & !0o170000u32) | (mode & 0o170000) == mode)
        by (bit_vector);
}

} // verus!

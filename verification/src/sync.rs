//! The decisions of the thread primitives. The mutexes, semaphores, barriers
//! and condition variables keep their state in atomics and futexes that the
//! caller owns; each function here takes what the caller read from that
//! state and says what to do next, so the rules (which kinds and values are
//! accepted, who may unlock, how deadlines become timeouts) are proved here.

use vstd::prelude::*;

verus! {

/// Operation not permitted.
pub const EPERM: i32 = 1;
/// Interrupted system call.
pub const EINTR: i32 = 4;
/// Try again.
pub const EAGAIN: i32 = 11;
/// Out of memory.
pub const ENOMEM: i32 = 12;
/// Device or resource busy.
pub const EBUSY: i32 = 16;
/// Invalid argument.
pub const EINVAL: i32 = 22;
/// Resource deadlock would occur.
pub const EDEADLK: i32 = 35;
/// Function not implemented.
pub const ENOSYS: i32 = 38;
/// Value too large for defined data type.
pub const EOVERFLOW: i32 = 75;
/// Connection timed out.
pub const ETIMEDOUT: i32 = 110;

/// A mutex that does not check its owner.
pub const PTHREAD_MUTEX_NORMAL: i32 = 0;
/// A mutex its owner may lock again, counting.
pub const PTHREAD_MUTEX_RECURSIVE: i32 = 1;
/// A mutex that reports relocking and foreign unlocking.
pub const PTHREAD_MUTEX_ERRORCHECK: i32 = 2;
/// The kind of a mutex made without attributes.
pub const PTHREAD_MUTEX_DEFAULT: i32 = 0;

/// No priority protocol.
pub const PTHREAD_PRIO_NONE: i32 = 0;
/// Priority inheritance.
pub const PTHREAD_PRIO_INHERIT: i32 = 1;
/// Priority ceiling.
pub const PTHREAD_PRIO_PROTECT: i32 = 2;

/// The CPU-time clock of the process.
pub const CLOCK_PROCESS_CPUTIME_ID: i32 = 2;
/// The CPU-time clock of the thread.
pub const CLOCK_THREAD_CPUTIME_ID: i32 = 3;

/// The largest value a semaphore holds.
pub const SEM_VALUE_MAX: u32 = 0x7fff_ffff;

/// `pthread_barrier_wait`'s answer to the one thread that completes a round.
pub const PTHREAD_BARRIER_SERIAL_THREAD: i32 = -1;

/// `kind` is one of the three mutex kinds.
pub open spec fn valid_kind(kind: int) -> bool {
    kind == PTHREAD_MUTEX_NORMAL || kind == PTHREAD_MUTEX_RECURSIVE || kind
        == PTHREAD_MUTEX_ERRORCHECK
}

/// The mutex type of a stored kind word: its low two bits (robust and
/// priority flags above them are not supported).
pub fn kind_type(kind: u32) -> (r: i32)
    ensures
        r == kind % 4,
{
    let t = kind & 3;
    assert(t == kind % 4) by (bit_vector)
        requires
            t == kind & 3,
    ;
    t as i32
}

/// `pthread_mutexattr_settype`: the kind word to store, or `EINVAL` for an
/// unknown kind.
pub fn mutexattr_kind(kind: i32) -> (r: Result<u32, i32>)
    ensures
        valid_kind(kind as int) ==> r == Ok::<u32, i32>(kind as u32),
        !valid_kind(kind as int) ==> r == Err::<u32, i32>(EINVAL),
{
    if kind == PTHREAD_MUTEX_NORMAL || kind == PTHREAD_MUTEX_ERRORCHECK || kind
        == PTHREAD_MUTEX_RECURSIVE {
        Ok(kind as u32)
    } else {
        Err(EINVAL)
    }
}

/// The answer of `pthread_mutexattr_setprotocol` for `protocol`.
pub open spec fn spec_mutexattr_protocol(protocol: i32) -> i32 {
    if protocol == PTHREAD_PRIO_NONE || protocol == PTHREAD_PRIO_INHERIT || protocol
        == PTHREAD_PRIO_PROTECT {
        0
    } else {
        EINVAL
    }
}

/// `pthread_mutexattr_setprotocol`: every known protocol is accepted (and
/// ignored); anything else is `EINVAL`.
pub fn mutexattr_protocol(protocol: i32) -> (r: i32)
    ensures
        r == spec_mutexattr_protocol(protocol),
{
    if protocol == PTHREAD_PRIO_NONE || protocol == PTHREAD_PRIO_INHERIT || protocol
        == PTHREAD_PRIO_PROTECT {
        0
    } else {
        EINVAL
    }
}

/// `pthread_mutex_init`: the kind word of the new mutex (the default kind
/// when there are no attributes), or `EINVAL` when the attributes hold an
/// unknown kind.
pub fn mutex_init_kind(attr_kind: Option<u32>) -> (r: Result<u32, i32>)
    ensures
        attr_kind is None ==> r == Ok::<u32, i32>(PTHREAD_MUTEX_DEFAULT as u32),
        attr_kind matches Some(k) ==> (valid_kind(k as i32 as int) ==> r == Ok::<u32, i32>(k))
            && (!valid_kind(k as i32 as int) ==> r == Err::<u32, i32>(EINVAL)),
{
    let kind = match attr_kind {
        None => PTHREAD_MUTEX_DEFAULT as u32,
        Some(k) => k,
    };
    let k = kind as i32;
    if k == PTHREAD_MUTEX_NORMAL || k == PTHREAD_MUTEX_RECURSIVE || k == PTHREAD_MUTEX_ERRORCHECK {
        Ok(kind)
    } else {
        Err(EINVAL)
    }
}

/// What `pthread_mutex_lock` does.
#[derive(Debug, Copy, Clone, PartialEq, Eq, Structural)]
pub enum LockPlan {
    /// The owner locks a recursive mutex again: add one to its count.
    Reenter,
    /// Fail with this error, leaving the mutex alone.
    Fail(i32),
    /// Take the lock (waiting for it), then record the caller as owner.
    AcquireOwned,
    /// Take the lock (waiting for it); no owner is kept.
    Acquire,
}

/// What `pthread_mutex_lock` does on a mutex of kind word `kind` whose
/// recorded owner is `owner`, when thread `me` calls it.
pub open spec fn lock_plan(kind: u32, owner: usize, me: usize) -> LockPlan {
    if kind % 4 == PTHREAD_MUTEX_RECURSIVE {
        if owner == me {
            LockPlan::Reenter
        } else {
            LockPlan::AcquireOwned
        }
    } else if kind % 4 == PTHREAD_MUTEX_ERRORCHECK {
        if owner == me {
            LockPlan::Fail(EDEADLK)
        } else {
            LockPlan::AcquireOwned
        }
    } else {
        LockPlan::Acquire
    }
}

/// `pthread_mutex_lock` on a mutex of kind word `kind` whose recorded owner
/// is `owner`, by thread `me`.
pub fn mutex_lock_plan(kind: u32, owner: usize, me: usize) -> (r: LockPlan)
    ensures
        r == lock_plan(kind, owner, me),
{
    let t = kind_type(kind);
    if t == PTHREAD_MUTEX_RECURSIVE {
        if owner == me {
            LockPlan::Reenter
        } else {
            LockPlan::AcquireOwned
        }
    } else if t == PTHREAD_MUTEX_ERRORCHECK {
        if owner == me {
            LockPlan::Fail(EDEADLK)
        } else {
            LockPlan::AcquireOwned
        }
    } else {
        LockPlan::Acquire
    }
}

/// What `pthread_mutex_trylock` does.
#[derive(Debug, Copy, Clone, PartialEq, Eq, Structural)]
pub enum TryLockPlan {
    /// The owner locks a recursive mutex again: add one to its count.
    Reenter,
    /// Try the lock without waiting; if it is taken, record the caller as
    /// owner, else fail with `EBUSY`.
    TryOwned,
    /// Try the lock without waiting; if it is not taken, fail with `EBUSY`.
    Try,
}

/// What `pthread_mutex_trylock` does on a mutex of kind word `kind` whose
/// recorded owner is `owner`, when thread `me` calls it.
pub open spec fn trylock_plan(kind: u32, owner: usize, me: usize) -> TryLockPlan {
    if kind % 4 == PTHREAD_MUTEX_RECURSIVE {
        if owner == me {
            TryLockPlan::Reenter
        } else {
            TryLockPlan::TryOwned
        }
    } else if kind % 4 == PTHREAD_MUTEX_ERRORCHECK {
        TryLockPlan::TryOwned
    } else {
        TryLockPlan::Try
    }
}

/// `pthread_mutex_trylock` on a mutex of kind word `kind` whose recorded
/// owner is `owner`, by thread `me`. An error-checking mutex does not test
/// for relocking here: the attempt simply finds the lock busy.
pub fn mutex_trylock_plan(kind: u32, owner: usize, me: usize) -> (r: TryLockPlan)
    ensures
        r == trylock_plan(kind, owner, me),
{
    let t = kind_type(kind);
    if t == PTHREAD_MUTEX_RECURSIVE {
        if owner == me {
            TryLockPlan::Reenter
        } else {
            TryLockPlan::TryOwned
        }
    } else if t == PTHREAD_MUTEX_ERRORCHECK {
        TryLockPlan::TryOwned
    } else {
        TryLockPlan::Try
    }
}

/// The answer of a failed lock attempt.
pub fn trylock_busy() -> (r: i32)
    ensures
        r == EBUSY,
{
    EBUSY
}

/// What `pthread_mutex_unlock` does.
#[derive(Debug, Copy, Clone, PartialEq, Eq, Structural)]
pub enum UnlockPlan {
    /// Fail with this error, leaving the mutex alone.
    Fail(i32),
    /// The owner of a relocked mutex unlocks once: take one from its count.
    Decrement,
    /// Clear the recorded owner, then release the lock.
    ReleaseOwned,
    /// Release the lock.
    Release,
}

/// What `pthread_mutex_unlock` does on a mutex of kind word `kind` with
/// recorded owner `owner` and relock count `count`, when thread `me` calls
/// it; `locked` says whether the lock is held.
pub open spec fn unlock_plan(kind: u32, owner: usize, count: u32, me: usize, locked: bool) -> UnlockPlan {
    if kind % 4 == PTHREAD_MUTEX_RECURSIVE || kind % 4 == PTHREAD_MUTEX_ERRORCHECK {
        if owner != me {
            UnlockPlan::Fail(EPERM)
        } else if count > 0 {
            UnlockPlan::Decrement
        } else {
            UnlockPlan::ReleaseOwned
        }
    } else if locked {
        UnlockPlan::Release
    } else {
        UnlockPlan::Fail(EPERM)
    }
}

/// `pthread_mutex_unlock` on a mutex of kind word `kind` with recorded owner
/// `owner` and relock count `count`, by thread `me`; `locked` says whether
/// the lock is held (it matters for a normal mutex only).
pub fn mutex_unlock_plan(kind: u32, owner: usize, count: u32, me: usize, locked: bool) -> (r: UnlockPlan)
    ensures
        r == unlock_plan(kind, owner, count, me, locked),
{
    let t = kind_type(kind);
    if t == PTHREAD_MUTEX_RECURSIVE || t == PTHREAD_MUTEX_ERRORCHECK {
        if owner != me {
            UnlockPlan::Fail(EPERM)
        } else if count > 0 {
            UnlockPlan::Decrement
        } else {
            UnlockPlan::ReleaseOwned
        }
    } else {
        if !locked {
            UnlockPlan::Fail(EPERM)
        } else {
            UnlockPlan::Release
        }
    }
}

/// `pthread_cond_wait` and `pthread_cond_timedwait` wait on normal mutexes
/// only; any other kind is `EINVAL`.
pub fn cond_wait_check(kind: u32) -> (r: Result<(), i32>)
    ensures
        kind % 4 == PTHREAD_MUTEX_NORMAL ==> r is Ok,
        kind % 4 != PTHREAD_MUTEX_NORMAL ==> r == Err::<(), i32>(EINVAL),
{
    if kind_type(kind) == PTHREAD_MUTEX_NORMAL {
        Ok(())
    } else {
        Err(EINVAL)
    }
}

/// The answer of `pthread_condattr_setclock` for `clock_id`.
pub open spec fn spec_condattr_clock(clock_id: i32) -> i32 {
    if clock_id == CLOCK_PROCESS_CPUTIME_ID || clock_id == CLOCK_THREAD_CPUTIME_ID {
        EINVAL
    } else {
        0
    }
}

/// `pthread_condattr_setclock`: the CPU-time clocks are refused with
/// `EINVAL`; every other clock is accepted.
pub fn condattr_clock(clock_id: i32) -> (r: i32)
    ensures
        r == spec_condattr_clock(clock_id),
{
    if clock_id == CLOCK_PROCESS_CPUTIME_ID || clock_id == CLOCK_THREAD_CPUTIME_ID {
        EINVAL
    } else {
        0
    }
}

/// A time as a count of nanoseconds.
pub open spec fn nanos(sec: int, nsec: int) -> int {
    sec * 1_000_000_000 + nsec
}

/// `pthread_cond_timedwait`'s wait: the time from `now` to the absolute
/// deadline `abs`, or zero when it has passed, as whole seconds and
/// nanoseconds. Both times must have a non-negative second count and a
/// nanosecond count that fits a `u32`.
pub fn cond_wait_duration(abs_sec: i64, abs_nsec: i64, now_sec: i64, now_nsec: i64) -> (r: (u64, u32))
    requires
        abs_sec >= 0,
        0 <= abs_nsec <= u32::MAX,
        now_sec >= 0,
        0 <= now_nsec <= u32::MAX,
    ensures
        ({
            let d = nanos(abs_sec as int, abs_nsec as int) - nanos(now_sec as int, now_nsec as int);
            let w = if d > 0 { d } else { 0 };
            &&& r.0 == w / 1_000_000_000
            &&& r.1 == w % 1_000_000_000
        }),
{
    let a_s: u64 = abs_sec as u64 + (abs_nsec as u64) / 1_000_000_000;
    let a_n: u64 = (abs_nsec as u64) % 1_000_000_000;
    let n_s: u64 = now_sec as u64 + (now_nsec as u64) / 1_000_000_000;
    let n_n: u64 = (now_nsec as u64) % 1_000_000_000;
    proof {
        assert(nanos(abs_sec as int, abs_nsec as int) == nanos(a_s as int, a_n as int)) by (nonlinear_arith)
            requires
                a_s == abs_sec + abs_nsec / 1_000_000_000,
                a_n == abs_nsec % 1_000_000_000,
                abs_nsec >= 0,
        ;
        assert(nanos(now_sec as int, now_nsec as int) == nanos(n_s as int, n_n as int)) by (nonlinear_arith)
            requires
                n_s == now_sec + now_nsec / 1_000_000_000,
                n_n == now_nsec % 1_000_000_000,
                now_nsec >= 0,
        ;
    }
    if a_s < n_s || (a_s == n_s && a_n <= n_n) {
        proof {
            assert(nanos(a_s as int, a_n as int) <= nanos(n_s as int, n_n as int)) by (nonlinear_arith)
                requires
                    a_s < n_s || (a_s == n_s && a_n <= n_n),
                    0 <= a_n < 1_000_000_000,
                    0 <= n_n < 1_000_000_000,
            ;
        }
        return (0, 0);
    }
    let (s, n) = if a_n >= n_n {
        (a_s - n_s, a_n - n_n)
    } else {
        (a_s - n_s - 1, a_n + 1_000_000_000 - n_n)
    };
    proof {
        let d = nanos(a_s as int, a_n as int) - nanos(n_s as int, n_n as int);
        assert(d == s * 1_000_000_000 + n) by (nonlinear_arith)
            requires
                d == (a_s * 1_000_000_000 + a_n) - (n_s * 1_000_000_000 + n_n),
                a_n >= n_n ==> s == a_s - n_s && n == a_n - n_n,
                a_n < n_n ==> s == a_s - n_s - 1 && n == a_n + 1_000_000_000 - n_n,
        ;
        assert(0 <= n < 1_000_000_000);
        assert(d / 1_000_000_000 == s && d % 1_000_000_000 == n) by (nonlinear_arith)
            requires
                d == s * 1_000_000_000 + n,
                0 <= n < 1_000_000_000,
                s >= 0,
        ;
    }
    (s, n as u32)
}

/// `sem_init`: a shared semaphore is refused with `ENOSYS` and a value above
/// `SEM_VALUE_MAX` with `EINVAL`.
pub fn sem_init_check(pshared: i32, value: u32) -> (r: Result<(), i32>)
    ensures
        pshared != 0 ==> r == Err::<(), i32>(ENOSYS),
        pshared == 0 && value > SEM_VALUE_MAX ==> r == Err::<(), i32>(EINVAL),
        pshared == 0 && value <= SEM_VALUE_MAX ==> r is Ok,
{
    if pshared != 0 {
        Err(ENOSYS)
    } else if value > SEM_VALUE_MAX {
        Err(EINVAL)
    } else {
        Ok(())
    }
}

/// A post on a semaphore whose count was `before` keeps its increment.
pub open spec fn post_accepted(before: u32) -> bool {
    before != SEM_VALUE_MAX
}

/// `sem_post`, given the count before its increment: a count already at
/// `SEM_VALUE_MAX` is `EOVERFLOW` (and the increment is to be undone).
pub fn sem_post_check(before: u32) -> (r: Result<(), i32>)
    ensures
        !post_accepted(before) ==> r == Err::<(), i32>(EOVERFLOW),
        post_accepted(before) ==> r is Ok,
{
    if before == SEM_VALUE_MAX {
        Err(EOVERFLOW)
    } else {
        Ok(())
    }
}

/// The count a wait leaves behind on count `cur`, when there is one to
/// take.
pub open spec fn spec_take(cur: u32) -> Option<u32> {
    if cur > 0 {
        Some((cur - 1) as u32)
    } else {
        None
    }
}

/// A semaphore wait's attempt on count `cur`: the count to leave, when there
/// is one to take.
pub fn sem_take(cur: u32) -> (r: Option<u32>)
    ensures
        r == spec_take(cur),
{
    if cur > 0 {
        Some(cur - 1)
    } else {
        None
    }
}

/// `sem_timedwait`'s futex timeout: the time from `now` to the absolute
/// deadline, as seconds and nanoseconds with the nanoseconds borrowed into
/// range; `None` (`ETIMEDOUT`) when the deadline has passed. The arithmetic
/// wraps as the C library's release build does.
pub open spec fn spec_sem_timeout(d_sec: i64, d_nsec: i64, n_sec: i64, n_nsec: i64) -> Option<(i64, i64)> {
    let sec = d_sec.wrapping_sub(n_sec);
    let nsec = d_nsec.wrapping_sub(n_nsec);
    let (sec, nsec) = if nsec < 0 {
        (sec.wrapping_sub(1), nsec.wrapping_add(1_000_000_000))
    } else {
        (sec, nsec)
    };
    if sec < 0 {
        None
    } else {
        Some((sec, nsec))
    }
}

/// `sem_timedwait`'s futex timeout from the deadline and the current time.
pub fn sem_timeout(d_sec: i64, d_nsec: i64, n_sec: i64, n_nsec: i64) -> (r: Option<(i64, i64)>)
    ensures
        r == spec_sem_timeout(d_sec, d_nsec, n_sec, n_nsec),
{
    let mut sec = d_sec.wrapping_sub(n_sec);
    let mut nsec = d_nsec.wrapping_sub(n_nsec);
    if nsec < 0 {
        sec = sec.wrapping_sub(1);
        nsec = nsec.wrapping_add(1_000_000_000);
    }
    if sec < 0 {
        None
    } else {
        Some((sec, nsec))
    }
}

/// `pthread_barrier_init`: a barrier for no thread is `EINVAL`.
pub fn barrier_init_check(count: u32) -> (r: i32)
    ensures
        r == if count == 0 { EINVAL } else { 0 },
{
    if count == 0 {
        EINVAL
    } else {
        0
    }
}

/// The arrival after `before` others completes a round of a barrier for
/// `count` threads (the arrival count wraps as the atomic does).
pub open spec fn round_completes(count: u32, before: u32) -> bool {
    before.wrapping_add(1) >= count
}

/// `pthread_barrier_wait`: the arrival that brings the count of arrived
/// threads (after `before` others, wrapping as the atomic does) to the
/// barrier's `count` completes the round.
pub fn barrier_completes(count: u32, before: u32) -> (r: bool)
    ensures
        r == round_completes(count, before),
{
    before.wrapping_add(1) >= count
}

/// `poll`'s timeout in milliseconds as seconds and nanoseconds; `None`
/// (wait forever) when it is negative.
pub fn poll_timeout(ms: i32) -> (r: Option<(i64, i64)>)
    ensures
        ms < 0 ==> r is None,
        ms >= 0 ==> r == Some(((ms as int / 1000) as i64, ((ms as int % 1000) * 1_000_000) as i64)),
{
    if ms < 0 {
        None
    } else {
        let t = ms as i64;
        Some((t / 1000, (t % 1000) * 1_000_000))
    }
}

/// A semaphore's count stays within `SEM_VALUE_MAX`: a post that is kept
/// leaves the count at most `SEM_VALUE_MAX`, and a wait right after it
/// takes the count back to where it was.
pub proof fn law_post_then_take(before: u32)
    requires
        before <= SEM_VALUE_MAX,
        post_accepted(before),
    ensures
        before + 1 <= SEM_VALUE_MAX,
        spec_take((before + 1) as u32) == Some(before),
{
}

/// Of the `count` arrivals of a round (the arrivals after 0, 1, ...,
/// `count - 1` others), exactly one completes it and gets the serial
/// answer: the last.
pub proof fn law_last_arrival_completes(count: u32, before: u32, other: u32)
    requires
        1 <= count,
        before < count,
        other < count,
    ensures
        round_completes(count, before) <==> before == count - 1,
        round_completes(count, (count - 1) as u32),
        round_completes(count, before) && round_completes(count, other) ==> before == other,
{
}

/// A barrier's count of arrived threads after an arrival that found
/// `before` others: the arrival that completes the round sets it back to
/// 0, any other adds itself.
pub open spec fn arrived_after(count: u32, before: u32) -> u32 {
    if round_completes(count, before) {
        0
    } else {
        before.wrapping_add(1)
    }
}

/// A barrier's count of arrived threads after `k` arrivals from a fresh
/// barrier.
pub open spec fn arrived_after_n(count: u32, k: nat) -> u32
    decreases k,
{
    if k == 0 {
        0
    } else {
        arrived_after(count, arrived_after_n(count, (k - 1) as nat))
    }
}

proof fn lemma_round_counts(count: u32, k: nat)
    requires
        1 <= count,
        k < count,
    ensures
        arrived_after_n(count, k) == k,
    decreases k,
{
    if k > 0 {
        lemma_round_counts(count, (k - 1) as nat);
    }
}

/// A round of a barrier for `count` threads, from a fresh barrier: the
/// `k`-th arrival finds `k` others before it, only the last of the `count`
/// arrivals completes the round (and gets the serial answer), and after it
/// the barrier's count is back to 0, so the next round runs the same way.
pub proof fn law_barrier_round(count: u32)
    requires
        1 <= count,
    ensures
        forall|k: nat| k < count ==> #[trigger] arrived_after_n(count, k) == k,
        forall|k: nat|
            k < count ==> (round_completes(count, #[trigger] arrived_after_n(count, k)) <==> k
                == count - 1),
        arrived_after_n(count, count as nat) == 0,
{
    assert forall|k: nat| k < count implies #[trigger] arrived_after_n(count, k) == k by {
        lemma_round_counts(count, k);
    }
    lemma_round_counts(count, (count - 1) as nat);
}

/// The state of a mutex as its C object holds it: the recorded owner (0
/// for none), the relock count, and whether the lock is held.
pub struct MutexModel {
    pub owner: usize,
    pub count: nat,
    pub locked: bool,
}

/// The state after `me`'s lock call, when the lock could be taken (a taken
/// lock by another thread waits).
pub open spec fn after_lock(kind: u32, m: MutexModel, me: usize) -> MutexModel {
    match lock_plan(kind, m.owner, me) {
        LockPlan::Reenter => MutexModel { count: m.count + 1, ..m },
        LockPlan::Fail(_) => m,
        LockPlan::AcquireOwned => MutexModel { owner: me, locked: true, ..m },
        LockPlan::Acquire => MutexModel { locked: true, ..m },
    }
}

/// The state after `me`'s unlock call, as the plan directs.
pub open spec fn after_unlock(kind: u32, m: MutexModel, me: usize) -> MutexModel {
    match unlock_plan(kind, m.owner, m.count as u32, me, m.locked) {
        UnlockPlan::Fail(_) => m,
        UnlockPlan::Decrement => MutexModel { count: (m.count - 1) as nat, ..m },
        UnlockPlan::ReleaseOwned => MutexModel { owner: 0, locked: false, ..m },
        UnlockPlan::Release => MutexModel { locked: false, ..m },
    }
}

/// `me` locks `k` times from `m`.
pub open spec fn locks(kind: u32, m: MutexModel, me: usize, k: nat) -> MutexModel
    decreases k,
{
    if k == 0 {
        m
    } else {
        after_lock(kind, locks(kind, m, me, (k - 1) as nat), me)
    }
}

/// `me` unlocks `k` times from `m`.
pub open spec fn unlocks(kind: u32, m: MutexModel, me: usize, k: nat) -> MutexModel
    decreases k,
{
    if k == 0 {
        m
    } else {
        after_unlock(kind, unlocks(kind, m, me, (k - 1) as nat), me)
    }
}

/// The free state of a mutex.
pub open spec fn free_mutex() -> MutexModel {
    MutexModel { owner: 0, count: 0, locked: false }
}

proof fn lemma_recursive_locks(kind: u32, me: usize, n: nat)
    requires
        kind % 4 == PTHREAD_MUTEX_RECURSIVE,
        me != 0,
        1 <= n,
        n <= u32::MAX + 1,
    ensures
        locks(kind, free_mutex(), me, n) == (MutexModel { owner: me, count: (n - 1) as nat, locked: true }),
    decreases n,
{
    if n > 1 {
        lemma_recursive_locks(kind, me, (n - 1) as nat);
    } else {
        assert(locks(kind, free_mutex(), me, 0) == free_mutex());
    }
}

proof fn lemma_recursive_unlocks(kind: u32, me: usize, c: nat, k: nat)
    requires
        kind % 4 == PTHREAD_MUTEX_RECURSIVE,
        me != 0,
        k <= c,
        c <= u32::MAX,
    ensures
        unlocks(kind, MutexModel { owner: me, count: c, locked: true }, me, k) == (MutexModel {
            owner: me,
            count: (c - k) as nat,
            locked: true,
        }),
    decreases k,
{
    if k > 0 {
        lemma_recursive_unlocks(kind, me, c, (k - 1) as nat);
    }
}

/// A recursive mutex that thread `me` locked `n` times from free is
/// released by exactly its `n`-th unlock: the first `n - 1` unlocks keep
/// `me` the owner and count down, the `n`-th frees the mutex, and an unlock
/// by any other thread fails with `EPERM` and changes nothing.
pub proof fn law_recursive_unlocks(kind: u32, me: usize, other: usize, n: nat, k: nat)
    requires
        kind % 4 == PTHREAD_MUTEX_RECURSIVE,
        me != 0,
        other != me,
        1 <= n <= u32::MAX,
        k < n,
    ensures
        locks(kind, free_mutex(), me, n) == (MutexModel { owner: me, count: (n - 1) as nat, locked: true }),
        unlocks(kind, locks(kind, free_mutex(), me, n), me, k) == (MutexModel {
            owner: me,
            count: (n - 1 - k) as nat,
            locked: true,
        }),
        unlocks(kind, locks(kind, free_mutex(), me, n), me, n) == free_mutex(),
        unlock_plan(kind, me, (n - 1 - k) as u32, other, true) == UnlockPlan::Fail(EPERM),
        after_unlock(kind, unlocks(kind, locks(kind, free_mutex(), me, n), me, k), other)
            == unlocks(kind, locks(kind, free_mutex(), me, n), me, k),
{
    lemma_recursive_locks(kind, me, n);
    lemma_recursive_unlocks(kind, me, (n - 1) as nat, k);
    lemma_recursive_unlocks(kind, me, (n - 1) as nat, (n - 1) as nat);
}

/// The mutex kinds by their values: kind word 0 (normal) neither checks
/// nor counts, so locking takes the lock and unlocking a held lock releases
/// it (an unheld one is `EPERM`, 1); kind word 1 (recursive) lets its owner
/// lock again; kind word 2 (error-checking) refuses its owner's relock with
/// `EDEADLK` (35); under kinds 1 and 2 only the owner may unlock, anyone
/// else gets `EPERM`.
pub proof fn law_mutex_kinds(kind: u32, owner: usize, count: u32, me: usize, locked: bool)
    ensures
        kind % 4 == 0 ==> lock_plan(kind, owner, me) == LockPlan::Acquire,
        kind % 4 == 0 && locked ==> unlock_plan(kind, owner, count, me, locked) == UnlockPlan::Release,
        kind % 4 == 0 && !locked ==> unlock_plan(kind, owner, count, me, locked) == UnlockPlan::Fail(1),
        kind % 4 == 1 && owner == me ==> lock_plan(kind, owner, me) == LockPlan::Reenter,
        kind % 4 == 2 && owner == me ==> lock_plan(kind, owner, me) == LockPlan::Fail(35),
        (kind % 4 == 1 || kind % 4 == 2) && owner != me ==> lock_plan(kind, owner, me)
            == LockPlan::AcquireOwned,
        (kind % 4 == 1 || kind % 4 == 2) && owner != me ==> unlock_plan(kind, owner, count, me, locked)
            == UnlockPlan::Fail(1),
        (kind % 4 == 1 || kind % 4 == 2) && owner == me && count > 0 ==> unlock_plan(
            kind,
            owner,
            count,
            me,
            locked,
        ) == UnlockPlan::Decrement,
        (kind % 4 == 1 || kind % 4 == 2) && owner == me && count == 0 ==> unlock_plan(
            kind,
            owner,
            count,
            me,
            locked,
        ) == UnlockPlan::ReleaseOwned,
{
}

/// `sem_timedwait`'s timeout is the time left to the deadline: for times
/// with nanoseconds below a second and seconds small enough not to wrap,
/// there is none (the wait times out) exactly when the deadline is before
/// now, and otherwise it is the difference, with its nanoseconds below a
/// second.
pub proof fn law_sem_timeout_span(d_sec: i64, d_nsec: i64, n_sec: i64, n_nsec: i64)
    requires
        0 <= d_sec <= 0x1_0000_0000_0000,
        0 <= n_sec <= 0x1_0000_0000_0000,
        0 <= d_nsec < 1_000_000_000,
        0 <= n_nsec < 1_000_000_000,
    ensures
        spec_sem_timeout(d_sec, d_nsec, n_sec, n_nsec) is None <==> nanos(d_sec as int, d_nsec as int)
            < nanos(n_sec as int, n_nsec as int),
        spec_sem_timeout(d_sec, d_nsec, n_sec, n_nsec) matches Some((s, ns)) ==> 0 <= ns < 1_000_000_000
            && nanos(s as int, ns as int) == nanos(d_sec as int, d_nsec as int) - nanos(
            n_sec as int,
            n_nsec as int,
        ),
{
    let a = nanos(d_sec as int, d_nsec as int);
    let b = nanos(n_sec as int, n_nsec as int);
    let sec = d_sec - n_sec;
    let nsec = d_nsec - n_nsec;
    assert(a - b == sec * 1_000_000_000 + nsec) by (nonlinear_arith)
        requires
            a == d_sec * 1_000_000_000 + d_nsec,
            b == n_sec * 1_000_000_000 + n_nsec,
            sec == d_sec - n_sec,
            nsec == d_nsec - n_nsec,
    ;
    if nsec < 0 {
        assert((sec - 1) < 0 <==> a < b) by (nonlinear_arith)
            requires
                a - b == sec * 1_000_000_000 + nsec,
                -1_000_000_000 < nsec < 0,
        ;
        assert(a - b == (sec - 1) * 1_000_000_000 + (nsec + 1_000_000_000)) by (nonlinear_arith)
            requires
                a - b == sec * 1_000_000_000 + nsec,
        ;
    } else {
        assert(sec < 0 <==> a < b) by (nonlinear_arith)
            requires
                a - b == sec * 1_000_000_000 + nsec,
                0 <= nsec < 1_000_000_000,
        ;
    }
}

/// The remaining rules by value: `pthread_mutex_trylock` lets a recursive
/// mutex's owner (kind word 1) lock again and otherwise only tries, taking
/// ownership under kinds 1 and 2; `pthread_condattr_setclock` refuses the
/// CPU-time clocks 2 and 3 with `EINVAL` (22) and accepts any other;
/// `pthread_mutexattr_setprotocol` accepts the protocols 0, 1 and 2 and
/// refuses any other with `EINVAL`; the kinds a mutex may have are 0, 1
/// and 2.
pub proof fn law_attribute_values(kind: u32, owner: usize, me: usize, clock_id: i32, protocol: i32, k: int)
    ensures
        kind % 4 == 1 && owner == me ==> trylock_plan(kind, owner, me) == TryLockPlan::Reenter,
        kind % 4 == 1 && owner != me ==> trylock_plan(kind, owner, me) == TryLockPlan::TryOwned,
        kind % 4 == 2 ==> trylock_plan(kind, owner, me) == TryLockPlan::TryOwned,
        kind % 4 == 0 || kind % 4 == 3 ==> trylock_plan(kind, owner, me) == TryLockPlan::Try,
        (clock_id == 2 || clock_id == 3) ==> spec_condattr_clock(clock_id) == 22,
        !(clock_id == 2 || clock_id == 3) ==> spec_condattr_clock(clock_id) == 0,
        (0 <= protocol <= 2) ==> spec_mutexattr_protocol(protocol) == 0,
        !(0 <= protocol <= 2) ==> spec_mutexattr_protocol(protocol) == 22,
        valid_kind(k) <==> (k == 0 || k == 1 || k == 2),
{
}

} // verus!

use taproot::sync::{
    barrier_completes, barrier_init_check, cond_wait_check, cond_wait_duration, condattr_clock,
    kind_type, mutex_init_kind, mutex_lock_plan, mutex_trylock_plan, mutex_unlock_plan,
    mutexattr_kind, mutexattr_protocol, poll_timeout, sem_init_check, sem_post_check, sem_take,
    sem_timeout, trylock_busy, LockPlan, TryLockPlan, UnlockPlan, EBUSY, EDEADLK, EINVAL, ENOSYS,
    EOVERFLOW, EPERM, PTHREAD_MUTEX_ERRORCHECK, PTHREAD_MUTEX_NORMAL, PTHREAD_MUTEX_RECURSIVE,
    SEM_VALUE_MAX,
};

const NORMAL: u32 = PTHREAD_MUTEX_NORMAL as u32;
const RECURSIVE: u32 = PTHREAD_MUTEX_RECURSIVE as u32;
const ERRORCHECK: u32 = PTHREAD_MUTEX_ERRORCHECK as u32;

#[test]
fn kind_is_the_low_two_bits() {
    assert_eq!(kind_type(RECURSIVE), 1);
    assert_eq!(kind_type(0x10 | ERRORCHECK), 2);
    assert_eq!(kind_type(7), 3);
}

#[test]
fn mutex_attributes() {
    assert_eq!(mutexattr_kind(PTHREAD_MUTEX_RECURSIVE), Ok(RECURSIVE));
    assert_eq!(mutexattr_kind(PTHREAD_MUTEX_ERRORCHECK), Ok(ERRORCHECK));
    assert_eq!(mutexattr_kind(3), Err(EINVAL));
    assert_eq!(mutexattr_kind(-1), Err(EINVAL));
    assert_eq!(mutexattr_protocol(0), 0);
    assert_eq!(mutexattr_protocol(2), 0);
    assert_eq!(mutexattr_protocol(3), EINVAL);
    assert_eq!(mutex_init_kind(None), Ok(NORMAL));
    assert_eq!(mutex_init_kind(Some(RECURSIVE)), Ok(RECURSIVE));
    assert_eq!(mutex_init_kind(Some(9)), Err(EINVAL));
}

#[test]
fn lock_plans() {
    assert_eq!(mutex_lock_plan(RECURSIVE, 5, 5), LockPlan::Reenter);
    assert_eq!(mutex_lock_plan(RECURSIVE, 0, 5), LockPlan::AcquireOwned);
    assert_eq!(mutex_lock_plan(ERRORCHECK, 5, 5), LockPlan::Fail(EDEADLK));
    assert_eq!(mutex_lock_plan(ERRORCHECK, 4, 5), LockPlan::AcquireOwned);
    assert_eq!(mutex_lock_plan(NORMAL, 5, 5), LockPlan::Acquire);
}

#[test]
fn trylock_plans() {
    assert_eq!(mutex_trylock_plan(RECURSIVE, 5, 5), TryLockPlan::Reenter);
    assert_eq!(mutex_trylock_plan(RECURSIVE, 1, 5), TryLockPlan::TryOwned);
    assert_eq!(mutex_trylock_plan(ERRORCHECK, 5, 5), TryLockPlan::TryOwned);
    assert_eq!(mutex_trylock_plan(NORMAL, 0, 5), TryLockPlan::Try);
    assert_eq!(trylock_busy(), EBUSY);
}

#[test]
fn unlock_plans() {
    assert_eq!(mutex_unlock_plan(RECURSIVE, 4, 0, 5, true), UnlockPlan::Fail(EPERM));
    assert_eq!(mutex_unlock_plan(RECURSIVE, 5, 2, 5, true), UnlockPlan::Decrement);
    assert_eq!(mutex_unlock_plan(RECURSIVE, 5, 0, 5, true), UnlockPlan::ReleaseOwned);
    assert_eq!(mutex_unlock_plan(ERRORCHECK, 5, 0, 5, true), UnlockPlan::ReleaseOwned);
    assert_eq!(mutex_unlock_plan(ERRORCHECK, 6, 0, 5, true), UnlockPlan::Fail(EPERM));
    assert_eq!(mutex_unlock_plan(NORMAL, 0, 0, 5, true), UnlockPlan::Release);
    assert_eq!(mutex_unlock_plan(NORMAL, 0, 0, 5, false), UnlockPlan::Fail(EPERM));
}

#[test]
fn recursive_lock_unlock_round_trip() {
    // Lock twice, unlock twice: the count goes up and back down, and the
    // second unlock releases.
    let me = 9;
    let mut owner = 0usize;
    let mut count = 0u32;
    let mut held = false;
    for _ in 0..2 {
        match mutex_lock_plan(RECURSIVE, owner, me) {
            LockPlan::Reenter => count += 1,
            LockPlan::AcquireOwned => {
                held = true;
                owner = me;
            }
            other => panic!("{:?}", other),
        }
    }
    assert_eq!((owner, count, held), (me, 1, true));
    for _ in 0..2 {
        match mutex_unlock_plan(RECURSIVE, owner, count, me, held) {
            UnlockPlan::Decrement => count -= 1,
            UnlockPlan::ReleaseOwned => {
                owner = 0;
                held = false;
            }
            other => panic!("{:?}", other),
        }
    }
    assert_eq!((owner, count, held), (0, 0, false));
}

#[test]
fn condition_variables() {
    assert_eq!(cond_wait_check(NORMAL), Ok(()));
    assert_eq!(cond_wait_check(RECURSIVE), Err(EINVAL));
    assert_eq!(condattr_clock(0), 0);
    assert_eq!(condattr_clock(1), 0);
    assert_eq!(condattr_clock(2), EINVAL);
    assert_eq!(condattr_clock(3), EINVAL);
}

#[test]
fn cond_wait_durations() {
    assert_eq!(cond_wait_duration(10, 500, 8, 200), (2, 300));
    assert_eq!(cond_wait_duration(10, 100, 8, 200), (1, 999_999_900));
    assert_eq!(cond_wait_duration(5, 0, 8, 0), (0, 0));
    assert_eq!(cond_wait_duration(5, 0, 5, 0), (0, 0));
    // A nanosecond count past a second carries.
    assert_eq!(cond_wait_duration(1, 2_500_000_000, 0, 0), (3, 500_000_000));
}

#[test]
fn semaphores() {
    assert_eq!(sem_init_check(1, 0), Err(ENOSYS));
    assert_eq!(sem_init_check(0, SEM_VALUE_MAX + 1), Err(EINVAL));
    assert_eq!(sem_init_check(0, SEM_VALUE_MAX), Ok(()));
    assert_eq!(sem_post_check(SEM_VALUE_MAX), Err(EOVERFLOW));
    assert_eq!(sem_post_check(0), Ok(()));
    assert_eq!(sem_take(3), Some(2));
    assert_eq!(sem_take(0), None);
    // A kept post followed by a wait gives the count back.
    assert_eq!(sem_post_check(5), Ok(()));
    assert_eq!(sem_take(6), Some(5));
    assert_eq!(sem_post_check(SEM_VALUE_MAX - 1), Ok(()));
    assert_eq!(sem_take(SEM_VALUE_MAX), Some(SEM_VALUE_MAX - 1));
}

#[test]
fn sem_timeouts() {
    assert_eq!(sem_timeout(10, 500, 8, 200), Some((2, 300)));
    assert_eq!(sem_timeout(10, 100, 8, 200), Some((1, 999_999_900)));
    assert_eq!(sem_timeout(10, 100, 10, 200), None);
    assert_eq!(sem_timeout(10, 200, 10, 200), Some((0, 0)));
    assert_eq!(sem_timeout(7, 0, 8, 0), None);
}

#[test]
fn barriers_and_poll() {
    assert_eq!(barrier_init_check(0), EINVAL);
    assert_eq!(barrier_init_check(3), 0);
    assert!(!barrier_completes(3, 0));
    assert!(!barrier_completes(3, 1));
    assert!(barrier_completes(3, 2));
    assert!(barrier_completes(1, 0));
    assert_eq!(poll_timeout(-1), None);
    assert_eq!(poll_timeout(0), Some((0, 0)));
    assert_eq!(poll_timeout(1500), Some((1, 500_000_000)));
}

#[test]
fn barrier_rounds_have_one_serial_arrival() {
    let count = 4u32;
    let mut arrived = 0u32;
    for _round in 0..2 {
        let mut serial = 0;
        for k in 0..count {
            let before = arrived;
            assert_eq!(before, k);
            arrived += 1;
            if barrier_completes(count, before) {
                serial += 1;
                arrived = 0;
                assert_eq!(k, count - 1);
            }
        }
        assert_eq!(serial, 1);
        assert_eq!(arrived, 0);
    }
}

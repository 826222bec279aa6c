use kernel_core::mutex::{LazyMutex, LockResult, Mutex};

#[test]
fn two_threads_contending() {
    let mut m = Mutex::new(42u64);
    assert_eq!(m.lock(1), LockResult::Acquired);
    // only the owner observes the protected value
    assert_eq!(*m.value(1), 42);
    // a contender is enqueued, not admitted
    assert_eq!(m.lock(2), LockResult::Waiting);
    // unlock wakes exactly the one waiter and hands ownership over directly
    assert_eq!(m.unlock(1), Some(2));
    assert_eq!(*m.value(2), 42);
    // the final unlock wakes nobody
    assert_eq!(m.unlock(2), None);
}

#[test]
fn wakeups_are_fifo() {
    let mut m = Mutex::new(0u32);
    assert_eq!(m.lock(10), LockResult::Acquired);
    assert_eq!(m.lock(11), LockResult::Waiting);
    assert_eq!(m.lock(12), LockResult::Waiting);
    assert_eq!(m.unlock(10), Some(11));
    assert_eq!(m.unlock(11), Some(12));
    assert_eq!(m.unlock(12), None);
}

#[test]
fn guard_protects_replacement() {
    let mut m = Mutex::new(String::from("before"));
    assert_eq!(m.lock(5), LockResult::Acquired);
    let prev = m.replace(5, String::from("after"));
    assert_eq!(prev, "before");
    assert_eq!(*m.value(5), "after");
}

#[test]
fn recursive_lock_never_returns() {
    // A thread that relocks without unlocking waits on itself forever: the
    // second call parks it, and no thread is left that may legally unlock.
    let mut m = Mutex::new(7u8);
    assert_eq!(m.lock(3), LockResult::Acquired);
    assert_eq!(m.lock(3), LockResult::Waiting);
}

#[test]
fn lazy_initializes_exactly_once() {
    let mut m: LazyMutex<u64> = LazyMutex::new();
    assert_eq!(m.lock(1, || 123), LockResult::Acquired);
    assert_eq!(*m.value(1), 123);
    m.unlock(1);
    // a later locker finds the slot already populated; its initializer is dead
    assert_eq!(m.lock(2, || 999), LockResult::Acquired);
    assert_eq!(*m.value(2), 123);
    m.unlock(2);
}

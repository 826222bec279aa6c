//! Blocking mutual exclusion.
//!
//! The kernel's mutex is a spinlock-guarded held-flag, a wait queue, and the
//! protected value. Suspension and wakeup belong to the scheduler, so this
//! module captures the mutex as an explicit state machine: `lock` either takes
//! ownership immediately or enqueues the caller (who must then suspend), and
//! `unlock` hands ownership directly to the longest-waiting thread, waking
//! exactly that one. Direct hand-off means a woken thread already owns the
//! lock when it resumes; it never races a third thread for a cleared flag.

use vstd::prelude::*;

verus! {

/// What a `lock` call decided: the caller owns the mutex now, or it was
/// enqueued and must suspend until a matching `unlock` wakes it.
#[derive(PartialEq, Eq, Structural, Clone, Copy, Debug)]
pub enum LockResult {
    Acquired,
    Waiting,
}

/// A blocking mutex: held-flag, current owner, FIFO wait queue of thread ids,
/// and the protected value. All four are mutated only under the internal
/// spinlock, which here is the exclusivity of `&mut self`.
pub struct Mutex<T> {
    held: bool,
    owner: u64,
    queue: Vec<u64>,
    val: T,
}

impl<T> Mutex<T> {
    /// The queue holds no duplicates (a suspended thread cannot call `lock`
    /// again), and an unheld mutex has no waiters.
    pub open spec fn wf(self) -> bool {
        &&& (!self.is_held() ==> self.queue_spec().len() == 0)
        &&& (forall|i: int, j: int|
            0 <= i < j < self.queue_spec().len() ==> self.queue_spec()[i]
                != self.queue_spec()[j])
    }

    /// Thread `tid` currently owns the mutex.
    pub open spec fn owned_by(self, tid: u64) -> bool {
        self.is_held() && self.owner_spec() == tid
    }

    /// Thread `tid` is suspended on the wait queue.
    pub open spec fn waiting(self, tid: u64) -> bool {
        self.queue_spec().contains(tid)
    }

    /// Thread `tid` could legally call `unlock` now.
    pub open spec fn can_unlock(self, tid: u64) -> bool {
        self.owned_by(tid) && !self.waiting(tid)
    }

    /// The protected value, for contracts.
    pub closed spec fn value_spec(self) -> T {
        self.val
    }

    /// The wait queue, for contracts, in wakeup order.
    pub closed spec fn queue_spec(self) -> Seq<u64> {
        self.queue@
    }

    pub closed spec fn is_held(self) -> bool {
        self.held
    }

    /// The owning thread's id, meaningful only while the mutex is held.
    pub closed spec fn owner_spec(self) -> u64 {
        self.owner
    }

    pub fn new(val: T) -> (m: Mutex<T>)
        ensures
            m.wf(),
            !m.is_held(),
            m.queue_spec() == Seq::<u64>::empty(),
            m.value_spec() == val,
    {
        let m = Mutex { held: false, owner: 0, queue: Vec::new(), val };
        proof {
            assert(m.queue@ =~= Seq::<u64>::empty());
        }
        m
    }

    /// Acquire the mutex for thread `tid`. If the mutex is free the caller
    /// takes ownership and proceeds; otherwise it is appended to the wait
    /// queue and must suspend (`Waiting`). Enqueueing happens here, under the
    /// same exclusive access that checked the flag, so no concurrent `unlock`
    /// can observe "no waiters" between the check and the enqueue: a wakeup
    /// cannot be lost.
    pub fn lock(&mut self, tid: u64) -> (r: LockResult)
        requires
            old(self).wf(),
            !old(self).waiting(tid),
        ensures
            final(self).wf(),
            final(self).value_spec() == old(self).value_spec(),
            r == LockResult::Acquired <==> !old(self).is_held(),
            !old(self).is_held() ==> final(self).owned_by(tid)
                && final(self).queue_spec() == old(self).queue_spec(),
            old(self).is_held() ==> r == LockResult::Waiting
                && final(self).is_held() == old(self).is_held()
                && final(self).owner_spec() == old(self).owner_spec()
                && final(self).queue_spec() == old(self).queue_spec().push(tid)
                && final(self).waiting(tid),
    {
        if !self.held {
            self.held = true;
            self.owner = tid;
            LockResult::Acquired
        } else {
            self.queue.push(tid);
            proof {
                let q = self.queue@;
                assert(q[q.len() - 1] == tid);
                assert forall|i: int, j: int| 0 <= i < j < q.len() implies q[i] != q[j] by {
                    if j == q.len() - 1 {
                        assert(!old(self).queue@.contains(tid));
                        assert(old(self).queue@[i] == q[i]);
                    }
                }
            }
            LockResult::Waiting
        }
    }

    /// Release the mutex held by `tid`. If any thread is waiting, ownership
    /// passes directly to the one that has waited longest — the head of the
    /// queue — and exactly that thread is woken (returned). Nothing else is
    /// woken, and no other thread can slip in: the flag never becomes
    /// observably free while waiters exist.
    pub fn unlock(&mut self, tid: u64) -> (woken: Option<u64>)
        requires
            old(self).wf(),
            old(self).can_unlock(tid),
        ensures
            final(self).wf(),
            final(self).value_spec() == old(self).value_spec(),
            old(self).queue_spec().len() == 0 ==> woken.is_none()
                && !final(self).is_held()
                && final(self).queue_spec().len() == 0,
            old(self).queue_spec().len() > 0 ==> {
                &&& woken == Some(old(self).queue_spec()[0])
                &&& final(self).owned_by(old(self).queue_spec()[0])
                &&& final(self).queue_spec() == old(self).queue_spec().subrange(
                    1,
                    old(self).queue_spec().len() as int,
                )
            },
    {
        if self.queue.len() == 0 {
            self.held = false;
            None
        } else {
            let next = self.queue.remove(0);
            self.owner = next;
            Some(next)
        }
    }

    /// Read the protected value; only the current owner may.
    pub fn value(&self, tid: u64) -> (r: &T)
        requires
            self.owned_by(tid),
        ensures
            *r == self.value_spec(),
    {
        &self.val
    }

    /// Replace the protected value, returning the previous one; only the
    /// current owner may.
    pub fn replace(&mut self, tid: u64, val: T) -> (prev: T)
        requires
            old(self).wf(),
            old(self).owned_by(tid),
        ensures
            final(self).wf(),
            prev == old(self).value_spec(),
            final(self).value_spec() == val,
            final(self).is_held() == old(self).is_held(),
            final(self).owner_spec() == old(self).owner_spec(),
            final(self).queue_spec() == old(self).queue_spec(),
    {
        let mut prev = val;
        core::mem::swap(&mut self.val, &mut prev);
        proof {
            assert(self.queue@ == old(self).queue@);
            assert forall|i: int, j: int| 0 <= i < j < self.queue_spec().len()
                implies self.queue_spec()[i] != self.queue_spec()[j] by {
                assert(old(self).queue_spec()[i] != old(self).queue_spec()[j]);
            }
        }
        prev
    }
}

/// Exclusivity: at any instant at most one thread owns the mutex, so at most
/// one thread can observe the protected value.
pub proof fn lemma_exclusive_access<T>(m: &Mutex<T>, t1: u64, t2: u64)
    requires
        m.owned_by(t1),
        m.owned_by(t2),
    ensures
        t1 == t2,
{
}

/// Recursive locking deadlocks: once a thread both owns the mutex and sits on
/// its own wait queue — the state a second `lock` without an intervening
/// `unlock` produces — no thread at all satisfies `unlock`'s precondition, so
/// the waiter can never be woken.
pub proof fn lemma_recursive_lock_deadlocks<T>(m: &Mutex<T>, t: u64)
    requires
        m.wf(),
        m.owned_by(t),
        m.waiting(t),
    ensures
        forall|u: u64| !m.can_unlock(u),
{
}

/// An optional value materialized on first lock: the initializer runs at most
/// once, under the mutex, so concurrent first-lockers serialize and exactly
/// one of them populates the slot.
pub struct LazyMutex<T> {
    inner: Mutex<Option<T>>,
}

impl<T> LazyMutex<T> {
    pub closed spec fn wf(self) -> bool {
        self.inner.wf()
    }

    pub closed spec fn owned_by(self, tid: u64) -> bool {
        self.inner.owned_by(tid)
    }

    pub closed spec fn waiting(self, tid: u64) -> bool {
        self.inner.waiting(tid)
    }

    pub closed spec fn is_held(self) -> bool {
        self.inner.is_held()
    }

    /// Thread `tid` could legally call `unlock` now.
    pub closed spec fn can_unlock(self, tid: u64) -> bool {
        self.inner.can_unlock(tid)
    }

    /// The wait queue, for contracts, in wakeup order.
    pub closed spec fn queue_spec(self) -> Seq<u64> {
        self.inner.queue_spec()
    }

    /// The slot's content, for contracts: `None` until first initialization.
    pub closed spec fn value_spec(self) -> Option<T> {
        self.inner.value_spec()
    }

    pub fn new() -> (m: LazyMutex<T>)
        ensures
            m.wf(),
            !m.is_held(),
            m.value_spec().is_none(),
            m.queue_spec() == Seq::<u64>::empty(),
    {
        LazyMutex { inner: Mutex::new(None) }
    }

    /// Lock and, if the slot is still empty, populate it with `init_fcn`'s
    /// result while holding the lock. If the mutex is contended the caller is
    /// enqueued instead and the initializer does not run; by the time the
    /// caller is woken, the holder that beat it has already initialized the
    /// slot.
    pub fn lock<F: FnOnce() -> T>(&mut self, tid: u64, init_fcn: F) -> (r: LockResult)
        requires
            old(self).wf(),
            !old(self).waiting(tid),
            call_requires(init_fcn, ()),
        ensures
            final(self).wf(),
            r == LockResult::Acquired <==> !old(self).is_held(),
            r == LockResult::Acquired ==> {
                &&& final(self).owned_by(tid)
                &&& final(self).value_spec().is_some()
                &&& (old(self).value_spec().is_some() ==> final(self).value_spec()
                    == old(self).value_spec())
                &&& (old(self).value_spec().is_none() ==> call_ensures(
                    init_fcn,
                    (),
                    final(self).value_spec().unwrap(),
                ))
            },
            r == LockResult::Waiting ==> final(self).waiting(tid)
                && final(self).value_spec() == old(self).value_spec(),
    {
        let r = self.inner.lock(tid);
        match r {
            LockResult::Acquired => {
                if self.inner.value(tid).is_none() {
                    let v = init_fcn();
                    self.inner.replace(tid, Some(v));
                }
                LockResult::Acquired
            }
            LockResult::Waiting => LockResult::Waiting,
        }
    }

    /// Release, waking the longest waiter if any; the woken thread owns the
    /// lock and finds the slot already populated if any holder initialized it.
    pub fn unlock(&mut self, tid: u64) -> (woken: Option<u64>)
        requires
            old(self).wf(),
            old(self).can_unlock(tid),
        ensures
            final(self).wf(),
            final(self).value_spec() == old(self).value_spec(),
            old(self).queue_spec().len() == 0 ==> woken.is_none()
                && !final(self).is_held(),
            old(self).queue_spec().len() > 0 ==> woken
                == Some(old(self).queue_spec()[0])
                && final(self).owned_by(old(self).queue_spec()[0])
                && final(self).queue_spec() == old(self).queue_spec().subrange(
                    1,
                    old(self).queue_spec().len() as int,
                ),
    {
        self.inner.unlock(tid)
    }

    /// Read the initialized value; only the owner may, once the slot is full.
    pub fn value(&self, tid: u64) -> (r: &T)
        requires
            self.owned_by(tid),
            self.value_spec().is_some(),
        ensures
            *r == self.value_spec().unwrap(),
    {
        match self.inner.value(tid) {
            Some(v) => v,
            None => unreached(),
        }
    }
}

} // verus!

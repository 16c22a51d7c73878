//! Blocking mutex and condition variable. Each operation returns the
//! scheduling action (block the caller, wake a thread) for the dispatcher.
use std::collections::VecDeque;
use vstd::prelude::*;

verus! {

/// What `lock` by thread `tid` does: a free lock goes to `tid`; a taken one
/// queues `tid`, which blocks.
pub open spec fn lock_outcome(m0: MutexBlocking, m1: MutexBlocking, tid: usize, blocked: bool) -> bool {
    &&& m1.locked
    &&& blocked == m0.locked
    &&& blocked ==> m1.owner == m0.owner && m1.wait_queue@ == m0.wait_queue@.push(tid)
    &&& !blocked ==> m1.owner == Some(tid) && m1.wait_queue@ == m0.wait_queue@
}

/// What `unlock` does: the first waiter, if any, becomes the owner and is
/// woken; otherwise the lock is free.
pub open spec fn unlock_outcome(m0: MutexBlocking, m1: MutexBlocking, woken: Option<usize>) -> bool {
    &&& m0.wait_queue@.len() == 0 ==> woken is None && !m1.locked && m1.owner is None
        && m1.wait_queue@ == m0.wait_queue@
    &&& m0.wait_queue@.len() > 0 ==> woken == Some(m0.wait_queue@[0]) && m1.locked && m1.owner
        == woken && m1.wait_queue@ == m0.wait_queue@.drop_first()
}

/// A sleeping lock: an owner and a FIFO queue of blocked threads.
pub struct MutexBlocking {
    pub locked: bool,
    /// The thread holding the lock.
    pub owner: Option<usize>,
    /// Threads blocked in `lock`, in wake order.
    pub wait_queue: VecDeque<usize>,
}

impl MutexBlocking {
    /// An unlocked mutex has no owner and no waiters; a locked one has an owner.
    pub open spec fn wf(&self) -> bool {
        &&& !self.locked ==> self.owner is None && self.wait_queue@.len() == 0
        &&& self.locked ==> self.owner is Some
    }

    pub fn new() -> (r: Self)
        ensures
            !r.locked,
            r.wf(),
    {
        MutexBlocking { locked: false, owner: None, wait_queue: VecDeque::new() }
    }

    /// Thread `tid` asks for the lock. Returns true when the lock is taken:
    /// the thread is then queued and must block until `unlock` hands it over.
    pub fn lock(&mut self, tid: usize) -> (blocked: bool)
        requires
            old(self).wf(),
        ensures
            final(self).wf(),
            lock_outcome(*old(self), *final(self), tid, blocked),
    {
        if self.locked {
            self.wait_queue.push_back(tid);
            true
        } else {
            self.locked = true;
            self.owner = Some(tid);
            false
        }
    }

    /// Releases the lock. The first waiter, if any, becomes the owner and is
    /// returned so that the caller makes it ready; otherwise the lock is free.
    pub fn unlock(&mut self) -> (woken: Option<usize>)
        requires
            old(self).wf(),
            old(self).locked,
        ensures
            final(self).wf(),
            unlock_outcome(*old(self), *final(self), woken),
    {
        match self.wait_queue.pop_front() {
            Some(waiter) => {
                self.owner = Some(waiter);
                Some(waiter)
            },
            None => {
                self.locked = false;
                self.owner = None;
                None
            },
        }
    }
}

/// A condition variable: a FIFO queue of sleeping threads.
pub struct Condvar {
    pub wait_queue: VecDeque<usize>,
}

impl Condvar {
    pub fn new() -> (r: Self)
        ensures
            r.wait_queue@.len() == 0,
    {
        Condvar { wait_queue: VecDeque::new() }
    }

    /// Wakes the first sleeper, if any, and returns it.
    pub fn notify_one(&mut self) -> (woken: Option<usize>)
        ensures
            old(self).wait_queue@.len() == 0 ==> woken is None && final(self).wait_queue@
                == old(self).wait_queue@,
            old(self).wait_queue@.len() > 0 ==> woken == Some(old(self).wait_queue@[0])
                && final(self).wait_queue@ == old(self).wait_queue@.drop_first(),
    {
        self.wait_queue.pop_front()
    }

    /// Wakes every sleeper; they are returned in the order they went to sleep.
    pub fn notify_all(&mut self) -> (woken: Vec<usize>)
        ensures
            woken@ == old(self).wait_queue@,
            final(self).wait_queue@.len() == 0,
    {
        let mut woken: Vec<usize> = Vec::new();
        let ghost all = self.wait_queue@;
        while self.wait_queue.len() > 0
            invariant
                woken@ + self.wait_queue@ == all,
            decreases self.wait_queue@.len(),
        {
            match self.wait_queue.pop_front() {
                Some(t) => {
                    woken.push(t);
                },
                None => {},
            }
            assert(woken@ + self.wait_queue@ =~= all);
        }
        assert(woken@ + self.wait_queue@ =~= woken@);
        woken
    }

    /// Thread `tid`, owner of `mutex`, goes to sleep on the condition and
    /// releases `mutex`; returns the thread that `mutex` was handed to. Once
    /// woken, the sleeper takes the lock again with `lock` before going on.
    pub fn wait(&mut self, mutex: &mut MutexBlocking, tid: usize) -> (woken: Option<usize>)
        requires
            old(mutex).wf(),
            old(mutex).locked,
            old(mutex).owner == Some(tid),
        ensures
            final(self).wait_queue@ == old(self).wait_queue@.push(tid),
            final(mutex).wf(),
            old(mutex).wait_queue@.len() == 0 ==> woken is None && !final(mutex).locked,
            old(mutex).wait_queue@.len() > 0 ==> woken == Some(old(mutex).wait_queue@[0])
                && final(mutex).owner == woken && final(mutex).wait_queue@ == old(
                mutex,
            ).wait_queue@.drop_first(),
    {
        self.wait_queue.push_back(tid);
        mutex.unlock()
    }
}

} // verus!

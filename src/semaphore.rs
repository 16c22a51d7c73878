//! Counting semaphore with the bookkeeping the deadlock detector reads.
use std::collections::VecDeque;
use vstd::prelude::*;

verus! {

/// In a balanced semaphore the units handed out (`get_alloc`) are the units
/// held, and lie between zero and the origin.
pub proof fn lemma_alloc_is_held(s: Semaphore)
    requires
        s.wf(),
        s.balanced(),
    ensures
        s.inner.origin - s.available() == s.inner.get_queue@.len(),
        0 <= s.inner.origin - s.available() <= s.inner.origin,
{
}

/// Removes the first occurrence of `x` from `s`; `s` itself when `x` is absent.
pub open spec fn remove_first(s: Seq<usize>, x: usize) -> Seq<usize>
    decreases s.len(),
{
    if s.len() == 0 {
        s
    } else if s[0] == x {
        s.drop_first()
    } else {
        seq![s[0]].add(remove_first(s.drop_first(), x))
    }
}

/// Removing the first occurrence of a present element shortens the sequence by one.
pub proof fn lemma_remove_first_len(s: Seq<usize>, x: usize)
    ensures
        s.contains(x) ==> remove_first(s, x).len() == s.len() - 1,
        !s.contains(x) ==> remove_first(s, x) == s,
    decreases s.len(),
{
    if s.len() > 0 {
        lemma_remove_first_len(s.drop_first(), x);
        if s[0] != x {
            if s.contains(x) {
                let i = choose|i: int| 0 <= i < s.len() && s[i] == x;
                assert(s.drop_first()[i - 1] == x);
            }
            if !s.contains(x) {
                assert forall|i: int| 0 <= i < s.drop_first().len() implies s.drop_first()[i] != x by {
                    assert(s[i + 1] == s.drop_first()[i]);
                }
                assert(seq![s[0]].add(s.drop_first()) =~= s);
            }
        }
    } else {
        assert(!s.contains(x));
    }
}

/// `remove_first` agrees with removing at the first index holding `x`.
proof fn lemma_remove_first_at(s: Seq<usize>, x: usize, i: int)
    requires
        0 <= i < s.len(),
        s[i] == x,
        forall|j: int| 0 <= j < i ==> s[j] != x,
    ensures
        remove_first(s, x) == s.remove(i),
    decreases s.len(),
{
    if i == 0 {
        assert(s.drop_first() =~= s.remove(0));
    } else {
        lemma_remove_first_at(s.drop_first(), x, i - 1);
        assert(seq![s[0]].add(s.drop_first().remove(i - 1)) =~= s.remove(i));
    }
}

/// Index of the first occurrence of `x` in `v`, if any.
fn find_first(v: &Vec<usize>, x: usize) -> (r: Option<usize>)
    ensures
        match r {
            Some(i) => i < v@.len() && v@[i as int] == x && forall|j: int|
                0 <= j < i ==> v@[j] != x,
            None => !v@.contains(x),
        },
{
    let mut i: usize = 0;
    while i < v.len()
        invariant
            i <= v@.len(),
            forall|j: int| 0 <= j < i ==> v@[j] != x,
        decreases v@.len() - i,
    {
        if v[i] == x {
            return Some(i);
        }
        i = i + 1;
    }
    None
}

/// What `up` by thread `tid` does: one more unit; a unit `tid` holds is
/// released; when threads were waiting, the first is dequeued, becomes a
/// holder and is woken.
pub open spec fn up_outcome(s0: Semaphore, s1: Semaphore, tid: usize, woken: Option<usize>) -> bool {
    &&& s1.inner.count == s0.inner.count + 1
    &&& s1.inner.origin == s0.inner.origin
    &&& s0.inner.count < 0 ==> {
        &&& woken == Some(s0.inner.wait_queue@[0])
        &&& s1.inner.wait_queue@ == s0.inner.wait_queue@.drop_first()
        &&& s1.inner.get_queue@ == remove_first(s0.inner.get_queue@, tid).push(s0.inner.wait_queue@[0])
    }
    &&& s0.inner.count >= 0 ==> {
        &&& woken is None
        &&& s1.inner.wait_queue@ == s0.inner.wait_queue@
        &&& s1.inner.get_queue@ == remove_first(s0.inner.get_queue@, tid)
    }
}

/// What `down` by thread `tid` does: one unit less; with none free the
/// thread is queued and blocks, otherwise it becomes a holder.
pub open spec fn down_outcome(s0: Semaphore, s1: Semaphore, tid: usize, blocked: bool) -> bool {
    &&& s1.inner.count == s0.inner.count - 1
    &&& s1.inner.origin == s0.inner.origin
    &&& blocked == (s0.inner.count <= 0)
    &&& blocked ==> s1.inner.wait_queue@ == s0.inner.wait_queue@.push(tid) && s1.inner.get_queue@
        == s0.inner.get_queue@
    &&& !blocked ==> s1.inner.wait_queue@ == s0.inner.wait_queue@ && s1.inner.get_queue@
        == s0.inner.get_queue@.push(tid)
}

/// The state of a semaphore.
pub struct SemaphoreInner {
    /// Free units when non-negative; minus the number of waiters otherwise.
    pub count: isize,
    /// Threads blocked in `down`, in wake order.
    pub wait_queue: VecDeque<usize>,
    /// The number of units the semaphore was created with.
    pub origin: isize,
    /// One entry per unit currently held, naming the thread that holds it.
    pub get_queue: Vec<usize>,
}

/// A counting semaphore whose operations report the scheduling action
/// (block the caller, wake a waiter) for the dispatcher to carry out.
pub struct Semaphore {
    pub inner: SemaphoreInner,
}

impl Semaphore {
    /// The wait queue holds exactly the missing units.
    pub open spec fn wf(&self) -> bool {
        &&& self.inner.origin >= 0
        &&& self.inner.count >= 0 ==> self.inner.wait_queue@.len() == 0
        &&& self.inner.count < 0 ==> self.inner.wait_queue@.len() == -self.inner.count
    }

    /// Free units, zero when threads are waiting.
    pub open spec fn available(&self) -> int {
        if self.inner.count < 0 {
            0
        } else {
            self.inner.count as int
        }
    }

    /// Units held plus units free make up the units the semaphore was made with.
    pub open spec fn balanced(&self) -> bool {
        self.inner.get_queue@.len() + self.available() == self.inner.origin
    }

    /// A semaphore with `res_count` free units and nobody waiting.
    pub fn new(res_count: usize) -> (r: Self)
        requires
            res_count <= isize::MAX,
        ensures
            r.inner.count == res_count,
            r.inner.origin == res_count,
            r.inner.wait_queue@.len() == 0,
            r.inner.get_queue@.len() == 0,
            r.wf(),
            r.balanced(),
    {
        Semaphore {
            inner: SemaphoreInner {
                count: res_count as isize,
                wait_queue: VecDeque::new(),
                origin: res_count as isize,
                get_queue: Vec::new(),
            },
        }
    }

    /// Thread `tid` releases one unit. When a waiter exists it is dequeued,
    /// becomes a holder, and is returned so that the caller makes it ready.
    pub fn up(&mut self, tid: usize) -> (woken: Option<usize>)
        requires
            old(self).wf(),
            old(self).inner.count < isize::MAX,
        ensures
            final(self).wf(),
            up_outcome(*old(self), *final(self), tid, woken),
            (old(self).balanced() && old(self).inner.get_queue@.contains(tid)) ==> (final(
                self).balanced()),
    {
        proof {
            lemma_remove_first_len(self.inner.get_queue@, tid);
        }
        self.inner.count = self.inner.count + 1;
        match find_first(&self.inner.get_queue, tid) {
            Some(i) => {
                proof {
                    lemma_remove_first_at(self.inner.get_queue@, tid, i as int);
                }
                self.inner.get_queue.remove(i);
            },
            None => {},
        }
        if self.inner.count <= 0 {
            match self.inner.wait_queue.pop_front() {
                Some(waiter) => {
                    self.inner.get_queue.push(waiter);
                    Some(waiter)
                },
                None => None,
            }
        } else {
            None
        }
    }

    /// Thread `tid` asks for one unit. Returns true when none is free: the
    /// thread is then queued and must block until an `up` wakes it.
    /// Otherwise it becomes a holder and goes on.
    pub fn down(&mut self, tid: usize) -> (blocked: bool)
        requires
            old(self).wf(),
            old(self).inner.count > isize::MIN,
        ensures
            final(self).wf(),
            down_outcome(*old(self), *final(self), tid, blocked),
            old(self).balanced() ==> final(self).balanced(),
    {
        self.inner.count = self.inner.count - 1;
        if self.inner.count < 0 {
            self.inner.wait_queue.push_back(tid);
            true
        } else {
            self.inner.get_queue.push(tid);
            false
        }
    }

    /// The number of units the semaphore was created with.
    pub fn get_origin(&self) -> (r: isize)
        ensures
            r == self.inner.origin,
    {
        self.inner.origin
    }

    /// Free units; zero while threads wait.
    pub fn get_remain(&self) -> (r: isize)
        ensures
            r == self.available(),
    {
        if self.inner.count < 0 {
            0
        } else {
            self.inner.count
        }
    }

    /// Units currently handed out: the origin less the free units.
    pub fn get_alloc(&self) -> (r: isize)
        requires
            self.wf(),
        ensures
            r == self.inner.origin - self.available(),
    {
        self.inner.origin - if self.inner.count < 0 {
            0
        } else {
            self.inner.count
        }
    }
}

} // verus!

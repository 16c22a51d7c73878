//! Process control blocks: address space, descriptor table, threads,
//! synchronization objects, and the deadlock gate over them.
use crate::argv::{arg_seqs, argv_base_of, build_argv, sp_of, stack_image};
use crate::deadlock::{is_safe, is_safe_state, rows};
use crate::mm::{overlaps_any, zeroed, MapArea, MemorySet, PAGE_SIZE, PERM_R, PERM_U, PERM_W};
use crate::task::{TaskStatus, TrapContext};
use crate::mutex::{lock_outcome, unlock_outcome, Condvar, MutexBlocking};
use crate::semaphore::{down_outcome, up_outcome, Semaphore};
use crate::task::TaskControlBlock;
use std::collections::VecDeque;
use vstd::prelude::*;

verus! {


/// How often `t` occurs in `s`.
pub open spec fn occ(s: Seq<usize>, t: int) -> nat
    decreases s.len(),
{
    if s.len() == 0 {
        0
    } else {
        occ(s.drop_last(), t) + if s.last() == t {
            1nat
        } else {
            0
        }
    }
}

/// Occurrences of the values below `n`, summed.
spec fn occ_below(s: Seq<usize>, n: int) -> nat
    decreases n,
{
    if n <= 0 {
        0
    } else {
        occ_below(s, n - 1) + occ(s, n - 1)
    }
}

proof fn lemma_occ_le_len(s: Seq<usize>, t: int)
    ensures
        occ(s, t) <= s.len(),
    decreases s.len(),
{
    if s.len() > 0 {
        lemma_occ_le_len(s.drop_last(), t);
    }
}

proof fn lemma_occ_below_step(s: Seq<usize>, n: int)
    requires
        s.len() > 0,
    ensures
        occ_below(s, n) == occ_below(s.drop_last(), n) + if 0 <= s.last() < n {
            1nat
        } else {
            0
        },
    decreases n,
{
    if n > 0 {
        lemma_occ_below_step(s, n - 1);
    }
}

proof fn lemma_occ_below_le_len(s: Seq<usize>, n: int)
    ensures
        occ_below(s, n) <= s.len(),
    decreases s.len(),
{
    if s.len() == 0 {
        lemma_occ_below_zero(s, n);
    } else {
        lemma_occ_below_le_len(s.drop_last(), n);
        lemma_occ_below_step(s, n);
    }
}

proof fn lemma_occ_below_zero(s: Seq<usize>, n: int)
    requires
        s.len() == 0,
    ensures
        occ_below(s, n) == 0,
    decreases n,
{
    if n > 0 {
        lemma_occ_below_zero(s, n - 1);
    }
}

/// Occurrences of `t` in `v`.
fn count_in_vec(v: &Vec<usize>, t: usize) -> (r: usize)
    ensures
        r == occ(v@, t as int),
{
    let mut c: usize = 0;
    let mut i: usize = 0;
    while i < v.len()
        invariant
            i <= v@.len(),
            c == occ(v@.take(i as int), t as int),
        decreases v@.len() - i,
    {
        proof {
            assert(v@.take(i + 1).drop_last() =~= v@.take(i as int));
            lemma_occ_le_len(v@.take(i as int), t as int);
        }
        if v[i] == t {
            c = c + 1;
        }
        i = i + 1;
    }
    proof {
        assert(v@.take(i as int) =~= v@);
    }
    c
}

/// Occurrences of `t` in `q`.
fn count_in_deque(q: &VecDeque<usize>, t: usize) -> (r: usize)
    ensures
        r == occ(q@, t as int),
{
    let mut c: usize = 0;
    let mut i: usize = 0;
    while i < q.len()
        invariant
            i <= q@.len(),
            c == occ(q@.take(i as int), t as int),
        decreases q@.len() - i,
    {
        proof {
            assert(q@.take(i + 1).drop_last() =~= q@.take(i as int));
            lemma_occ_le_len(q@.take(i as int), t as int);
        }
        if q[i] == t {
            c = c + 1;
        }
        i = i + 1;
    }
    proof {
        assert(q@.take(i as int) =~= q@);
    }
    c
}

/// Free units of each semaphore slot; an empty slot has none.
pub open spec fn sem_available(list: Seq<Option<Semaphore>>) -> Seq<u64> {
    Seq::new(
        list.len(),
        |j: int|
            match list[j] {
                Some(s) => s.available() as u64,
                None => 0,
            },
    )
}

/// Units of each semaphore that each of `n` threads holds.
pub open spec fn sem_allocation(list: Seq<Option<Semaphore>>, n: int) -> Seq<Seq<u64>> {
    Seq::new(
        n as nat,
        |t: int|
            Seq::new(
                list.len(),
                |j: int|
                    match list[j] {
                        Some(s) => occ(s.inner.get_queue@, t) as u64,
                        None => 0,
                    },
            ),
    )
}

/// Units of each semaphore that each of `n` threads waits for, with one
/// more unit of `sem_id` for thread `tid`.
pub open spec fn sem_need(list: Seq<Option<Semaphore>>, n: int, tid: int, sem_id: int) -> Seq<
    Seq<u64>,
> {
    Seq::new(
        n as nat,
        |t: int|
            Seq::new(
                list.len(),
                |j: int|
                    (match list[j] {
                        Some(s) => occ(s.inner.wait_queue@, t),
                        None => 0,
                    } + if t == tid && j == sem_id {
                        1nat
                    } else {
                        0
                    }) as u64,
            ),
    )
}

/// Whether each semaphore's units and waiters can be counted in a `u64`.
pub open spec fn sem_counts_fit(list: Seq<Option<Semaphore>>) -> bool {
    forall|j: int|
        0 <= j < list.len() ==> match #[trigger] list[j] {
            Some(s) => s.inner.get_queue@.len() + s.available() <= u64::MAX
                && s.inner.wait_queue@.len() < u64::MAX,
            None => true,
        }
}

/// Free units of each mutex slot: one when unlocked.
pub open spec fn mutex_available(list: Seq<Option<MutexBlocking>>) -> Seq<u64> {
    Seq::new(
        list.len(),
        |j: int|
            match list[j] {
                Some(m) => if m.locked {
                    0u64
                } else {
                    1u64
                },
                None => 0,
            },
    )
}

/// Which mutex each of `n` threads owns.
pub open spec fn mutex_allocation(list: Seq<Option<MutexBlocking>>, n: int) -> Seq<Seq<u64>> {
    Seq::new(
        n as nat,
        |t: int|
            Seq::new(
                list.len(),
                |j: int|
                    match list[j] {
                        Some(m) => match m.owner {
                            Some(o) => if o == t {
                                1u64
                            } else {
                                0u64
                            },
                            None => 0u64,
                        },
                        None => 0,
                    },
            ),
    )
}

/// Which mutexes each of `n` threads waits for, with a request of
/// `mutex_id` by thread `tid`.
pub open spec fn mutex_need(list: Seq<Option<MutexBlocking>>, n: int, tid: int, mutex_id: int) -> Seq<
    Seq<u64>,
> {
    Seq::new(
        n as nat,
        |t: int|
            Seq::new(
                list.len(),
                |j: int|
                    (match list[j] {
                        Some(m) => occ(m.wait_queue@, t),
                        None => 0,
                    } + if t == tid && j == mutex_id {
                        1nat
                    } else {
                        0
                    }) as u64,
            ),
    )
}

/// Whether each mutex's waiters can be counted in a `u64`.
pub open spec fn mutex_counts_fit(list: Seq<Option<MutexBlocking>>) -> bool {
    forall|j: int|
        0 <= j < list.len() ==> match #[trigger] list[j] {
            Some(m) => m.wait_queue@.len() < u64::MAX && (m.owner is Some ==> m.locked),
            None => true,
        }
}


proof fn lemma_sem_released(list: Seq<Option<Semaphore>>, n: int, j: int, k: int)
    requires
        0 <= j < list.len(),
        0 <= k <= n,
        sem_counts_fit(list),
    ensures
        crate::deadlock::released(sem_allocation(list, n), Set::full(), j, k) == match list[j] {
            Some(s) => occ_below(s.inner.get_queue@, k) as int,
            None => 0int,
        },
    decreases k,
{
    if k > 0 {
        lemma_sem_released(list, n, j, k - 1);
        assert(Set::<int>::full().contains(k - 1));
        let a = sem_allocation(list, n);
        if let Some(s) = list[j] {
            lemma_occ_le_len(s.inner.get_queue@, k - 1);
            assert(a[k - 1][j] == occ(s.inner.get_queue@, k - 1) as u64);
        } else {
            assert(a[k - 1][j] == 0);
        }
    }
}

proof fn lemma_mutex_released(list: Seq<Option<MutexBlocking>>, n: int, j: int, k: int)
    requires
        0 <= j < list.len(),
        0 <= k <= n,
    ensures
        crate::deadlock::released(mutex_allocation(list, n), Set::full(), j, k) == match list[j] {
            Some(m) => match m.owner {
                Some(o) => if o < k {
                    1int
                } else {
                    0int
                },
                None => 0int,
            },
            None => 0int,
        },
    decreases k,
{
    if k > 0 {
        lemma_mutex_released(list, n, j, k - 1);
        assert(Set::<int>::full().contains(k - 1));
        let a = mutex_allocation(list, n);
        if let Some(m) = list[j] {
            assert(a[k - 1][j] == match m.owner { Some(o) => if o == k - 1 { 1u64 } else { 0u64 }, None => 0u64 });
        } else {
            assert(a[k - 1][j] == 0);
        }
    }
}

/// Free units of every semaphore.
fn sem_available_of(list: &Vec<Option<Semaphore>>) -> (r: Vec<u64>)
    requires
        sem_counts_fit(list@),
    ensures
        r@ == sem_available(list@),
{
    let mut r: Vec<u64> = Vec::new();
    let mut j: usize = 0;
    while j < list.len()
        invariant
            j <= list@.len(),
            sem_counts_fit(list@),
            r@ =~= sem_available(list@).take(j as int),
        decreases list@.len() - j,
    {
        match &list[j] {
            Some(s) => {
                let free = s.get_remain();
                r.push(free as u64);
            },
            None => {
                r.push(0);
            },
        }
        j = j + 1;
        proof {
            assert(r@ =~= sem_available(list@).take(j as int));
        }
    }
    proof {
        assert(sem_available(list@).take(j as int) =~= sem_available(list@));
    }
    r
}

/// Units of every semaphore held by each of `n` threads (`need` false), or
/// waited for, with one more unit of `sem_id` for `tid` (`need` true).
fn sem_matrix(list: &Vec<Option<Semaphore>>, n: usize, need: bool, tid: usize, sem_id: usize) -> (r: Vec<Vec<u64>>)
    requires
        sem_counts_fit(list@),
    ensures
        need ==> rows(r@) == sem_need(list@, n as int, tid as int, sem_id as int),
        !need ==> rows(r@) == sem_allocation(list@, n as int),
{
    let ghost want = if need {
        sem_need(list@, n as int, tid as int, sem_id as int)
    } else {
        sem_allocation(list@, n as int)
    };
    let mut r: Vec<Vec<u64>> = Vec::new();
    let mut t: usize = 0;
    while t < n
        invariant
            t <= n,
            sem_counts_fit(list@),
            want == if need {
                sem_need(list@, n as int, tid as int, sem_id as int)
            } else {
                sem_allocation(list@, n as int)
            },
            r@.len() == t,
            forall|x: int| 0 <= x < t ==> (#[trigger] r@[x])@ == want[x],
        decreases n - t,
    {
        let mut row: Vec<u64> = Vec::new();
        let mut j: usize = 0;
        while j < list.len()
            invariant
                t < n,
                j <= list@.len(),
                sem_counts_fit(list@),
                want == if need {
                    sem_need(list@, n as int, tid as int, sem_id as int)
                } else {
                    sem_allocation(list@, n as int)
                },
                row@ =~= want[t as int].take(j as int),
            decreases list@.len() - j,
        {
            let v: u64 = match &list[j] {
                Some(s) => {
                    if need {
                        let c = count_in_deque(&s.inner.wait_queue, t);
                        proof {
                            lemma_occ_le_len(s.inner.wait_queue@, t as int);
                        }
                        if t == tid && j == sem_id {
                            c as u64 + 1
                        } else {
                            c as u64
                        }
                    } else {
                        count_in_vec(&s.inner.get_queue, t) as u64
                    }
                },
                None => {
                    if need && t == tid && j == sem_id {
                        1
                    } else {
                        0
                    }
                },
            };
            row.push(v);
            j = j + 1;
            proof {
                assert(row@ =~= want[t as int].take(j as int));
            }
        }
        proof {
            assert(want[t as int].take(j as int) =~= want[t as int]);
        }
        r.push(row);
        t = t + 1;
    }
    proof {
        assert(rows(r@) =~= want);
    }
    r
}

/// One free unit for every unlocked mutex.
fn mutex_available_of(list: &Vec<Option<MutexBlocking>>) -> (r: Vec<u64>)
    ensures
        r@ == mutex_available(list@),
{
    let mut r: Vec<u64> = Vec::new();
    let mut j: usize = 0;
    while j < list.len()
        invariant
            j <= list@.len(),
            r@ =~= mutex_available(list@).take(j as int),
        decreases list@.len() - j,
    {
        match &list[j] {
            Some(m) => {
                r.push(if m.locked {
                    0
                } else {
                    1
                });
            },
            None => {
                r.push(0);
            },
        }
        j = j + 1;
        proof {
            assert(r@ =~= mutex_available(list@).take(j as int));
        }
    }
    proof {
        assert(mutex_available(list@).take(j as int) =~= mutex_available(list@));
    }
    r
}

/// Mutexes owned by each of `n` threads (`need` false), or waited for, with
/// a request of `mutex_id` by `tid` (`need` true).
fn mutex_matrix(list: &Vec<Option<MutexBlocking>>, n: usize, need: bool, tid: usize, mutex_id: usize) -> (r: Vec<Vec<u64>>)
    requires
        mutex_counts_fit(list@),
    ensures
        need ==> rows(r@) == mutex_need(list@, n as int, tid as int, mutex_id as int),
        !need ==> rows(r@) == mutex_allocation(list@, n as int),
{
    let ghost want = if need {
        mutex_need(list@, n as int, tid as int, mutex_id as int)
    } else {
        mutex_allocation(list@, n as int)
    };
    let mut r: Vec<Vec<u64>> = Vec::new();
    let mut t: usize = 0;
    while t < n
        invariant
            t <= n,
            mutex_counts_fit(list@),
            want == if need {
                mutex_need(list@, n as int, tid as int, mutex_id as int)
            } else {
                mutex_allocation(list@, n as int)
            },
            r@.len() == t,
            forall|x: int| 0 <= x < t ==> (#[trigger] r@[x])@ == want[x],
        decreases n - t,
    {
        let mut row: Vec<u64> = Vec::new();
        let mut j: usize = 0;
        while j < list.len()
            invariant
                t < n,
                j <= list@.len(),
                mutex_counts_fit(list@),
                want == if need {
                    mutex_need(list@, n as int, tid as int, mutex_id as int)
                } else {
                    mutex_allocation(list@, n as int)
                },
                row@ =~= want[t as int].take(j as int),
            decreases list@.len() - j,
        {
            let v: u64 = match &list[j] {
                Some(m) => {
                    if need {
                        let c = count_in_deque(&m.wait_queue, t);
                        proof {
                            lemma_occ_le_len(m.wait_queue@, t as int);
                        }
                        if t == tid && j == mutex_id {
                            c as u64 + 1
                        } else {
                            c as u64
                        }
                    } else {
                        match m.owner {
                            Some(o) => if o == t {
                                1
                            } else {
                                0
                            },
                            None => 0,
                        }
                    }
                },
                None => {
                    if need && t == tid && j == mutex_id {
                        1
                    } else {
                        0
                    }
                },
            };
            row.push(v);
            j = j + 1;
            proof {
                assert(row@ =~= want[t as int].take(j as int));
            }
        }
        proof {
            assert(want[t as int].take(j as int) =~= want[t as int]);
        }
        r.push(row);
        t = t + 1;
    }
    proof {
        assert(rows(r@) =~= want);
    }
    r
}

/// Bytes of the user stack of a thread.
pub const USER_STACK_SIZE: usize = 8192;

/// Permissions of a user stack.
pub const STACK_PERM: u8 = PERM_R + PERM_W + PERM_U;

/// An executable as the address-space layer loads it: its mapped segments,
/// the base of the user-stack region and the entry point.
pub struct LoadedImage {
    pub memory_set: MemorySet,
    pub ustack_base: usize,
    pub entry_point: usize,
}

impl LoadedImage {
    /// The stack of the main thread, `[ustack_base, ustack_top())`, is page
    /// aligned and free in the loaded address space.
    pub open spec fn wf(&self) -> bool {
        &&& self.memory_set.wf()
        &&& self.ustack_base % PAGE_SIZE == 0
        &&& self.ustack_base + USER_STACK_SIZE <= isize::MAX
        &&& !overlaps_any(
            self.memory_set.areas@,
            self.ustack_base as int / PAGE_SIZE as int,
            (self.ustack_base + USER_STACK_SIZE) / PAGE_SIZE as int,
        )
    }

    pub open spec fn ustack_top(&self) -> int {
        self.ustack_base + USER_STACK_SIZE
    }
}

/// The main thread's stack area holding `bytes` at its top, zeros below.
fn stack_area(base: usize, bytes: Vec<u8>) -> (r: MapArea)
    requires
        base % PAGE_SIZE == 0,
        base + USER_STACK_SIZE <= usize::MAX,
        bytes@.len() <= USER_STACK_SIZE,
    ensures
        r.wf(),
        r.start_vpn == base as int / PAGE_SIZE as int,
        r.end_vpn == (base + USER_STACK_SIZE) / PAGE_SIZE as int,
        r.perm == STACK_PERM,
        r.data@ == Seq::new((USER_STACK_SIZE - bytes@.len()) as nat, |i: int| 0u8) + bytes@,
{
    let mut data = zeroed(USER_STACK_SIZE - bytes.len());
    let ghost low = data@;
    let mut i: usize = 0;
    while i < bytes.len()
        invariant
            i <= bytes@.len(),
            data@ == low + bytes@.take(i as int),
        decreases bytes@.len() - i,
    {
        data.push(bytes[i]);
        i = i + 1;
        proof {
            assert(data@ =~= low + bytes@.take(i as int));
        }
    }
    proof {
        assert(bytes@.take(i as int) =~= bytes@);
    }
    MapArea {
        start_vpn: base / PAGE_SIZE,
        end_vpn: (base + USER_STACK_SIZE) / PAGE_SIZE,
        perm: STACK_PERM,
        data,
    }
}

/// What `exec` leaves: true exactly when the arguments fit on the new
/// stack; then the process runs `image`, with the arguments laid out on the
/// stack (see `stack_image`) and the main thread entering the program with
/// the argument count and array in `a0` and `a1`. Nothing changes on false.
pub open spec fn exec_outcome(
    before: ProcessControlBlock,
    after: ProcessControlBlock,
    image: LoadedImage,
    args: Seq<Seq<u8>>,
    r: bool,
) -> bool {
    &&& r == (image.ustack_top() - sp_of(image.ustack_top(), args) <= USER_STACK_SIZE)
    &&& after.pid == before.pid
    &&& after.inner.parent == before.inner.parent
    &&& after.inner.children@ == before.inner.children@
    &&& after.inner.fd_table@ == before.inner.fd_table@
    &&& after.inner.is_zombie == before.inner.is_zombie
    &&& !r ==> after == before
    &&& r ==> {
        let top = image.ustack_top();
        let a = args;
        let t0 = before.inner.tasks@[0]->Some_0;
        let stack = after.inner.memory_set.areas@.last();
        &&& after.inner.memory_set.token == image.memory_set.token
        &&& after.inner.memory_set.areas@.drop_last() == image.memory_set.areas@
        &&& after.inner.memory_set.areas@.len() == image.memory_set.areas@.len() + 1
        &&& stack.start_vpn == image.ustack_base as int / PAGE_SIZE as int
        &&& stack.end_vpn == top / PAGE_SIZE as int
        &&& stack.data@.skip(sp_of(top, a) - image.ustack_base) == stack_image(top, a)
        &&& after.inner.tasks@ == seq![
            Some(
                TaskControlBlock {
                    ustack_base: image.ustack_base,
                    trap_cx: TrapContext {
                        sepc: image.entry_point,
                        sp: sp_of(top, a) as usize,
                        a0: args.len() as usize,
                        a1: argv_base_of(top, a) as usize,
                        kernel_sp: t0.trap_cx.kernel_sp,
                    },
                    ..t0
                },
            ),
        ]
    }
}

/// An open file of the filesystem layer, named by its handle.
#[derive(Clone, Copy, PartialEq, Eq, Structural, Debug)]
pub struct FileHandle {
    pub id: usize,
}

/// Hands out small integer ids, reusing released ones first.
pub struct RecycleAllocator {
    /// Ids at or above this one were never handed out.
    pub current: usize,
    /// Released ids, reused last in first out.
    pub recycled: Vec<usize>,
}

impl RecycleAllocator {
    pub open spec fn wf(&self) -> bool {
        &&& self.recycled@.no_duplicates()
        &&& forall|i: int| 0 <= i < self.recycled@.len() ==> #[trigger] self.recycled@[i] < self.current
    }

    /// Whether `id` is handed out and not released.
    pub open spec fn in_use(&self, id: int) -> bool {
        0 <= id < self.current && !self.recycled@.contains(id as usize)
    }

    pub fn new() -> (r: Self)
        ensures
            r.wf(),
            r.current == 0,
            r.recycled@.len() == 0,
    {
        RecycleAllocator { current: 0, recycled: Vec::new() }
    }

    /// Hands out the most recently released id, or a fresh one.
    pub fn alloc_id(&mut self) -> (id: usize)
        requires
            old(self).wf(),
            old(self).recycled@.len() == 0 ==> old(self).current < usize::MAX,
        ensures
            final(self).wf(),
            !old(self).in_use(id as int),
            final(self).in_use(id as int),
            forall|x: int| x != id ==> final(self).in_use(x) == old(self).in_use(x),
            old(self).recycled@.len() > 0 ==> id == old(self).recycled@.last(),
            old(self).recycled@.len() == 0 ==> id == old(self).current,
    {
        match self.recycled.pop() {
            Some(id) => {
                proof {
                    let r = old(self).recycled@;
                    assert(r =~= self.recycled@.push(id));
                    assert forall|x: int| x != id implies self.in_use(x) == old(self).in_use(x) by {
                        if 0 <= x < self.current && x != id {
                            if r.contains(x as usize) {
                                let w = choose|w: int| 0 <= w < r.len() && r[w] == x as usize;
                                assert(self.recycled@[w] == x as usize);
                            }
                        }
                    }
                    assert(!self.recycled@.contains(id)) by {
                        if self.recycled@.contains(id) {
                            let w = choose|w: int| 0 <= w < self.recycled@.len() && self.recycled@[w] == id;
                            assert(r[w] == r[r.len() - 1]);
                        }
                    }
                }
                id
            },
            None => {
                let id = self.current;
                self.current = self.current + 1;
                id
            },
        }
    }

    /// Releases `id` for reuse.
    pub fn dealloc_id(&mut self, id: usize)
        requires
            old(self).wf(),
            old(self).in_use(id as int),
        ensures
            final(self).wf(),
            !final(self).in_use(id as int),
            forall|x: int| x != id ==> final(self).in_use(x) == old(self).in_use(x),
            final(self).recycled@ == old(self).recycled@.push(id),
            final(self).current == old(self).current,
    {
        self.recycled.push(id);
        proof {
            let r = old(self).recycled@;
            assert(self.recycled@[r.len() as int] == id);
            assert forall|x: int| x != id implies self.in_use(x) == old(self).in_use(x) by {
                if 0 <= x < self.current && self.recycled@.contains(x as usize) {
                    let w = choose|w: int| 0 <= w < self.recycled@.len() && self.recycled@[w] == x as usize;
                    assert(r[w] == x as usize);
                }
                if r.contains(x as usize) {
                    let w = choose|w: int| 0 <= w < r.len() && r[w] == x as usize;
                    assert(self.recycled@[w] == x as usize);
                }
            }
        }
    }
}

/// The mutable part of a process control block.
pub struct ProcessControlBlockInner {
    pub is_zombie: bool,
    /// The address space.
    pub memory_set: MemorySet,
    /// Pid of the parent process; it does not own this process.
    pub parent: Option<usize>,
    /// Pids of the children, which this process owns.
    pub children: Vec<usize>,
    pub exit_code: i32,
    /// Open files by descriptor; `None` marks a free slot.
    pub fd_table: Vec<Option<FileHandle>>,
    /// Threads by id; `None` marks a free slot.
    pub tasks: Vec<Option<TaskControlBlock>>,
    pub task_res_allocator: RecycleAllocator,
    pub mutex_list: Vec<Option<MutexBlocking>>,
    pub semaphore_list: Vec<Option<Semaphore>>,
    pub condvar_list: Vec<Option<Condvar>>,
    /// Whether acquisitions go through the deadlock gate.
    pub detect_enabled: bool,
    /// Lowest address of the heap.
    pub heap_bottom: usize,
    /// Current end of the heap.
    pub program_brk: usize,
}

/// Index of the first free descriptor slot.
pub open spec fn is_first_free(t: Seq<Option<FileHandle>>, i: int) -> bool {
    &&& 0 <= i < t.len()
    &&& t[i] is None
    &&& forall|j: int| 0 <= j < i ==> #[trigger] t[j] is Some
}

impl ProcessControlBlockInner {
    /// The token of the process's page table.
    pub fn get_user_token(&self) -> (r: usize)
        ensures
            r == self.memory_set.token,
    {
        self.memory_set.token()
    }

    /// Takes the first free descriptor slot, growing the table by one when
    /// every slot is taken. The slot stays `None` until a file is put in.
    pub fn alloc_fd(&mut self) -> (fd: usize)
        requires
            old(self).fd_table@.len() < usize::MAX,
        ensures
            (exists|i: int| is_first_free(old(self).fd_table@, i)) ==> is_first_free(
                old(self).fd_table@,
                fd as int,
            ) && final(self).fd_table@ == old(self).fd_table@,
            !(exists|i: int| is_first_free(old(self).fd_table@, i)) ==> fd == old(
                self,
            ).fd_table@.len() && final(self).fd_table@ == old(self).fd_table@.push(None),
            *final(self) == (ProcessControlBlockInner { fd_table: final(self).fd_table, ..*old(self) }),
    {
        let mut fd: usize = 0;
        while fd < self.fd_table.len()
            invariant
                self.fd_table@ == old(self).fd_table@,
                fd <= self.fd_table@.len(),
                forall|j: int| 0 <= j < fd ==> #[trigger] self.fd_table@[j] is Some,
            decreases self.fd_table@.len() - fd,
        {
            if self.fd_table[fd].is_none() {
                assert(is_first_free(old(self).fd_table@, fd as int));
                return fd;
            }
            fd = fd + 1;
        }
        proof {
            assert forall|i: int| !is_first_free(old(self).fd_table@, i) by {
                if 0 <= i < old(self).fd_table@.len() {
                    assert(self.fd_table@[i] is Some);
                }
            }
        }
        self.fd_table.push(None);
        self.fd_table.len() - 1
    }

    /// Takes a thread id.
    pub fn alloc_tid(&mut self) -> (tid: usize)
        requires
            old(self).task_res_allocator.wf(),
            old(self).task_res_allocator.recycled@.len() == 0
                ==> old(self).task_res_allocator.current < usize::MAX,
        ensures
            final(self).task_res_allocator.wf(),
            !old(self).task_res_allocator.in_use(tid as int),
            final(self).task_res_allocator.in_use(tid as int),
            forall|x: int|
                x != tid ==> final(self).task_res_allocator.in_use(x) == old(
                    self,
                ).task_res_allocator.in_use(x),
            *final(self) == (ProcessControlBlockInner {
                task_res_allocator: final(self).task_res_allocator,
                ..*old(self)
            }),
    {
        self.task_res_allocator.alloc_id()
    }

    /// Gives a thread id back.
    pub fn dealloc_tid(&mut self, tid: usize)
        requires
            old(self).task_res_allocator.wf(),
            old(self).task_res_allocator.in_use(tid as int),
        ensures
            final(self).task_res_allocator.wf(),
            !final(self).task_res_allocator.in_use(tid as int),
            forall|x: int|
                x != tid ==> final(self).task_res_allocator.in_use(x) == old(
                    self,
                ).task_res_allocator.in_use(x),
            *final(self) == (ProcessControlBlockInner {
                task_res_allocator: final(self).task_res_allocator,
                ..*old(self)
            }),
    {
        self.task_res_allocator.dealloc_id(tid)
    }

    /// Number of thread slots.
    pub fn thread_count(&self) -> (r: usize)
        ensures
            r == self.tasks@.len(),
    {
        self.tasks.len()
    }

    /// The thread with id `tid`.
    pub fn get_task(&self, tid: usize) -> (r: TaskControlBlock)
        requires
            tid < self.tasks@.len(),
            self.tasks@[tid as int] is Some,
        ensures
            Some(r) == self.tasks@[tid as int],
    {
        self.tasks[tid].unwrap()
    }
}

/// A process.
pub struct ProcessControlBlock {
    pub pid: usize,
    pub inner: ProcessControlBlockInner,
}

impl ProcessControlBlock {
    /// The address space is well formed and the thread-id allocator too.
    pub open spec fn wf(&self) -> bool {
        &&& self.inner.memory_set.wf()
        &&& self.inner.task_res_allocator.wf()
        &&& self.inner.program_brk <= isize::MAX
    }

    /// What `build(pid, image)` builds: see there.
    pub open spec fn fresh(&self, pid: usize, image: LoadedImage) -> bool {
        &&& self.pid == pid
        &&& self.inner.parent is None
        &&& self.inner.children@.len() == 0
        &&& !self.inner.is_zombie
        &&& self.inner.exit_code == 0
        &&& self.inner.fd_table@ == seq![
            Some(FileHandle { id: 0 }),
            Some(FileHandle { id: 1 }),
            Some(FileHandle { id: 1 }),
        ]
        &&& self.inner.tasks@.len() == 1
        &&& self.inner.tasks@[0] == Some(
            TaskControlBlock::new_spec(
                0,
                image.ustack_base,
                image.entry_point,
                image.ustack_top() as usize,
            ),
        )
        &&& self.inner.memory_set.token == image.memory_set.token
        &&& self.inner.memory_set.areas@.drop_last() == image.memory_set.areas@
        &&& self.inner.memory_set.areas@.len() == image.memory_set.areas@.len() + 1
        &&& self.inner.memory_set.areas@.last().start_vpn == image.ustack_base as int / PAGE_SIZE as int
        &&& self.inner.memory_set.areas@.last().end_vpn == image.ustack_top() / PAGE_SIZE as int
        &&& self.inner.memory_set.areas@.last().perm == STACK_PERM
        &&& self.inner.memory_set.areas@.last().data@ == Seq::new(USER_STACK_SIZE as nat, |i: int| 0u8)
        &&& self.inner.mutex_list@.len() == 0
        &&& self.inner.semaphore_list@.len() == 0
        &&& self.inner.condvar_list@.len() == 0
        &&& self.inner.task_res_allocator.in_use(0)
        &&& forall|x: int| x != 0 ==> !self.inner.task_res_allocator.in_use(x)
        &&& self.inner.heap_bottom == image.ustack_top()
        &&& self.inner.program_brk == image.ustack_top()
        &&& !self.inner.detect_enabled
    }

    /// The control block of a process with pid `pid` running `image`: one
    /// ready main thread with id 0 at the entry point on an empty stack, the
    /// standard input, output and error descriptors, no parent and no
    /// children. `new` puts such a process into the kernel.
    pub fn build(pid: usize, image: LoadedImage) -> (r: Self)
        requires
            image.wf(),
        ensures
            r.wf(),
            r.fresh(pid, image),
    {
        let base = image.ustack_base;
        let entry = image.entry_point;
        let top = base + USER_STACK_SIZE;
        let mut memory_set = image.memory_set;
        let area = stack_area(base, Vec::new());
        proof {
            assert(area.data@ =~= Seq::new(USER_STACK_SIZE as nat, |i: int| 0u8));
        }
        memory_set.push_area(area);
        let mut task_res_allocator = RecycleAllocator::new();
        let tid = task_res_allocator.alloc_id();
        let task = TaskControlBlock::new(tid, base, entry, top);
        let mut tasks: Vec<Option<TaskControlBlock>> = Vec::new();
        tasks.push(Some(task));
        let mut fd_table: Vec<Option<FileHandle>> = Vec::new();
        fd_table.push(Some(FileHandle { id: 0 }));
        fd_table.push(Some(FileHandle { id: 1 }));
        fd_table.push(Some(FileHandle { id: 1 }));
        proof {
            assert(memory_set.areas@.drop_last() =~= image.memory_set.areas@);
            assert(fd_table@ =~= seq![
                Some(FileHandle { id: 0 }),
                Some(FileHandle { id: 1 }),
                Some(FileHandle { id: 1 }),
            ]);
        }
        ProcessControlBlock {
            pid,
            inner: ProcessControlBlockInner {
                is_zombie: false,
                memory_set,
                parent: None,
                children: Vec::new(),
                exit_code: 0,
                fd_table,
                tasks,
                task_res_allocator,
                mutex_list: Vec::new(),
                semaphore_list: Vec::new(),
                condvar_list: Vec::new(),
                detect_enabled: false,
                heap_bottom: top,
                program_brk: top,
            },
        }
    }

    /// Replaces the program of a single-threaded process by `image`, with
    /// `args` laid out on the main thread's new stack (see `stack_image`).
    /// The main thread resumes at the entry point with the argument count in
    /// `a0` and the address of the pointer array in `a1`. False, changing
    /// nothing, when the arguments do not fit on the stack. The pid, the
    /// parent, the children and the descriptors are kept.
    pub fn exec(&mut self, image: LoadedImage, args: &Vec<Vec<u8>>) -> (r: bool)
        requires
            old(self).wf(),
            old(self).inner.tasks@.len() == 1,
            old(self).inner.tasks@[0] is Some,
            image.wf(),
        ensures
            final(self).wf(),
            exec_outcome(*old(self), *final(self), image, arg_seqs(args@), r),
    {
        let base = image.ustack_base;
        let top = base + USER_STACK_SIZE;
        let built = build_argv(top, USER_STACK_SIZE, args);
        match built {
            None => false,
            Some(argv) => {
                let ghost img_bytes = argv.bytes@;
                let area = stack_area(base, argv.bytes);
                let mut memory_set = image.memory_set;
                memory_set.push_area(area);
                let t0 = self.inner.tasks[0].unwrap();
                let task = TaskControlBlock {
                    ustack_base: base,
                    trap_cx: TrapContext {
                        sepc: image.entry_point,
                        sp: argv.sp,
                        a0: args.len(),
                        a1: argv.argv_base,
                        kernel_sp: t0.trap_cx.kernel_sp,
                    },
                    ..t0
                };
                self.inner.memory_set = memory_set;
                self.inner.tasks.set(0, Some(task));
                proof {
                    let st = self.inner.memory_set.areas@.last();
                    assert(self.inner.memory_set.areas@.drop_last() =~= image.memory_set.areas@);
                    assert(st.data@.skip(argv.sp - base) =~= img_bytes);
                    assert(self.inner.tasks@ =~= seq![Some(task)]);
                }
                true
            },
        }
    }

    /// Copies a single-threaded process into a new child with pid
    /// `child_pid`: a full copy of the address space under `token`, the same
    /// open files in new slots, a fresh thread-id allocator, and one ready
    /// main thread like the parent's but for `a0`, which is 0 in the child.
    pub fn copy_for_child(&self, child_pid: usize, token: usize) -> (child: Self)
        requires
            self.wf(),
            self.inner.tasks@.len() == 1,
            self.inner.tasks@[0] is Some,
        ensures
            child.wf(),
            child.pid == child_pid,
            child.inner.parent == Some(self.pid),
            child.inner.children@.len() == 0,
            !child.inner.is_zombie,
            child.inner.memory_set.token == token,
            child.inner.memory_set.same_contents(&self.inner.memory_set),
            child.inner.fd_table@ == self.inner.fd_table@,
            child.inner.tasks@ == seq![
                Some(
                    TaskControlBlock {
                        task_status: TaskStatus::Ready,
                        trap_cx: TrapContext { a0: 0, ..self.inner.tasks@[0]->Some_0.trap_cx },
                        ..self.inner.tasks@[0]->Some_0
                    },
                ),
            ],
            !child.inner.detect_enabled,
            child.inner.heap_bottom == self.inner.heap_bottom,
            child.inner.program_brk == self.inner.program_brk,
    {
        let memory_set = MemorySet::from_existed_user(&self.inner.memory_set, token);
        let mut fd_table: Vec<Option<FileHandle>> = Vec::new();
        let mut i: usize = 0;
        while i < self.inner.fd_table.len()
            invariant
                i <= self.inner.fd_table@.len(),
                fd_table@ == self.inner.fd_table@.take(i as int),
            decreases self.inner.fd_table@.len() - i,
        {
            fd_table.push(self.inner.fd_table[i]);
            i = i + 1;
            proof {
                assert(fd_table@ =~= self.inner.fd_table@.take(i as int));
            }
        }
        proof {
            assert(fd_table@ =~= self.inner.fd_table@);
        }
        let t0 = self.inner.tasks[0].unwrap();
        let task = TaskControlBlock {
            task_status: TaskStatus::Ready,
            trap_cx: TrapContext { a0: 0, ..t0.trap_cx },
            ..t0
        };
        let mut task_res_allocator = RecycleAllocator::new();
        let _tid = task_res_allocator.alloc_id();
        let mut tasks: Vec<Option<TaskControlBlock>> = Vec::new();
        tasks.push(Some(task));
        proof {
            assert(tasks@ =~= seq![Some(task)]);
        }
        ProcessControlBlock {
            pid: child_pid,
            inner: ProcessControlBlockInner {
                is_zombie: false,
                memory_set,
                parent: Some(self.pid),
                children: Vec::new(),
                exit_code: 0,
                fd_table,
                tasks,
                task_res_allocator,
                mutex_list: Vec::new(),
                semaphore_list: Vec::new(),
                condvar_list: Vec::new(),
                detect_enabled: false,
                heap_bottom: self.inner.heap_bottom,
                program_brk: self.inner.program_brk,
            },
        }
    }
    /// The mutable part, borrowed for the time of one operation.
    pub fn inner_exclusive_access(&mut self) -> (r: &mut ProcessControlBlockInner)
        ensures
            *r == old(self).inner,
            final(self).inner == *final(r),
            final(self).pid == old(self).pid,
    {
        &mut self.inner
    }

    pub fn getpid(&self) -> (r: usize)
        ensures
            r == self.pid,
    {
        self.pid
    }

    /// Turns the deadlock gate on (1) or off (0); returns 1.
    pub fn set_enabled(&mut self, enabled: i32) -> (r: i32)
        requires
            enabled == 0 || enabled == 1,
        ensures
            r == 1,
            final(self).pid == old(self).pid,
            final(self).inner == (ProcessControlBlockInner { detect_enabled: enabled == 1, ..old(self).inner }),
    {
        if enabled == 1 {
            self.inner.detect_enabled = true;
        } else {
            self.inner.detect_enabled = false;
        }
        1
    }
    /// The deadlock gate for thread `tid` asking for a unit of semaphore
    /// `sem_id`. True, granting the request, when detection is off, or when
    /// the state in which the request is added to what the threads wait for
    /// is safe: some order lets every thread finish.
    pub fn detect_sem(&self, tid: usize, sem_id: usize) -> (r: bool)
        requires
            tid < self.inner.tasks@.len(),
            sem_id < self.inner.semaphore_list@.len(),
            sem_counts_fit(self.inner.semaphore_list@),
        ensures
            r == (!self.inner.detect_enabled || is_safe(
                sem_available(self.inner.semaphore_list@),
                sem_allocation(self.inner.semaphore_list@, self.inner.tasks@.len() as int),
                sem_need(
                    self.inner.semaphore_list@,
                    self.inner.tasks@.len() as int,
                    tid as int,
                    sem_id as int,
                ),
            )),
    {
        if !self.inner.detect_enabled {
            return true;
        }
        let list = &self.inner.semaphore_list;
        let n = self.inner.tasks.len();
        let available = sem_available_of(list);
        let allocation = sem_matrix(list, n, false, 0, 0);
        let need = sem_matrix(list, n, true, tid, sem_id);
        proof {
            let a = sem_allocation(list@, n as int);
            assert forall|j: int| 0 <= j < available@.len() implies crate::deadlock::free_after(
                available@,
                rows(allocation@),
                Set::full(),
                j,
            ) <= u64::MAX by {
                lemma_sem_released(list@, n as int, j, n as int);
                if let Some(s) = list@[j] {
                    lemma_occ_below_le_len(s.inner.get_queue@, n as int);
                }
            }
        }
        is_safe_state(&available, &allocation, &need)
    }

    /// The deadlock gate for thread `tid` asking for mutex `mutex_id`: the
    /// same check, each mutex being a resource of one unit.
    pub fn detect_mutex(&self, tid: usize, mutex_id: usize) -> (r: bool)
        requires
            tid < self.inner.tasks@.len(),
            mutex_id < self.inner.mutex_list@.len(),
            mutex_counts_fit(self.inner.mutex_list@),
            forall|j: int|
                0 <= j < self.inner.mutex_list@.len() ==> match #[trigger] self.inner.mutex_list@[j] {
                    Some(m) => m.wf(),
                    None => true,
                },
        ensures
            r == (!self.inner.detect_enabled || is_safe(
                mutex_available(self.inner.mutex_list@),
                mutex_allocation(self.inner.mutex_list@, self.inner.tasks@.len() as int),
                mutex_need(
                    self.inner.mutex_list@,
                    self.inner.tasks@.len() as int,
                    tid as int,
                    mutex_id as int,
                ),
            )),
    {
        if !self.inner.detect_enabled {
            return true;
        }
        let list = &self.inner.mutex_list;
        let n = self.inner.tasks.len();
        let available = mutex_available_of(list);
        let allocation = mutex_matrix(list, n, false, 0, 0);
        let need = mutex_matrix(list, n, true, tid, mutex_id);
        proof {
            assert forall|j: int| 0 <= j < available@.len() implies crate::deadlock::free_after(
                available@,
                rows(allocation@),
                Set::full(),
                j,
            ) <= u64::MAX by {
                lemma_mutex_released(list@, n as int, j, n as int);
            }
        }
        is_safe_state(&available, &allocation, &need)
    }

    /// Moves the end of the heap by `size` bytes and returns the old end.
    /// None, changing nothing, when the new end would fall below the heap's
    /// bottom or above `isize::MAX`.
    pub fn change_program_brk(&mut self, size: i32) -> (r: Option<usize>)
        ensures
            ({
                let new_brk = old(self).inner.program_brk + size;
                &&& r is None <==> (new_brk < old(self).inner.heap_bottom || new_brk > isize::MAX)
                &&& r is None ==> *final(self) == *old(self)
                &&& r is Some ==> r == Some(old(self).inner.program_brk) && final(self).inner.program_brk == new_brk
                    && final(self).inner == (ProcessControlBlockInner { program_brk: final(self).inner.program_brk, ..old(self).inner })
                    && final(self).pid == old(self).pid
            }),
    {
        let old_brk = self.inner.program_brk;
        if size < 0 {
            let shrink = (-(size as i64)) as usize;
            if old_brk < shrink || old_brk - shrink < self.inner.heap_bottom || old_brk - shrink > isize::MAX as usize {
                return None;
            }
            self.inner.program_brk = old_brk - shrink;
        } else {
            let grow = size as usize;
            if old_brk > isize::MAX as usize || grow > isize::MAX as usize - old_brk || old_brk + grow < self.inner.heap_bottom {
                return None;
            }
            self.inner.program_brk = old_brk + grow;
        }
        Some(old_brk)
    }

    /// Thread `tid` locks mutex `id` (see `MutexBlocking::lock`); true when
    /// it has to block.
    pub fn lock_mutex(&mut self, id: usize, tid: usize) -> (blocked: bool)
        requires
            id < old(self).inner.mutex_list@.len(),
            old(self).inner.mutex_list@[id as int] matches Some(m) && m.wf(),
        ensures
            final(self).pid == old(self).pid,
            final(self).inner == (ProcessControlBlockInner { mutex_list: final(self).inner.mutex_list, ..old(self).inner }),
            final(self).inner.mutex_list@ == old(self).inner.mutex_list@.update(id as int, final(self).inner.mutex_list@[id as int]),
            final(self).inner.mutex_list@[id as int] matches Some(m) && m.wf() && lock_outcome(
                old(self).inner.mutex_list@[id as int]->Some_0,
                m,
                tid,
                blocked,
            ),
    {
        let mut slot: Option<MutexBlocking> = None;
        self.inner.mutex_list.set_and_swap(id, &mut slot);
        let mut m = slot.unwrap();
        let blocked = m.lock(tid);
        self.inner.mutex_list.set(id, Some(m));
        proof {
            assert(self.inner.mutex_list@ =~= old(self).inner.mutex_list@.update(id as int, self.inner.mutex_list@[id as int]));
        }
        blocked
    }

    /// Unlocks mutex `id` (see `MutexBlocking::unlock`); returns the thread
    /// it was handed to.
    pub fn unlock_mutex(&mut self, id: usize) -> (woken: Option<usize>)
        requires
            id < old(self).inner.mutex_list@.len(),
            old(self).inner.mutex_list@[id as int] matches Some(m) && m.wf() && m.locked,
        ensures
            final(self).pid == old(self).pid,
            final(self).inner == (ProcessControlBlockInner { mutex_list: final(self).inner.mutex_list, ..old(self).inner }),
            final(self).inner.mutex_list@ == old(self).inner.mutex_list@.update(id as int, final(self).inner.mutex_list@[id as int]),
            final(self).inner.mutex_list@[id as int] matches Some(m) && m.wf() && unlock_outcome(
                old(self).inner.mutex_list@[id as int]->Some_0,
                m,
                woken,
            ),
    {
        let mut slot: Option<MutexBlocking> = None;
        self.inner.mutex_list.set_and_swap(id, &mut slot);
        let mut m = slot.unwrap();
        let woken = m.unlock();
        self.inner.mutex_list.set(id, Some(m));
        proof {
            assert(self.inner.mutex_list@ =~= old(self).inner.mutex_list@.update(id as int, self.inner.mutex_list@[id as int]));
        }
        woken
    }

    /// Thread `tid` takes a unit of semaphore `id` (see `Semaphore::down`);
    /// true when it has to block.
    pub fn down_sem(&mut self, id: usize, tid: usize) -> (blocked: bool)
        requires
            id < old(self).inner.semaphore_list@.len(),
            old(self).inner.semaphore_list@[id as int] matches Some(s) && s.wf() && s.inner.count > isize::MIN,
        ensures
            final(self).pid == old(self).pid,
            final(self).inner == (ProcessControlBlockInner { semaphore_list: final(self).inner.semaphore_list, ..old(self).inner }),
            final(self).inner.semaphore_list@ == old(self).inner.semaphore_list@.update(id as int, final(self).inner.semaphore_list@[id as int]),
            final(self).inner.semaphore_list@[id as int] matches Some(s) && s.wf() && down_outcome(
                old(self).inner.semaphore_list@[id as int]->Some_0,
                s,
                tid,
                blocked,
            ),
    {
        let mut slot: Option<Semaphore> = None;
        self.inner.semaphore_list.set_and_swap(id, &mut slot);
        let mut sem = slot.unwrap();
        let blocked = sem.down(tid);
        self.inner.semaphore_list.set(id, Some(sem));
        proof {
            assert(self.inner.semaphore_list@ =~= old(self).inner.semaphore_list@.update(id as int, self.inner.semaphore_list@[id as int]));
        }
        blocked
    }

    /// Thread `tid` gives back a unit of semaphore `id` (see
    /// `Semaphore::up`); returns the thread woken, if any.
    pub fn up_sem(&mut self, id: usize, tid: usize) -> (woken: Option<usize>)
        requires
            id < old(self).inner.semaphore_list@.len(),
            old(self).inner.semaphore_list@[id as int] matches Some(s) && s.wf() && s.inner.count < isize::MAX,
        ensures
            final(self).pid == old(self).pid,
            final(self).inner == (ProcessControlBlockInner { semaphore_list: final(self).inner.semaphore_list, ..old(self).inner }),
            final(self).inner.semaphore_list@ == old(self).inner.semaphore_list@.update(id as int, final(self).inner.semaphore_list@[id as int]),
            final(self).inner.semaphore_list@[id as int] matches Some(s) && s.wf() && up_outcome(
                old(self).inner.semaphore_list@[id as int]->Some_0,
                s,
                tid,
                woken,
            ),
    {
        let mut slot: Option<Semaphore> = None;
        self.inner.semaphore_list.set_and_swap(id, &mut slot);
        let mut sem = slot.unwrap();
        let woken = sem.up(tid);
        self.inner.semaphore_list.set(id, Some(sem));
        proof {
            assert(self.inner.semaphore_list@ =~= old(self).inner.semaphore_list@.update(id as int, self.inner.semaphore_list@[id as int]));
        }
        woken
    }
}

} // verus!

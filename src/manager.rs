//! Ready queue and stride scheduling.
use vstd::prelude::*;

verus! {

/// The stride a task of priority one would advance by per dispatch; divisible
/// by every priority up to 16, so that small priorities get exact passes.
pub const BIG_STRIDE: u64 = 720720;

/// The largest pass a task can have: priorities start at 2.
pub const MAX_PASS: u64 = BIG_STRIDE / 2;

/// Smallest priority `set_priority` accepts.
pub const MIN_PRIORITY: isize = 2;

/// `a - b` read as a signed 64-bit number, the way two wrapping stride
/// counters are compared.
pub open spec fn signed_diff(a: u64, b: u64) -> int {
    if a >= b {
        if a - b < 0x8000_0000_0000_0000 {
            a - b
        } else {
            a - b - 0x1_0000_0000_0000_0000
        }
    } else {
        if b - a <= 0x8000_0000_0000_0000 {
            a - b
        } else {
            a - b + 0x1_0000_0000_0000_0000
        }
    }
}

/// `a + b` modulo 2^64.
pub open spec fn wrap_add(a: u64, b: u64) -> u64 {
    if a + b <= u64::MAX {
        (a + b) as u64
    } else {
        (a + b - 0x1_0000_0000_0000_0000) as u64
    }
}

/// Whether stride `a` is behind stride `b` across wraparound.
pub fn stride_less(a: u64, b: u64) -> (r: bool)
    ensures
        r == (signed_diff(a, b) < 0),
{
    if a >= b {
        a - b >= 0x8000_0000_0000_0000
    } else {
        b - a <= 0x8000_0000_0000_0000
    }
}

/// A thread, named by its process id and its thread id within the process.
#[derive(Clone, Copy, PartialEq, Eq, Structural, Debug)]
pub struct TaskRef {
    pub pid: usize,
    pub tid: usize,
}

/// An entry of the ready queue: a thread with its accumulated stride and its
/// pass (`BIG_STRIDE / priority`).
#[derive(Clone, Copy, PartialEq, Eq, Structural, Debug)]
pub struct ReadyTask {
    pub task: TaskRef,
    pub stride: u64,
    pub pass: u64,
}

/// No entry is strictly behind entry `i`.
pub open spec fn is_minimal(q: Seq<ReadyTask>, i: int) -> bool {
    forall|j: int| 0 <= j < q.len() ==> signed_diff(#[trigger] q[j].stride, q[i].stride) >= 0
}

/// The entry the dispatcher takes: the first entry with the least stride, or
/// the head of the queue when wraparound leaves no least stride.
pub open spec fn is_pick(q: Seq<ReadyTask>, i: int) -> bool {
    &&& 0 <= i < q.len()
    &&& (exists|k: int| 0 <= k < q.len() && is_minimal(q, k)) ==> is_minimal(q, i) && forall|
        j: int,
    | 0 <= j < i ==> !is_minimal(q, j)
    &&& !(exists|k: int| 0 <= k < q.len() && is_minimal(q, k)) ==> i == 0
}

/// The entry after one more dispatch: its stride advanced by its pass.
pub open spec fn charged(t: ReadyTask) -> ReadyTask {
    ReadyTask { stride: wrap_add(t.stride, t.pass), ..t }
}

/// One dispatch round: the picked entry leaves the queue, is charged its
/// pass, and is put back at the tail.
pub open spec fn dispatched(q: Seq<ReadyTask>, i: int) -> Seq<ReadyTask> {
    q.remove(i).push(charged(q[i]))
}

/// All strides lie within `MAX_PASS` of one another and no pass exceeds it.
pub open spec fn window_ok(q: Seq<ReadyTask>) -> bool {
    &&& forall|i: int| 0 <= i < q.len() ==> #[trigger] q[i].pass <= MAX_PASS
    &&& forall|i: int, j: int|
        0 <= i < q.len() && 0 <= j < q.len() ==> -MAX_PASS <= signed_diff(
            #[trigger] q[i].stride,
            #[trigger] q[j].stride,
        ) <= MAX_PASS
}

proof fn lemma_signed_diff_facts(a: u64, b: u64, c: u64)
    ensures
        -0x8000_0000_0000_0000 <= signed_diff(a, b) < 0x8000_0000_0000_0000,
        signed_diff(a, b) == 0 <==> a == b,
        signed_diff(a, b) > -0x8000_0000_0000_0000 ==> signed_diff(b, a) == -signed_diff(a, b),
        -0x4000_0000_0000_0000 < signed_diff(a, b) < 0x4000_0000_0000_0000
            && -0x4000_0000_0000_0000 < signed_diff(b, c) < 0x4000_0000_0000_0000
            ==> signed_diff(a, c) == signed_diff(a, b) + signed_diff(b, c),
{
    let m: int = 0x1_0000_0000_0000_0000;
    let dab = signed_diff(a, b);
    let dbc = signed_diff(b, c);
    let dac = signed_diff(a, c);
    assert(dab == a - b || dab == a - b + m || dab == a - b - m);
    assert(dbc == b - c || dbc == b - c + m || dbc == b - c - m);
    assert(dac == a - c || dac == a - c + m || dac == a - c - m);
}

proof fn lemma_shift(a: u64, b: u64, p: u64)
    requires
        -0x4000_0000_0000_0000 < signed_diff(a, b) < 0x4000_0000_0000_0000,
        p < 0x4000_0000_0000_0000,
    ensures
        signed_diff(wrap_add(a, p), b) == signed_diff(a, b) + p,
{
    let m: int = 0x1_0000_0000_0000_0000;
    let w = wrap_add(a, p);
    assert(w == a + p || w == a + p - m);
    let d = signed_diff(a, b);
    let e = signed_diff(w, b);
    assert(d == a - b || d == a - b + m || d == a - b - m);
    assert(e == w - b || e == w - b + m || e == w - b - m);
}

/// One dispatch round keeps the strides within `MAX_PASS` of one another,
/// and the entry taken has the least stride.
pub proof fn lemma_dispatch_keeps_window(q: Seq<ReadyTask>, i: int)
    requires
        window_ok(q),
        is_pick(q, i),
    ensures
        window_ok(dispatched(q, i)),
        forall|j: int| 0 <= j < q.len() ==> signed_diff(q[i].stride, #[trigger] q[j].stride) <= 0,
{
    let r = dispatched(q, i);
    let c = charged(q[i]);
    assert forall|j: int| 0 <= j < q.len() implies signed_diff(q[i].stride, #[trigger] q[j].stride)
        <= 0 by {
        lemma_signed_diff_facts(q[i].stride, q[j].stride, q[j].stride);
        lemma_signed_diff_facts(q[j].stride, q[i].stride, q[j].stride);
        if !is_minimal(q, i) {
            // no entry is minimal: impossible within a window
            let k = choose|k: int| 0 <= k < q.len() && is_minimal(q, k);
            assert(false) by {
                lemma_min_exists(q);
            }
        }
        assert(signed_diff(q[j].stride, q[i].stride) >= 0);
    }
    assert forall|a: int| 0 <= a < r.len() implies #[trigger] r[a].pass <= MAX_PASS by {
        if a < q.len() - 1 {
            if a < i {
                assert(r[a] == q[a]);
            } else {
                assert(r[a] == q[a + 1]);
            }
        }
    }
    assert forall|a: int, b: int| 0 <= a < r.len() && 0 <= b < r.len() implies -MAX_PASS
        <= signed_diff(#[trigger] r[a].stride, #[trigger] r[b].stride) <= MAX_PASS by {
        let last = q.len() - 1;
        let qa = if a == last {
            i
        } else if a < i {
            a
        } else {
            a + 1
        };
        let qb = if b == last {
            i
        } else if b < i {
            b
        } else {
            b + 1
        };
        assert(0 <= qa < q.len() && 0 <= qb < q.len());
        if a == last && b == last {
            lemma_signed_diff_facts(c.stride, c.stride, c.stride);
        } else if a == last {
            assert(r[b] == q[qb]);
            assert(signed_diff(q[i].stride, q[qb].stride) <= 0);
            lemma_shift(q[i].stride, q[qb].stride, q[i].pass);
        } else if b == last {
            assert(r[a] == q[qa]);
            assert(signed_diff(q[i].stride, q[qa].stride) <= 0);
            lemma_shift(q[i].stride, q[qa].stride, q[i].pass);
            lemma_signed_diff_facts(c.stride, q[qa].stride, c.stride);
            lemma_signed_diff_facts(q[qa].stride, c.stride, c.stride);
        } else {
            assert(r[a] == q[qa]);
            assert(r[b] == q[qb]);
        }
    }
}

/// The entry the dispatcher takes from a nonempty queue.
pub open spec fn pick_of(q: Seq<ReadyTask>) -> int {
    choose|i: int| is_pick(q, i)
}

/// The queue after `n` dispatch rounds.
pub open spec fn run(q: Seq<ReadyTask>, n: nat) -> Seq<ReadyTask>
    decreases n,
{
    if n == 0 {
        q
    } else {
        let r = run(q, (n - 1) as nat);
        if r.len() == 0 {
            r
        } else {
            dispatched(r, pick_of(r))
        }
    }
}

/// The first minimal entry at or after `k`, when none comes before.
proof fn first_minimal_from(q: Seq<ReadyTask>, k: int) -> (i: int)
    requires
        0 <= k <= q.len(),
        exists|m: int| k <= m < q.len() && is_minimal(q, m),
        forall|j: int| 0 <= j < k ==> !is_minimal(q, j),
    ensures
        is_pick(q, i),
    decreases q.len() - k,
{
    if is_minimal(q, k) {
        k
    } else {
        first_minimal_from(q, k + 1)
    }
}

/// Every nonempty queue has exactly one entry the dispatcher takes.
pub proof fn lemma_pick_unique(q: Seq<ReadyTask>)
    requires
        q.len() > 0,
    ensures
        is_pick(q, pick_of(q)),
        forall|i: int| #[trigger] is_pick(q, i) ==> i == pick_of(q),
{
    if exists|m: int| 0 <= m < q.len() && is_minimal(q, m) {
        let i = first_minimal_from(q, 0);
        assert(is_pick(q, i));
    } else {
        assert(is_pick(q, 0));
    }
    let p = pick_of(q);
    assert forall|i: int| #[trigger] is_pick(q, i) implies i == p by {
        if i < p {
            assert(!is_minimal(q, i) || !(exists|m: int| 0 <= m < q.len() && is_minimal(q, m)));
        } else if p < i {
            assert(!is_minimal(q, p) || !(exists|m: int| 0 <= m < q.len() && is_minimal(q, m)));
        }
    }
}

/// However long the dispatcher runs, from a queue whose strides lie within
/// `MAX_PASS` of one another they stay so, and no task enters or leaves
/// (see `lemma_fair_shares` for what this means for dispatch counts).
pub proof fn lemma_run_keeps_window(q: Seq<ReadyTask>, n: nat)
    requires
        window_ok(q),
    ensures
        window_ok(run(q, n)),
        run(q, n).len() == q.len(),
    decreases n,
{
    if n > 0 {
        lemma_run_keeps_window(q, (n - 1) as nat);
        let r = run(q, (n - 1) as nat);
        if r.len() > 0 {
            lemma_pick_unique(r);
            lemma_dispatch_keeps_window(r, pick_of(r));
        }
    }
}

/// Times the dispatcher has taken task `t` in the first `n` rounds from `q`.
pub open spec fn dispatch_count(q: Seq<ReadyTask>, n: nat, t: TaskRef) -> int
    decreases n,
{
    if n == 0 {
        0
    } else {
        let r = run(q, (n - 1) as nat);
        dispatch_count(q, (n - 1) as nat, t) + if r.len() > 0 && r[pick_of(r)].task == t {
            1int
        } else {
            0int
        }
    }
}

/// No task has two entries.
pub open spec fn tasks_distinct(q: Seq<ReadyTask>) -> bool {
    forall|a: int, b: int|
        0 <= a < q.len() && 0 <= b < q.len() && a != b ==> #[trigger] q[a].task != #[trigger] q[b].task
}

/// The stride gap between two entries is what their dispatches have added.
spec fn gaps_are_counts(q: Seq<ReadyTask>, n: nat) -> bool {
    let r = run(q, n);
    forall|a: int, b: int|
        0 <= a < r.len() && 0 <= b < r.len() ==> signed_diff(#[trigger] r[a].stride, #[trigger] r[b].stride)
            == dispatch_count(q, n, r[a].task) * r[a].pass - dispatch_count(q, n, r[b].task) * r[b].pass
}

proof fn lemma_gaps(q: Seq<ReadyTask>, n: nat)
    requires
        window_ok(q),
        tasks_distinct(q),
        forall|a: int, b: int| 0 <= a < q.len() && 0 <= b < q.len() ==> q[a].stride == q[b].stride,
    ensures
        window_ok(run(q, n)),
        tasks_distinct(run(q, n)),
        run(q, n).len() == q.len(),
        gaps_are_counts(q, n),
    decreases n,
{
    lemma_run_keeps_window(q, n);
    if n == 0 {
        assert forall|a: int, b: int|
            0 <= a < q.len() && 0 <= b < q.len() implies signed_diff(#[trigger] q[a].stride, #[trigger] q[b].stride)
            == dispatch_count(q, 0, q[a].task) * q[a].pass - dispatch_count(q, 0, q[b].task) * q[b].pass by {
            lemma_signed_diff_facts(q[a].stride, q[b].stride, q[b].stride);
        }
    } else {
        let m = (n - 1) as nat;
        lemma_gaps(q, m);
        let r = run(q, m);
        if r.len() > 0 {
            lemma_pick_unique(r);
            let i = pick_of(r);
            let e = r[i];
            let r2 = run(q, n);
            assert(r2 == dispatched(r, i));
            let last = r2.len() - 1;
            // where each entry of r2 came from
            assert forall|a: int| 0 <= a < last implies #[trigger] r2[a] == r[if a < i { a } else { a + 1 }]
                && r[if a < i { a } else { a + 1 }].task != e.task by {}
            assert(r2[last] == charged(e));
            assert forall|a: int, b: int|
                0 <= a < r2.len() && 0 <= b < r2.len() && a != b implies #[trigger] r2[a].task
                != #[trigger] r2[b].task by {
                if a < last && b < last {
                    let oa = if a < i { a } else { a + 1 };
                    let ob = if b < i { b } else { b + 1 };
                    assert(r[oa].task != r[ob].task);
                }
            }
            assert forall|t: TaskRef| t != e.task implies #[trigger] dispatch_count(q, n, t) == dispatch_count(q, m, t) by {}
            assert(dispatch_count(q, n, e.task) == dispatch_count(q, m, e.task) + 1);
            assert forall|a: int, b: int|
                0 <= a < r2.len() && 0 <= b < r2.len() implies signed_diff(#[trigger] r2[a].stride, #[trigger] r2[b].stride)
                == dispatch_count(q, n, r2[a].task) * r2[a].pass - dispatch_count(q, n, r2[b].task) * r2[b].pass by {
                let ce = dispatch_count(q, m, e.task);
                assert((ce + 1) * e.pass == ce * e.pass + e.pass) by (nonlinear_arith);
                if a < last && b < last {
                    let oa = if a < i { a } else { a + 1 };
                    let ob = if b < i { b } else { b + 1 };
                    assert(signed_diff(r[oa].stride, r[ob].stride) == dispatch_count(q, m, r[oa].task) * r[oa].pass
                        - dispatch_count(q, m, r[ob].task) * r[ob].pass);
                } else if a == last && b == last {
                    lemma_signed_diff_facts(r2[a].stride, r2[a].stride, r2[a].stride);
                } else if a == last {
                    let ob = if b < i { b } else { b + 1 };
                    assert(signed_diff(e.stride, r[ob].stride) == ce * e.pass
                        - dispatch_count(q, m, r[ob].task) * r[ob].pass);
                    lemma_shift(e.stride, r[ob].stride, e.pass);
                } else {
                    let oa = if a < i { a } else { a + 1 };
                    assert(signed_diff(e.stride, r[oa].stride) == ce * e.pass
                        - dispatch_count(q, m, r[oa].task) * r[oa].pass);
                    lemma_shift(e.stride, r[oa].stride, e.pass);
                    lemma_signed_diff_facts(r2[last].stride, r[oa].stride, r[oa].stride);
                }
            }
        } else {
            assert forall|t: TaskRef| #[trigger] dispatch_count(q, n, t) == dispatch_count(q, m, t) by {}
        }
    }
}

/// Stride fairness: start `k` distinct runnable tasks with equal strides and
/// passes of at most `MAX_PASS` (priorities of 2 or more), and dispatch
/// `n` times. For any two tasks, dispatches times pass differ by at most
/// `MAX_PASS`: each task gets a share of the dispatches proportional to
/// `1 / pass`, that is to its priority, with an error that does not grow
/// with `n`.
pub proof fn lemma_fair_shares(q: Seq<ReadyTask>, n: nat)
    requires
        window_ok(q),
        tasks_distinct(q),
        forall|a: int, b: int| 0 <= a < q.len() && 0 <= b < q.len() ==> q[a].stride == q[b].stride,
    ensures
        run(q, n).len() == q.len(),
        forall|a: int, b: int|
            0 <= a < run(q, n).len() && 0 <= b < run(q, n).len() ==> -MAX_PASS <= dispatch_count(
                q,
                n,
                #[trigger] run(q, n)[a].task,
            ) * run(q, n)[a].pass - dispatch_count(q, n, #[trigger] run(q, n)[b].task) * run(q, n)[b].pass
                <= MAX_PASS,
{
    lemma_gaps(q, n);
    let r = run(q, n);
    assert forall|a: int, b: int| 0 <= a < r.len() && 0 <= b < r.len() implies -MAX_PASS <= dispatch_count(
        q,
        n,
        #[trigger] r[a].task,
    ) * r[a].pass - dispatch_count(q, n, #[trigger] r[b].task) * r[b].pass <= MAX_PASS by {
        assert(-MAX_PASS <= signed_diff(r[a].stride, r[b].stride) <= MAX_PASS);
    }
}

/// Within a window some entry has the least stride.
proof fn lemma_min_exists(q: Seq<ReadyTask>)
    requires
        window_ok(q),
        q.len() > 0,
    ensures
        exists|k: int| 0 <= k < q.len() && is_minimal(q, k),
{
    let k = least_upto(q, q.len() as int);
    assert(is_minimal(q, k));
}

/// Index of a least stride among the first `n` entries.
proof fn least_upto(q: Seq<ReadyTask>, n: int) -> (k: int)
    requires
        window_ok(q),
        0 < n <= q.len(),
    ensures
        0 <= k < n,
        forall|j: int| 0 <= j < n ==> signed_diff(#[trigger] q[j].stride, q[k].stride) >= 0,
    decreases n,
{
    if n == 1 {
        lemma_signed_diff_facts(q[0].stride, q[0].stride, q[0].stride);
        0
    } else {
        let k0 = least_upto(q, n - 1);
        let x = n - 1;
        lemma_signed_diff_facts(q[x].stride, q[k0].stride, q[k0].stride);
        if signed_diff(q[x].stride, q[k0].stride) < 0 {
            assert forall|j: int| 0 <= j < n implies signed_diff(#[trigger] q[j].stride, q[x].stride)
                >= 0 by {
                lemma_signed_diff_facts(q[j].stride, q[k0].stride, q[x].stride);
                lemma_signed_diff_facts(q[k0].stride, q[x].stride, q[x].stride);
            }
            x
        } else {
            k0
        }
    }
}

/// Whether entry `i` has no entry strictly behind it.
fn minimal_at(q: &Vec<ReadyTask>, i: usize) -> (r: bool)
    requires
        i < q@.len(),
    ensures
        r == is_minimal(q@, i as int),
{
    let mut j: usize = 0;
    while j < q.len()
        invariant
            i < q@.len(),
            j <= q@.len(),
            forall|k: int| 0 <= k < j ==> signed_diff(#[trigger] q@[k].stride, q@[i as int].stride) >= 0,
        decreases q@.len() - j,
    {
        if stride_less(q[j].stride, q[i].stride) {
            return false;
        }
        j = j + 1;
    }
    true
}

/// Index of the entry the dispatcher takes.
fn pick_index(q: &Vec<ReadyTask>) -> (r: usize)
    requires
        q@.len() > 0,
    ensures
        is_pick(q@, r as int),
{
    let n = q.len();
    // candidate: a running least
    let mut best: usize = 0;
    let mut j: usize = 1;
    while j < n
        invariant
            n == q@.len(),
            best < n,
            1 <= j <= n,
        decreases n - j,
    {
        if stride_less(q[j].stride, q[best].stride) {
            best = j;
        }
        j = j + 1;
    }
    if minimal_at(q, best) {
        // the first entry with the same stride is the first minimal one
        let mut i: usize = 0;
        while i < best
            invariant
                n == q@.len(),
                i <= best < n,
                is_minimal(q@, best as int),
                forall|k: int| 0 <= k < i ==> q@[k].stride != q@[best as int].stride,
            decreases best - i,
        {
            if q[i].stride == q[best].stride {
                proof {
                    lemma_same_stride_minimal(q@, best as int, i as int);
                    assert forall|k: int| 0 <= k < i implies !is_minimal(q@, k) by {
                        lemma_minimal_pair(q@, best as int, k);
                    }
                }
                return i;
            }
            i = i + 1;
        }
        proof {
            assert forall|k: int| 0 <= k < best implies !is_minimal(q@, k) by {
                lemma_minimal_pair(q@, best as int, k);
            }
        }
        best
    } else {
        let mut i: usize = 0;
        while i < n
            invariant
                n == q@.len(),
                i <= n,
                forall|k: int| 0 <= k < i ==> !is_minimal(q@, k),
            decreases n - i,
        {
            if minimal_at(q, i) {
                return i;
            }
            i = i + 1;
        }
        0
    }
}

/// The single ready queue of the kernel.
pub struct TaskManager {
    pub ready_queue: Vec<ReadyTask>,
}

impl TaskManager {
    pub fn new() -> (r: Self)
        ensures
            r.ready_queue@.len() == 0,
    {
        TaskManager { ready_queue: Vec::new() }
    }

    /// Appends a ready thread at the tail.
    pub fn add(&mut self, t: ReadyTask)
        ensures
            final(self).ready_queue@ == old(self).ready_queue@.push(t),
    {
        self.ready_queue.push(t);
    }

    /// Removes and returns the entry the dispatcher runs next: the first
    /// entry with the least stride (see `is_pick`); `None` on an empty queue.
    pub fn fetch(&mut self) -> (r: Option<ReadyTask>)
        ensures
            old(self).ready_queue@.len() == 0 ==> r is None && final(self).ready_queue@ == old(
                self,
            ).ready_queue@,
            old(self).ready_queue@.len() > 0 ==> exists|i: int|
                is_pick(old(self).ready_queue@, i) && r == Some(old(self).ready_queue@[i])
                    && final(self).ready_queue@ == old(self).ready_queue@.remove(i),
    {
        if self.ready_queue.len() == 0 {
            return None;
        }
        let i = pick_index(&self.ready_queue);
        let t = self.ready_queue.remove(i);
        Some(t)
    }

    /// One dispatch round: takes the next entry, charges it its pass and puts
    /// it back at the tail. Returns the thread that runs.
    pub fn dispatch(&mut self) -> (r: Option<TaskRef>)
        ensures
            old(self).ready_queue@.len() == 0 ==> r is None && final(self).ready_queue@ == old(
                self,
            ).ready_queue@,
            old(self).ready_queue@.len() > 0 ==> {
                let i = pick_of(old(self).ready_queue@);
                &&& r == Some(old(self).ready_queue@[i].task)
                &&& final(self).ready_queue@ == dispatched(old(self).ready_queue@, i)
            },
    {
        proof {
            if self.ready_queue@.len() > 0 {
                lemma_pick_unique(self.ready_queue@);
            }
        }
        match self.fetch() {
            Some(t) => {
                let c = ReadyTask { stride: t.stride.wrapping_add(t.pass), ..t };
                self.ready_queue.push(c);
                Some(t.task)
            },
            None => None,
        }
    }
}

proof fn lemma_same_stride_minimal(q: Seq<ReadyTask>, b: int, i: int)
    requires
        0 <= b < q.len(),
        0 <= i < q.len(),
        is_minimal(q, b),
        q[i].stride == q[b].stride,
    ensures
        is_minimal(q, i),
{
    assert forall|j: int| 0 <= j < q.len() implies signed_diff(#[trigger] q[j].stride, q[i].stride)
        >= 0 by {
        assert(signed_diff(q[j].stride, q[b].stride) >= 0);
    }
}

proof fn lemma_minimal_pair(q: Seq<ReadyTask>, b: int, k: int)
    requires
        0 <= b < q.len(),
        0 <= k < q.len(),
        is_minimal(q, b),
        q[k].stride != q[b].stride,
    ensures
        !is_minimal(q, k),
{
    if is_minimal(q, k) {
        assert(signed_diff(q[k].stride, q[b].stride) >= 0);
        assert(signed_diff(q[b].stride, q[k].stride) >= 0);
        lemma_signed_diff_facts(q[k].stride, q[b].stride, q[b].stride);
        lemma_signed_diff_facts(q[b].stride, q[k].stride, q[b].stride);
    }
}

} // verus!

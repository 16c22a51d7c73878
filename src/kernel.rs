//! Kernel-wide state: the process table indexed by pid, the ready queue and
//! the running thread, with the dispatcher's transitions over them.
use crate::manager::{
    run, tasks_distinct, charged, dispatched, is_pick, lemma_dispatch_keeps_window, lemma_pick_unique, pick_of, window_ok,
    ReadyTask, TaskManager, TaskRef,
};
use crate::process::{LoadedImage, ProcessControlBlock, ProcessControlBlockInner};
use crate::manager::BIG_STRIDE;
use crate::task::{TaskControlBlock, TaskStatus, TrapContext, DEFAULT_PRIORITY, MAX_SYSCALL_NUM};
use vstd::prelude::*;

verus! {

/// Pid of the init process, which adopts orphans and never exits.
pub const INIT_PID: usize = 0;

/// Whether slot `p` of the process table holds a process.
pub open spec fn live(procs: Seq<Option<ProcessControlBlock>>, p: int) -> bool {
    0 <= p < procs.len() && procs[p] is Some
}

/// The process in slot `p`.
pub open spec fn proc_of(procs: Seq<Option<ProcessControlBlock>>, p: int) -> ProcessControlBlock {
    procs[p]->Some_0
}

/// Whether `t` names a thread of a process that has not exited.
pub open spec fn task_live(procs: Seq<Option<ProcessControlBlock>>, t: TaskRef) -> bool {
    &&& live(procs, t.pid as int)
    &&& !proc_of(procs, t.pid as int).inner.is_zombie
    &&& t.tid < proc_of(procs, t.pid as int).inner.tasks@.len()
    &&& proc_of(procs, t.pid as int).inner.tasks@[t.tid as int] is Some
}

/// The thread `t` names.
pub open spec fn tcb_of(procs: Seq<Option<ProcessControlBlock>>, t: TaskRef) -> TaskControlBlock {
    proc_of(procs, t.pid as int).inner.tasks@[t.tid as int]->Some_0
}

/// Parent and child links agree: each process sits in its slot, each child
/// is a live process whose parent is the listing process, each parent is
/// live and lists the child, and an exited process has no children.
pub open spec fn tree_ok(procs: Seq<Option<ProcessControlBlock>>) -> bool {
    &&& forall|p: int|
        #[trigger] live(procs, p) ==> {
            &&& proc_of(procs, p).pid == p
            &&& proc_of(procs, p).wf()
            &&& proc_of(procs, p).inner.children@.no_duplicates()
            &&& proc_of(procs, p).inner.is_zombie ==> proc_of(procs, p).inner.children@.len() == 0
        }
    &&& forall|p: int, i: int|
        #![trigger proc_of(procs, p).inner.children@[i]]
        live(procs, p) && 0 <= i < proc_of(procs, p).inner.children@.len() ==> {
            let c = proc_of(procs, p).inner.children@[i] as int;
            &&& live(procs, c)
            &&& proc_of(procs, c).inner.parent == Some(p as usize)
        }
    &&& forall|p: int|
        #[trigger] live(procs, p) && proc_of(procs, p).inner.parent is Some ==> {
            let q = proc_of(procs, p).inner.parent->Some_0 as int;
            &&& live(procs, q)
            &&& proc_of(procs, q).inner.children@.contains(p as usize)
        }
}

/// A process may be replaced by `b` without touching the links: same pid,
/// parent, children and exit state, and every thread slot that held a
/// thread still holds one.
pub open spec fn same_shape(a: ProcessControlBlock, b: ProcessControlBlock) -> bool {
    &&& b.pid == a.pid
    &&& b.wf()
    &&& b.inner.parent == a.inner.parent
    &&& b.inner.children@ == a.inner.children@
    &&& b.inner.is_zombie == a.inner.is_zombie
    &&& b.inner.tasks@.len() >= a.inner.tasks@.len()
    &&& forall|i: int|
        0 <= i < a.inner.tasks@.len() && (#[trigger] a.inner.tasks@[i]) is Some
            ==> b.inner.tasks@[i] is Some
}

/// `b` is `a` with at most the threads of processes changed: the same
/// processes, with the same links, address spaces and synchronization
/// objects.
pub open spec fn same_but_tasks(a: Seq<Option<ProcessControlBlock>>, b: Seq<Option<ProcessControlBlock>>) -> bool {
    &&& b.len() == a.len()
    &&& forall|q: int|
        0 <= q < a.len() ==> (#[trigger] b[q] is Some <==> a[q] is Some) && (a[q] is Some ==> proc_of(
            b,
            q,
        ) == (ProcessControlBlock {
            inner: ProcessControlBlockInner { tasks: proc_of(b, q).inner.tasks, ..proc_of(a, q).inner },
            ..proc_of(a, q)
        }))
}

/// The process table after process `p` exits with `code`: `p` is a zombie
/// holding the code, with no children, descriptors, threads or mapped
/// areas; its children have init as parent and are listed after init's
/// own children.
pub open spec fn exited(
    before: Seq<Option<ProcessControlBlock>>,
    after: Seq<Option<ProcessControlBlock>>,
    p: int,
    code: i32,
) -> bool {
    let kids = proc_of(before, p).inner.children@;
    let e = proc_of(after, p);
    &&& live(after, p)
    &&& e.inner.is_zombie
    &&& e.inner.exit_code == code
    &&& e.inner.children@.len() == 0
    &&& e.inner.fd_table@.len() == 0
    &&& e.inner.tasks@.len() == 0
    &&& e.inner.memory_set.areas@.len() == 0
    &&& forall|j: int|
        0 <= j < kids.len() ==> #[trigger] proc_of(after, kids[j] as int).inner.parent == Some(INIT_PID)
    &&& proc_of(after, INIT_PID as int).inner.children@ == proc_of(before, INIT_PID as int).inner.children@
        + kids
    &&& after.len() == before.len()
    &&& forall|j: int|
        0 <= j < kids.len() && kids[j] != p ==> #[trigger] proc_of(after, kids[j] as int) == (
        ProcessControlBlock {
            inner: ProcessControlBlockInner {
                parent: Some(INIT_PID),
                tasks: proc_of(after, kids[j] as int).inner.tasks,
                ..proc_of(before, kids[j] as int).inner
            },
            ..proc_of(before, kids[j] as int)
        })
    &&& proc_of(after, INIT_PID as int) == (ProcessControlBlock {
        inner: ProcessControlBlockInner {
            children: proc_of(after, INIT_PID as int).inner.children,
            tasks: proc_of(after, INIT_PID as int).inner.tasks,
            ..proc_of(before, INIT_PID as int).inner
        },
        ..proc_of(before, INIT_PID as int)
    })
    &&& forall|q: int|
        0 <= q < before.len() && q != p && q != INIT_PID && !kids.contains(q as usize) ==> (
        #[trigger] after[q] is Some <==> before[q] is Some) && (before[q] is Some ==> proc_of(after, q)
            == (ProcessControlBlock {
            inner: ProcessControlBlockInner { tasks: proc_of(after, q).inner.tasks, ..proc_of(before, q).inner },
            ..proc_of(before, q)
        }))
}

/// What a yield does, from `a` to `b`: the running thread `c` goes back to
/// the tail of the ready queue as Ready; then the first entry with the least
/// stride of that queue, `e`, leaves it, runs, and has its stride advanced
/// by its pass. Other threads are unchanged. Taking the ready threads and
/// the running one together, this is one `dispatched` round, so a window of
/// strides (`window_ok`) is kept.
pub open spec fn suspended(a: Kernel, b: Kernel) -> bool {
    let c = a.current->Some_0;
    let q = a.manager.ready_queue@.push(a.entry_of(c));
    let i = pick_of(q);
    let e = q[i];
    &&& b.current == Some(e.task)
    &&& b.manager.ready_queue@ == q.remove(i)
    &&& tcb_of(b.procs@, e.task) == (TaskControlBlock {
        task_status: TaskStatus::Running,
        stride: charged(e).stride,
        pass: e.pass,
        ..tcb_of(a.procs@, e.task)
    })
    &&& e.task != c ==> tcb_of(b.procs@, c) == (TaskControlBlock {
        task_status: TaskStatus::Ready,
        ..tcb_of(a.procs@, c)
    })
    &&& forall|u: TaskRef|
        u != c && u != e.task && task_live(a.procs@, u) ==> tcb_of(b.procs@, u) == tcb_of(a.procs@, u)
    &&& b.manager.ready_queue@.push(b.entry_of(e.task)) == dispatched(q, i)
    &&& window_ok(q) ==> window_ok(b.manager.ready_queue@.push(b.entry_of(e.task)))
}

/// The ready threads followed by the running one, as the dispatcher sees
/// them.
pub open spec fn runnable(k: Kernel) -> Seq<ReadyTask> {
    k.manager.ready_queue@.push(k.entry_of(k.current->Some_0))
}

/// Yielding `n` times in a row is `n` rounds of the dispatcher's `run` over
/// the runnable threads. With `lemma_fair_shares`, each thread that keeps
/// yielding gets a share of the processor proportional to its priority,
/// within an error that does not grow with `n`.
pub proof fn lemma_yields_are_a_run(ks: Seq<Kernel>, n: nat)
    requires
        n < ks.len(),
        ks[0].current is Some,
        forall|i: int| 0 <= i < n ==> suspended(#[trigger] ks[i], ks[i + 1]),
    ensures
        ks[n as int].current is Some,
        runnable(ks[n as int]) == run(runnable(ks[0]), n),
    decreases n,
{
    if n > 0 {
        let m = (n - 1) as nat;
        lemma_yields_are_a_run(ks, m);
        let a = ks[m as int];
        let b = ks[n as int];
        assert(suspended(a, b));
        let q = runnable(a);
        assert(q == a.manager.ready_queue@.push(a.entry_of(a.current->Some_0)));
        assert(q.len() > 0);
    }
}

/// The whole kernel state.
pub struct Kernel {
    /// Processes by pid; `None` marks a free pid.
    pub procs: Vec<Option<ProcessControlBlock>>,
    pub manager: TaskManager,
    /// The thread on the processor, if any.
    pub current: Option<TaskRef>,
}

/// Replacing a process by one of the same shape keeps the links, and every
/// live thread stays live.
pub proof fn lemma_same_shape_keeps(
    procs: Seq<Option<ProcessControlBlock>>,
    p: int,
    b: ProcessControlBlock,
)
    requires
        tree_ok(procs),
        live(procs, p),
        same_shape(proc_of(procs, p), b),
    ensures
        tree_ok(procs.update(p, Some(b))),
        forall|t: TaskRef| task_live(procs, t) ==> #[trigger] task_live(procs.update(p, Some(b)), t),
        forall|q: int| #[trigger] live(procs.update(p, Some(b)), q) == live(procs, q),
{
    let n = procs.update(p, Some(b));
    assert forall|q: int| #[trigger] live(n, q) == live(procs, q) by {}
    assert forall|q: int, i: int|
        #![trigger proc_of(n, q).inner.children@[i]]
        live(n, q) && 0 <= i < proc_of(n, q).inner.children@.len() implies {
        let c = proc_of(n, q).inner.children@[i] as int;
        &&& live(n, c)
        &&& proc_of(n, c).inner.parent == Some(q as usize)
    } by {
        assert(proc_of(n, q).inner.children@[i] == proc_of(procs, q).inner.children@[i]);
    }
    assert forall|q: int| #[trigger] live(n, q) && proc_of(n, q).inner.parent is Some implies {
        let r = proc_of(n, q).inner.parent->Some_0 as int;
        &&& live(n, r)
        &&& proc_of(n, r).inner.children@.contains(q as usize)
    } by {
        assert(live(procs, q));
    }
    assert forall|t: TaskRef| task_live(procs, t) implies #[trigger] task_live(n, t) by {
        if t.pid == p {
            assert(proc_of(procs, p).inner.tasks@[t.tid as int] is Some);
        }
    }
}

/// `c` is the pid a new process gets: the first free slot after init, or
/// one past the table.
pub open spec fn is_new_pid(procs: Seq<Option<ProcessControlBlock>>, c: int) -> bool {
    &&& 1 <= c <= procs.len()
    &&& c < procs.len() ==> procs[c] is None
    &&& forall|q: int| 1 <= q < c ==> #[trigger] live(procs, q)
}

/// An empty slot at the end changes no link.
proof fn lemma_push_none(procs: Seq<Option<ProcessControlBlock>>)
    requires
        tree_ok(procs),
    ensures
        tree_ok(procs.push(None)),
        forall|t: TaskRef| task_live(procs, t) ==> #[trigger] task_live(procs.push(None), t),
        forall|q: int| #[trigger] live(procs.push(None), q) == live(procs, q),
{
    let n = procs.push(None);
    assert forall|q: int| #[trigger] live(n, q) == live(procs, q) by {}
    assert forall|q: int, i: int|
        #![trigger proc_of(n, q).inner.children@[i]]
        live(n, q) && 0 <= i < proc_of(n, q).inner.children@.len() implies {
        let c = proc_of(n, q).inner.children@[i] as int;
        &&& live(n, c)
        &&& proc_of(n, c).inner.parent == Some(q as usize)
    } by {
        assert(proc_of(n, q).inner.children@[i] == proc_of(procs, q).inner.children@[i]);
    }
    assert forall|q: int| #[trigger] live(n, q) && proc_of(n, q).inner.parent is Some implies {
        let r = proc_of(n, q).inner.parent->Some_0 as int;
        &&& live(n, r)
        &&& proc_of(n, r).inner.children@.contains(q as usize)
    } by {
        assert(live(procs, q));
    }
}

/// Listing a new process `child` in the empty slot `c` as a child of `p`
/// keeps the links, and every live thread stays live.
proof fn lemma_add_child(
    procs: Seq<Option<ProcessControlBlock>>,
    p: int,
    np: ProcessControlBlock,
    c: int,
    child: ProcessControlBlock,
)
    requires
        tree_ok(procs),
        live(procs, p),
        0 <= c < procs.len(),
        procs[c] is None,
        np.pid == p,
        np.wf(),
        np.inner.parent == proc_of(procs, p).inner.parent,
        np.inner.is_zombie == proc_of(procs, p).inner.is_zombie,
        !np.inner.is_zombie,
        np.inner.children@ == proc_of(procs, p).inner.children@.push(c as usize),
        np.inner.tasks@.len() >= proc_of(procs, p).inner.tasks@.len(),
        forall|i: int|
            0 <= i < proc_of(procs, p).inner.tasks@.len() && (#[trigger] proc_of(procs, p).inner.tasks@[i]) is Some
                ==> np.inner.tasks@[i] is Some,
        child.pid == c,
        child.wf(),
        child.inner.parent == Some(p as usize),
        child.inner.children@.len() == 0,
    ensures
        tree_ok(procs.update(p, Some(np)).update(c, Some(child))),
        forall|t: TaskRef|
            task_live(procs, t) ==> #[trigger] task_live(procs.update(p, Some(np)).update(c, Some(child)), t),
{
    let n = procs.update(p, Some(np)).update(c, Some(child));
    let oc = proc_of(procs, p).inner.children@;
    assert forall|x: int| 0 <= x < oc.len() implies oc[x] != c by {
        assert(live(procs, oc[x] as int));
    }
    assert(np.inner.children@.no_duplicates()) by {
        assert forall|a: int, b: int|
            0 <= a < np.inner.children@.len() && 0 <= b < np.inner.children@.len() && a != b
            implies np.inner.children@[a] != np.inner.children@[b] by {
            if a < oc.len() && b < oc.len() {
                assert(oc[a] != oc[b]);
            }
        }
    }
    assert forall|q: int| #[trigger] live(n, q) implies {
        &&& proc_of(n, q).pid == q
        &&& proc_of(n, q).wf()
        &&& proc_of(n, q).inner.children@.no_duplicates()
        &&& proc_of(n, q).inner.is_zombie ==> proc_of(n, q).inner.children@.len() == 0
    } by {
        if q != p && q != c {
            assert(live(procs, q));
        }
    }
    assert forall|q: int, i: int|
        #![trigger proc_of(n, q).inner.children@[i]]
        live(n, q) && 0 <= i < proc_of(n, q).inner.children@.len() implies {
        let x = proc_of(n, q).inner.children@[i] as int;
        &&& live(n, x)
        &&& proc_of(n, x).inner.parent == Some(q as usize)
    } by {
        if q == p {
            if i < oc.len() {
                assert(np.inner.children@[i] == oc[i]);
                assert(live(procs, oc[i] as int));
            }
        } else if q != c {
            assert(live(procs, q));
            let x = proc_of(procs, q).inner.children@[i] as int;
            assert(live(procs, x));
            assert(x != c);
        }
    }
    assert forall|q: int| #[trigger] live(n, q) && proc_of(n, q).inner.parent is Some implies {
        let r = proc_of(n, q).inner.parent->Some_0 as int;
        &&& live(n, r)
        &&& proc_of(n, r).inner.children@.contains(q as usize)
    } by {
        if q == c {
            assert(np.inner.children@[oc.len() as int] == c as usize);
        } else {
            assert(live(procs, q));
            let r = proc_of(procs, q).inner.parent->Some_0 as int;
            assert(live(procs, r));
            if r == p {
                let w = choose|w: int| 0 <= w < oc.len() && oc[w] == q as usize;
                assert(np.inner.children@[w] == q as usize);
            }
        }
    }
    assert forall|t: TaskRef| task_live(procs, t) implies #[trigger] task_live(n, t) by {
        if t.pid == p {
            assert(proc_of(procs, p).inner.tasks@[t.tid as int] is Some);
        }
    }
}

/// The links after process `p` exits: its children `kids` now have init as
/// parent and are listed after init's own, and `p`, a zombie, lists none.
proof fn lemma_exit_tree(
    old_procs: Seq<Option<ProcessControlBlock>>,
    procs: Seq<Option<ProcessControlBlock>>,
    p: int,
    kids: Seq<usize>,
)
    requires
        tree_ok(old_procs),
        live(old_procs, 0),
        proc_of(old_procs, 0).inner.parent is None,
        !proc_of(old_procs, 0).inner.is_zombie,
        live(old_procs, p),
        p != 0,
        kids == proc_of(old_procs, p).inner.children@,
        procs.len() == old_procs.len(),
        forall|q: int| #[trigger] live(procs, q) == live(old_procs, q),
        forall|q: int|
            0 <= q < procs.len() && q != 0 && q != p && !kids.contains(q as usize) ==> procs[q]
                == old_procs[q],
        forall|j: int|
            0 <= j < kids.len() && kids[j] != p ==> #[trigger] proc_of(procs, kids[j] as int) == (
            ProcessControlBlock {
                inner: ProcessControlBlockInner {
                    parent: Some(0),
                    ..proc_of(old_procs, kids[j] as int).inner
                },
                ..proc_of(old_procs, kids[j] as int)
            }),
        proc_of(procs, 0) == (ProcessControlBlock {
            inner: ProcessControlBlockInner {
                children: proc_of(procs, 0).inner.children,
                ..proc_of(old_procs, 0).inner
            },
            ..proc_of(old_procs, 0)
        }),
        proc_of(procs, 0).inner.children@ == proc_of(old_procs, 0).inner.children@ + kids,
        proc_of(procs, p).pid == p,
        proc_of(procs, p).wf(),
        proc_of(procs, p).inner.is_zombie,
        proc_of(procs, p).inner.children@.len() == 0,
        proc_of(procs, p).inner.parent == (if kids.contains(p as usize) {
            Some(0usize)
        } else {
            proc_of(old_procs, p).inner.parent
        }),
    ensures
        tree_ok(procs),
        forall|t: TaskRef| t.pid != p && task_live(old_procs, t) ==> #[trigger] task_live(procs, t),
{
    let ic = proc_of(old_procs, 0).inner.children@;
    assert forall|t: TaskRef| t.pid != p && task_live(old_procs, t) implies #[trigger] task_live(procs, t) by {
        let q = t.pid as int;
        if q != 0 && kids.contains(q as usize) {
            let j = choose|j: int| 0 <= j < kids.len() && kids[j] == q as usize;
            assert(proc_of(procs, kids[j] as int) == proc_of(procs, q));
        } else if q != 0 {
            assert(procs[q] == old_procs[q]);
        }
    }
    // a process listed by some q has q as its parent
    assert forall|x: int| 0 <= x < kids.len() implies {
        &&& live(old_procs, kids[x] as int)
        &&& proc_of(old_procs, kids[x] as int).inner.parent == Some(p as usize)
        &&& kids[x] != 0
        &&& !ic.contains(kids[x])
    } by {
        assert(live(old_procs, kids[x] as int));
        if ic.contains(kids[x]) {
            let w = choose|w: int| 0 <= w < ic.len() && ic[w] == kids[x];
            assert(proc_of(old_procs, ic[w] as int).inner.parent == Some(0usize));
        }
    }
    assert(proc_of(procs, 0).inner.children@.no_duplicates()) by {
        let nc = proc_of(procs, 0).inner.children@;
        assert forall|a: int, b: int| 0 <= a < nc.len() && 0 <= b < nc.len() && a != b implies nc[a] != nc[b] by {
            if a < ic.len() && b < ic.len() {
                assert(ic[a] != ic[b]);
            } else if a >= ic.len() && b >= ic.len() {
                assert(kids[a - ic.len()] != kids[b - ic.len()]);
            } else if a < ic.len() {
                assert(nc[b] == kids[b - ic.len()]);
                assert(ic.contains(nc[a]));
            } else {
                assert(nc[a] == kids[a - ic.len()]);
                assert(ic.contains(nc[b]));
            }
        }
    }
    assert forall|q: int| #[trigger] live(procs, q) implies {
        &&& proc_of(procs, q).pid == q
        &&& proc_of(procs, q).wf()
        &&& proc_of(procs, q).inner.children@.no_duplicates()
        &&& proc_of(procs, q).inner.is_zombie ==> proc_of(procs, q).inner.children@.len() == 0
    } by {
        assert(live(old_procs, q));
        if q != 0 && q != p && kids.contains(q as usize) {
            let j = choose|j: int| 0 <= j < kids.len() && kids[j] == q as usize;
            assert(proc_of(procs, kids[j] as int) == proc_of(procs, q));
        }
    }
    assert forall|q: int, i: int|
        #![trigger proc_of(procs, q).inner.children@[i]]
        live(procs, q) && 0 <= i < proc_of(procs, q).inner.children@.len() implies {
        let c = proc_of(procs, q).inner.children@[i] as int;
        &&& live(procs, c)
        &&& proc_of(procs, c).inner.parent == Some(q as usize)
    } by {
        let c = proc_of(procs, q).inner.children@[i] as int;
        assert(live(old_procs, q));
        if q == 0 {
            if i < ic.len() {
                assert(proc_of(procs, 0).inner.children@[i] == ic[i]);
                assert(live(old_procs, c));
                assert(proc_of(old_procs, c).inner.parent == Some(0usize));
                if c == p {
                } else if kids.contains(c as usize) {
                    let j = choose|j: int| 0 <= j < kids.len() && kids[j] == c as usize;
                    assert(proc_of(old_procs, kids[j] as int).inner.parent == Some(p as usize));
                } else {
                    assert(procs[c] == old_procs[c]);
                }
            } else {
                let j = i - ic.len();
                assert(proc_of(procs, 0).inner.children@[i] == kids[j]);
                if kids[j] != p {
                    assert(proc_of(procs, kids[j] as int).inner.parent == Some(0usize));
                } else {
                    assert(kids.contains(p as usize));
                }
            }
        } else if q == p {
        } else {
            let oq = proc_of(old_procs, q);
            if kids.contains(q as usize) {
                let j = choose|j: int| 0 <= j < kids.len() && kids[j] == q as usize;
                assert(proc_of(procs, kids[j] as int) == proc_of(procs, q));
                if q != p {
                    assert(proc_of(procs, q).inner.children == oq.inner.children);
                }
            } else {
                assert(procs[q] == old_procs[q]);
            }
            assert(proc_of(procs, q).inner.children@ == oq.inner.children@);
            assert(oq.inner.children@[i] == c as usize);
            assert(live(old_procs, c));
            assert(proc_of(old_procs, c).inner.parent == Some(q as usize));
            if c == p {
                // p's parent q lists it; p is not among its own children
                if kids.contains(p as usize) {
                    let j = choose|j: int| 0 <= j < kids.len() && kids[j] == p as usize;
                    assert(proc_of(old_procs, kids[j] as int).inner.parent == Some(p as usize));
                }
            } else if c == 0 {
                assert(false);
            } else if kids.contains(c as usize) {
                let j = choose|j: int| 0 <= j < kids.len() && kids[j] == c as usize;
                assert(proc_of(old_procs, kids[j] as int).inner.parent == Some(p as usize));
            } else {
                assert(procs[c] == old_procs[c]);
            }
        }
    }
    assert forall|x: int| #[trigger] live(procs, x) && proc_of(procs, x).inner.parent is Some implies {
        let r = proc_of(procs, x).inner.parent->Some_0 as int;
        &&& live(procs, r)
        &&& proc_of(procs, r).inner.children@.contains(x as usize)
    } by {
        assert(live(old_procs, x));
        let nc = proc_of(procs, 0).inner.children@;
        if x == 0 {
        } else if kids.contains(x as usize) {
            let j = choose|j: int| 0 <= j < kids.len() && kids[j] == x as usize;
            if x != p {
                assert(proc_of(procs, kids[j] as int) == proc_of(procs, x));
            }
            assert(nc[ic.len() + j] == x as usize);
        } else {
            let ox = proc_of(old_procs, x);
            if x != p {
                assert(procs[x] == old_procs[x]);
            }
            let r = ox.inner.parent->Some_0 as int;
            assert(live(old_procs, r));
            assert(proc_of(old_procs, r).inner.children@.contains(x as usize));
            if r == p {
                assert(kids.contains(x as usize));
            } else if r == 0 {
                let w = choose|w: int| 0 <= w < ic.len() && ic[w] == x as usize;
                assert(nc[w] == x as usize);
            } else if kids.contains(r as usize) {
                let j = choose|j: int| 0 <= j < kids.len() && kids[j] == r as usize;
                assert(proc_of(procs, kids[j] as int) == proc_of(procs, r));
            } else {
                assert(procs[r] == old_procs[r]);
            }
        }
    }
}

/// Child `c` passes the pid filter of waitpid: -1 takes any child.
pub open spec fn pid_matches(pid: isize, c: usize) -> bool {
    pid == -1 || pid == c
}

/// Child `i` of `kids` is the first that passes the filter and has exited.
pub open spec fn first_reapable(
    procs: Seq<Option<ProcessControlBlock>>,
    kids: Seq<usize>,
    pid: isize,
    i: int,
) -> bool {
    &&& 0 <= i < kids.len()
    &&& pid_matches(pid, kids[i])
    &&& proc_of(procs, kids[i] as int).inner.is_zombie
    &&& forall|j: int|
        0 <= j < i ==> !(pid_matches(pid, #[trigger] kids[j]) && proc_of(procs, kids[j] as int).inner.is_zombie)
}

/// Removing the exited child `kids[i]` of `p` from the table and from the
/// children of `p` keeps the links, and every live thread stays live.
proof fn lemma_reap(procs: Seq<Option<ProcessControlBlock>>, p: int, np: ProcessControlBlock, i: int)
    requires
        tree_ok(procs),
        live(procs, p),
        !proc_of(procs, p).inner.is_zombie,
        0 <= i < proc_of(procs, p).inner.children@.len(),
        proc_of(procs, proc_of(procs, p).inner.children@[i] as int).inner.is_zombie,
        np == (ProcessControlBlock {
            inner: ProcessControlBlockInner { children: np.inner.children, ..proc_of(procs, p).inner },
            ..proc_of(procs, p)
        }),
        np.inner.children@ == proc_of(procs, p).inner.children@.remove(i),
    ensures
        ({
            let c = proc_of(procs, p).inner.children@[i] as int;
            let n = procs.update(p, Some(np)).update(c, None);
            &&& tree_ok(n)
            &&& forall|t: TaskRef| task_live(procs, t) ==> #[trigger] task_live(n, t)
        }),
{
    let kids = proc_of(procs, p).inner.children@;
    let c = kids[i] as int;
    let n = procs.update(p, Some(np)).update(c, None);
    assert(live(procs, c));
    assert(c != p);
    assert forall|x: int| 0 <= x < np.inner.children@.len() implies np.inner.children@[x] != c by {
        if x < i {
            assert(np.inner.children@[x] == kids[x]);
        } else {
            assert(np.inner.children@[x] == kids[x + 1]);
        }
    }
    assert(np.inner.children@.no_duplicates()) by {
        assert forall|a: int, b: int|
            0 <= a < np.inner.children@.len() && 0 <= b < np.inner.children@.len() && a != b
            implies np.inner.children@[a] != np.inner.children@[b] by {
            let oa = if a < i { a } else { a + 1 };
            let ob = if b < i { b } else { b + 1 };
            assert(np.inner.children@[a] == kids[oa]);
            assert(np.inner.children@[b] == kids[ob]);
        }
    }
    assert forall|q: int| #[trigger] live(n, q) implies {
        &&& proc_of(n, q).pid == q
        &&& proc_of(n, q).wf()
        &&& proc_of(n, q).inner.children@.no_duplicates()
        &&& proc_of(n, q).inner.is_zombie ==> proc_of(n, q).inner.children@.len() == 0
    } by {
        assert(live(procs, q));
    }
    assert forall|q: int, x: int|
        #![trigger proc_of(n, q).inner.children@[x]]
        live(n, q) && 0 <= x < proc_of(n, q).inner.children@.len() implies {
        let y = proc_of(n, q).inner.children@[x] as int;
        &&& live(n, y)
        &&& proc_of(n, y).inner.parent == Some(q as usize)
    } by {
        let y = proc_of(n, q).inner.children@[x] as int;
        assert(live(procs, q));
        if q == p {
            let ox = if x < i { x } else { x + 1 };
            assert(np.inner.children@[x] == kids[ox]);
            assert(live(procs, y));
        } else {
            assert(proc_of(procs, q).inner.children@[x] == y as usize);
            assert(live(procs, y));
            assert(proc_of(procs, c).inner.parent == Some(p as usize));
        }
    }
    assert forall|x: int| #[trigger] live(n, x) && proc_of(n, x).inner.parent is Some implies {
        let r = proc_of(n, x).inner.parent->Some_0 as int;
        &&& live(n, r)
        &&& proc_of(n, r).inner.children@.contains(x as usize)
    } by {
        assert(live(procs, x));
        let r = proc_of(procs, x).inner.parent->Some_0 as int;
        assert(live(procs, r));
        assert(proc_of(procs, r).inner.children@.contains(x as usize));
        if r == c {
            assert(proc_of(procs, c).inner.children@.len() == 0);
        }
        if r == p {
            let w = choose|w: int| 0 <= w < kids.len() && kids[w] == x as usize;
            assert(w != i);
            if w < i {
                assert(np.inner.children@[w] == x as usize);
            } else {
                assert(np.inner.children@[w - 1] == x as usize);
            }
        }
    }
    assert forall|t: TaskRef| task_live(procs, t) implies #[trigger] task_live(n, t) by {
        assert(t.pid != c);
    }
}

/// A parentless new process without children in the empty slot `c` keeps
/// the links, and every live thread stays live.
proof fn lemma_add_orphan(procs: Seq<Option<ProcessControlBlock>>, c: int, child: ProcessControlBlock)
    requires
        tree_ok(procs),
        0 <= c < procs.len(),
        procs[c] is None,
        child.pid == c,
        child.wf(),
        child.inner.parent is None,
        child.inner.children@.len() == 0,
    ensures
        tree_ok(procs.update(c, Some(child))),
        forall|t: TaskRef| task_live(procs, t) ==> #[trigger] task_live(procs.update(c, Some(child)), t),
{
    let n = procs.update(c, Some(child));
    assert forall|q: int| #[trigger] live(n, q) implies {
        &&& proc_of(n, q).pid == q
        &&& proc_of(n, q).wf()
        &&& proc_of(n, q).inner.children@.no_duplicates()
        &&& proc_of(n, q).inner.is_zombie ==> proc_of(n, q).inner.children@.len() == 0
    } by {
        if q != c {
            assert(live(procs, q));
        }
    }
    assert forall|q: int, i: int|
        #![trigger proc_of(n, q).inner.children@[i]]
        live(n, q) && 0 <= i < proc_of(n, q).inner.children@.len() implies {
        let x = proc_of(n, q).inner.children@[i] as int;
        &&& live(n, x)
        &&& proc_of(n, x).inner.parent == Some(q as usize)
    } by {
        assert(q != c);
        assert(live(procs, q));
        let x = proc_of(procs, q).inner.children@[i] as int;
        assert(live(procs, x));
    }
    assert forall|q: int| #[trigger] live(n, q) && proc_of(n, q).inner.parent is Some implies {
        let r = proc_of(n, q).inner.parent->Some_0 as int;
        &&& live(n, r)
        &&& proc_of(n, r).inner.children@.contains(q as usize)
    } by {
        assert(q != c);
        assert(live(procs, q));
        let r = proc_of(procs, q).inner.parent->Some_0 as int;
        assert(live(procs, r));
    }
}

/// The kernel after `fork` from process `p` gave child `c`: `c` is the
/// first free pid, listed last among `p`'s children; it holds a copy of
/// `p`'s address space and descriptors and one ready thread like `p`'s
/// main thread but for `a0`, which is 0; that thread is appended to the
/// ready queue. Nothing else changes.
pub open spec fn forked(a: Kernel, b: Kernel, p: int, c: int) -> bool {
    let parent = proc_of(a.procs@, p);
    let child = proc_of(b.procs@, c);
    let t0 = parent.inner.tasks@[0]->Some_0;
    let ct = TaskControlBlock {
        task_status: TaskStatus::Ready,
        trap_cx: TrapContext { a0: 0, ..t0.trap_cx },
        ..t0
    };
    &&& is_new_pid(a.procs@, c)
    &&& live(b.procs@, c)
    &&& child.pid == c
    &&& child.inner.parent == Some(p as usize)
    &&& child.inner.children@.len() == 0
    &&& !child.inner.is_zombie
    &&& !child.inner.detect_enabled
    &&& child.inner.memory_set.token == c
    &&& child.inner.memory_set.same_contents(&parent.inner.memory_set)
    &&& child.inner.fd_table@ == parent.inner.fd_table@
    &&& child.inner.tasks@ == seq![Some(ct)]
    &&& proc_of(b.procs@, p).inner.children@ == parent.inner.children@.push(c as usize)
    &&& proc_of(b.procs@, p) == (ProcessControlBlock {
        inner: ProcessControlBlockInner { children: proc_of(b.procs@, p).inner.children, ..parent.inner },
        ..parent
    })
    &&& forall|q: int| 0 <= q < a.procs@.len() && q != p && q != c ==> #[trigger] b.procs@[q] == a.procs@[q]
    &&& b.manager.ready_queue@ == a.manager.ready_queue@.push(
        ReadyTask { task: TaskRef { pid: c as usize, tid: 0 }, stride: ct.stride, pass: ct.pass },
    )
    &&& b.current == a.current
}

impl ProcessControlBlock {
    /// Starts a process running `image` with no parent: it takes the first
    /// free pid (see `is_new_pid`), is built by `build`, and its main thread
    /// is appended to the ready queue as Ready. Returns the pid; nothing
    /// else changes.
    pub fn new(k: &mut Kernel, image: LoadedImage) -> (pid: usize)
        requires
            old(k).wf(),
            old(k).procs@.len() < isize::MAX,
            image.wf(),
        ensures
            final(k).wf(),
            is_new_pid(old(k).procs@, pid as int),
            final(k).procs@[pid as int] matches Some(c) && c.fresh(pid, image),
            forall|q: int|
                0 <= q < old(k).procs@.len() && q != pid ==> #[trigger] final(k).procs@[q] == old(k).procs@[q],
            final(k).manager.ready_queue@ == old(k).manager.ready_queue@.push(
                ReadyTask {
                    task: TaskRef { pid, tid: 0 },
                    stride: 0,
                    pass: BIG_STRIDE / DEFAULT_PRIORITY,
                },
            ),
            final(k).current == old(k).current,
    {
        let c = k.alloc_pid();
        let pcb = ProcessControlBlock::build(c, image);
        let ghost before = k.procs@;
        if c == k.procs.len() {
            k.procs.push(None);
            proof {
                lemma_push_none(before);
            }
        }
        let ghost mid = k.procs@;
        let ghost np = pcb;
        k.replace_proc(c, pcb);
        proof {
            lemma_add_orphan(mid, c as int, np);
            assert forall|t: TaskRef| task_live(before, t) implies #[trigger] task_live(k.procs@, t) by {
                assert(task_live(mid, t));
            }
            assert forall|i: int| 0 <= i < k.manager.ready_queue@.len() implies task_live(
                k.procs@,
                #[trigger] k.manager.ready_queue@[i].task,
            ) by {
                assert(task_live(before, k.manager.ready_queue@[i].task));
            }
            assert(live(before, 0));
            if let Some(t) = k.current {
                assert(task_live(before, t));
            }
        }
        let t = TaskRef { pid: c, tid: 0 };
        proof {
            assert(task_live(k.procs@, t));
        }
        k.wakeup_task(t);
        proof {
            assert(proc_of(k.procs@, c as int).inner.tasks@ =~= np.inner.tasks@);
        }
        c
    }

    /// Forks process `p`, which has one thread: see `forked`. Returns the
    /// child's pid.
    pub fn fork(k: &mut Kernel, p: usize) -> (c: usize)
        requires
            old(k).wf(),
            old(k).procs@.len() < isize::MAX,
            live(old(k).procs@, p as int),
            !proc_of(old(k).procs@, p as int).inner.is_zombie,
            proc_of(old(k).procs@, p as int).inner.tasks@.len() == 1,
            proc_of(old(k).procs@, p as int).inner.tasks@[0] is Some,
        ensures
            final(k).wf(),
            forked(*old(k), *final(k), p as int, c as int),
    {
        let c = k.alloc_pid();
        let child = k.procs[p].as_ref().unwrap().copy_for_child(c, c);
        k.install_child(p, c, child);
        let t = TaskRef { pid: c, tid: 0 };
        proof {
            assert(task_live(k.procs@, t));
        }
        let ghost pre = proc_of(k.procs@, c as int).inner.tasks@;
        k.wakeup_task(t);
        proof {
            assert(proc_of(k.procs@, c as int).inner.tasks@ =~= pre);
        }
        c
    }
}

impl Kernel {
    /// Init is live, parentless and has not exited; the links agree (`tree_ok`);
    /// the running thread and every ready thread belong to live processes.
    pub open spec fn wf(&self) -> bool {
        &&& 0 < self.procs@.len() <= isize::MAX
        &&& live(self.procs@, INIT_PID as int)
        &&& proc_of(self.procs@, INIT_PID as int).inner.parent is None
        &&& !proc_of(self.procs@, INIT_PID as int).inner.is_zombie
        &&& tree_ok(self.procs@)
        &&& self.current matches Some(t) ==> task_live(self.procs@, t)
        &&& forall|i: int|
            0 <= i < self.manager.ready_queue@.len() ==> task_live(
                self.procs@,
                #[trigger] self.manager.ready_queue@[i].task,
            )
        &&& tasks_distinct(self.manager.ready_queue@)
        &&& self.current matches Some(t) ==> !self.queued(t)
    }

    /// Whether a wakeup may make thread `t` ready: it exists and is neither
    /// running nor ready already.
    pub open spec fn wakeable(&self, t: TaskRef) -> bool {
        task_live(self.procs@, t) && !self.queued(t) && self.current != Some(t)
    }

    /// Whether thread `t` has an entry in the ready queue.
    pub open spec fn queued(&self, t: TaskRef) -> bool {
        exists|i: int| 0 <= i < self.manager.ready_queue@.len() && #[trigger] self.manager.ready_queue@[i].task == t
    }

    /// Whether thread `t` has an entry in the ready queue.
    pub fn is_queued(&self, t: TaskRef) -> (r: bool)
        ensures
            r == self.queued(t),
    {
        let q = &self.manager.ready_queue;
        let mut i: usize = 0;
        while i < q.len()
            invariant
                q@ == self.manager.ready_queue@,
                i <= q@.len(),
                forall|j: int| 0 <= j < i ==> #[trigger] q@[j].task != t,
            decreases q@.len() - i,
        {
            if q[i].task == t {
                assert(self.manager.ready_queue@[i as int].task == t);
                return true;
            }
            i = i + 1;
        }
        false
    }

    /// The ready-queue entry for thread `t` as it is now.
    pub open spec fn entry_of(&self, t: TaskRef) -> ReadyTask {
        ReadyTask { task: t, stride: tcb_of(self.procs@, t).stride, pass: tcb_of(self.procs@, t).pass }
    }

    /// A kernel whose only process is init, running `init`, with its main
    /// thread ready and nothing on the processor.
    pub fn new(init: LoadedImage) -> (r: Self)
        requires
            init.wf(),
        ensures
            r.wf(),
            r.procs@.len() == 1,
            proc_of(r.procs@, INIT_PID as int).fresh(INIT_PID, init),
            r.current is None,
            r.manager.ready_queue@ == seq![
                ReadyTask { task: TaskRef { pid: INIT_PID, tid: 0 }, stride: 0, pass: tcb_of(r.procs@, TaskRef { pid: INIT_PID, tid: 0 }).pass },
            ],
    {
        let pcb = ProcessControlBlock::build(INIT_PID, init);
        let t = pcb.inner.tasks[0].unwrap();
        let mut procs: Vec<Option<ProcessControlBlock>> = Vec::new();
        procs.push(Some(pcb));
        let mut manager = TaskManager::new();
        manager.add(ReadyTask { task: TaskRef { pid: INIT_PID, tid: 0 }, stride: t.stride, pass: t.pass });
        let r = Kernel { procs, manager, current: None };
        proof {
            assert(r.manager.ready_queue@ =~= seq![
                ReadyTask { task: TaskRef { pid: INIT_PID, tid: 0 }, stride: 0, pass: tcb_of(r.procs@, TaskRef { pid: INIT_PID, tid: 0 }).pass },
            ]);
            assert forall|q: int| #[trigger] live(r.procs@, q) implies q == 0 by {}
        }
        r
    }

    /// Replaces the process in slot `p` by `b`.
    pub(crate) fn replace_proc(&mut self, p: usize, b: ProcessControlBlock)
        requires
            p < old(self).procs@.len(),
        ensures
            final(self).procs@ == old(self).procs@.update(p as int, Some(b)),
            final(self).manager == old(self).manager,
            final(self).current == old(self).current,
    {
        self.procs.set(p, Some(b));
    }

    /// Takes the process out of slot `p`, leaving it empty.
    pub(crate) fn take_proc(&mut self, p: usize) -> (r: ProcessControlBlock)
        requires
            live(old(self).procs@, p as int),
        ensures
            r == proc_of(old(self).procs@, p as int),
            final(self).procs@ == old(self).procs@.update(p as int, None),
            final(self).manager == old(self).manager,
            final(self).current == old(self).current,
    {
        let mut slot: Option<ProcessControlBlock> = None;
        self.procs.set_and_swap(p, &mut slot);
        slot.unwrap()
    }

    /// Puts thread `t` back on the ready queue with the stride and pass it has.
    pub fn wakeup_task(&mut self, t: TaskRef)
        requires
            old(self).wf(),
            task_live(old(self).procs@, t),
            !old(self).queued(t),
            old(self).current != Some(t),
        ensures
            same_but_tasks(old(self).procs@, final(self).procs@),
            final(self).wf(),
            final(self).current == old(self).current,
            final(self).manager.ready_queue@ == old(self).manager.ready_queue@.push(
                old(self).entry_of(t),
            ),
            final(self).procs@.len() == old(self).procs@.len(),
            tcb_of(final(self).procs@, t) == (TaskControlBlock { task_status: TaskStatus::Ready, ..tcb_of(old(self).procs@, t) }),
            final(self).procs@ == old(self).procs@.update(t.pid as int, final(self).procs@[t.pid as int]),
            proc_of(final(self).procs@, t.pid as int) == (ProcessControlBlock {
                inner: ProcessControlBlockInner {
                    tasks: proc_of(final(self).procs@, t.pid as int).inner.tasks,
                    ..proc_of(old(self).procs@, t.pid as int).inner
                },
                ..proc_of(old(self).procs@, t.pid as int)
            }),
            proc_of(final(self).procs@, t.pid as int).inner.tasks@ == proc_of(old(self).procs@, t.pid as int).inner.tasks@.update(t.tid as int, Some(TaskControlBlock { task_status: TaskStatus::Ready, ..tcb_of(old(self).procs@, t) })),
            forall|u: TaskRef| u != t && task_live(old(self).procs@, u) ==> tcb_of(final(self).procs@, u) == tcb_of(old(self).procs@, u),
            forall|q: int| 0 <= q < old(self).procs@.len() && q != t.pid ==> final(self).procs@[q] == old(self).procs@[q],
            forall|u: TaskRef| task_live(old(self).procs@, u) ==> task_live(final(self).procs@, u),
    {
        self.set_status(t, TaskStatus::Ready);
        let tcb = self.procs[t.pid].as_ref().unwrap().inner.tasks[t.tid].unwrap();
        self.manager.add(ReadyTask { task: t, stride: tcb.stride, pass: tcb.pass });
    }

    /// Sets the status of thread `t`.
    fn set_status(&mut self, t: TaskRef, status: TaskStatus)
        requires
            old(self).wf(),
            task_live(old(self).procs@, t),
        ensures
            same_but_tasks(old(self).procs@, final(self).procs@),
            final(self).wf(),
            final(self).current == old(self).current,
            final(self).manager == old(self).manager,
            final(self).procs@.len() == old(self).procs@.len(),
            tcb_of(final(self).procs@, t) == (TaskControlBlock { task_status: status, ..tcb_of(old(self).procs@, t) }),
            final(self).procs@ == old(self).procs@.update(t.pid as int, final(self).procs@[t.pid as int]),
            proc_of(final(self).procs@, t.pid as int) == (ProcessControlBlock {
                inner: ProcessControlBlockInner {
                    tasks: proc_of(final(self).procs@, t.pid as int).inner.tasks,
                    ..proc_of(old(self).procs@, t.pid as int).inner
                },
                ..proc_of(old(self).procs@, t.pid as int)
            }),
            proc_of(final(self).procs@, t.pid as int).inner.tasks@ == proc_of(old(self).procs@, t.pid as int).inner.tasks@.update(t.tid as int, Some(TaskControlBlock { task_status: status, ..tcb_of(old(self).procs@, t) })),
            forall|u: TaskRef| u != t && task_live(old(self).procs@, u) ==> tcb_of(final(self).procs@, u) == tcb_of(old(self).procs@, u),
            forall|q: int| 0 <= q < old(self).procs@.len() && q != t.pid ==> final(self).procs@[q] == old(self).procs@[q],
            forall|u: TaskRef| task_live(old(self).procs@, u) ==> task_live(final(self).procs@, u),
            proc_of(final(self).procs@, t.pid as int).inner.memory_set == proc_of(old(self).procs@, t.pid as int).inner.memory_set,
            proc_of(final(self).procs@, t.pid as int).inner.tasks@.len() == proc_of(old(self).procs@, t.pid as int).inner.tasks@.len(),
    {
        let tcb = self.tcb(t);
        self.set_tcb(t, TaskControlBlock { task_status: status, ..tcb });
    }

    /// The thread `t`.
    pub(crate) fn tcb(&self, t: TaskRef) -> (r: TaskControlBlock)
        requires
            task_live(self.procs@, t),
        ensures
            r == tcb_of(self.procs@, t),
    {
        self.procs[t.pid].as_ref().unwrap().inner.tasks[t.tid].unwrap()
    }

    /// Replaces the control block of thread `t`.
    pub(crate) fn set_tcb(&mut self, t: TaskRef, tcb: TaskControlBlock)
        requires
            old(self).wf(),
            task_live(old(self).procs@, t),
        ensures
            same_but_tasks(old(self).procs@, final(self).procs@),
            final(self).wf(),
            final(self).current == old(self).current,
            final(self).manager == old(self).manager,
            final(self).procs@.len() == old(self).procs@.len(),
            tcb_of(final(self).procs@, t) == tcb,
            final(self).procs@ == old(self).procs@.update(t.pid as int, final(self).procs@[t.pid as int]),
            proc_of(final(self).procs@, t.pid as int) == (ProcessControlBlock {
                inner: ProcessControlBlockInner {
                    tasks: proc_of(final(self).procs@, t.pid as int).inner.tasks,
                    ..proc_of(old(self).procs@, t.pid as int).inner
                },
                ..proc_of(old(self).procs@, t.pid as int)
            }),
            proc_of(final(self).procs@, t.pid as int).inner.tasks@ == proc_of(old(self).procs@, t.pid as int).inner.tasks@.update(t.tid as int, Some(tcb)),
            forall|u: TaskRef| u != t && task_live(old(self).procs@, u) ==> tcb_of(final(self).procs@, u) == tcb_of(old(self).procs@, u),
            forall|q: int| 0 <= q < old(self).procs@.len() && q != t.pid ==> final(self).procs@[q] == old(self).procs@[q],
            forall|u: TaskRef| task_live(old(self).procs@, u) ==> task_live(final(self).procs@, u),
            proc_of(final(self).procs@, t.pid as int).inner.memory_set == proc_of(old(self).procs@, t.pid as int).inner.memory_set,
            proc_of(final(self).procs@, t.pid as int).inner.tasks@.len() == proc_of(old(self).procs@, t.pid as int).inner.tasks@.len(),
    {
        let ghost before = self.procs@;
        let mut pcb = self.take_proc(t.pid);
        pcb.inner.tasks.set(t.tid, Some(tcb));
        proof {
            lemma_same_shape_keeps(before, t.pid as int, pcb);
        }
        self.replace_proc(t.pid, pcb);
        proof {
            assert(self.procs@ =~= before.update(t.pid as int, Some(pcb)));
            assert(self.procs@ =~= before.update(t.pid as int, self.procs@[t.pid as int]));
        }
    }

    /// Runs the next thread: takes the first entry with the least stride off
    /// the ready queue, charges it its pass and puts it on the processor.
    /// None, with nothing changed, when no thread is ready.
    pub fn schedule(&mut self) -> (r: Option<TaskRef>)
        requires
            old(self).wf(),
            old(self).current is None,
        ensures
            same_but_tasks(old(self).procs@, final(self).procs@),
            final(self).wf(),
            final(self).current == r,
            final(self).procs@.len() == old(self).procs@.len(),
            old(self).manager.ready_queue@.len() == 0 ==> r is None && final(self).procs@ == old(
                self,
            ).procs@ && final(self).manager.ready_queue@ == old(self).manager.ready_queue@,
            old(self).manager.ready_queue@.len() > 0 ==> exists|i: int|
                is_pick(old(self).manager.ready_queue@, i) && {
                    let e = old(self).manager.ready_queue@[i];
                    &&& r == Some(e.task)
                    &&& final(self).manager.ready_queue@ == old(self).manager.ready_queue@.remove(i)
                    &&& tcb_of(final(self).procs@, e.task) == (TaskControlBlock {
                        task_status: TaskStatus::Running,
                        stride: charged(e).stride,
                        pass: e.pass,
                        ..tcb_of(old(self).procs@, e.task)
                    })
                    &&& forall|u: TaskRef|
                        u != e.task && task_live(old(self).procs@, u) ==> tcb_of(final(self).procs@, u)
                            == tcb_of(old(self).procs@, u)
                    &&& forall|q: int|
                        0 <= q < old(self).procs@.len() && q != e.task.pid ==> final(self).procs@[q]
                            == old(self).procs@[q]
                },
    {
        let ghost q = self.manager.ready_queue@;
        match self.manager.fetch() {
            None => None,
            Some(e) => {
                proof {
                    let i = choose|i: int| is_pick(q, i) && Some(e) == Some(q[i]) && self.manager.ready_queue@ == q.remove(i);
                    assert(task_live(self.procs@, q[i].task));
                    assert forall|k: int| 0 <= k < self.manager.ready_queue@.len() implies task_live(
                        self.procs@,
                        #[trigger] self.manager.ready_queue@[k].task,
                    ) by {
                        if k < i {
                            assert(self.manager.ready_queue@[k] == q[k]);
                        } else {
                            assert(self.manager.ready_queue@[k] == q[k + 1]);
                        }
                    }
                }
                let tcb = self.tcb(e.task);
                self.set_tcb(
                    e.task,
                    TaskControlBlock {
                        task_status: TaskStatus::Running,
                        stride: e.stride.wrapping_add(e.pass),
                        pass: e.pass,
                        ..tcb
                    },
                );
                self.current = Some(e.task);
                Some(e.task)
            },
        }
    }

    /// The pid a new process gets.
    pub(crate) fn alloc_pid(&self) -> (c: usize)
        requires
            0 < self.procs@.len() < usize::MAX,
        ensures
            is_new_pid(self.procs@, c as int),
    {
        let mut c: usize = 1;
        while c < self.procs.len()
            invariant
                1 <= c <= self.procs@.len(),
                forall|q: int| 1 <= q < c ==> #[trigger] live(self.procs@, q),
            decreases self.procs@.len() - c,
        {
            if self.procs[c].is_none() {
                return c;
            }
            c = c + 1;
        }
        c
    }

    /// Puts `child`, a new process, into its empty slot `c` and lists it as
    /// the last child of `p`.
    pub(crate) fn install_child(&mut self, p: usize, c: usize, child: ProcessControlBlock)
        requires
            old(self).wf(),
            old(self).procs@.len() < isize::MAX,
            live(old(self).procs@, p as int),
            !proc_of(old(self).procs@, p as int).inner.is_zombie,
            is_new_pid(old(self).procs@, c as int),
            child.pid == c,
            child.wf(),
            child.inner.parent == Some(p),
            child.inner.children@.len() == 0,
        ensures
            final(self).wf(),
            final(self).current == old(self).current,
            final(self).manager == old(self).manager,
            c == old(self).procs@.len() ==> final(self).procs@.len() == old(self).procs@.len() + 1,
            c < old(self).procs@.len() ==> final(self).procs@.len() == old(self).procs@.len(),
            final(self).procs@[c as int] == Some(child),
            proc_of(final(self).procs@, p as int).inner.children@ == proc_of(old(self).procs@, p as int).inner.children@.push(c),
            proc_of(final(self).procs@, p as int) == (ProcessControlBlock {
                inner: ProcessControlBlockInner {
                    children: proc_of(final(self).procs@, p as int).inner.children,
                    ..proc_of(old(self).procs@, p as int).inner
                },
                ..proc_of(old(self).procs@, p as int)
            }),
            forall|q: int|
                0 <= q < old(self).procs@.len() && q != p && q != c ==> final(self).procs@[q] == old(self).procs@[q],
            forall|t: TaskRef| task_live(old(self).procs@, t) ==> #[trigger] task_live(final(self).procs@, t),
    {
        let ghost before = self.procs@;
        assert(p != c);
        if c == self.procs.len() {
            self.procs.push(None);
            proof {
                lemma_push_none(before);
            }
        }
        let ghost mid = self.procs@;
        let mut parent = self.take_proc(p);
        parent.inner.children.push(c);
        let ghost np = parent;
        self.replace_proc(p, parent);
        self.replace_proc(c, child);
        proof {
            assert(self.procs@ =~= mid.update(p as int, Some(np)).update(c as int, Some(child)));
            lemma_add_child(mid, p as int, np, c as int, child);
            assert forall|t: TaskRef| task_live(before, t) implies #[trigger] task_live(self.procs@, t) by {
                assert(task_live(mid, t));
            }
            assert forall|i: int| 0 <= i < self.manager.ready_queue@.len() implies task_live(
                self.procs@,
                #[trigger] self.manager.ready_queue@[i].task,
            ) by {
                assert(task_live(before, self.manager.ready_queue@[i].task));
            }
        }
    }

    /// The running thread goes back to the tail of the ready queue and the
    /// next thread is dispatched (see `schedule`); returns it.
    pub fn suspend_current_and_run_next(&mut self) -> (r: Option<TaskRef>)
        requires
            old(self).wf(),
            old(self).current is Some,
        ensures
            same_but_tasks(old(self).procs@, final(self).procs@),
            final(self).wf(),
            final(self).current == r,
            r is Some,
            suspended(*old(self), *final(self)),
    {
        let t = self.current.unwrap();
        self.current = None;
        self.wakeup_task(t);
        let ghost mid = self.procs@;
        let ghost q = self.manager.ready_queue@;
        assert(q == old(self).manager.ready_queue@.push(old(self).entry_of(t)));
        let r = self.schedule();
        proof {
            lemma_pick_unique(q);
            let i = choose|i: int| is_pick(q, i) && {
                let e = q[i];
                &&& r == Some(e.task)
                &&& self.manager.ready_queue@ == q.remove(i)
                &&& tcb_of(self.procs@, e.task) == (TaskControlBlock {
                    task_status: TaskStatus::Running,
                    stride: charged(e).stride,
                    pass: e.pass,
                    ..tcb_of(mid, e.task)
                })
                &&& forall|u: TaskRef|
                    u != e.task && task_live(mid, u) ==> tcb_of(self.procs@, u) == tcb_of(mid, u)
                &&& forall|x: int|
                    0 <= x < mid.len() && x != e.task.pid ==> self.procs@[x] == mid[x]
            };
            assert(i == pick_of(q));
            let e = q[i];
            assert(task_live(old(self).procs@, t));
            assert(task_live(old(self).procs@, e.task)) by {
                if i < q.len() - 1 {
                    assert(q[i] == old(self).manager.ready_queue@[i]);
                }
            }
            assert(self.manager.ready_queue@.push(self.entry_of(e.task)) =~= dispatched(q, i));
            if window_ok(q) {
                lemma_dispatch_keeps_window(q, i);
            }
        }
        r
    }

    /// The running thread blocks: it leaves the processor without going
    /// back to the ready queue, until a wakeup. The next thread is
    /// dispatched (see `schedule`) and returned.
    pub fn block_current_and_run_next(&mut self) -> (r: Option<TaskRef>)
        requires
            old(self).wf(),
            old(self).current is Some,
        ensures
            same_but_tasks(old(self).procs@, final(self).procs@),
            final(self).wf(),
            final(self).current == r,
            tcb_of(final(self).procs@, old(self).current->Some_0).task_status == TaskStatus::Blocked,
            r != old(self).current,
            old(self).manager.ready_queue@.len() == 0 ==> r is None,
            old(self).manager.ready_queue@.len() > 0 ==> exists|i: int|
                is_pick(old(self).manager.ready_queue@, i) && r == Some(old(self).manager.ready_queue@[i].task)
                    && final(self).manager.ready_queue@ == old(self).manager.ready_queue@.remove(i),
    {
        let t = self.current.unwrap();
        self.set_status(t, TaskStatus::Blocked);
        self.current = None;
        self.schedule()
    }

    /// The running process exits with `exit_code`: it becomes a zombie
    /// holding the code, its children move to init (listed after init's own
    /// children), and its descriptors, threads, pages and ready-queue
    /// entries are released. Nothing is left on the processor.
    pub fn exit_current(&mut self, exit_code: i32)
        requires
            old(self).wf(),
            old(self).current matches Some(t) && t.pid != INIT_PID,
        ensures
            final(self).wf(),
            final(self).current is None,
            final(self).procs@.len() == old(self).procs@.len(),
            exited(old(self).procs@, final(self).procs@, old(self).current->Some_0.pid as int, exit_code),
            final(self).manager.ready_queue@ == old(self).manager.ready_queue@.filter(
                |e: ReadyTask| e.task.pid != old(self).current->Some_0.pid,
            ),
    {
        let t = self.current.unwrap();
        let p = t.pid;
        self.current = None;
        let ghost old_procs = self.procs@;
        let ghost old_init = proc_of(old_procs, 0);
        let mut kids: Vec<usize> = Vec::new();
        let mut i: usize = 0;
        let n = self.procs[p].as_ref().unwrap().inner.children.len();
        while i < n
            invariant
                self.procs@ == old_procs,
                live(old_procs, p as int),
                n == proc_of(old_procs, p as int).inner.children@.len(),
                i <= n,
                kids@ == proc_of(old_procs, p as int).inner.children@.take(i as int),
            decreases n - i,
        {
            kids.push(self.procs[p].as_ref().unwrap().inner.children[i]);
            i = i + 1;
            proof {
                assert(kids@ =~= proc_of(old_procs, p as int).inner.children@.take(i as int));
            }
        }
        proof {
            assert(kids@ =~= proc_of(old_procs, p as int).inner.children@);
            assert forall|x: int| 0 <= x < kids@.len() implies {
                &&& live(old_procs, kids@[x] as int)
                &&& kids@[x] != 0
            } by {
                assert(proc_of(old_procs, p as int).inner.children@[x] == kids@[x]);
                assert(proc_of(old_procs, kids@[x] as int).inner.parent == Some(p));
            }
        }
        let mut i: usize = 0;
        while i < kids.len()
            invariant
                i <= kids@.len(),
                self.manager == old(self).manager,
                self.current is None,
                old_procs == old(self).procs@,
                kids@ == proc_of(old_procs, p as int).inner.children@,
                kids@.no_duplicates(),
                forall|x: int| 0 <= x < kids@.len() ==> live(old_procs, #[trigger] kids@[x] as int) && kids@[x] != 0,
                live(old_procs, 0),
                old_init == proc_of(old_procs, 0),
                self.procs@.len() == old_procs.len(),
                forall|q: int| #[trigger] live(self.procs@, q) == live(old_procs, q),
                forall|q: int|
                    0 <= q < old_procs.len() && q != 0 && !kids@.take(i as int).contains(q as usize)
                        ==> self.procs@[q] == old_procs[q],
                forall|j: int|
                    0 <= j < i ==> #[trigger] proc_of(self.procs@, kids@[j] as int) == (ProcessControlBlock {
                        inner: ProcessControlBlockInner {
                            parent: Some(0),
                            ..proc_of(old_procs, kids@[j] as int).inner
                        },
                        ..proc_of(old_procs, kids@[j] as int)
                    }),
                proc_of(self.procs@, 0) == (ProcessControlBlock {
                    inner: ProcessControlBlockInner {
                        children: proc_of(self.procs@, 0).inner.children,
                        ..old_init.inner
                    },
                    ..old_init
                }),
                proc_of(self.procs@, 0).inner.children@ == old_init.inner.children@ + kids@.take(i as int),
            decreases kids@.len() - i,
        {
            let c = kids[i];
            let ghost before = self.procs@;
            proof {
                assert(!kids@.take(i as int).contains(c)) by {
                    if kids@.take(i as int).contains(c) {
                        let w = choose|w: int| 0 <= w < i && kids@.take(i as int)[w] == c;
                        assert(kids@[w] == kids@[i as int]);
                    }
                }
                assert(live(before, c as int));
                assert(live(old_procs, kids@[i as int] as int) && kids@[i as int] != 0);
                assert(live(before, 0));
            }
            let mut child = self.take_proc(c);
            child.inner.parent = Some(0);
            self.replace_proc(c, child);
            assert(live(self.procs@, 0));
            let mut init = self.take_proc(0);
            init.inner.children.push(c);
            self.replace_proc(0, init);
            proof {
                let now = self.procs@;
                assert(kids@.take(i + 1) =~= kids@.take(i as int).push(c));
                assert forall|q: int| #[trigger] live(now, q) == live(old_procs, q) by {
                    assert(live(before, q) == live(old_procs, q));
                }
                assert forall|q: int|
                    0 <= q < old_procs.len() && q != 0 && !kids@.take(i + 1).contains(q as usize)
                        implies now[q] == old_procs[q] by {
                    assert(kids@.take(i + 1)[i as int] == c);
                    assert(q != c);
                    assert(!kids@.take(i as int).contains(q as usize)) by {
                        if kids@.take(i as int).contains(q as usize) {
                            let w = choose|w: int| 0 <= w < i && kids@.take(i as int)[w] == q as usize;
                            assert(kids@.take(i + 1)[w] == q as usize);
                        }
                    }
                }
                assert forall|j: int| 0 <= j < i + 1 implies #[trigger] proc_of(now, kids@[j] as int) == (ProcessControlBlock {
                    inner: ProcessControlBlockInner {
                        parent: Some(0),
                        ..proc_of(old_procs, kids@[j] as int).inner
                    },
                    ..proc_of(old_procs, kids@[j] as int)
                }) by {
                    if j < i {
                        assert(kids@[j] != c);
                        assert(proc_of(before, kids@[j] as int) == proc_of(now, kids@[j] as int));
                    } else {
                        assert(before[c as int] == old_procs[c as int]);
                    }
                }
                assert(proc_of(now, 0).inner.children@ =~= old_init.inner.children@ + kids@.take(i + 1));
            }
            i = i + 1;
        }
        let ghost mid = self.procs@;
        let mut e = self.take_proc(p);
        e.inner.is_zombie = true;
        e.inner.exit_code = exit_code;
        e.inner.children = Vec::new();
        e.inner.fd_table = Vec::new();
        e.inner.tasks = Vec::new();
        e.inner.memory_set.areas = Vec::new();
        self.replace_proc(p, e);
        proof {
            let now = self.procs@;
            assert(kids@.take(kids@.len() as int) =~= kids@);
            assert forall|q: int| #[trigger] live(now, q) == live(old_procs, q) by {
                assert(live(mid, q) == live(old_procs, q));
            }
            assert forall|q: int|
                0 <= q < now.len() && q != 0 && q != p && !kids@.contains(q as usize) implies now[q] == old_procs[q] by {
                assert(mid[q] == old_procs[q]);
            }
            assert forall|j: int| 0 <= j < kids@.len() && kids@[j] != p implies #[trigger] proc_of(now, kids@[j] as int) == (ProcessControlBlock {
                inner: ProcessControlBlockInner {
                    parent: Some(0),
                    ..proc_of(old_procs, kids@[j] as int).inner
                },
                ..proc_of(old_procs, kids@[j] as int)
            }) by {
                assert(proc_of(mid, kids@[j] as int) == proc_of(now, kids@[j] as int));
            }
            if kids@.contains(p) {
                let j = choose|j: int| 0 <= j < kids@.len() && kids@[j] == p;
                assert(proc_of(mid, kids@[j] as int).inner.parent == Some(0usize));
            } else {
                assert(mid[p as int] == old_procs[p as int]);
            }
            assert(proc_of(now, p as int).inner.memory_set.wf());
            lemma_exit_tree(old_procs, now, p as int, kids@);
        }
        // drop the exited process's threads from the ready queue
        let ghost q0 = self.manager.ready_queue@;
        let ghost keep = |e: ReadyTask| e.task.pid != p;
        let mut ready: Vec<ReadyTask> = Vec::new();
        let ghost mut src: Seq<int> = Seq::empty();
        let mut k: usize = 0;
        proof {
            assert(q0.take(0).filter(keep) =~= Seq::<ReadyTask>::empty()) by {
                reveal(Seq::filter);
            }
        }
        while k < self.manager.ready_queue.len()
            invariant
                self.manager.ready_queue@ == q0,
                keep == |e: ReadyTask| e.task.pid != p,
                k <= q0.len(),
                ready@ == q0.take(k as int).filter(keep),
                q0 == old(self).manager.ready_queue@,
                old_procs == old(self).procs@,
                old(self).wf(),
                forall|x: int| 0 <= x < ready@.len() ==> task_live(old_procs, #[trigger] ready@[x].task) && ready@[x].task.pid != p,
                tasks_distinct(q0),
                tasks_distinct(ready@),
                src.len() == ready@.len(),
                forall|x: int| 0 <= x < ready@.len() ==> 0 <= #[trigger] src[x] < k && q0[src[x]] == ready@[x],
            decreases q0.len() - k,
        {
            let e = self.manager.ready_queue[k];
            proof {
                assert(q0.take(k + 1).drop_last() =~= q0.take(k as int));
                reveal(Seq::filter);
            }
            if e.task.pid != p {
                proof {
                    assert forall|x: int| 0 <= x < ready@.len() implies ready@[x].task != e.task by {
                        assert(q0[src[x]] == ready@[x]);
                        assert(src[x] != k as int);
                    }
                    src = src.push(k as int);
                }
                ready.push(e);
                proof {
                    assert forall|a: int, b: int|
                        0 <= a < ready@.len() && 0 <= b < ready@.len() && a != b implies #[trigger] ready@[a].task
                        != #[trigger] ready@[b].task by {
                        if a < ready@.len() - 1 && b < ready@.len() - 1 {
                            assert(ready@[a] == ready@.drop_last()[a]);
                        }
                    }
                }
            }
            k = k + 1;
            proof {
                assert(task_live(old_procs, q0[k - 1].task));
            }
        }
        proof {
            assert(q0.take(k as int) =~= q0);
        }
        let ghost kept = ready@;
        proof {
            assert forall|x: int| 0 <= x < kept.len() implies task_live(
                self.procs@,
                #[trigger] kept[x].task,
            ) by {
                assert(task_live(old_procs, kept[x].task));
            }
        }
        self.manager.ready_queue = ready;
        proof {
            assert(keep =~= (|e: ReadyTask| e.task.pid != p));
        }
    }

    /// The running process exits (see `exit_current`) and the next thread
    /// is dispatched; returns it.
    pub fn exit_current_and_run_next(&mut self, exit_code: i32) -> (r: Option<TaskRef>)
        requires
            old(self).wf(),
            old(self).current matches Some(t) && t.pid != INIT_PID,
        ensures
            final(self).wf(),
            final(self).current == r,
            exited(old(self).procs@, final(self).procs@, old(self).current->Some_0.pid as int, exit_code),
    {
        let p = self.current.unwrap().pid;
        self.exit_current(exit_code);
        let ghost mid = self.procs@;
        let r = self.schedule();
        proof {
            if r is Some {
                let e = r->Some_0;
                assert(task_live(mid, e));
                assert(e.pid != p);
                let kids = proc_of(old(self).procs@, p as int).inner.children@;
                assert forall|j: int| 0 <= j < kids.len() implies #[trigger] proc_of(self.procs@, kids[j] as int).inner.parent
                    == Some(INIT_PID) by {
                    assert(proc_of(mid, kids[j] as int).inner.parent == Some(INIT_PID));
                    let ic = proc_of(old(self).procs@, 0).inner.children@;
                    assert(proc_of(mid, 0).inner.children@[ic.len() + j] == kids[j]);
                    assert(live(mid, kids[j] as int));
                }
            }
        }
        r
    }

    /// Reaps an exited child of the running process. `pid` picks the child,
    /// -1 any child. Returns -1 when no child passes the filter, -2 when
    /// some do but none has exited yet; otherwise removes the first exited
    /// one that passes from the children and from the table, freeing its
    /// pid, and returns its pid and exit code.
    pub fn wait_child(&mut self, pid: isize) -> (r: (isize, i32))
        requires
            old(self).wf(),
            old(self).current is Some,
        ensures
            final(self).wf(),
            final(self).current == old(self).current,
            final(self).manager == old(self).manager,
            ({
                let p = old(self).current->Some_0.pid as int;
                let kids = proc_of(old(self).procs@, p).inner.children@;
                let any = exists|j: int| 0 <= j < kids.len() && pid_matches(pid, #[trigger] kids[j]);
                let ready = exists|j: int| #[trigger] first_reapable(old(self).procs@, kids, pid, j);
                &&& (r.0 == -1 <==> !any)
                &&& (r.0 == -2 <==> any && !ready)
                &&& ready ==> r.0 >= 0
                &&& r.0 < 0 ==> final(self).procs@ == old(self).procs@
                &&& r.0 >= 0 ==> exists|i: int|
                    #[trigger] first_reapable(old(self).procs@, kids, pid, i) && {
                        let c = kids[i] as int;
                        &&& r.0 == c
                        &&& r.1 == proc_of(old(self).procs@, c).inner.exit_code
                        &&& final(self).procs@[c] is None
                        &&& final(self).procs@ == old(self).procs@.update(p, final(self).procs@[p]).update(c, None)
                        &&& proc_of(final(self).procs@, p) == (ProcessControlBlock {
                            inner: ProcessControlBlockInner {
                                children: proc_of(final(self).procs@, p).inner.children,
                                ..proc_of(old(self).procs@, p).inner
                            },
                            ..proc_of(old(self).procs@, p)
                        })
                        &&& proc_of(final(self).procs@, p).inner.children@ == kids.remove(i)
                    }
            }),
    {
        let p = self.current.unwrap().pid;
        let ghost before = self.procs@;
        let ghost kids = proc_of(before, p as int).inner.children@;
        let n = self.procs[p].as_ref().unwrap().inner.children.len();
        // is there a child the filter takes?
        let mut j: usize = 0;
        let mut any = false;
        while j < n
            invariant
                self.procs@ == before,
                before == old(self).procs@,
                self.manager == old(self).manager,
                self.current == old(self).current,
                old(self).wf(),
                live(before, p as int),
                kids == proc_of(before, p as int).inner.children@,
                n == kids.len(),
                j <= n,
                any == exists|x: int| 0 <= x < j && pid_matches(pid, #[trigger] kids[x]),
            decreases n - j,
        {
            let c = self.procs[p].as_ref().unwrap().inner.children[j];
            if pid == -1 || c <= isize::MAX as usize && pid == c as isize {
                any = true;
            }
            proof {
                assert(c == kids[j as int]);
                if !(pid == -1 || (c <= isize::MAX as usize && pid == c as isize)) {
                    assert(!pid_matches(pid, c));
                }
            }
            j = j + 1;
        }
        if !any {
            return (-1, 0);
        }
        // the first exited child the filter takes
        let mut i: usize = 0;
        while i < n
            invariant
                self.procs@ == before,
                before == old(self).procs@,
                self.manager == old(self).manager,
                self.current == old(self).current,
                old(self).wf(),
                old(self).current is Some,
                p == old(self).current->Some_0.pid,
                tree_ok(before),
                live(before, p as int),
                kids == proc_of(before, p as int).inner.children@,
                n == kids.len(),
                i <= n,
                forall|x: int|
                    0 <= x < i ==> !(pid_matches(pid, #[trigger] kids[x]) && proc_of(before, kids[x] as int).inner.is_zombie),
            decreases n - i,
        {
            let c = self.procs[p].as_ref().unwrap().inner.children[i];
            proof {
                assert(c == kids[i as int]);
                assert(live(before, c as int));
            }
            let zombie = self.procs[c].as_ref().unwrap().inner.is_zombie;
            let passes = pid == -1 || c <= isize::MAX as usize && pid == c as isize;
            proof {
                assert(passes == pid_matches(pid, c));
            }
            if passes && zombie {
                let code = self.procs[c].as_ref().unwrap().inner.exit_code;
                proof {
                    assert(first_reapable(before, kids, pid, i as int));
                }
                let mut parent = self.take_proc(p);
                parent.inner.children.remove(i);
                let ghost np = parent;
                self.replace_proc(p, parent);
                let _reaped = self.take_proc(c);
                proof {
                    lemma_reap(before, p as int, np, i as int);
                    assert(self.procs@ =~= before.update(p as int, Some(np)).update(c as int, None));
                    assert(self.procs@ =~= before.update(p as int, self.procs@[p as int]).update(c as int, None));
                    let nn = self.procs@;
                    assert forall|k: int| 0 <= k < self.manager.ready_queue@.len() implies task_live(
                        nn,
                        #[trigger] self.manager.ready_queue@[k].task,
                    ) by {
                        assert(task_live(before, self.manager.ready_queue@[k].task));
                    }
                    let t = old(self).current->Some_0;
                    assert(old(self).current == Some(t));
                    assert(task_live(before, t));
                    assert(task_live(nn, t));
                }
                return (c as isize, code);
            }
            i = i + 1;
        }
        proof {
            assert forall|x: int| !#[trigger] first_reapable(before, kids, pid, x) by {
                if 0 <= x < n {
                    assert(!(pid_matches(pid, kids[x]) && proc_of(before, kids[x] as int).inner.is_zombie));
                }
            }
        }
        (-2, 0)
    }

    /// Counts one call of system call `id` by the running thread. A count
    /// that has reached `u32::MAX` stays there.
    pub fn update_info_syscall(&mut self, id: usize)
        requires
            old(self).wf(),
            old(self).current is Some,
            id < MAX_SYSCALL_NUM,
        ensures
            same_but_tasks(old(self).procs@, final(self).procs@),
            final(self).procs@ == old(self).procs@.update(
                old(self).current->Some_0.pid as int,
                final(self).procs@[old(self).current->Some_0.pid as int],
            ),
            forall|u: TaskRef|
                u != old(self).current->Some_0 && task_live(old(self).procs@, u) ==> tcb_of(final(self).procs@, u)
                    == tcb_of(old(self).procs@, u),
            final(self).wf(),
            final(self).current == old(self).current,
            final(self).manager == old(self).manager,
            ({
                let t = old(self).current->Some_0;
                let before = tcb_of(old(self).procs@, t);
                let c = before.syscall_times@[id as int];
                &&& tcb_of(final(self).procs@, t) == (TaskControlBlock {
                    syscall_times: tcb_of(final(self).procs@, t).syscall_times,
                    ..before
                })
                &&& tcb_of(final(self).procs@, t).syscall_times@ == before.syscall_times@.update(
                    id as int,
                    if c < u32::MAX {
                        (c + 1) as u32
                    } else {
                        c
                    },
                )
            }),
    {
        let t = self.current.unwrap();
        let mut tcb = self.tcb(t);
        let c = tcb.syscall_times[id];
        tcb.syscall_times[id] = if c < u32::MAX {
            c + 1
        } else {
            c
        };
        self.set_tcb(t, tcb);
    }

    /// Records `now_ms` as the running thread's start time, unless it has
    /// one already.
    pub fn update_info_starttime(&mut self, now_ms: usize)
        requires
            old(self).wf(),
            old(self).current is Some,
        ensures
            same_but_tasks(old(self).procs@, final(self).procs@),
            final(self).procs@ == old(self).procs@.update(
                old(self).current->Some_0.pid as int,
                final(self).procs@[old(self).current->Some_0.pid as int],
            ),
            forall|u: TaskRef|
                u != old(self).current->Some_0 && task_live(old(self).procs@, u) ==> tcb_of(final(self).procs@, u)
                    == tcb_of(old(self).procs@, u),
            final(self).wf(),
            final(self).current == old(self).current,
            final(self).manager == old(self).manager,
            ({
                let t = old(self).current->Some_0;
                let before = tcb_of(old(self).procs@, t);
                &&& before.start_time != 0 ==> final(self).procs@ == old(self).procs@
                &&& before.start_time == 0 ==> tcb_of(final(self).procs@, t) == (TaskControlBlock {
                    start_time: now_ms,
                    ..before
                })
            }),
    {
        let t = self.current.unwrap();
        let tcb = self.tcb(t);
        if tcb.start_time == 0 {
            self.set_tcb(t, TaskControlBlock { start_time: now_ms, ..tcb });
        }
    }

    /// The running thread's system-call counts.
    pub fn get_info_syscall(&self) -> (r: [u32; MAX_SYSCALL_NUM])
        requires
            self.wf(),
            self.current is Some,
        ensures
            r == tcb_of(self.procs@, self.current->Some_0).syscall_times,
    {
        self.tcb(self.current.unwrap()).syscall_times
    }

    /// When the running thread first ran.
    pub fn get_info_starttime(&self) -> (r: usize)
        requires
            self.wf(),
            self.current is Some,
        ensures
            r == tcb_of(self.procs@, self.current->Some_0).start_time,
    {
        self.tcb(self.current.unwrap()).start_time
    }
}

} // verus!

//! Process-management system calls over the kernel state. Each returns the
//! value handed back to user code in `a0`; negative values report errors.
use crate::argv::{arg_seqs, le_bytes, lemma_le_bytes_len, sp_of};
use crate::deadlock::is_safe;
use crate::kernel::{
    exited, first_reapable, forked, same_but_tasks, suspended, is_new_pid, lemma_same_shape_keeps, live, pid_matches, proc_of, task_live, tcb_of,
    Kernel, INIT_PID,
};
use crate::manager::{ReadyTask, TaskRef, BIG_STRIDE, MIN_PRIORITY};
use crate::mm::{mmap_outcome, munmap_outcome, write_outcome, MemorySet, PAGE_SIZE};
use crate::mutex::{lock_outcome, unlock_outcome};
use crate::process::{
    mutex_allocation, mutex_available, mutex_counts_fit, mutex_need, sem_allocation, sem_available,
    sem_counts_fit, sem_need, exec_outcome, LoadedImage, ProcessControlBlock, ProcessControlBlockInner,
    USER_STACK_SIZE,
};
use crate::semaphore::{down_outcome, up_outcome};
use crate::task::{TaskControlBlock, TaskStatus, TrapContext, MAX_SYSCALL_NUM};
use vstd::prelude::*;

verus! {

/// A time split into seconds and microseconds.
#[derive(Clone, Copy, PartialEq, Eq, Structural, Debug)]
pub struct TimeVal {
    pub sec: usize,
    pub usec: usize,
}

/// What a thread learns about itself.
#[derive(Clone, Copy, Debug)]
pub struct TaskInfo {
    pub status: TaskStatus,
    /// Calls made so far, by system-call id.
    pub syscall_times: [u32; MAX_SYSCALL_NUM],
    /// Milliseconds since the thread first ran.
    pub time: usize,
}

/// The time `us`, in microseconds, as seconds and microseconds.
pub fn sys_get_time(us: usize) -> (r: TimeVal)
    ensures
        r.sec == us / 1_000_000,
        r.usec == us % 1_000_000,
{
    TimeVal { sec: us / 1_000_000, usec: us % 1_000_000 }
}

/// The running thread's status, system-call counts and the milliseconds
/// from its start to `now_ms` (none when the clock reads earlier).
pub fn sys_task_info(k: &Kernel, now_ms: usize) -> (r: TaskInfo)
    requires
        k.wf(),
        k.current is Some,
    ensures
        r.status == TaskStatus::Running,
        r.syscall_times == tcb_of(k.procs@, k.current->Some_0).syscall_times,
        ({
            let start = tcb_of(k.procs@, k.current->Some_0).start_time;
            r.time == if now_ms >= start {
                now_ms - start
            } else {
                0
            }
        }),
{
    let start = k.get_info_starttime();
    TaskInfo {
        status: TaskStatus::Running,
        syscall_times: k.get_info_syscall(),
        time: if now_ms >= start {
            now_ms - start
        } else {
            0
        },
    }
}

/// The pid of the running process.
pub fn sys_getpid(k: &Kernel) -> (r: isize)
    requires
        k.wf(),
        k.current is Some,
    ensures
        r == k.current->Some_0.pid,
{
    k.current.unwrap().pid as isize
}

/// The running thread gives up the processor: it goes back to the ready
/// queue and the next thread is dispatched. Returns 0.
pub fn sys_yield(k: &mut Kernel) -> (r: isize)
    requires
        old(k).wf(),
        old(k).current is Some,
    ensures
        r == 0,
        final(k).wf(),
        final(k).current is Some,
        same_but_tasks(old(k).procs@, final(k).procs@),
        suspended(*old(k), *final(k)),
{
    k.suspend_current_and_run_next();
    0
}

/// Maps `[start, start + len)` in the running process with the protection
/// bits `port`; see `MemorySet::mmap` for when it fails with -1.
pub fn sys_mmap(k: &mut Kernel, start: usize, len: usize, port: usize) -> (r: isize)
    requires
        old(k).wf(),
        old(k).current is Some,
        start + len <= usize::MAX - PAGE_SIZE,
    ensures
        final(k).wf(),
        final(k).current == old(k).current,
        final(k).manager == old(k).manager,
        ({
            let p = old(k).current->Some_0.pid as int;
            &&& mmap_outcome(
                proc_of(old(k).procs@, p).inner.memory_set,
                proc_of(final(k).procs@, p).inner.memory_set,
                start,
                len,
                port,
                r,
            )
            &&& final(k).procs@ == old(k).procs@.update(p, final(k).procs@[p])
            &&& proc_of(final(k).procs@, p).inner == (crate::process::ProcessControlBlockInner {
                memory_set: proc_of(final(k).procs@, p).inner.memory_set,
                ..proc_of(old(k).procs@, p).inner
            })
        }),
{
    let p = k.current.unwrap().pid;
    let ghost before = k.procs@;
    let mut pcb = k.take_proc(p);
    let r = pcb.inner.memory_set.mmap(start, len, port);
    proof {
        lemma_same_shape_keeps(before, p as int, pcb);
    }
    k.replace_proc(p, pcb);
    proof {
        assert(k.procs@ =~= before.update(p as int, Some(pcb)));
    }
    r
}

/// Unmaps, in the running process, the whole area that maps
/// `[start, start + len)`; see `MemorySet::munmap` for when it fails with -1.
pub fn sys_munmap(k: &mut Kernel, start: usize, len: usize) -> (r: isize)
    requires
        old(k).wf(),
        old(k).current is Some,
        start + len <= usize::MAX,
    ensures
        final(k).wf(),
        final(k).current == old(k).current,
        final(k).manager == old(k).manager,
        ({
            let p = old(k).current->Some_0.pid as int;
            &&& munmap_outcome(
                proc_of(old(k).procs@, p).inner.memory_set,
                proc_of(final(k).procs@, p).inner.memory_set,
                start,
                len,
                r,
            )
            &&& final(k).procs@ == old(k).procs@.update(p, final(k).procs@[p])
            &&& proc_of(final(k).procs@, p).inner == (crate::process::ProcessControlBlockInner {
                memory_set: proc_of(final(k).procs@, p).inner.memory_set,
                ..proc_of(old(k).procs@, p).inner
            })
        }),
{
    let p = k.current.unwrap().pid;
    let ghost before = k.procs@;
    let mut pcb = k.take_proc(p);
    let r = pcb.inner.memory_set.munmap(start, len);
    proof {
        lemma_same_shape_keeps(before, p as int, pcb);
    }
    k.replace_proc(p, pcb);
    proof {
        assert(k.procs@ =~= before.update(p as int, Some(pcb)));
    }
    r
}

/// Moves the running process's heap end by `size` bytes; returns the old
/// end, or -1 when it would fall below the heap's bottom or past
/// `isize::MAX`.
pub fn sys_sbrk(k: &mut Kernel, size: i32) -> (r: isize)
    requires
        old(k).wf(),
        old(k).current is Some,
    ensures
        final(k).wf(),
        final(k).current == old(k).current,
        final(k).manager == old(k).manager,
        ({
            let p = old(k).current->Some_0.pid as int;
            let old_brk = proc_of(old(k).procs@, p).inner.program_brk;
            let new_brk = old_brk + size;
            let bottom = proc_of(old(k).procs@, p).inner.heap_bottom;
            &&& (r == -1 <==> (new_brk < bottom || new_brk > isize::MAX))
            &&& r == -1 ==> final(k).procs@ == old(k).procs@
            &&& r != -1 ==> r == old_brk && final(k).procs@ == old(k).procs@.update(
                p,
                Some(
                    ProcessControlBlock {
                        inner: crate::process::ProcessControlBlockInner {
                            program_brk: new_brk as usize,
                            ..proc_of(old(k).procs@, p).inner
                        },
                        ..proc_of(old(k).procs@, p)
                    },
                ),
            )
        }),
{
    let p = k.current.unwrap().pid;
    let ghost before = k.procs@;
    let mut pcb = k.take_proc(p);
    let r = pcb.change_program_brk(size);
    proof {
        lemma_same_shape_keeps(before, p as int, pcb);
    }
    k.replace_proc(p, pcb);
    proof {
        assert(k.procs@ =~= before.update(p as int, Some(pcb)));
        if r is None {
            assert(k.procs@ =~= before);
        }
    }
    match r {
        Some(old_brk) => old_brk as isize,
        None => -1,
    }
}

/// Sets the running thread's priority: its pass becomes
/// `BIG_STRIDE / prio`, so that it is dispatched in proportion to `prio`.
/// Returns `prio`, or -1, changing nothing, when `prio` is below 2.
pub fn sys_set_priority(k: &mut Kernel, prio: isize) -> (r: isize)
    requires
        old(k).wf(),
        old(k).current is Some,
    ensures
        final(k).wf(),
        final(k).current == old(k).current,
        final(k).manager == old(k).manager,
        prio < MIN_PRIORITY ==> r == -1 && final(k).procs@ == old(k).procs@,
        prio >= MIN_PRIORITY ==> r == prio && ({
            let t = old(k).current->Some_0;
            &&& tcb_of(final(k).procs@, t) == (TaskControlBlock {
                pass: (BIG_STRIDE / prio as u64) as u64,
                ..tcb_of(old(k).procs@, t)
            })
            &&& forall|u: TaskRef|
                u != t && task_live(old(k).procs@, u) ==> tcb_of(final(k).procs@, u) == tcb_of(
                    old(k).procs@,
                    u,
                )
        }),
{
    if prio < MIN_PRIORITY {
        return -1;
    }
    let t = k.current.unwrap();
    let tcb = k.tcb(t);
    k.set_tcb(t, TaskControlBlock { pass: BIG_STRIDE / prio as u64, ..tcb });
    prio
}

/// Replaces the running process's program by `image` with the arguments
/// `args` (see `ProcessControlBlock::exec`). -1 when the program was not
/// found (`image` is None) or the arguments do not fit on the stack; else 0.
pub fn sys_exec(k: &mut Kernel, image: Option<LoadedImage>, args: &Vec<Vec<u8>>) -> (r: isize)
    requires
        old(k).wf(),
        old(k).current is Some,
        proc_of(old(k).procs@, old(k).current->Some_0.pid as int).inner.tasks@.len() == 1,
        proc_of(old(k).procs@, old(k).current->Some_0.pid as int).inner.tasks@[0] is Some,
        image matches Some(img) ==> img.wf(),
    ensures
        final(k).wf(),
        final(k).current == old(k).current,
        final(k).manager == old(k).manager,
        image is None ==> r == -1 && final(k).procs@ == old(k).procs@,
        image matches Some(img) ==> {
            let p = old(k).current->Some_0.pid as int;
            &&& r == 0 || r == -1
            &&& exec_outcome(proc_of(old(k).procs@, p), proc_of(final(k).procs@, p), img, arg_seqs(args@), r == 0)
            &&& final(k).procs@ == old(k).procs@.update(p, final(k).procs@[p])
        },
        r == -1 ==> final(k).procs@ == old(k).procs@,
{
    match image {
        None => -1,
        Some(img) => {
            let p = k.current.unwrap().pid;
            let ghost before = k.procs@;
            let mut pcb = k.take_proc(p);
            let ok = pcb.exec(img, args);
            proof {
                lemma_same_shape_keeps(before, p as int, pcb);
            }
            k.replace_proc(p, pcb);
            proof {
                assert(k.procs@ =~= before.update(p as int, Some(pcb)));
                if !ok {
                    assert(k.procs@ =~= before);
                }
            }
            if ok {
                0
            } else {
                -1
            }
        },
    }
}

/// Forks the running single-threaded process (see
/// `ProcessControlBlock::fork` and `forked`). Returns the child's pid.
pub fn sys_fork(k: &mut Kernel) -> (r: isize)
    requires
        old(k).wf(),
        old(k).current is Some,
        old(k).procs@.len() < isize::MAX,
        proc_of(old(k).procs@, old(k).current->Some_0.pid as int).inner.tasks@.len() == 1,
        proc_of(old(k).procs@, old(k).current->Some_0.pid as int).inner.tasks@[0] is Some,
    ensures
        final(k).wf(),
        r > 0,
        forked(*old(k), *final(k), old(k).current->Some_0.pid as int, r as int),
{
    let p = k.current.unwrap().pid;
    proof {
        assert(task_live(k.procs@, k.current->Some_0));
    }
    let c = ProcessControlBlock::fork(k, p);
    c as isize
}

/// Starts a new process from `image` as the last child of the running
/// process, with its main thread appended to the ready queue, and returns
/// its pid (the first free one, see `is_new_pid`). -1, changing nothing,
/// when the program was not found (`image` is None).
pub fn sys_spawn(k: &mut Kernel, image: Option<LoadedImage>) -> (r: isize)
    requires
        old(k).wf(),
        old(k).current is Some,
        old(k).procs@.len() < isize::MAX,
        image matches Some(img) ==> img.wf(),
    ensures
        final(k).wf(),
        final(k).current == old(k).current,
        image is None ==> r == -1 && final(k).procs@ == old(k).procs@ && final(k).manager
            == old(k).manager,
        image matches Some(img) ==> {
            let p = old(k).current->Some_0.pid as int;
            let child = proc_of(final(k).procs@, r as int);
            &&& is_new_pid(old(k).procs@, r as int)
            &&& live(final(k).procs@, r as int)
            &&& child.inner.parent == Some(p as usize)
            &&& child.inner.children@.len() == 0
            &&& child.inner.memory_set.areas@.drop_last() == img.memory_set.areas@
            &&& child.inner.tasks@ == seq![
                Some(
                    TaskControlBlock::new_spec(
                        0,
                        img.ustack_base,
                        img.entry_point,
                        img.ustack_top() as usize,
                    ),
                ),
            ]
            &&& proc_of(final(k).procs@, p).inner.children@ == proc_of(
                old(k).procs@,
                p,
            ).inner.children@.push(r as usize)
            &&& forall|q: int|
                0 <= q < old(k).procs@.len() && q != p && q != r ==> #[trigger] final(k).procs@[q]
                    == old(k).procs@[q]
            &&& proc_of(final(k).procs@, p) == (ProcessControlBlock {
                inner: ProcessControlBlockInner {
                    children: proc_of(final(k).procs@, p).inner.children,
                    ..proc_of(old(k).procs@, p).inner
                },
                ..proc_of(old(k).procs@, p)
            })
            &&& (ProcessControlBlock {
                inner: ProcessControlBlockInner { parent: None, ..child.inner },
                ..child
            }).fresh(r as usize, img)
            &&& final(k).manager.ready_queue@ == old(k).manager.ready_queue@.push(
                ReadyTask {
                    task: TaskRef { pid: r as usize, tid: 0 },
                    stride: 0,
                    pass: child.inner.tasks@[0]->Some_0.pass,
                },
            )
        },
{
    match image {
        None => -1,
        Some(img) => {
            let p = k.current.unwrap().pid;
            let c = k.alloc_pid();
            let mut child = ProcessControlBlock::build(c, img);
            child.inner.parent = Some(p);
            k.install_child(p, c, child);
            let t = TaskRef { pid: c, tid: 0 };
            proof {
                assert(task_live(k.procs@, t));
            }
            k.wakeup_task(t);
            c as isize
        },
    }
}

/// The four little-endian bytes of an exit code, as user code reads an `i32`.
pub open spec fn exit_code_bytes(code: i32) -> Seq<u8> {
    le_bytes(
        (if code >= 0 {
            code as int
        } else {
            code + 0x1_0000_0000
        }) as nat,
        4,
    )
}

/// The four little-endian bytes of `code`.
fn exit_code_le(code: i32) -> (r: Vec<u8>)
    ensures
        r@ == exit_code_bytes(code),
{
    let mut v: u32 = if code >= 0 {
        code as u32
    } else {
        (code as i64 + 0x1_0000_0000) as u32
    };
    let ghost full = v;
    let mut out: Vec<u8> = Vec::new();
    let mut k: usize = 0;
    while k < 4
        invariant
            k <= 4,
            le_bytes(full as nat, 4) == out@ + le_bytes(v as nat, (4 - k) as nat),
        decreases 4 - k,
    {
        proof {
            assert(le_bytes(v as nat, (4 - k) as nat) =~= seq![(v % 256) as u8] + le_bytes(
                (v / 256) as nat,
                (4 - k - 1) as nat,
            ));
        }
        out.push((v % 256) as u8);
        v = v / 256;
        k = k + 1;
        proof {
            assert(out@ + le_bytes(v as nat, (4 - k) as nat) =~= le_bytes(full as nat, 4));
        }
    }
    proof {
        assert(le_bytes(v as nat, 0) =~= Seq::<u8>::empty());
        assert(out@ =~= le_bytes(full as nat, 4));
    }
    out
}

/// The running process exits with `exit_code` (see
/// `Kernel::exit_current`); the next thread, if any, is dispatched and
/// returned. Exiting init would leave the kernel nothing to run, so init
/// never calls it.
pub fn sys_exit(k: &mut Kernel, exit_code: i32) -> (r: Option<TaskRef>)
    requires
        old(k).wf(),
        old(k).current matches Some(t) && t.pid != INIT_PID,
    ensures
        final(k).wf(),
        final(k).current == r,
        exited(old(k).procs@, final(k).procs@, old(k).current->Some_0.pid as int, exit_code),
{
    k.exit_current_and_run_next(exit_code)
}

/// Waits, without blocking, for a child of the running process: `pid`
/// picks the child, -1 any child. Returns -1 when no child passes the
/// filter and -2 when none of those has exited yet. Otherwise the first
/// exited child that passes is reaped (see `Kernel::wait_child`), its exit
/// code is written as four little-endian bytes at `exit_code_ptr` in the
/// caller's address space, and its pid is returned.
pub fn sys_waitpid(k: &mut Kernel, pid: isize, exit_code_ptr: usize) -> (r: isize)
    requires
        old(k).wf(),
        old(k).current is Some,
        exit_code_ptr <= usize::MAX - 4,
    ensures
        final(k).wf(),
        final(k).current == old(k).current,
        final(k).manager == old(k).manager,
        ({
            let p = old(k).current->Some_0.pid as int;
            let kids = proc_of(old(k).procs@, p).inner.children@;
            let any = exists|j: int| 0 <= j < kids.len() && pid_matches(pid, #[trigger] kids[j]);
            let ready = exists|j: int| #[trigger] first_reapable(old(k).procs@, kids, pid, j);
            &&& (r == -1 <==> !any)
            &&& (r == -2 <==> any && !ready)
            &&& ready ==> r >= 0
            &&& r < 0 ==> final(k).procs@ == old(k).procs@
            &&& r >= 0 ==> exists|i: int|
                #[trigger] first_reapable(old(k).procs@, kids, pid, i) && {
                    let c = kids[i] as int;
                    let code = proc_of(old(k).procs@, c).inner.exit_code;
                    &&& r == c
                    &&& final(k).procs@[c] is None
                    &&& proc_of(final(k).procs@, p).inner.children@ == kids.remove(i)
                    &&& exists|written: bool|
                        write_outcome(
                            proc_of(old(k).procs@, p).inner.memory_set,
                            proc_of(final(k).procs@, p).inner.memory_set,
                            exit_code_ptr,
                            exit_code_bytes(code),
                            written,
                        )
                }
        }),
{
    let ghost old_procs = k.procs@;
    let ghost p0 = k.current->Some_0.pid as int;
    let ghost kids = proc_of(old_procs, p0).inner.children@;
    let (r, code) = k.wait_child(pid);
    if r >= 0 {
        let p = k.current.unwrap().pid;
        let bytes = exit_code_le(code);
        let ghost before = k.procs@;
        proof {
            assert(task_live(before, k.current->Some_0));
            lemma_le_bytes_len(
                (if code >= 0 {
                    code as int
                } else {
                    code + 0x1_0000_0000
                }) as nat,
                4,
            );
        }
        let mut pcb = k.take_proc(p);
        let written = pcb.inner.memory_set.write_bytes(exit_code_ptr, &bytes);
        proof {
            lemma_same_shape_keeps(before, p as int, pcb);
        }
        k.replace_proc(p, pcb);
        proof {
            assert(k.procs@ =~= before.update(p as int, Some(pcb)));
            let i = choose|i: int|
                #[trigger] first_reapable(old_procs, kids, pid, i) && {
                    let c = kids[i] as int;
                    &&& r == c
                    &&& code == proc_of(old_procs, c).inner.exit_code
                    &&& before[c] is None
                    &&& before == old_procs.update(p0, before[p0]).update(c, None)
                    &&& proc_of(before, p0).inner.children@ == kids.remove(i)
                };
            let c = kids[i] as int;
            assert(c != p0);
            assert(k.procs@[c] is None);
            assert(write_outcome(
                proc_of(old_procs, p0).inner.memory_set,
                proc_of(k.procs@, p0).inner.memory_set,
                exit_code_ptr,
                exit_code_bytes(proc_of(old_procs, c).inner.exit_code),
                written,
            ));
        }
    }
    r
}

/// What a refused acquisition returns: granting it could deadlock.
pub const EDEADLK: isize = -0xDEAD;

/// Whether the deadlock gate of process `pcb` lets thread `tid` ask for
/// mutex `id`.
pub open spec fn mutex_grant(pcb: ProcessControlBlock, tid: int, id: int) -> bool {
    let list = pcb.inner.mutex_list@;
    let n = pcb.inner.tasks@.len() as int;
    !pcb.inner.detect_enabled || is_safe(mutex_available(list), mutex_allocation(list, n), mutex_need(list, n, tid, id))
}

/// Whether the deadlock gate of process `pcb` lets thread `tid` ask for a
/// unit of semaphore `id`.
pub open spec fn sem_grant(pcb: ProcessControlBlock, tid: int, id: int) -> bool {
    let list = pcb.inner.semaphore_list@;
    let n = pcb.inner.tasks@.len() as int;
    !pcb.inner.detect_enabled || is_safe(sem_available(list), sem_allocation(list, n), sem_need(list, n, tid, id))
}

/// The running thread locks mutex `mutex_id` of its process. When the
/// deadlock gate refuses, returns `EDEADLK` with nothing changed. Otherwise
/// returns 0 after taking the lock, or after queueing on it and blocking,
/// in which case the next thread is dispatched.
pub fn sys_mutex_lock(k: &mut Kernel, mutex_id: usize) -> (r: isize)
    requires
        old(k).wf(),
        old(k).current is Some,
        ({
            let list = proc_of(old(k).procs@, old(k).current->Some_0.pid as int).inner.mutex_list@;
            &&& mutex_id < list.len()
            &&& list[mutex_id as int] is Some
            &&& mutex_counts_fit(list)
            &&& forall|j: int| 0 <= j < list.len() ==> match #[trigger] list[j] {
                Some(m) => m.wf(),
                None => true,
            }
        }),
    ensures
        final(k).wf(),
        ({
            let t = old(k).current->Some_0;
            let p = t.pid as int;
            let list = proc_of(old(k).procs@, p).inner.mutex_list@;
            let m0 = list[mutex_id as int]->Some_0;
            let m1 = proc_of(final(k).procs@, p).inner.mutex_list@[mutex_id as int]->Some_0;
            &&& (r == EDEADLK <==> !mutex_grant(proc_of(old(k).procs@, p), t.tid as int, mutex_id as int))
            &&& r == EDEADLK ==> final(k).procs@ == old(k).procs@ && final(k).current == old(k).current
                && final(k).manager == old(k).manager
            &&& r != EDEADLK ==> {
                &&& r == 0
                &&& proc_of(final(k).procs@, p).inner.mutex_list@ == list.update(mutex_id as int, Some(m1))
                &&& lock_outcome(m0, m1, t.tid, m0.locked)
                &&& !m0.locked ==> final(k).current == old(k).current
                &&& m0.locked ==> tcb_of(final(k).procs@, t).task_status == TaskStatus::Blocked
                    && final(k).current != Some(t)
            }
        }),
{
    let t = k.current.unwrap();
    let p = t.pid;
    if !k.procs[p].as_ref().unwrap().detect_mutex(t.tid, mutex_id) {
        return EDEADLK;
    }
    let ghost before = k.procs@;
    let mut pcb = k.take_proc(p);
    let blocked = pcb.lock_mutex(mutex_id, t.tid);
    proof {
        lemma_same_shape_keeps(before, p as int, pcb);
    }
    k.replace_proc(p, pcb);
    proof {
        assert(k.procs@ =~= before.update(p as int, Some(pcb)));
    }
    if blocked {
        k.block_current_and_run_next();
    }
    0
}

/// The running thread unlocks mutex `mutex_id` of its process. The first
/// waiter, if any, gets the lock and, while it exists, is made ready.
/// Returns 0.
pub fn sys_mutex_unlock(k: &mut Kernel, mutex_id: usize) -> (r: isize)
    requires
        old(k).wf(),
        old(k).current is Some,
        ({
            let list = proc_of(old(k).procs@, old(k).current->Some_0.pid as int).inner.mutex_list@;
            &&& mutex_id < list.len()
            &&& list[mutex_id as int] matches Some(m) && m.wf() && m.locked
        }),
    ensures
        r == 0,
        final(k).wf(),
        final(k).current == old(k).current,
        ({
            let p = old(k).current->Some_0.pid as int;
            let list = proc_of(old(k).procs@, p).inner.mutex_list@;
            let m1 = proc_of(final(k).procs@, p).inner.mutex_list@[mutex_id as int]->Some_0;
            exists|woken: Option<usize>| {
                &&& unlock_outcome(list[mutex_id as int]->Some_0, m1, woken)
                &&& proc_of(final(k).procs@, p).inner.mutex_list@ == list.update(mutex_id as int, Some(m1))
                &&& match woken {
                    Some(w) if old(k).wakeable(TaskRef { pid: p as usize, tid: w }) =>
                        final(k).manager.ready_queue@ == old(k).manager.ready_queue@.push(
                            old(k).entry_of(TaskRef { pid: p as usize, tid: w }),
                        ),
                    _ => final(k).manager.ready_queue@ == old(k).manager.ready_queue@,
                }
            }
        }),
{
    let t = k.current.unwrap();
    let p = t.pid;
    let ghost before = k.procs@;
    let mut pcb = k.take_proc(p);
    let woken = pcb.unlock_mutex(mutex_id);
    proof {
        lemma_same_shape_keeps(before, p as int, pcb);
    }
    k.replace_proc(p, pcb);
    proof {
        assert(k.procs@ =~= before.update(p as int, Some(pcb)));
    }
    wake_if_live(k, p, woken);
    0
}

/// Makes thread `woken` of process `p` ready, when it names a thread that
/// still exists and is neither running nor ready already.
fn wake_if_live(k: &mut Kernel, p: usize, woken: Option<usize>)
    requires
        old(k).wf(),
        live(old(k).procs@, p as int),
    ensures
        final(k).wf(),
        final(k).current == old(k).current,
        same_but_tasks(old(k).procs@, final(k).procs@),
        match woken {
            Some(w) if old(k).wakeable(TaskRef { pid: p, tid: w }) =>
                final(k).manager.ready_queue@ == old(k).manager.ready_queue@.push(
                    old(k).entry_of(TaskRef { pid: p, tid: w }),
                ),
            _ => final(k).manager.ready_queue@ == old(k).manager.ready_queue@ && final(k).procs@
                == old(k).procs@,
        },
{
    if let Some(w) = woken {
        let u = TaskRef { pid: p, tid: w };
        let pcb = k.procs[p].as_ref().unwrap();
        if !pcb.inner.is_zombie && w < pcb.inner.tasks.len() && pcb.inner.tasks[w].is_some() {
            let running = match k.current {
                Some(c) => c == u,
                None => false,
            };
            if !running && !k.is_queued(u) {
                k.wakeup_task(u);
            }
        }
    }
}

/// The running thread takes a unit of semaphore `sem_id` of its process.
/// When the deadlock gate refuses, returns `EDEADLK` with nothing changed.
/// Otherwise returns 0 after taking a unit, or after queueing and
/// blocking, in which case the next thread is dispatched.
pub fn sys_semaphore_down(k: &mut Kernel, sem_id: usize) -> (r: isize)
    requires
        old(k).wf(),
        old(k).current is Some,
        ({
            let list = proc_of(old(k).procs@, old(k).current->Some_0.pid as int).inner.semaphore_list@;
            &&& sem_id < list.len()
            &&& list[sem_id as int] matches Some(s) && s.wf() && s.inner.count > isize::MIN
            &&& sem_counts_fit(list)
        }),
    ensures
        final(k).wf(),
        ({
            let t = old(k).current->Some_0;
            let p = t.pid as int;
            let list = proc_of(old(k).procs@, p).inner.semaphore_list@;
            let s0 = list[sem_id as int]->Some_0;
            let s1 = proc_of(final(k).procs@, p).inner.semaphore_list@[sem_id as int]->Some_0;
            &&& (r == EDEADLK <==> !sem_grant(proc_of(old(k).procs@, p), t.tid as int, sem_id as int))
            &&& r == EDEADLK ==> final(k).procs@ == old(k).procs@ && final(k).current == old(k).current
                && final(k).manager == old(k).manager
            &&& r != EDEADLK ==> {
                &&& r == 0
                &&& proc_of(final(k).procs@, p).inner.semaphore_list@ == list.update(sem_id as int, Some(s1))
                &&& down_outcome(s0, s1, t.tid, s0.inner.count <= 0)
                &&& s0.inner.count > 0 ==> final(k).current == old(k).current
                &&& s0.inner.count <= 0 ==> tcb_of(final(k).procs@, t).task_status == TaskStatus::Blocked
                    && final(k).current != Some(t)
            }
        }),
{
    let t = k.current.unwrap();
    let p = t.pid;
    if !k.procs[p].as_ref().unwrap().detect_sem(t.tid, sem_id) {
        return EDEADLK;
    }
    let ghost before = k.procs@;
    let mut pcb = k.take_proc(p);
    let blocked = pcb.down_sem(sem_id, t.tid);
    proof {
        lemma_same_shape_keeps(before, p as int, pcb);
    }
    k.replace_proc(p, pcb);
    proof {
        assert(k.procs@ =~= before.update(p as int, Some(pcb)));
    }
    if blocked {
        k.block_current_and_run_next();
    }
    0
}

/// The running thread gives back a unit of semaphore `sem_id` of its
/// process. The first waiter, if any, gets it and, while it exists, is
/// made ready. Returns 0.
pub fn sys_semaphore_up(k: &mut Kernel, sem_id: usize) -> (r: isize)
    requires
        old(k).wf(),
        old(k).current is Some,
        ({
            let list = proc_of(old(k).procs@, old(k).current->Some_0.pid as int).inner.semaphore_list@;
            &&& sem_id < list.len()
            &&& list[sem_id as int] matches Some(s) && s.wf() && s.inner.count < isize::MAX
        }),
    ensures
        r == 0,
        final(k).wf(),
        final(k).current == old(k).current,
        ({
            let t = old(k).current->Some_0;
            let p = t.pid as int;
            let list = proc_of(old(k).procs@, p).inner.semaphore_list@;
            let s1 = proc_of(final(k).procs@, p).inner.semaphore_list@[sem_id as int]->Some_0;
            exists|woken: Option<usize>| {
                &&& up_outcome(list[sem_id as int]->Some_0, s1, t.tid, woken)
                &&& proc_of(final(k).procs@, p).inner.semaphore_list@ == list.update(sem_id as int, Some(s1))
                &&& match woken {
                    Some(w) if old(k).wakeable(TaskRef { pid: p as usize, tid: w }) =>
                        final(k).manager.ready_queue@ == old(k).manager.ready_queue@.push(
                            old(k).entry_of(TaskRef { pid: p as usize, tid: w }),
                        ),
                    _ => final(k).manager.ready_queue@ == old(k).manager.ready_queue@,
                }
            }
        }),
{
    let t = k.current.unwrap();
    let p = t.pid;
    let ghost before = k.procs@;
    let mut pcb = k.take_proc(p);
    let woken = pcb.up_sem(sem_id, t.tid);
    proof {
        lemma_same_shape_keeps(before, p as int, pcb);
    }
    k.replace_proc(p, pcb);
    proof {
        assert(k.procs@ =~= before.update(p as int, Some(pcb)));
    }
    wake_if_live(k, p, woken);
    0
}

} // verus!

use kernel_task::kernel::{Kernel, INIT_PID};
use kernel_task::manager::{TaskRef, BIG_STRIDE};
use kernel_task::mm::{MemorySet, PERM_R, PERM_U, PERM_X};
use kernel_task::process::{FileHandle, LoadedImage, ProcessControlBlock, USER_STACK_SIZE};
use kernel_task::syscall::{
    sys_exec, sys_exit, sys_fork, sys_getpid, sys_sbrk, sys_set_priority, sys_spawn, sys_waitpid,
    sys_yield,
};
use kernel_task::task::{TaskStatus, DEFAULT_PRIORITY};

const STACK: usize = 0x20_0000;

fn image(token: usize, stack: usize) -> LoadedImage {
    let mut ms = MemorySet::new_bare(token);
    ms.insert_framed_area(0x10_0000, 0x10_2000, PERM_R + PERM_X + PERM_U);
    LoadedImage { memory_set: ms, ustack_base: stack, entry_point: 0x10_0000 }
}

fn running(k: &Kernel) -> TaskRef {
    k.current.unwrap()
}

fn booted() -> Kernel {
    let mut k = Kernel::new(image(100, STACK));
    assert_eq!(k.schedule(), Some(TaskRef { pid: INIT_PID, tid: 0 }));
    k
}

fn read_u32(k: &Kernel, pid: usize, va: usize) -> u32 {
    let ms = &k.procs[pid].as_ref().unwrap().inner.memory_set;
    let mut v = 0u32;
    for i in 0..4 {
        v |= (ms.read_byte(va + i).unwrap() as u32) << (8 * i);
    }
    v
}

#[test]
fn new_kernel_runs_init_first() {
    let mut k = Kernel::new(image(100, STACK));
    assert_eq!(k.manager.ready_queue.len(), 1);
    assert_eq!(k.current, None);
    assert_eq!(k.schedule(), Some(TaskRef { pid: 0, tid: 0 }));
    let t = k.procs[0].as_ref().unwrap().inner.get_task(0);
    assert_eq!(t.task_status, TaskStatus::Running);
    assert_eq!(t.stride, BIG_STRIDE / DEFAULT_PRIORITY);
    assert_eq!(sys_getpid(&k), 0);
    assert!(k.manager.ready_queue.is_empty());
}

#[test]
fn fork_copies_the_caller() {
    let mut k = booted();
    let child = sys_fork(&mut k);
    assert_eq!(child, 1);
    let parent = k.procs[0].as_ref().unwrap();
    let c = k.procs[1].as_ref().unwrap();
    assert_eq!(parent.inner.children, vec![1]);
    assert_eq!(c.inner.parent, Some(0));
    assert_eq!(c.getpid(), 1);
    assert_eq!(c.inner.fd_table, parent.inner.fd_table);
    assert_eq!(c.inner.thread_count(), 1);
    let ct = c.inner.get_task(0);
    let pt = parent.inner.get_task(0);
    assert_eq!(ct.trap_cx.a0, 0);
    assert_eq!(ct.trap_cx.sepc, pt.trap_cx.sepc);
    assert_eq!(ct.task_status, TaskStatus::Ready);
    assert_eq!(c.inner.get_user_token(), 1);
    assert_eq!(k.manager.ready_queue.len(), 1);
    assert_eq!(k.manager.ready_queue[0].task, TaskRef { pid: 1, tid: 0 });
    assert_eq!(running(&k), TaskRef { pid: 0, tid: 0 });
}

#[test]
fn fork_gives_an_independent_copy_of_memory() {
    let mut k = booted();
    k.procs[0].as_mut().unwrap().inner.memory_set.write_bytes(STACK, &vec![7, 8, 9]);
    assert_eq!(sys_fork(&mut k), 1);
    {
        let p = &k.procs[0].as_ref().unwrap().inner.memory_set;
        let c = &k.procs[1].as_ref().unwrap().inner.memory_set;
        assert_eq!(p.areas.len(), c.areas.len());
        for (a, b) in p.areas.iter().zip(c.areas.iter()) {
            assert_eq!(a.start_vpn, b.start_vpn);
            assert_eq!(a.end_vpn, b.end_vpn);
            assert_eq!(a.data, b.data);
        }
        assert_eq!(c.read_byte(STACK + 1), Some(8));
    }
    // writes after the fork stay in the writer's address space
    assert!(k.procs[0].as_mut().unwrap().inner.memory_set.write_bytes(STACK, &vec![1]));
    assert!(k.procs[1].as_mut().unwrap().inner.memory_set.write_bytes(STACK + 2, &vec![5]));
    let p = &k.procs[0].as_ref().unwrap().inner.memory_set;
    let c = &k.procs[1].as_ref().unwrap().inner.memory_set;
    assert_eq!(p.read_byte(STACK), Some(1));
    assert_eq!(c.read_byte(STACK), Some(7));
    assert_eq!(p.read_byte(STACK + 2), Some(9));
    assert_eq!(c.read_byte(STACK + 2), Some(5));
}

#[test]
fn waitpid_reaps_the_zombie_child_once() {
    let mut k = booted();
    assert_eq!(sys_fork(&mut k), 1);
    assert_eq!(sys_fork(&mut k), 2);
    assert_eq!(sys_yield(&mut k), 0);
    assert_eq!(running(&k).pid, 1);
    assert_eq!(sys_exit(&mut k, 3), Some(TaskRef { pid: 2, tid: 0 }));
    assert!(k.procs[1].as_ref().unwrap().inner.is_zombie);
    assert_eq!(sys_yield(&mut k), 0);
    assert_eq!(running(&k).pid, 0);
    // the zombie comes back once, with its code written for the caller
    assert_eq!(sys_waitpid(&mut k, -1, STACK), 1);
    assert_eq!(read_u32(&k, 0, STACK), 3);
    assert!(k.procs[1].is_none());
    assert_eq!(k.procs[0].as_ref().unwrap().inner.children, vec![2]);
    // the live child is not ready yet
    assert_eq!(sys_waitpid(&mut k, -1, STACK), -2);
    assert_eq!(sys_waitpid(&mut k, 2, STACK), -2);
    assert_eq!(sys_waitpid(&mut k, 1, STACK), -1);
    assert_eq!(sys_waitpid(&mut k, 7, STACK), -1);
    // once it exits it can be reaped, and then nothing is left
    assert_eq!(sys_yield(&mut k), 0);
    assert_eq!(running(&k).pid, 2);
    assert_eq!(sys_exit(&mut k, -1), Some(TaskRef { pid: 0, tid: 0 }));
    assert_eq!(sys_waitpid(&mut k, 2, STACK), 2);
    assert_eq!(read_u32(&k, 0, STACK), u32::MAX);
    assert_eq!(sys_waitpid(&mut k, -1, STACK), -1);
}

#[test]
fn freed_pid_is_reused() {
    let mut k = booted();
    assert_eq!(sys_fork(&mut k), 1);
    assert_eq!(sys_fork(&mut k), 2);
    sys_yield(&mut k);
    assert_eq!(running(&k).pid, 1);
    sys_exit(&mut k, 0);
    sys_yield(&mut k);
    assert_eq!(running(&k).pid, 0);
    assert_eq!(sys_waitpid(&mut k, 1, STACK), 1);
    assert_eq!(sys_fork(&mut k), 1);
    assert_eq!(k.procs[0].as_ref().unwrap().inner.children, vec![2, 1]);
}

#[test]
fn exit_hands_children_to_init() {
    let mut k = booted();
    assert_eq!(sys_fork(&mut k), 1);
    sys_yield(&mut k);
    assert_eq!(running(&k).pid, 1);
    assert_eq!(sys_fork(&mut k), 2);
    assert_eq!(k.procs[1].as_ref().unwrap().inner.children, vec![2]);
    let next = sys_exit(&mut k, 4);
    assert!(next.is_some());
    let dead = k.procs[1].as_ref().unwrap();
    assert!(dead.inner.is_zombie);
    assert_eq!(dead.inner.exit_code, 4);
    assert!(dead.inner.children.is_empty());
    assert!(dead.inner.fd_table.is_empty());
    assert!(dead.inner.tasks.is_empty());
    assert!(dead.inner.memory_set.areas.is_empty());
    assert_eq!(k.procs[2].as_ref().unwrap().inner.parent, Some(0));
    assert_eq!(k.procs[0].as_ref().unwrap().inner.children, vec![1, 2]);
    assert!(k.manager.ready_queue.iter().all(|e| e.task.pid != 1));
}

#[test]
fn exec_lays_out_arguments_on_the_new_stack() {
    let mut k = booted();
    let base = 0x30_0000;
    let args = vec![b"ab".to_vec(), b"c".to_vec()];
    assert_eq!(sys_exec(&mut k, Some(image(55, base)), &args), 0);
    let p = k.procs[0].as_ref().unwrap();
    assert_eq!(p.inner.get_user_token(), 55);
    let t = p.inner.get_task(0);
    let top = base + USER_STACK_SIZE;
    let argv_base = top - 3 * 8;
    assert_eq!(t.trap_cx.sepc, 0x10_0000);
    assert_eq!(t.trap_cx.a0, 2);
    assert_eq!(t.trap_cx.a1, argv_base);
    let s0 = argv_base - 3;
    let s1 = s0 - 2;
    assert_eq!(t.trap_cx.sp, s1 - s1 % 8);
    assert_eq!(t.trap_cx.sp % 8, 0);
    let ms = &p.inner.memory_set;
    let word = |va: usize| -> usize {
        (0..8).map(|i| (ms.read_byte(va + i).unwrap() as usize) << (8 * i)).sum()
    };
    assert_eq!(word(argv_base), s0);
    assert_eq!(word(argv_base + 8), s1);
    assert_eq!(word(argv_base + 16), 0);
    assert_eq!(ms.read_byte(s0), Some(b'a'));
    assert_eq!(ms.read_byte(s0 + 1), Some(b'b'));
    assert_eq!(ms.read_byte(s0 + 2), Some(0));
    assert_eq!(ms.read_byte(s1), Some(b'c'));
    assert_eq!(ms.read_byte(s1 + 1), Some(0));
    // the old program's stack is gone
    assert_eq!(ms.read_byte(STACK), None);
}

#[test]
fn exec_fails_without_an_image_or_room_for_arguments() {
    let mut k = booted();
    assert_eq!(sys_exec(&mut k, None, &vec![]), -1);
    let big = vec![vec![b'x'; USER_STACK_SIZE]];
    assert_eq!(sys_exec(&mut k, Some(image(55, 0x30_0000)), &big), -1);
    assert_eq!(k.procs[0].as_ref().unwrap().inner.get_user_token(), 100);
    assert_eq!(sys_exec(&mut k, Some(image(55, 0x30_0000)), &vec![]), 0);
    let t = k.procs[0].as_ref().unwrap().inner.get_task(0);
    assert_eq!(t.trap_cx.a0, 0);
    assert_eq!(t.trap_cx.a1, 0x30_0000 + USER_STACK_SIZE - 8);
}

#[test]
fn spawn_starts_a_fresh_child() {
    let mut k = booted();
    assert_eq!(sys_spawn(&mut k, None), -1);
    assert!(k.manager.ready_queue.is_empty());
    assert_eq!(sys_spawn(&mut k, Some(image(9, 0x40_0000))), 1);
    let c = k.procs[1].as_ref().unwrap();
    assert_eq!(c.inner.parent, Some(0));
    assert_eq!(c.inner.get_user_token(), 9);
    let t = c.inner.get_task(0);
    assert_eq!(t.stride, 0);
    assert_eq!(t.trap_cx.sp, 0x40_0000 + USER_STACK_SIZE);
    assert_eq!(k.procs[0].as_ref().unwrap().inner.children, vec![1]);
    assert_eq!(k.manager.ready_queue[0].task, TaskRef { pid: 1, tid: 0 });
}

#[test]
fn set_priority_checks_and_sets_the_pass() {
    let mut k = booted();
    assert_eq!(sys_set_priority(&mut k, 1), -1);
    assert_eq!(sys_set_priority(&mut k, -3), -1);
    assert_eq!(k.procs[0].as_ref().unwrap().inner.get_task(0).pass, BIG_STRIDE / DEFAULT_PRIORITY);
    assert_eq!(sys_set_priority(&mut k, 10), 10);
    assert_eq!(k.procs[0].as_ref().unwrap().inner.get_task(0).pass, BIG_STRIDE / 10);
    assert_eq!(sys_set_priority(&mut k, 2), 2);
    assert_eq!(k.procs[0].as_ref().unwrap().inner.get_task(0).pass, BIG_STRIDE / 2);
}

#[test]
fn higher_priority_child_runs_more_often() {
    let mut k = booted();
    assert_eq!(sys_fork(&mut k), 1);
    assert_eq!(sys_set_priority(&mut k, 2), 2);
    let mut counts = [0usize; 2];
    sys_yield(&mut k);
    for _ in 0..300 {
        let t = running(&k);
        if t.pid == 1 && k.procs[1].as_ref().unwrap().inner.get_task(0).pass != BIG_STRIDE / 8 {
            assert_eq!(sys_set_priority(&mut k, 8), 8);
        }
        counts[t.pid] += 1;
        sys_yield(&mut k);
    }
    // priority 8 against 2: four dispatches to one
    assert!(counts[1] + 8 >= 4 * counts[0] && counts[1] <= 4 * counts[0] + 8);
}

#[test]
fn sbrk_moves_the_heap_end() {
    let mut k = booted();
    let bottom = STACK + USER_STACK_SIZE;
    assert_eq!(sys_sbrk(&mut k, 4096), bottom as isize);
    assert_eq!(sys_sbrk(&mut k, 0), (bottom + 4096) as isize);
    assert_eq!(sys_sbrk(&mut k, -8192), -1);
    assert_eq!(sys_sbrk(&mut k, -4096), (bottom + 4096) as isize);
    assert_eq!(sys_sbrk(&mut k, 0), bottom as isize);
}

#[test]
fn blocked_thread_runs_again_after_wakeup() {
    let mut k = booted();
    assert_eq!(sys_fork(&mut k), 1);
    let init = running(&k);
    assert_eq!(k.block_current_and_run_next(), Some(TaskRef { pid: 1, tid: 0 }));
    assert_eq!(k.procs[0].as_ref().unwrap().inner.get_task(0).task_status, TaskStatus::Blocked);
    assert!(k.manager.ready_queue.is_empty());
    k.wakeup_task(init);
    assert_eq!(k.procs[0].as_ref().unwrap().inner.get_task(0).task_status, TaskStatus::Ready);
    assert_eq!(k.suspend_current_and_run_next(), Some(init));
}

#[test]
fn process_tables_allocate_first_free_slots() {
    let mut p = ProcessControlBlock::build(3, image(1, STACK));
    assert_eq!(p.getpid(), 3);
    let inner = p.inner_exclusive_access();
    assert_eq!(inner.fd_table, vec![Some(FileHandle { id: 0 }), Some(FileHandle { id: 1 }), Some(FileHandle { id: 1 })]);
    assert_eq!(inner.alloc_fd(), 3);
    assert_eq!(inner.fd_table.len(), 4);
    inner.fd_table[1] = None;
    assert_eq!(inner.alloc_fd(), 1);
    assert_eq!(inner.fd_table.len(), 4);
    // thread ids: 0 is the main thread's
    assert_eq!(inner.alloc_tid(), 1);
    assert_eq!(inner.alloc_tid(), 2);
    inner.dealloc_tid(1);
    assert_eq!(inner.alloc_tid(), 1);
    assert_eq!(inner.alloc_tid(), 3);
    assert_eq!(inner.thread_count(), 1);
}

#[test]
fn new_process_takes_a_free_pid_and_is_queued() {
    let mut k = booted();
    let pid = ProcessControlBlock::new(&mut k, image(7, 0x40_0000));
    assert_eq!(pid, 1);
    let p = k.procs[1].as_ref().unwrap();
    assert_eq!(p.getpid(), 1);
    assert_eq!(p.inner.parent, None);
    assert!(p.inner.children.is_empty());
    assert!(p.inner.mutex_list.is_empty() && p.inner.semaphore_list.is_empty());
    assert_eq!(p.inner.get_task(0).task_status, TaskStatus::Ready);
    assert_eq!(k.manager.ready_queue.len(), 1);
    assert_eq!(k.manager.ready_queue[0].task, TaskRef { pid: 1, tid: 0 });
    assert_eq!(k.manager.ready_queue[0].stride, 0);
    assert_eq!(ProcessControlBlock::new(&mut k, image(8, 0x40_0000)), 2);
}

#[test]
fn fork_of_a_process_lists_and_queues_the_child() {
    let mut k = booted();
    let c = ProcessControlBlock::fork(&mut k, 0);
    assert_eq!(c, 1);
    assert_eq!(k.procs[0].as_ref().unwrap().inner.children, vec![1]);
    let child = k.procs[1].as_ref().unwrap();
    assert_eq!(child.inner.parent, Some(0));
    assert_eq!(child.inner.get_user_token(), 1);
    assert_eq!(child.inner.get_task(0).trap_cx.a0, 0);
    assert_eq!(k.manager.ready_queue[0].task, TaskRef { pid: 1, tid: 0 });
    assert_eq!(k.current, Some(TaskRef { pid: 0, tid: 0 }));
}

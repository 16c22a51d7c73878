use kernel_task::kernel::Kernel;
use kernel_task::manager::TaskRef;
use kernel_task::mm::{MemorySet, PERM_R, PERM_U, PERM_X};
use kernel_task::mutex::MutexBlocking;
use kernel_task::process::LoadedImage;
use kernel_task::semaphore::Semaphore;
use kernel_task::syscall::{
    sys_get_time, sys_mutex_lock, sys_mutex_unlock, sys_semaphore_down, sys_semaphore_up,
    sys_task_info, sys_yield, EDEADLK,
};
use kernel_task::task::{TaskControlBlock, TaskStatus};

const T0: TaskRef = TaskRef { pid: 0, tid: 0 };
const T1: TaskRef = TaskRef { pid: 0, tid: 1 };

/// Init running with a second thread ready and two mutexes and two
/// semaphores of one unit each.
fn two_threads(detect: bool) -> Kernel {
    let mut ms = MemorySet::new_bare(100);
    ms.insert_framed_area(0x10_0000, 0x10_2000, PERM_R + PERM_X + PERM_U);
    let img = LoadedImage { memory_set: ms, ustack_base: 0x20_0000, entry_point: 0x10_0000 };
    let mut k = Kernel::new(img);
    assert_eq!(k.schedule(), Some(T0));
    {
        let p = k.procs[0].as_mut().unwrap();
        p.inner.tasks.push(Some(TaskControlBlock::new(1, 0x20_0000, 0x10_0000, 0)));
        p.inner.mutex_list.push(Some(MutexBlocking::new()));
        p.inner.mutex_list.push(Some(MutexBlocking::new()));
        p.inner.semaphore_list.push(Some(Semaphore::new(1)));
        p.inner.semaphore_list.push(Some(Semaphore::new(1)));
        p.set_enabled(if detect { 1 } else { 0 });
    }
    k.wakeup_task(T1);
    k
}

#[test]
fn gate_refuses_the_second_crossed_mutex_request() {
    let mut k = two_threads(true);
    assert_eq!(sys_mutex_lock(&mut k, 0), 0);
    sys_yield(&mut k);
    assert_eq!(k.current, Some(T1));
    assert_eq!(sys_mutex_lock(&mut k, 1), 0);
    // thread 1 asks for mutex 0: thread 0 can still finish, so it waits
    assert_eq!(sys_mutex_lock(&mut k, 0), 0);
    assert_eq!(k.current, Some(T0));
    assert_eq!(k.procs[0].as_ref().unwrap().inner.get_task(1).task_status, TaskStatus::Blocked);
    // thread 0 asking for mutex 1 would close the cycle: refused, not blocked
    assert_eq!(sys_mutex_lock(&mut k, 1), EDEADLK);
    assert_eq!(k.current, Some(T0));
    let m1 = k.procs[0].as_ref().unwrap().inner.mutex_list[1].as_ref().unwrap();
    assert!(m1.wait_queue.is_empty());
    // releasing mutex 0 hands it to thread 1
    assert_eq!(sys_mutex_unlock(&mut k, 0), 0);
    let m0 = k.procs[0].as_ref().unwrap().inner.mutex_list[0].as_ref().unwrap();
    assert_eq!(m0.owner, Some(1));
    assert_eq!(k.manager.ready_queue.last().unwrap().task, T1);
}

#[test]
fn without_the_gate_crossed_mutex_requests_deadlock() {
    let mut k = two_threads(false);
    assert_eq!(sys_mutex_lock(&mut k, 0), 0);
    sys_yield(&mut k);
    assert_eq!(sys_mutex_lock(&mut k, 1), 0);
    assert_eq!(sys_mutex_lock(&mut k, 0), 0);
    assert_eq!(k.current, Some(T0));
    // both threads now wait on each other and nothing is left to run
    assert_eq!(sys_mutex_lock(&mut k, 1), 0);
    assert_eq!(k.current, None);
    assert!(k.manager.ready_queue.is_empty());
}

#[test]
fn semaphore_down_blocks_and_up_wakes() {
    let mut k = two_threads(true);
    assert_eq!(sys_semaphore_down(&mut k, 0), 0);
    assert_eq!(k.current, Some(T0));
    sys_yield(&mut k);
    assert_eq!(k.current, Some(T1));
    assert_eq!(sys_semaphore_down(&mut k, 0), 0);
    assert_eq!(k.current, Some(T0));
    assert_eq!(sys_semaphore_up(&mut k, 0), 0);
    let s = k.procs[0].as_ref().unwrap().inner.semaphore_list[0].as_ref().unwrap();
    assert_eq!(s.inner.get_queue, vec![1]);
    assert_eq!(s.inner.count, 0);
    assert_eq!(k.manager.ready_queue.last().unwrap().task, T1);
}

#[test]
fn semaphore_gate_refuses_a_cycle() {
    let mut k = two_threads(true);
    assert_eq!(sys_semaphore_down(&mut k, 0), 0);
    sys_yield(&mut k);
    assert_eq!(sys_semaphore_down(&mut k, 1), 0);
    assert_eq!(sys_semaphore_down(&mut k, 0), 0);
    assert_eq!(k.current, Some(T0));
    assert_eq!(sys_semaphore_down(&mut k, 1), EDEADLK);
    assert_eq!(k.current, Some(T0));
}

#[test]
fn time_splits_into_seconds_and_microseconds() {
    let t = sys_get_time(3_000_042);
    assert_eq!((t.sec, t.usec), (3, 42));
    let t = sys_get_time(999_999);
    assert_eq!((t.sec, t.usec), (0, 999_999));
}

#[test]
fn task_info_counts_calls_and_time() {
    let mut k = two_threads(false);
    k.update_info_starttime(1000);
    k.update_info_starttime(2000);
    assert_eq!(k.get_info_starttime(), 1000);
    k.update_info_syscall(64);
    k.update_info_syscall(64);
    k.update_info_syscall(410);
    let info = sys_task_info(&k, 1500);
    assert_eq!(info.status, TaskStatus::Running);
    assert_eq!(info.time, 500);
    assert_eq!(info.syscall_times[64], 2);
    assert_eq!(info.syscall_times[410], 1);
    assert_eq!(info.syscall_times[0], 0);
    assert_eq!(k.get_info_syscall()[64], 2);
    assert_eq!(sys_task_info(&k, 10).time, 0);
}

use kernel_task::deadlock::is_safe_state;
use kernel_task::mm::{MemorySet, PERM_R, PERM_U, PERM_X};
use kernel_task::mutex::MutexBlocking;
use kernel_task::process::{LoadedImage, ProcessControlBlock};
use kernel_task::semaphore::Semaphore;
use kernel_task::task::TaskControlBlock;

fn image() -> LoadedImage {
    let mut ms = MemorySet::new_bare(1);
    ms.insert_framed_area(0x10_0000, 0x10_2000, PERM_R + PERM_X + PERM_U);
    LoadedImage { memory_set: ms, ustack_base: 0x20_0000, entry_point: 0x10_0000 }
}

/// A process with `n` threads and deadlock detection as given.
fn process(n: usize, enabled: bool) -> ProcessControlBlock {
    let mut p = ProcessControlBlock::build(1, image());
    for tid in 1..n {
        p.inner.tasks.push(Some(TaskControlBlock::new(tid, 0x20_0000, 0x10_0000, 0)));
    }
    assert_eq!(p.set_enabled(if enabled { 1 } else { 0 }), 1);
    p
}

#[test]
fn textbook_state_is_safe() {
    // five threads, three resources
    let available = vec![3, 3, 2];
    let allocation = vec![vec![0, 1, 0], vec![2, 0, 0], vec![3, 0, 2], vec![2, 1, 1], vec![0, 0, 2]];
    let need = vec![vec![7, 4, 3], vec![1, 2, 2], vec![6, 0, 0], vec![0, 1, 1], vec![4, 3, 1]];
    assert!(is_safe_state(&available, &allocation, &need));
}

#[test]
fn textbook_state_turns_unsafe_when_a_request_is_added() {
    let available = vec![2, 3, 0];
    let allocation = vec![vec![0, 1, 0], vec![3, 0, 2], vec![3, 0, 2], vec![2, 1, 1], vec![0, 0, 2]];
    let need = vec![vec![7, 4, 3], vec![0, 2, 0], vec![6, 0, 0], vec![0, 1, 1], vec![4, 3, 1]];
    assert!(is_safe_state(&available, &allocation, &need));
    let need = vec![vec![7, 4, 3], vec![0, 2, 0], vec![6, 0, 0], vec![0, 1, 1], vec![4, 3, 3]];
    assert!(is_safe_state(&available, &allocation, &need));
    let available = vec![0, 0, 0];
    assert!(!is_safe_state(&available, &allocation, &need));
}

#[test]
fn no_threads_is_safe() {
    assert!(is_safe_state(&vec![1, 2], &vec![], &vec![]));
    assert!(is_safe_state(&vec![], &vec![vec![], vec![]], &vec![vec![], vec![]]));
}

#[test]
fn crossed_mutex_requests_are_refused_with_detection() {
    let mut p = process(2, true);
    p.inner.mutex_list.push(Some(MutexBlocking::new()));
    p.inner.mutex_list.push(Some(MutexBlocking::new()));
    // thread 0 takes mutex 0, thread 1 takes mutex 1
    assert!(p.detect_mutex(0, 0));
    assert!(!p.inner.mutex_list[0].as_mut().unwrap().lock(0));
    assert!(p.detect_mutex(1, 1));
    assert!(!p.inner.mutex_list[1].as_mut().unwrap().lock(1));
    // thread 0 asks for mutex 1: thread 1 can still finish, so it is granted and blocks
    assert!(p.detect_mutex(0, 1));
    assert!(p.inner.mutex_list[1].as_mut().unwrap().lock(0));
    // thread 1 asks for mutex 0: a cycle, refused without blocking
    assert!(!p.detect_mutex(1, 0));
    assert_eq!(p.inner.mutex_list[0].as_ref().unwrap().wait_queue.len(), 0);
}

#[test]
fn crossed_mutex_requests_pass_without_detection() {
    let mut p = process(2, false);
    p.inner.mutex_list.push(Some(MutexBlocking::new()));
    p.inner.mutex_list.push(Some(MutexBlocking::new()));
    assert!(!p.inner.mutex_list[0].as_mut().unwrap().lock(0));
    assert!(!p.inner.mutex_list[1].as_mut().unwrap().lock(1));
    assert!(p.detect_mutex(0, 1));
    assert!(p.inner.mutex_list[1].as_mut().unwrap().lock(0));
    assert!(p.detect_mutex(1, 0));
}

#[test]
fn semaphore_request_refused_when_no_order_finishes() {
    let mut p = process(3, true);
    p.inner.semaphore_list.push(Some(Semaphore::new(1)));
    p.inner.semaphore_list.push(Some(Semaphore::new(1)));
    // thread 1 holds a unit of 0, thread 2 holds a unit of 1
    assert!(p.detect_sem(1, 0));
    assert!(!p.inner.semaphore_list[0].as_mut().unwrap().down(1));
    assert!(p.detect_sem(2, 1));
    assert!(!p.inner.semaphore_list[1].as_mut().unwrap().down(2));
    // thread 1 waits for 1: thread 2 can finish first
    assert!(p.detect_sem(1, 1));
    assert!(p.inner.semaphore_list[1].as_mut().unwrap().down(1));
    // thread 2 asking for 0 closes the cycle
    assert!(!p.detect_sem(2, 0));
    // thread 0, holding nothing, may still wait for 0
    assert!(p.detect_sem(0, 0));
}

#[test]
fn semaphore_gate_counts_free_units() {
    let mut p = process(2, true);
    p.inner.semaphore_list.push(Some(Semaphore::new(2)));
    assert!(!p.inner.semaphore_list[0].as_mut().unwrap().down(0));
    assert!(p.detect_sem(1, 0));
    assert!(!p.inner.semaphore_list[0].as_mut().unwrap().down(1));
    // both units held; thread 0 asking for a second one waits on thread 1, which can finish
    assert!(p.detect_sem(0, 0));
}

#[test]
fn detection_switch_returns_one() {
    let mut p = process(1, false);
    assert_eq!(p.set_enabled(1), 1);
    assert!(p.inner.detect_enabled);
    assert_eq!(p.set_enabled(0), 1);
    assert!(!p.inner.detect_enabled);
}

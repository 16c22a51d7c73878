use kernel_task::mutex::{Condvar, MutexBlocking};
use kernel_task::semaphore::Semaphore;

fn held_plus_free(s: &Semaphore) -> isize {
    s.inner.get_queue.len() as isize + s.get_remain()
}

#[test]
fn new_semaphore_has_all_units_free() {
    let s = Semaphore::new(3);
    assert_eq!(s.get_origin(), 3);
    assert_eq!(s.get_remain(), 3);
    assert_eq!(s.get_alloc(), 0);
    assert!(s.inner.wait_queue.is_empty());
}

#[test]
fn up_then_down_on_fresh_semaphore_does_not_block() {
    let mut s = Semaphore::new(1);
    assert_eq!(s.up(0), None);
    assert!(!s.down(0));
    assert_eq!(s.inner.count, 1);
}

#[test]
fn down_on_empty_semaphore_blocks_until_up() {
    let mut s = Semaphore::new(0);
    assert!(s.down(4));
    assert_eq!(s.inner.count, -1);
    assert_eq!(s.inner.wait_queue.iter().copied().collect::<Vec<_>>(), vec![4]);
    // the matching up wakes the waiter, which now holds the unit
    assert_eq!(s.up(7), Some(4));
    assert_eq!(s.inner.count, 0);
    assert_eq!(s.inner.get_queue, vec![4]);
}

#[test]
fn waiters_wake_in_fifo_order() {
    let mut s = Semaphore::new(1);
    assert!(!s.down(1));
    assert!(s.down(2));
    assert!(s.down(3));
    assert_eq!(s.up(1), Some(2));
    assert_eq!(s.up(2), Some(3));
    assert_eq!(s.up(3), None);
    assert_eq!(s.get_remain(), 1);
}

#[test]
fn held_plus_available_equals_origin_through_a_run() {
    let mut s = Semaphore::new(2);
    assert_eq!(held_plus_free(&s), 2);
    assert!(!s.down(1));
    assert_eq!(held_plus_free(&s), 2);
    assert!(!s.down(2));
    assert_eq!(held_plus_free(&s), 2);
    assert!(s.down(3));
    assert_eq!(held_plus_free(&s), 2);
    assert_eq!(s.get_alloc(), 2);
    assert_eq!(s.up(1), Some(3));
    assert_eq!(held_plus_free(&s), 2);
    assert_eq!(s.up(2), None);
    assert_eq!(held_plus_free(&s), 2);
    assert_eq!(s.up(3), None);
    assert_eq!(held_plus_free(&s), 2);
    assert_eq!(s.get_remain(), 2);
    assert_eq!(s.get_alloc(), 0);
}

#[test]
fn up_by_a_thread_holding_nothing_leaves_the_holders() {
    let mut s = Semaphore::new(1);
    assert!(!s.down(5));
    assert_eq!(s.up(9), None);
    assert_eq!(s.inner.get_queue, vec![5]);
    assert_eq!(s.get_remain(), 1);
}

#[test]
fn remove_first_drops_only_the_first_occurrence() {
    let mut s = Semaphore::new(3);
    assert!(!s.down(2));
    assert!(!s.down(1));
    assert!(!s.down(2));
    assert_eq!(s.up(2), None);
    assert_eq!(s.inner.get_queue, vec![1, 2]);
}

#[test]
fn mutex_hands_over_to_first_waiter() {
    let mut m = MutexBlocking::new();
    assert!(!m.lock(1));
    assert_eq!(m.owner, Some(1));
    assert!(m.lock(2));
    assert!(m.lock(3));
    assert_eq!(m.unlock(), Some(2));
    assert_eq!(m.owner, Some(2));
    assert!(m.locked);
    assert_eq!(m.unlock(), Some(3));
    assert_eq!(m.unlock(), None);
    assert!(!m.locked);
    assert_eq!(m.owner, None);
}

#[test]
fn condvar_wait_releases_the_lock_and_notify_wakes_in_order() {
    let mut m = MutexBlocking::new();
    let mut c = Condvar::new();
    assert!(!m.lock(1));
    assert!(m.lock(2));
    // thread 1 sleeps on the condition; the lock goes to thread 2
    assert_eq!(c.wait(&mut m, 1), Some(2));
    assert_eq!(m.owner, Some(2));
    assert_eq!(c.wait(&mut m, 2), None);
    assert!(!m.locked);
    assert_eq!(c.notify_one(), Some(1));
    assert_eq!(c.notify_all(), vec![2]);
    assert_eq!(c.notify_one(), None);
    assert_eq!(c.notify_all(), Vec::<usize>::new());
}

use kernel_task::manager::{stride_less, ReadyTask, TaskManager, TaskRef, BIG_STRIDE, MAX_PASS};

fn entry(pid: usize, stride: u64, pass: u64) -> ReadyTask {
    ReadyTask { task: TaskRef { pid, tid: 0 }, stride, pass }
}

#[test]
fn stride_comparison_crosses_wraparound() {
    assert!(stride_less(1, 2));
    assert!(!stride_less(2, 1));
    assert!(!stride_less(5, 5));
    // just past the wrap the counter reads small but is ahead
    assert!(stride_less(u64::MAX - 10, 3));
    assert!(!stride_less(3, u64::MAX - 10));
}

#[test]
fn fetch_takes_least_stride_first_in_queue_order_on_ties() {
    let mut m = TaskManager::new();
    m.add(entry(1, 30, 1));
    m.add(entry(2, 10, 1));
    m.add(entry(3, 10, 1));
    m.add(entry(4, 20, 1));
    assert_eq!(m.fetch().unwrap().task.pid, 2);
    assert_eq!(m.fetch().unwrap().task.pid, 3);
    assert_eq!(m.fetch().unwrap().task.pid, 4);
    assert_eq!(m.fetch().unwrap().task.pid, 1);
    assert_eq!(m.fetch(), None);
}

#[test]
fn fetch_orders_strides_across_wraparound() {
    let mut m = TaskManager::new();
    m.add(entry(1, 5, 1));
    m.add(entry(2, u64::MAX - 5, 1));
    assert_eq!(m.fetch().unwrap().task.pid, 2);
}

#[test]
fn dispatch_charges_the_pass_and_requeues_at_the_tail() {
    let mut m = TaskManager::new();
    m.add(entry(1, 0, 100));
    m.add(entry(2, 50, 10));
    assert_eq!(m.dispatch(), Some(TaskRef { pid: 1, tid: 0 }));
    assert_eq!(m.ready_queue, vec![entry(2, 50, 10), entry(1, 100, 100)]);
    let mut empty = TaskManager::new();
    assert_eq!(empty.dispatch(), None);
}

#[test]
fn dispatch_wraps_the_stride() {
    let mut m = TaskManager::new();
    m.add(entry(1, u64::MAX - 1, 5));
    m.dispatch();
    assert_eq!(m.ready_queue[0].stride, 3);
}

#[test]
fn dispatch_shares_follow_priority() {
    // priorities 2, 4 and 8 over a long run
    let passes = [BIG_STRIDE / 2, BIG_STRIDE / 4, BIG_STRIDE / 8];
    let mut m = TaskManager::new();
    for (i, p) in passes.iter().enumerate() {
        m.add(entry(i, 0, *p));
    }
    let mut counts = [0u64; 3];
    for _ in 0..700 {
        let t = m.dispatch().unwrap();
        counts[t.pid] += 1;
        // all strides stay within one largest pass of one another
        for a in &m.ready_queue {
            for b in &m.ready_queue {
                let d = a.stride.wrapping_sub(b.stride) as i64;
                assert!(d.unsigned_abs() <= MAX_PASS);
            }
        }
    }
    assert_eq!(counts.iter().sum::<u64>(), 700);
    assert_eq!(counts, [100, 200, 400]);
    for i in 0..3 {
        for j in 0..3 {
            let d = (counts[i] * passes[i]) as i64 - (counts[j] * passes[j]) as i64;
            assert!(d.unsigned_abs() <= MAX_PASS);
        }
    }
}

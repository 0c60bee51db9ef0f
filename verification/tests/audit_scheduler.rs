use kernel_sim::sched::{RunQueue, SchedulePolicy};

#[test]
fn audit_schedule_policy_negative_priority_does_not_panic() {
    let p = SchedulePolicy::with_prio(-1);
    assert!(p.weight() > 0);
}

#[test]
fn audit_runqueue_enqueue_rejects_duplicate_task() {
    let mut rq = RunQueue::new();
    rq.enqueue(1, SchedulePolicy::new());
    rq.enqueue(1, SchedulePolicy::new());

    assert_eq!(rq.len(), 1);
}

#[test]
fn audit_runqueue_preempt_enable_at_zero_does_not_underflow() {
    let mut rq = RunQueue::new();

    rq.preempt_enable();

    assert!(rq.preemptible());
}

#[test]
fn audit_runqueue_update_vruntime_overflow_does_not_panic() {
    let mut rq = RunQueue::new();
    rq.enqueue(1, SchedulePolicy::new());

    rq.update_vruntime(1, usize::MAX as u64);
    assert_eq!(rq.len(), 1);
}

#[test]
fn runqueue_enqueue_keeps_vruntime_order_and_distinct_ids() {
    let mut rq = RunQueue::new();
    let mut p = SchedulePolicy::new();
    for (id, v) in [(1usize, 30u64), (2, 10), (3, 30), (4, 20), (2, 5)] {
        p.vruntime = v;
        rq.enqueue(id, p);
    }
    let ids: Vec<usize> = rq.queue.iter().map(|e| e.0).collect();
    assert_eq!(ids, vec![2, 4, 1, 3]);
    let vs: Vec<u64> = rq.queue.iter().map(|e| e.1.vruntime).collect();
    assert_eq!(vs, vec![10, 20, 30, 30]);
}

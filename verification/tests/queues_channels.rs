use kernel_sim::channel::Channel;
use kernel_sim::consts::SIGCHLD;
use kernel_sim::file::Vfs;
use kernel_sim::memory::{cfu, ctu};
use kernel_sim::process::TaskTable;
use kernel_sim::task::ProcessGroup;
use kernel_sim::syncq::{RegEp, SyncQueue};
use kernel_sim::util::{decode_varint, encode_varint};
use kernel_sim::waitq::{FutexBucket, FutexTable, WaitQueue};

#[test]
fn audit_channel_send_after_close_is_rejected() {
    let mut channel = Channel::new(4);

    channel.close();

    assert!(!channel.send(1));
    assert_eq!(channel.depth(), 0);
}

#[test]
fn audit_channel_send_batch_after_close_is_rejected() {
    let mut channel = Channel::new(4);

    channel.close();

    assert_eq!(channel.send_batch(&[1, 2, 3]), 0);
    assert_eq!(channel.depth(), 0);
}

#[test]
fn audit_channel_send_batch_wakes_each_waiting_receiver() {
    let mut channel = Channel::new(4);
    assert_eq!(channel.recv(1), None);
    assert_eq!(channel.recv(2), None);
    assert_eq!(channel.wq.pending(), 2);

    assert_eq!(channel.send_batch(&[10, 20]), 2);
    assert_eq!(channel.wq.pending(), 0);

    assert_eq!(channel.recv(1), Some(Some(10)));
    assert_eq!(channel.recv(2), Some(Some(20)));
    channel.close();
    assert_eq!(channel.recv(1), Some(None));
}

#[test]
fn audit_syncqueue_timeout_removes_waiter() {
    let mut q = SyncQueue::new();

    q.wait_timeout(5);
    let _ = q.end_wait(5);

    assert_eq!(q.pending(), 0);
}

#[test]
fn audit_syncqueue_wait_events_removes_stale_waiters() {
    let mut queues = vec![SyncQueue::new(), SyncQueue::new()];

    assert_eq!(SyncQueue::wait_events(&mut queues, 9, None), None);
    assert_eq!(queues[0].pending(), 1);
    assert_eq!(queues[1].pending(), 1);

    queues[0].broadcast();
    assert_eq!(SyncQueue::wait_events(&mut queues, 9, Some(true)), Some(true));
    assert_eq!(queues[0].pending(), 0);
    assert_eq!(queues[1].pending(), 0);
}

#[test]
fn audit_futex_wake_one_unparks_waiter() {
    let mut futexes = FutexTable::new();

    assert!(futexes.ftx_wait(0x1000, 7, 7, 1));
    assert_eq!(futexes.ftx_wake(0x1000, 1), 1);
    assert!(futexes.table.is_empty());
}

#[test]
fn audit_futex_wake_zero_wakes_none() {
    let mut futexes = FutexTable::new();

    assert!(futexes.ftx_wait(0x2000, 3, 3, 1));
    let woken = futexes.ftx_wake(0x2000, 0);
    assert_eq!(woken, 0);
    assert_eq!(futexes.ftx_wake(0x2000, 2), 1);
}

#[test]
fn audit_waitqueue_timeout_returns_false_when_not_woken() {
    let mut wait = WaitQueue::new();

    wait.sleep_timeout(1, 0, 3);
    assert!(!wait.finish_timeout(1, 0, 3));
    assert_eq!(wait.pending_count(), 0);
}

#[test]
fn audit_waitqueue_timeout_preserves_other_same_key_waiters() {
    let mut wait = WaitQueue::new();
    wait.inner.push((7, 3, 0));

    wait.sleep_timeout(7, 0, 3);
    let _ = wait.finish_timeout(7, 0, 3);

    assert!(wait.has_waiters_for(7));
}

#[test]
fn syncqueue_signal_before_wait_is_kept_as_token() {
    let mut q = SyncQueue::new();
    q.signal();
    assert_eq!(q.pending_signal_tokens, 1);
    assert_eq!(q.park_on(4, false), Some(false));
    assert_eq!(q.pending_signal_tokens, 0);
    assert_eq!(q.park_on(4, false), None);
    assert_eq!(q.waiters, vec![4]);
    assert_eq!(q.park_on(4, true), Some(true));
    q.signal();
    assert_eq!(q.pending(), 0);
}

#[test]
fn syncqueue_signal_n_wakes_from_the_front() {
    let mut q = SyncQueue::new();
    q.wait_guard(1);
    q.wait_guard(2);
    q.wait_guard(3);
    assert_eq!(q.signal_n(2), 2);
    assert_eq!(q.waiters, vec![3]);
    assert_eq!(q.signal_n(5), 1);
    assert_eq!(q.pending(), 0);
}

#[test]
fn syncqueue_unreg_epoll_drops_first_match_only() {
    let mut q = SyncQueue::new();
    q.reg_epoll(1, 2, 3);
    q.reg_epoll(4, 5, 6);
    q.reg_epoll(1, 2, 3);
    assert!(q.unreg_epoll(1, 2, 3));
    assert_eq!(
        q.epoll_registrations,
        vec![RegEp { task_id: 4, epfd: 5, fd: 6 }, RegEp { task_id: 1, epfd: 2, fd: 3 }]
    );
    assert!(!q.unreg_epoll(9, 9, 9));
    assert_eq!(q.epoll_registrations.len(), 2);
}

#[test]
fn channel_capacity_is_clamped() {
    let small = Channel::new(0);
    assert_eq!(small.remaining_capacity(), 1);
    let big = Channel::new(usize::MAX);
    assert_eq!(big.remaining_capacity(), 1 << 20);
}

#[test]
fn channel_keeps_byte_order_and_rejects_when_full() {
    let mut channel = Channel::new(2);
    assert!(channel.send(5));
    assert!(channel.send(6));
    assert!(!channel.send(7));
    assert_eq!(channel.depth(), 2);
    assert_eq!(channel.remaining_capacity(), 0);
    assert_eq!(channel.try_recv(), Some(5));
    assert_eq!(channel.drain_all(), vec![6]);
    assert_eq!(channel.try_recv(), None);
    assert!(!channel.is_closed());
}

#[test]
fn channel_try_recv_refused_while_guard_held() {
    let mut channel = Channel::new(4);
    assert!(channel.send(1));
    channel.guard.acquire();
    assert_eq!(channel.try_recv(), None);
    assert_eq!(channel.depth(), 1);
}

#[test]
fn channel_send_batch_stores_what_fits() {
    let mut channel = Channel::new(3);
    assert_eq!(channel.send_batch(&[1, 2, 3, 4, 5]), 3);
    assert_eq!(channel.drain_all(), vec![1, 2, 3]);
}

#[test]
fn futex_bucket_wait_changed_and_timeout() {
    let mut bucket = FutexBucket::new();
    assert_eq!(bucket.wait(0x10, 1, 2, 7), Some(Err("changed")));
    assert_eq!(bucket.wait(0x10, 1, 1, 7), None);
    assert_eq!(bucket.pending_at(0x10), 1);
    assert_eq!(bucket.finish_wait(0x10, 7, false), Err("timeout"));
    assert_eq!(bucket.pending_at(0x10), 0);
    assert_eq!(bucket.wait(0x10, 1, 1, 8), None);
    let (n, woken) = bucket.wake(0x10, 5);
    assert_eq!((n, woken), (1, vec![8]));
    assert_eq!(bucket.finish_wait(0x10, 8, true), Ok(()));
}

#[test]
fn futex_requeue_wakes_then_moves() {
    let mut bucket = FutexBucket::new();
    for tid in 1..=4 {
        assert_eq!(bucket.wait(0x20, 0, 0, tid), None);
    }
    assert_eq!(bucket.wait(0x30, 0, 0, 9), None);
    let (n, woken) = bucket.requeue(0x20, 0x40, 1, 2);
    assert_eq!(n, 1);
    assert_eq!(woken, vec![1]);
    assert_eq!(bucket.waiters, vec![(0x40, 2), (0x40, 3), (0x20, 4), (0x30, 9)]);

    let mut table = FutexTable::new();
    assert!(table.ftx_wait(1, 0, 0, 1));
    assert!(table.ftx_wait(1, 0, 0, 2));
    assert!(table.ftx_wait(1, 0, 0, 3));
    assert!(!table.ftx_wait(1, 0, 5, 4));
    assert_eq!(table.ftx_requeue(1, 2, 1, 1), 1);
    assert_eq!(table.table, vec![(2, 2), (1, 3)]);
}

#[test]
fn waitqueue_wakes_by_key_and_counts() {
    let mut wait = WaitQueue::new();
    wait.sleep(1, 0, 10);
    wait.sleep(2, 0, 11);
    wait.sleep(1, 0, 12);
    assert!(wait.wake_one(1));
    assert_eq!(wait.inner, vec![(2, 11, 0), (1, 12, 0)]);
    assert!(!wait.wake_one(3));
    assert_eq!(wait.wake_all(1), 1);
    assert_eq!(wait.total_wakes(), 2);
    assert_eq!(wait.wake_filtered(|_, _| true), 1);
    assert_eq!(wait.total_wakes(), 3);
    assert_eq!(wait.pending_count(), 0);
}

#[test]
fn waitqueue_reorders_by_flags() {
    let mut wait = WaitQueue::new();
    wait.sleep(1, 5, 1);
    wait.sleep(1, 2, 2);
    wait.sleep(1, 9, 3);
    wait.sleep(1, 2, 4);
    wait.reorder_by_priority();
    assert_eq!(wait.inner, vec![(1, 2, 2), (1, 4, 2), (1, 1, 5), (1, 3, 9)]);
}

#[test]
fn varint_round_trip_on_known_values() {
    let mut out = Vec::new();
    assert_eq!(encode_varint(300, &mut out), 2);
    assert_eq!(out, vec![0xAC, 0x02]);
    assert_eq!(decode_varint(&out), Some((300, 2)));
    let mut big = Vec::new();
    let n = encode_varint(u64::MAX, &mut big);
    assert_eq!(decode_varint(&big), Some((u64::MAX, n)));
}

#[test]
fn user_copy_helpers_check_ranges() {
    assert_eq!(cfu::<u32>(0x1000, 0), Some(0));
    assert_eq!(cfu::<u64>(usize::MAX - 3, 0), None);
    assert!(ctu(0x1000, 0, &5u8));
    assert!(!ctu(usize::MAX, 2, &0u8));
}

#[test]
fn process_group_broadcast_reaches_registered_members() {
    let mut v = Vfs::new();
    let mut table = TaskTable::new();
    let root = table.spawn_root();
    let child = table.fork_task(&mut v, root);
    let mut group = ProcessGroup::new(1, root, 1);
    group.add_member(child);
    group.add_member(99);
    group.broadcast_signal(SIGCHLD as i32, &mut table);
    assert_eq!(table.find(root).unwrap().sig_queue, vec![(SIGCHLD as i32, root as isize)]);
    assert_eq!(table.find(child).unwrap().sig_queue, vec![(SIGCHLD as i32, root as isize)]);
    assert!(table.find(99).is_none());
}

#[test]
fn basic_condvar_signal_before_wait() {
    let mut q = SyncQueue::new();

    q.signal();

    let done = q.park_on(1, false);
    assert!(done.is_some());
}

#[test]
fn circbuf_fill_then_drain_gives_the_bytes_back_in_order() {
    let mut b = kernel_sim::circbuf::CircBuf::new(4);
    let mut dst: Vec<u8> = vec![9];
    let n = b.fill_from(&[1, 2, 3, 4, 5, 6]);
    assert_eq!(n, 4);
    assert_eq!(b.read_cursor, 0);
    assert_eq!(b.write_cursor, 4);
    assert_eq!(b.drain_to(&mut dst, usize::MAX), n);
    assert_eq!(dst, vec![9, 1, 2, 3, 4]);
    assert_eq!(b.len(), 0);
    assert!(b.empty());
    assert_eq!(b.read_cursor, 4);
}

#[test]
fn terminal_defaults() {
    let t = <kernel_sim::channel::TrmIO as Default>::default();
    assert_eq!(t.iflag, 0o66402);
    assert_eq!(t.lflag, 0o105073);
    assert_eq!(t.cc[0], 3);
    assert_eq!(t.cc[11], 255);
    assert_eq!(t.cc[31], 0);
    let w = kernel_sim::channel::WinSz::default();
    assert_eq!((w.row, w.col, w.xpx, w.ypx), (0, 0, 0, 0));
}

#[test]
fn kernel_stack_top_is_base_plus_size() {
    let k = kernel_sim::memory::KStk::new(0x8000);
    assert_eq!(k.top(), 0x8000 + kernel_sim::consts::KSTK_SZ);
}

#[test]
fn circbuf_cursors_wrap_past_the_largest_word() {
    let mut b = kernel_sim::circbuf::CircBuf::with_pos(4, usize::MAX - 1, usize::MAX - 1);
    assert_eq!(b.len(), 0);
    assert_eq!(b.fill_from(&[1, 2, 3]), 3);
    assert_eq!(b.write_cursor, 1);
    let mut out = Vec::new();
    assert_eq!(b.drain_to(&mut out, 10), 3);
    assert_eq!(out, vec![1, 2, 3]);
    assert_eq!(b.read_cursor, 1);

    // With a capacity that does not divide the word range, the slot after
    // the largest cursor and the one after the wrap coincide.
    let mut c = kernel_sim::circbuf::CircBuf::with_pos(3, usize::MAX - 1, usize::MAX - 1);
    assert_eq!(c.fill_from(&[1, 2]), 2);
    let mut out = Vec::new();
    assert_eq!(c.drain_to(&mut out, 10), 2);
    assert_eq!(out, vec![2, 2]);
}

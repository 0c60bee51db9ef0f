use kernel_sim::condvar::{timeout_millis, Condvar};
use kernel_sim::consts::PAGE_SZ;
use kernel_sim::file::Vfs;
use kernel_sim::futex::{Futex, FutexPoll, Waiter};
use kernel_sim::handler::{AccessType, ByFrame, ByteFile, File, MemoryAttr, PageEntry, Read};

fn entry() -> PageEntry {
    PageEntry { target: 0, present: false, writable: false, execute: false, user: false }
}

#[test]
fn file_fill_data_places_file_bytes_and_zeroes_rest() {
    let f = File { file: ByteFile((0..10u8).collect()), mem_start: 0x1000 + 8, file_start: 2, file_end: 6 };
    let mut page = vec![0xFFu8; PAGE_SZ];
    assert_eq!(f.window(0x1000), Some((8, 2, 4)));
    assert_eq!(f.fill_data(&mut page, 0x1000), 4);
    assert_eq!(&page[8..12], &[2, 3, 4, 5]);
    assert!(page[..8].iter().all(|&b| b == 0));
    assert!(page[12..].iter().all(|&b| b == 0));
}

#[test]
fn file_fill_data_outside_mapping_is_zero_page() {
    let f = File { file: ByteFile(vec![7; 16]), mem_start: 0x5000, file_start: 0, file_end: 16 };
    let mut page = vec![1u8; PAGE_SZ];
    assert_eq!(f.window(0x1000), None);
    assert_eq!(f.fill_data(&mut page, 0x1000), 0);
    assert!(page.iter().all(|&b| b == 0));
}

#[test]
fn file_page_fault_maps_frame_and_checks_access() {
    let f = File { file: ByteFile(vec![9; 4]), mem_start: 0x2000, file_start: 0, file_end: 4 };
    let mut e = entry();
    let mut page = vec![0u8; PAGE_SZ];
    let read = AccessType { write: false, execute: false, user: false };
    assert!(!f.handle_page_fault_ext(&mut e, &mut page, 0x2010, read, None));
    assert!(!e.present);
    assert!(f.handle_page_fault_ext(&mut e, &mut page, 0x2010, read, Some(33)));
    assert!(e.present);
    assert_eq!(e.target, 33);
    assert_eq!(&page[..5], &[9, 9, 9, 9, 0]);
    let write = AccessType { write: true, execute: false, user: false };
    assert!(!f.handle_page_fault_ext(&mut e, &mut page, 0x2010, write, Some(34)));
    assert_eq!(e.target, 33);
}

#[test]
fn byframe_maps_with_attributes() {
    let h = ByFrame::new(());
    let mut e = entry();
    h.map(&mut e, 5, &MemoryAttr { user: true, readonly: false, execute: false });
    assert_eq!(e, PageEntry { target: 5, present: true, writable: true, execute: false, user: true });
    assert!(h.handle_page_fault_ext(&e, AccessType { write: true, execute: false, user: true }));
    assert!(!h.handle_page_fault_ext(&e, AccessType { write: false, execute: true, user: false }));
}

#[test]
fn condvar_notify_wakes_in_order_and_readies_epoll() {
    let mut v = Vfs::new();
    v.ep_sets.push(Vec::new());
    let mut cv = Condvar::new();
    cv.wait(Some(1));
    cv.wait(Some(2));
    cv.wait(Some(1));
    cv.wait(Some(3));
    assert_eq!(cv.wait_queue_len(), 3);
    cv.register_epoll_list(0, 9, 4, 17);
    cv.notify_one(&mut v);
    assert!(!cv.is_waiting(1));
    assert_eq!(v.ep_sets[0], vec![17]);
    assert_eq!(cv.notify_n(&mut v, 5), 2);
    assert_eq!(cv.wait_queue_len(), 0);
    assert_eq!(v.ep_sets[0], vec![17]);
    assert!(cv.unregister_epoll_list(9, 4, 17));
    assert!(!cv.unregister_epoll_list(9, 4, 17));
    cv.wait(Some(4));
    cv.notify_all(&mut v);
    assert_eq!(cv.wait_queue_len(), 0);
}

#[test]
fn condvar_wait_events_and_timeouts() {
    let mut cvs = vec![Condvar::new(), Condvar::new()];
    assert!(!Condvar::wait_events(&mut cvs, Some(7), false));
    assert!(cvs[0].is_waiting(7) && cvs[1].is_waiting(7));
    assert!(Condvar::wait_events(&mut cvs, Some(7), true));
    assert!(!cvs[0].is_waiting(7) && !cvs[1].is_waiting(7));
    let mut cv = Condvar::new();
    assert!(!Condvar::wait_event(&mut cv, Some(2), false));
    assert_eq!(cv.wait_timeout(Some(2), 3, 10), None);
    assert_eq!(cv.wait_timeout(Some(2), 10, 10), Some(false));
    assert!(!cv.is_waiting(2));
    assert_eq!(cv.wait_timeout(Some(2), 0, 10), Some(true));
    assert_eq!(timeout_millis(2, 5_000_000), 2005);
    assert_eq!(timeout_millis(u64::MAX, 0), usize::MAX);
}

#[test]
fn futex_wake_skips_woken_and_counts() {
    let mut fx = Futex::new();
    let mut ws: Vec<Waiter> = Vec::new();
    let a = fx.wait(&mut ws, 0, None);
    let b = fx.wait(&mut ws, 0, Some(5));
    assert!(matches!(a.poll(&mut fx, &mut ws, 0, 100), FutexPoll::Pending { arm_timer: false }));
    assert!(matches!(b.poll(&mut fx, &mut ws, 1, 200), FutexPoll::Pending { arm_timer: true }));
    assert!(matches!(b.poll(&mut fx, &mut ws, 2, 200), FutexPoll::Pending { arm_timer: false }));
    assert_eq!(fx.inner.waiters, vec![0, 1]);
    assert_eq!(fx.wake(&mut ws, 0), (0, vec![]));
    let (n, wakers) = fx.wake(&mut ws, 1);
    assert_eq!(n, 1);
    assert_eq!(wakers, vec![100]);
    assert!(matches!(a.poll(&mut fx, &mut ws, 3, 100), FutexPoll::Ready(Ok(0))));
    assert!(matches!(b.poll(&mut fx, &mut ws, 5, 200), FutexPoll::Ready(Err("etimedout"))));
    assert!(fx.inner.waiters.is_empty());
    assert_eq!(fx.wake(&mut ws, 3), (0, vec![]));
}

#[test]
fn byte_file_reads_what_is_there_and_leaves_the_rest() {
    let f = ByteFile(vec![1, 2, 3, 4, 5]);
    let mut buf = [9u8; 4];
    assert_eq!(f.read_at(3, &mut buf), 2);
    assert_eq!(buf, [4, 5, 9, 9]);
    assert_eq!(f.read_at(7, &mut buf), 0);
    assert_eq!(buf, [4, 5, 9, 9]);
    assert_eq!(f.read_at(usize::MAX, &mut buf), 0);
}

#[test]
fn file_fill_data_reads_from_the_window_offset() {
    let f = File { file: ByteFile((0..40u8).collect()), mem_start: 0x1000, file_start: 10, file_end: 30 };
    let mut page = vec![0xFFu8; PAGE_SZ];
    assert_eq!(f.fill_data(&mut page, 0x1000), 20);
    assert_eq!(&page[..20], &(10..30u8).collect::<Vec<u8>>()[..]);
    assert!(page[20..].iter().all(|&b| b == 0));
}

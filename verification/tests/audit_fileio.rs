use kernel_sim::epoll::{EpCtlOp, EpData, EpEvent, EpInst};
use kernel_sim::file::{FHandle, FSeek, FdOpt, Vfs};
use kernel_sim::file_like::FLike;
use kernel_sim::pipe::PipeNode;

fn rw_opt() -> FdOpt {
    FdOpt { rd: true, wr: true, ap: false, nb: false }
}

fn append_opt() -> FdOpt {
    FdOpt { rd: true, wr: true, ap: true, nb: false }
}

fn ep_event(tag: u64) -> EpEvent {
    EpEvent { events: EpEvent::IN, data: EpData { ptr: tag } }
}

#[test]
fn audit_pipe_clone_drop_keeps_original_writer_open() {
    let mut v = Vfs::new();
    let (rd, wr) = PipeNode::pair(&mut v);
    let extra_writer = wr.clone_end(&mut v);

    extra_writer.close(&mut v);

    assert!(wr.can_write(&v));
    let mut byte = [0u8; 1];
    assert_eq!(rd.read_at(&mut v, &mut byte), Err("again"));
}

#[test]
fn audit_pipe_write_after_reader_drop_errors() {
    let mut v = Vfs::new();
    let (rd, wr) = PipeNode::pair(&mut v);

    rd.close(&mut v);

    assert!(!wr.can_write(&v));
    assert!(wr.write_at(&mut v, b"x").is_err());
}

#[test]
fn audit_fhandle_append_write_updates_offset_to_new_end() {
    let mut v = Vfs::new();
    let file = FHandle::with_data("append.log", append_opt(), b"abc".to_vec(), &mut v);

    assert_eq!(file.write(&mut v, b"de"), Ok(2));
    assert_eq!(file.seek(&mut v, FSeek::Cur(0)).unwrap(), 5);

    file.seek(&mut v, FSeek::Start(0)).unwrap();
    let mut buf = [0u8; 5];
    assert_eq!(file.read(&mut v, &mut buf), Ok(5));
    assert_eq!(&buf, b"abcde");
}

#[test]
fn audit_fhandle_negative_seek_is_rejected() {
    let mut v = Vfs::new();
    let file = FHandle::with_data("seek.txt", rw_opt(), b"abc".to_vec(), &mut v);

    assert!(file.seek(&mut v, FSeek::Cur(-1)).is_err());
    assert!(file.seek(&mut v, FSeek::End(-4)).is_err());
}

#[test]
fn audit_fhandle_write_at_overflow_does_not_panic() {
    let mut v = Vfs::new();
    let file = FHandle::new("overflow.bin", rw_opt(), false, false, &mut v);

    assert!(file.write_at(&mut v, usize::MAX, b"x").is_err());
}

#[test]
fn audit_flike_mmap_overflow_does_not_panic() {
    let mut v = Vfs::new();
    let file = FLike::File(FHandle::new("map.bin", rw_opt(), false, false, &mut v));

    assert!(file.mmap_fl(0, usize::MAX, 0).is_err());
}

#[test]
fn audit_epoll_add_existing_fd_is_rejected() {
    let mut v = Vfs::new();
    let ep = EpInst::new(&mut v);
    let ev = ep_event(1);

    assert_eq!(ep.control(&mut v, EpCtlOp::ADD, 7, &ev), Ok(()));
    assert!(ep.control(&mut v, EpCtlOp::ADD, 7, &ev).is_err());
}

#[test]
fn audit_epoll_del_clears_ready_and_ctl_state() {
    let mut v = Vfs::new();
    let ep = EpInst::new(&mut v);
    let ev = ep_event(1);

    ep.control(&mut v, EpCtlOp::ADD, 9, &ev).unwrap();
    v.ep_sets[ep.ready].push(9);

    assert_eq!(ep.control(&mut v, EpCtlOp::DEL, 9, &ev), Ok(()));
    assert!(!v.ep_sets[ep.ready].contains(&9));
    assert!(!v.ep_sets[ep.new_ctl].contains(&9));
}

#[test]
fn audit_epoll_dup_shares_registration_state() {
    let mut v = Vfs::new();
    let ep = EpInst::new(&mut v);
    ep.control(&mut v, EpCtlOp::ADD, 1, &ep_event(1)).unwrap();

    let original = FLike::Ep(ep);
    let duplicate = match original.dup(&mut v, false) {
        FLike::Ep(ep) => ep,
        _ => unreachable!(),
    };

    duplicate.control(&mut v, EpCtlOp::ADD, 2, &ep_event(2)).unwrap();

    match &original {
        FLike::Ep(ep) => assert!(ep.events.contains_key(&v, &2)),
        _ => unreachable!(),
    }
}

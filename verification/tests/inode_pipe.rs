use kernel_sim::inode_pipe::{Pipe, PipeEnd};
use kernel_sim::sync::EventFlag;

#[test]
fn pipe_pair_moves_bytes_in_order() {
    let (r, w, mut d) = Pipe::create_pair(0);
    assert!(r.direction == PipeEnd::Read);
    assert_eq!(w.write_at(&mut d, &[1, 2, 3]), Ok(3));
    assert_eq!(d.eventbus.events & EventFlag::READABLE, EventFlag::READABLE);
    assert_eq!(r.poll(&d), (true, false, false));
    assert_eq!(w.poll(&d), (false, true, false));
    let mut buf = [0u8; 2];
    assert_eq!(r.read_at(&mut d, &mut buf), Ok(2));
    assert_eq!(buf, [1, 2]);
    let mut big = [9u8; 4];
    assert_eq!(r.read_at(&mut d, &mut big), Ok(1));
    assert_eq!(big, [3, 9, 9, 9]);
    assert_eq!(d.eventbus.events & EventFlag::READABLE, 0);
    assert_eq!(r.read_at(&mut d, &mut big), Err("again"));
    assert_eq!(r.read_at(&mut d, &mut []), Ok(0));
    assert_eq!(w.read_at(&mut d, &mut big), Ok(0));
    assert_eq!(r.write_at(&mut d, &[1]), Ok(0));
}

#[test]
fn pipe_close_ends_counts_and_closing() {
    let (r, w, mut d) = Pipe::create_pair(3);
    let w2 = w.clone_end(&mut d);
    assert_eq!((d.end_cnt, d.readers, d.writers), (3, 1, 2));
    w.close_end(&mut d);
    assert_eq!(d.eventbus.events & EventFlag::CLOSED, 0);
    w2.close_end(&mut d);
    assert_eq!((d.end_cnt, d.readers, d.writers), (1, 1, 0));
    assert_eq!(d.eventbus.events & EventFlag::CLOSED, EventFlag::CLOSED);
    let mut buf = [0u8; 4];
    assert_eq!(r.read_at(&mut d, &mut buf), Ok(0));
    assert!(r.can_read(&d));
    r.close_end(&mut d);
    assert_eq!(d.readers, 0);
    assert!(w.is_write_closed(&d));
    assert_eq!(w.write_at(&mut d, &[1]), Err("invalid param"));
}

use kernel_sim::disk::Disk;

#[test]
fn basic_block_read_success() {
    let mut d = Disk::new("ok");
    let mut buf = [0u8; 512];
    let result = d.read_block(0, &mut buf);
    assert!(result.is_ok());
    assert!(buf.iter().all(|&b| b == 0xAA));
}

#[test]
fn basic_block_read_single_retry() {
    let mut d = Disk::failing("retry1", 1);
    let mut buf = [0u8; 512];
    let result = d.read_block_n(0, &mut buf, 100);
    assert!(result.is_ok());
    assert_eq!(d.total_ops(), 2);
}

#[test]
fn basic_block_read_infinite_retry() {
    let mut d = Disk::failing("inf", usize::MAX);
    let mut buf = [0u8; 512];
    let result = d.read_block_n(0, &mut buf, 10);
    assert_eq!(result, Err("limit"));
    assert_eq!(d.total_ops(), 10);
    assert_eq!(d.errs, usize::MAX);
    assert!(buf.iter().all(|&b| b == 0));
}

#[test]
fn audit_disk_read_variants_fill_same_success_pattern() {
    let mut d1 = Disk::new("direct");
    let mut d2 = Disk::new("limited");
    let mut direct = [0u8; 16];
    let mut limited = [0u8; 16];

    assert_eq!(d1.read_block(0, &mut direct), Ok(()));
    assert_eq!(d2.read_block_n(0, &mut limited, 1), Ok(1));

    assert_eq!(direct, limited);
}

#[test]
fn disk_failed_reads_consult_journal() {
    let mut d = Disk::failing("main", 3);
    d.attach_journal(Disk::failing("journal", 2));
    let mut buf = [0u8; 4];
    assert_eq!(d.read_block_n(7, &mut buf, 0), Ok(4));
    assert_eq!(d.total_ops(), 4);
    assert_eq!(d.errs, 0);
    let j = d.journal.as_ref().unwrap();
    // first journal read: 2 failures then success (3 ops); then two clean reads
    assert_eq!(j.ops, 5);
    assert_eq!(j.errs, 0);
}

#[test]
fn disk_limited_read_uses_up_errors() {
    let mut d = Disk::failing("main", 5);
    let mut buf = [1u8; 2];
    assert_eq!(d.read_block_n(0, &mut buf, 3), Err("limit"));
    assert_eq!(d.errs, 2);
    assert_eq!(d.total_ops(), 3);
    assert_eq!(buf, [1u8, 1u8]);
    d.reset_ops();
    assert_eq!(d.total_ops(), 0);
}

#[test]
fn disk_write_and_flush() {
    let mut d = Disk::failing("w", 1);
    d.attach_journal(Disk::new("j"));
    assert_eq!(d.write_block(0, b"x"), Err("io_error"));
    assert_eq!(d.write_block(0, b"x"), Ok(()));
    assert_eq!(d.flush(), Ok(()));
    assert_eq!(d.total_ops(), 3);
    assert_eq!(d.journal.as_ref().unwrap().ops, 1);
    d.set_errs(9);
    assert_eq!(d.errs, 9);
}

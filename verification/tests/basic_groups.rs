use kernel_sim::frames::{FramePool, PgFrame, SharedPage};
use kernel_sim::kernel::Kernel;
use kernel_sim::memory::check_access;
use kernel_sim::mount::MountTable;
use kernel_sim::sync::KernLock;

#[test]
fn basic_bkl_single_acquire_release() {
    let mut gkl = KernLock::new();
    gkl.enter(1001);
    assert!(gkl.held());
    assert_eq!(gkl.owner(), 1001);
    gkl.leave();
    assert!(!gkl.held());
}

#[test]
fn basic_bkl_double_acquire_single_release() {
    let mut gkl = KernLock::new();
    gkl.enter(1002);
    gkl.enter(1002);
    assert_eq!(gkl.level(), 2);
    gkl.leave();
    assert!(gkl.held());
    assert_eq!(gkl.level(), 1);
    gkl.leave();
}

#[test]
fn basic_cross_module_lock_order() {
    let mut gkl = KernLock::new();
    let mut pool = FramePool::new(16);
    gkl.enter(1003);
    let _ = pool.get(1004);
    gkl.leave();
    assert!(!gkl.held());
}

#[test]
fn basic_path_resolve_simple() {
    let mt = MountTable::new();
    let r = mt.resolve("/foo/bar");
    assert_eq!(r.unwrap(), "/foo/bar");
}

#[test]
fn basic_mount_then_resolve() {
    let mut mt = MountTable::new();
    mt.bind("/mnt", "dev0");
    let r = mt.resolve("/mnt/file");
    assert_eq!(r.unwrap(), "dev0:/file");
}

#[test]
fn basic_concurrent_mount_and_lookup() {
    let mut mt = MountTable::new();
    mt.bind("/mnt", "dev0");
    for i in 0..500 {
        let _ = mt.resolve("/mnt/deep/path");
        mt.bind(&format!("/other{}", i), "dev1");
    }
    assert_eq!(mt.resolve("/mnt/deep/path").unwrap(), "dev0:/deep/path");
    assert_eq!(mt.mount_count(), 501);
}

#[test]
fn basic_fork_exec_workload() {
    let mut kern = Kernel::new(64);
    let root = kern.proc_init();

    let child = kern.tasks.fork_task(&mut kern.vfs, root);

    let mut frames = Vec::new();
    for _ in 0..4 {
        if let Some(f) = kern.pool.get_inner() {
            frames.push(f);
        }
    }
    assert_eq!(frames.len(), 4);

    let mut src = PgFrame::with_rc(2);
    let mut sp = SharedPage::new(frames[0]);
    let cow_result = sp.fault(&mut kern.pool, &mut src);
    assert!(cow_result.is_ok());

    let parent = kern.tasks.find(child).unwrap().parent;
    assert!(parent.is_some());
    assert_eq!(parent.unwrap(), root);

    // 4 direct allocations + 1 from CoW fault
    assert_eq!(kern.pool.free_count(), 59);
    assert!(!kern.gkl.held());
}

#[test]
fn basic_mmap_file_io_workload() {
    let mut pool = FramePool::new(32);

    assert!(check_access(0x1000, 0x2000));

    let f = pool.get_inner().unwrap();
    let mut src = PgFrame::with_rc(2);
    let mut sp = SharedPage::new(f);
    let nf = sp.fault(&mut pool, &mut src);
    assert!(nf.is_ok());

    // 1 direct + 1 from fault
    assert_eq!(pool.free_count(), 30);

    // overflow wraps 0x1000 + usize::MAX well below KERN_BASE
    assert!(!check_access(0x1000, usize::MAX));
}

use kernel_sim::consts::{KERN_BASE, VM_READ};
use kernel_sim::frames::{FramePool, PgFrame, SharedPage};
use kernel_sim::vm::{VmMap, VmRegion};

#[test]
fn audit_pgframe_down_does_not_underflow() {
    let mut frame = PgFrame::new();

    assert_eq!(frame.down(), 0);
    assert_eq!(frame.count(), 0);
}

#[test]
fn audit_vmregion_adjacent_regions_do_not_overlap_symmetrically() {
    let left = VmRegion::new(0x1000, 0x1000, VM_READ);
    let right = VmRegion::new(0x2000, 0x1000, VM_READ);

    assert!(!left.overlaps(&right));
    assert!(!right.overlaps(&left));
}

#[test]
fn audit_vmmap_rejects_kernel_crossing_region() {
    let mut map = VmMap::new();
    let region = VmRegion::new(KERN_BASE - 0x1000, 0x2000, VM_READ);

    assert!(map.insert(region).is_err());
}

#[test]
fn audit_framepool_get_contig_large_alignment_does_not_panic() {
    let mut pool = FramePool::new(8);

    assert!(pool.get_contig(1, usize::BITS as usize).is_none());
}

#[test]
fn audit_shared_page_fault_does_not_underflow_source_refcount() {
    let mut pool = FramePool::new(4);
    let mut source = PgFrame::new();
    let mut shared = SharedPage::new(0);

    let _ = shared.fault(&mut pool, &mut source);

    assert_eq!(source.count(), 0);
}

#[test]
fn frame_alloc_then_dealloc_restores_the_pool() {
    let mut pool = FramePool::new(8);
    let n = pool.free_count();
    let pa = kernel_sim::frames::frame_alloc(&mut pool, 3).unwrap();
    let i = (pa - kernel_sim::consts::MEM_OFF) / kernel_sim::consts::PAGE_SZ;
    assert_eq!((pa - kernel_sim::consts::MEM_OFF) % kernel_sim::consts::PAGE_SZ, 0);
    assert_eq!(i, 3);
    assert!(!pool.avail(i));
    assert_eq!(pool.free_count(), n - 1);
    kernel_sim::frames::frame_dealloc(&mut pool, pa);
    assert_eq!(pool.free_count(), n);
    assert!(pool.avail(i));
}

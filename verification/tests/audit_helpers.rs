use kernel_sim::consts::{PAGE_SZ, VM_WRITE};
use kernel_sim::frames::FramePool;
use kernel_sim::memory::{heap_init, validate_elf_header, verify_page_alignment};
use kernel_sim::slab::SlabEntry;
use kernel_sim::vm::{compute_rss_watermark, VmRegion};
use kernel_sim::frames::heap_grow;

fn make_elf_header() -> Vec<u8> {
    let mut data = vec![0u8; 64];
    data[0] = 0x7f;
    data[1] = b'E';
    data[2] = b'L';
    data[3] = b'F';
    data[4] = 2;
    data[5] = 1;
    data[6] = 1;
    data[16..18].copy_from_slice(&2u16.to_le_bytes());
    data
}

#[test]
fn audit_slab_zeroed_alloc_clears_reused_object() {
    let mut slab = SlabEntry::new(8, 1);
    let offset = slab.slab_alloc(false).unwrap();

    assert!(slab.fill_obj(offset, 0xAA));
    slab.slab_free(offset);

    let offset = slab.slab_alloc(true).unwrap();
    assert!(slab.obj_at(offset).unwrap().iter().all(|&b| b == 0));
}

#[test]
fn audit_slab_double_free_does_not_duplicate_slot() {
    let mut slab = SlabEntry::new(8, 1);
    let offset = slab.slab_alloc(false).unwrap();

    slab.slab_free(offset);
    slab.slab_free(offset);

    assert_eq!(slab.slab_avail(), 1);
    assert!(slab.slab_alloc(false).is_some());
    assert!(slab.slab_alloc(false).is_none());
}

#[test]
fn audit_heap_init_overflow_does_not_panic() {
    let _ = heap_init(usize::MAX - (PAGE_SZ / 2), PAGE_SZ);
}

#[test]
fn audit_heap_grow_huge_request_does_not_panic() {
    let mut pool = FramePool::new(1);
    let _ = heap_grow(&mut pool, usize::MAX);
}

#[test]
fn audit_validate_elf_header_rejects_overflowing_phdr_table() {
    let mut data = make_elf_header();
    data[32..40].copy_from_slice(&(usize::MAX as u64 - 7).to_le_bytes());
    data[54..56].copy_from_slice(&8u16.to_le_bytes());
    data[56..58].copy_from_slice(&2u16.to_le_bytes());

    assert!(validate_elf_header(&data).is_err());
}

#[test]
fn audit_verify_page_alignment_large_order_does_not_panic() {
    assert!(!verify_page_alignment(PAGE_SZ, usize::BITS as usize));
}

#[test]
fn audit_compute_rss_watermark_huge_region_does_not_panic() {
    let regions = [VmRegion::new(0x1000, usize::MAX, VM_WRITE)];
    let _ = compute_rss_watermark(&regions, 1024);
}

#[test]
fn slab_obj_at_mut_writes_into_the_slot() {
    let mut slab = SlabEntry::new(8, 4);
    {
        let obj = slab.obj_at_mut(8).unwrap();
        assert_eq!(obj.len(), 8);
        obj[0] = 7;
        obj[7] = 9;
    }
    assert_eq!(slab.data[8], 7);
    assert_eq!(slab.data[15], 9);
    assert_eq!(slab.data[0], 0);
    assert_eq!(slab.data[16], 0);
    assert!(slab.obj_at_mut(usize::MAX).is_none());
    assert!(slab.obj_at_mut(slab.data.len() - 4).is_none());
}

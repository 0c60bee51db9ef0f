use kernel_sim::cache::{BlockCache, PageCache};
use kernel_sim::consts::IOQUEUE_DEPTH;
use kernel_sim::disk::IoQueue;
use kernel_sim::frames::FramePool;
use kernel_sim::kernel::Kernel;
use kernel_sim::mount::MountTable;
use kernel_sim::sync::KernLock;

#[test]
fn audit_page_cache_zero_capacity_stores_nothing() {
    let mut cache = PageCache::new(0);

    cache.insert(1, vec![1, 2, 3], 0);

    assert_eq!(cache.entries.len(), 0);
    assert!(cache.lookup(1, 0).is_none());
}

#[test]
fn audit_page_cache_does_not_exceed_capacity_when_all_entries_pinned() {
    let mut cache = PageCache::new(1);
    cache.insert(1, vec![1], 0);
    assert!(cache.pin(1));

    cache.insert(2, vec![2], 1);

    assert!(cache.entries.len() <= 1);
    assert!(cache.entries.iter().any(|e| e.page_id == 1));
}

#[test]
fn audit_block_cache_zero_width_does_not_panic() {
    let mut cache = BlockCache::new(0);

    assert!(cache.fetch(1, 0).is_none());
}

#[test]
fn audit_block_cache_invalidate_uses_same_hash_as_fetch() {
    let mut cache = BlockCache::new(64);
    assert!(cache.fetch(128, 0).is_some());

    cache.invalidate(128);

    assert_eq!(cache.total_entries(), 0);
}

#[test]
fn audit_block_cache_sync_preserves_existing_gkl_owner() {
    let mut gkl = KernLock::new();
    let mut cache = BlockCache::new(1);
    gkl.enter(42);

    cache.sync_all(&mut gkl, 42);
    let still_held = gkl.held();
    if still_held {
        gkl.leave();
    }

    assert!(still_held);
}

#[test]
fn audit_mount_prefix_matches_path_component_boundary() {
    let mut table = MountTable::new();
    table.bind("/mnt", "dev0");

    assert_eq!(table.resolve("/mnted/file").unwrap(), "/mnted/file");
    assert!(table.find_mount("/mnted/file").is_none());
}

#[test]
fn audit_ioqueue_merge_adjacent_overflow_does_not_panic() {
    let mut queue = IoQueue::new();
    queue.submit(usize::MAX, false, 0, 0);
    queue.submit(0, false, 0, 0);

    assert_eq!(queue.merge_adjacent(), 0);
}

#[test]
fn audit_ioqueue_submit_batch_does_not_deadlock_when_over_depth() {
    let mut queue = IoQueue::new();
    let requests: Vec<(usize, bool, u8)> = (0..(IOQUEUE_DEPTH + 1)).map(|block| (block, false, 0)).collect();

    assert_eq!(queue.submit_batch(&requests, 0), IOQUEUE_DEPTH + 1);
}

#[test]
fn audit_syscall_cache_index_matches_fetch_hash() {
    let cache = BlockCache::new(64);
    let key = 128usize;
    assert_ne!(key % cache.width, cache.idx(key));
    assert_eq!(cache.idx(key), (key ^ (key >> 7)) % cache.width);
}

#[test]
fn audit_block_cache_sync_all_skips_busy_then_clears_on_retry() {
    let mut gkl = KernLock::new();
    let mut cache = BlockCache::new(8);
    let key = 33usize;
    let ci = cache.idx(key);
    assert!(cache.fetch(key, 0).is_some());
    cache.chains[ci].lk.acquire();
    for s in cache.chains[ci].items.iter_mut() {
        if s.id == key {
            s.modified = true;
        }
    }

    cache.sync_all(&mut gkl, 1);

    assert!(
        cache.chains[ci].items.iter().any(|s| s.id == key && s.modified),
        "while chain lock held externally, sync_all must skip without blocking"
    );
    cache.chains[ci].lk.release();
    cache.sync_all(&mut gkl, 2);
    cache.chains[ci].lk.acquire();
    let dirty = cache.chains[ci].items.iter().any(|s| s.id == key && s.modified);
    cache.chains[ci].lk.release();
    assert!(!dirty);
    assert!(!gkl.held());
}

#[test]
fn audit_fetch_with_gkl_held_skips_busy_chain_without_spin() {
    let mut gkl = KernLock::new();
    let mut cache = BlockCache::new(64);
    let chain_idx = cache.idx(17);
    gkl.enter(1);
    cache.chains[chain_idx].lk.acquire();

    let miss = cache.fetch(17, 0);
    assert!(miss.is_none());

    cache.chains[chain_idx].lk.release();
    gkl.leave();
    assert!(cache.chains[chain_idx].items.is_empty());
}

#[test]
fn audit_kernel_tick_cross_id_gkl_does_not_self_deadlock() {
    let mut kernel = Kernel::new(64);
    kernel.gkl.enter(1);
    kernel.tick(2);
    assert!(kernel.gkl.held());
    assert_eq!(kernel.gkl.owner(), 1);
    assert_eq!(kernel.gkl.level(), 1);
    kernel.gkl.leave();

    kernel.gkl.enter(78);
    kernel.tick(78);
    assert!(kernel.gkl.held());
    assert_eq!(kernel.gkl.owner(), 78);
    assert_eq!(kernel.gkl.level(), 1);
    kernel.gkl.leave();
}

#[test]
fn audit_block_cache_sync_cross_id_gkl_does_not_self_deadlock() {
    let mut gkl = KernLock::new();
    let mut cache = BlockCache::new(8);
    gkl.enter(10);
    cache.sync_all(&mut gkl, 20);
    assert!(gkl.held());
    assert_eq!(gkl.owner(), 10);
    gkl.leave();
}

#[test]
fn audit_framepool_get_cross_id_gkl_does_not_self_deadlock() {
    let mut gkl = KernLock::new();
    let mut pool = FramePool::new(4);
    gkl.enter(100);
    let _ = pool.get(200);
    assert!(gkl.held());
    assert_eq!(gkl.owner(), 100);
    gkl.leave();
}

#[test]
fn block_cache_sync_cross_id_still_writes_back_free_chains() {
    let mut gkl = KernLock::new();
    let mut cache = BlockCache::new(8);
    let key = 5usize;
    let ci = cache.idx(key);
    assert!(cache.fetch(key, 0).is_some());
    cache.chains[ci].items[0].modified = true;
    gkl.enter(10);
    cache.sync_all(&mut gkl, 20);
    assert!(!cache.chains[ci].items[0].modified);
    assert_eq!(gkl.owner(), 10);
    assert_eq!(gkl.level(), 1);
}

#[test]
fn audit_schedule_tick_clears_block_cache_modified_like_kernel_tick() {
    let mut kernel = Kernel::new(64);
    let key = 77usize;
    let ci = kernel.cache.idx(key);
    assert!(kernel.cache.fetch(key, 0).is_some());
    kernel.cache.chains[ci].lk.acquire();
    for s in kernel.cache.chains[ci].items.iter_mut() {
        if s.id == key {
            s.modified = true;
        }
    }
    kernel.cache.chains[ci].lk.release();
    kernel.schedule_tick(0);
    kernel.cache.chains[ci].lk.acquire();
    let dirty = kernel.cache.chains[ci].items.iter().any(|s| s.id == key && s.modified);
    kernel.cache.chains[ci].lk.release();
    assert!(
        !dirty,
        "schedule_tick should run the same non-blocking cache maintenance as Kernel::tick"
    );
}


#[test]
fn audit_cache_stats_with_gkl_and_busy_chain_does_not_hang() {
    let mut kernel = Kernel::new(64);
    let chain_idx = kernel.cache.idx(9);
    kernel.gkl.enter(3);
    kernel.cache.chains[chain_idx].lk.acquire();
    let stats = kernel.cache_stats();
    kernel.cache.chains[chain_idx].lk.release();
    kernel.gkl.leave();
    assert_eq!(stats, (0, 0));
}

use kernel_sim::ipc::{shm_get_or_create, SemArr, SemCtx, SemStore, ShmStore};

fn sem_store() -> SemStore {
    SemStore::new()
}

fn shm_store() -> ShmStore {
    ShmStore::new()
}

#[test]
fn audit_semarr_rejects_zero_semaphore_create() {
    let mut store = sem_store();

    assert!(SemArr::get_or_create(1, 0, 1 << 9, &mut store).is_err());
}

#[test]
fn audit_semarr_existing_key_rejects_larger_nsems_request() {
    let mut store = sem_store();
    let first = SemArr::get_or_create(7, 1, 1 << 9, &mut store).unwrap();

    let second = SemArr::get_or_create(7, 2, 0, &mut store);

    assert!(second.is_err());
    assert_eq!(store.arrays[first].ds.nsems, 1);
}

#[test]
fn audit_shm_private_key_creates_unique_segments() {
    let mut store = shm_store();

    let first = shm_get_or_create(0, 1, &mut store);
    let second = shm_get_or_create(0, 1, &mut store);

    assert_ne!(first, second);
}

#[test]
fn audit_shm_existing_key_rejects_larger_size_request() {
    let mut store = shm_store();
    let _first = shm_get_or_create(5, 1, &mut store);
    let second = shm_get_or_create(5, 2, &mut store);

    assert!(store.segments[second].len() >= 2);
}

#[test]
fn audit_semctx_remove_clears_stale_undo_before_id_reuse() {
    let mut store = sem_store();
    let first = SemArr::get_or_create(10, 1, 1 << 9, &mut store).unwrap();
    let second = SemArr::get_or_create(11, 1, 1 << 9, &mut store).unwrap();

    {
        let mut ctx = SemCtx::new();
        let id = ctx.add(first);
        ctx.add_undo(id, 0, -1);
        ctx.remove(id);
        assert_eq!(ctx.add(second), id);
        ctx.replay_undos(&mut store);
    }

    assert_eq!(store.arrays[second].sems[0].get_val(), 0);
}

#[test]
fn audit_semctx_drop_replays_full_undo_magnitude() {
    let mut store = sem_store();
    let arr = SemArr::get_or_create(12, 1, 1 << 9, &mut store).unwrap();

    {
        let mut ctx = SemCtx::new();
        let id = ctx.add(arr);
        ctx.add_undo(id, 0, -3);
        ctx.replay_undos(&mut store);
    }

    assert_eq!(store.arrays[arr].sems[0].get_val(), 3);
}

#[test]
fn semctx_replay_takes_back_at_most_what_is_left() {
    let mut store = sem_store();
    let arr = SemArr::get_or_create(13, 2, 1 << 9, &mut store).unwrap();
    store.arrays[arr].sems[1].set_val(2);

    let mut ctx = SemCtx::new();
    let id = ctx.add(arr);
    ctx.add_undo(id, 1, 5);
    ctx.add_undo(id, 0, 4);
    ctx.replay_undos(&mut store);

    assert_eq!(store.arrays[arr].sems[1].get_val(), 0);
    assert_eq!(store.arrays[arr].sems[0].get_val(), 0);
    assert_eq!(store.arrays[arr].sems.len(), 2);
}

#[test]
fn semctx_replay_ignores_sets_no_longer_held() {
    let mut store = sem_store();
    let arr = SemArr::get_or_create(14, 1, 1 << 9, &mut store).unwrap();

    let mut ctx = SemCtx::new();
    let id = ctx.add(arr);
    ctx.add_undo(id, 0, -2);
    ctx.arrays.clear();
    ctx.replay_undos(&mut store);

    assert_eq!(store.arrays[arr].sems[0].get_val(), 0);
}

#[test]
fn semctx_replay_runs_in_key_order() {
    let mut store = sem_store();
    let arr = SemArr::get_or_create(15, 1, 1 << 9, &mut store).unwrap();

    let mut ctx = SemCtx::new();
    let first = ctx.add(arr);
    let second = ctx.add(arr);
    ctx.add_undo(second, 0, -1);
    ctx.add_undo(first, 0, 1);
    assert_eq!(ctx.undos, vec![((first, 0), -1), ((second, 0), 1)]);
    ctx.replay_undos(&mut store);

    assert_eq!(store.arrays[arr].sems[0].get_val(), 1);
}

#[test]
fn semarr_key_is_free_again_once_its_set_is_released() {
    let mut store = sem_store();
    let first = SemArr::get_or_create(7, 1, 1 << 9, &mut store).unwrap();
    assert_eq!(SemArr::get_or_create(7, 2, 0, &mut store), Err("einval"));
    let again = SemArr::get_or_create(7, 1, 0, &mut store).unwrap();
    assert_eq!(again, first);
    assert_eq!(store.holders[first], 2);
    store.release(first);
    store.release(first);

    let second = SemArr::get_or_create(7, 2, 0, &mut store).unwrap();
    assert_ne!(second, first);
    assert_eq!(store.arrays[second].sems.len(), 2);
    assert_eq!(store.keys, vec![(7, second)]);
    assert_eq!(store.holders[second], 1);
    assert_eq!(SemArr::get_or_create(7, 1, (1 << 9) | (1 << 10), &mut store), Err("eexist"));
}

#[test]
fn shm_key_is_free_again_once_its_segment_is_released() {
    let mut store = shm_store();
    let first = shm_get_or_create(5, 1, &mut store);
    assert_eq!(shm_get_or_create(5, 2, &mut store), first);
    assert_eq!(store.segments[first].len(), 2);
    store.release(first);
    store.release(first);

    let second = shm_get_or_create(5, 1, &mut store);
    assert_ne!(second, first);
    assert_eq!(store.segments[second].len(), 1);
    assert_eq!(store.keys, vec![(5, second)]);
}

#[test]
fn semctx_end_gives_back_its_sets() {
    let mut store = sem_store();
    let arr = SemArr::get_or_create(16, 1, 1 << 9, &mut store).unwrap();
    {
        let mut ctx = SemCtx::new();
        let _id = ctx.add(arr);
        ctx.replay_undos(&mut store);
        ctx.release_sets(&mut store);
    }
    assert_eq!(store.holders[arr], 0);
    let fresh = SemArr::get_or_create(16, 3, 0, &mut store).unwrap();
    assert_ne!(fresh, arr);
    assert_eq!(store.arrays[fresh].sems.len(), 3);
}

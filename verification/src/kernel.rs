use vstd::prelude::*;
use std::collections::{BTreeMap, VecDeque};
use crate::cache::{synced, total_modified, total_slots, BlockCache};
use crate::consts::{MAX_CPU, MEM_OFF, N_CHAINS, PAGE_SZ, USR_STK_OFF, USR_STK_SZ};
use crate::disk::Disk;
use crate::file::Vfs;
use crate::file_like::FLike;
use crate::frames::{free_indices, FramePool};
use crate::ipc::{sem_get_post, sem_store_wf, shm_store_wf, shm_get_or_create, shm_get_post, SemArr, SemStore, ShmStore};
use crate::memory::{compute_load_balance, count_true, score_at};
use crate::mount::MountTable;
use crate::pipe::{PipeDir, PipeNode};
use crate::process::{files_valid, pipe_room, reaped, same_but_links, Task, TaskTable};
use crate::ipc::{first_free, ids_of};
use crate::sync::KernLock;
use crate::task::{push_at_spec, ProcInit, ThdCtx};
use crate::timer::{dtk, ser, Clocks};

verus! {

/// The simulated kernel: tasks, block cache and disk, frame pool, the task
/// current on each CPU (by id), mounts, IPC stores, terminal input, and the
/// shared open-file state, global lock and clocks that they use.
pub struct Kernel {
    pub tasks: TaskTable,
    pub cache: BlockCache,
    pub disk: Disk,
    pub pool: FramePool,
    pub cpus: Vec<Option<usize>>,
    pub mnt: MountTable,
    pub sem_store: SemStore,
    pub shm_store: ShmStore,
    pub tty_buf: VecDeque<u8>,
    pub vfs: Vfs,
    pub gkl: KernLock,
    pub clk: Clocks,
}

/// Every file of every task refers to objects of `v`.
pub open spec fn tasks_files_valid(tt: TaskTable, v: &Vfs) -> bool {
    forall|d: usize| #[trigger] tt.task(d) matches Some(t) ==> files_valid(t.files@, v)
}

/// `w` extends `v`: nothing was removed and the epoll tables that were
/// there are unchanged.
pub open spec fn vfs_grows(v: &Vfs, w: &Vfs) -> bool {
    &&& w.files@.len() >= v.files@.len()
    &&& w.descs@.len() >= v.descs@.len()
    &&& w.pipes@.len() >= v.pipes@.len()
    &&& w.ep_sets@.len() >= v.ep_sets@.len()
    &&& w.ep_maps@.len() >= v.ep_maps@.len()
    &&& forall|i: int| 0 <= i < v.ep_maps@.len() ==> #[trigger] w.ep_maps@[i]@ == v.ep_maps@[i]@
}

/// Files that refer to objects of `v` refer to objects of every extension.
pub proof fn lemma_files_grow(fs: Seq<(usize, FLike)>, v: &Vfs, w: &Vfs)
    requires
        files_valid(fs, v),
        vfs_grows(v, w),
    ensures
        files_valid(fs, w),
{
    assert forall|k: int| 0 <= k < fs.len() implies (#[trigger] fs[k]).1.valid(w) by {
        assert(fs[k].1.valid(v));
        if let FLike::Ep(e) = fs[k].1 {
            assert(w.ep_maps@[e.events.inner as int]@ == v.ep_maps@[e.events.inner as int]@);
        }
    }
}

/// Everything but the tasks and the open-file state is unchanged.
pub open spec fn rest_same(k0: Kernel, k1: Kernel) -> bool {
    &&& k1.cpus@ == k0.cpus@
    &&& devices_same(k0, k1)
}

/// The cache, disk, frames, mounts, IPC stores, terminal input, global
/// lock and clocks are unchanged.
pub open spec fn devices_same(k0: Kernel, k1: Kernel) -> bool {
    &&& k1.cache == k0.cache
    &&& k1.disk == k0.disk
    &&& k1.pool == k0.pool
    &&& k1.mnt == k0.mnt
    &&& k1.sem_store == k0.sem_store
    &&& k1.shm_store == k0.shm_store
    &&& k1.tty_buf@ == k0.tty_buf@
    &&& k1.gkl == k0.gkl
    &&& k1.clk == k0.clk
}

/// Only task `id` (and the open-file state) changed.
pub open spec fn only_task(k0: Kernel, k1: Kernel, id: usize) -> bool {
    &&& rest_same(k0, k1)
    &&& k1.tasks.seq == k0.tasks.seq
    &&& k1.tasks.root == k0.tasks.root
    &&& forall|d: usize| d != id ==> #[trigger] k1.tasks.task(d) == k0.tasks.task(d)
}

/// How a wait for `target` from a parent in group `pgid` selects a child:
/// -1 any, 0 the parent's group, a positive value that id, another
/// negative value the group it names.
pub open spec fn wait_selects(target: isize, pgid: i32, child: Task) -> bool {
    if target == -1 {
        true
    } else if target == 0 {
        child.pgid == pgid
    } else if target > 0 {
        child.info.id == target as usize
    } else {
        child.pgid == (-target) as i32
    }
}

impl Kernel {
    pub open spec fn wf(&self) -> bool {
        &&& self.tasks.wf()
        &&& tasks_files_valid(self.tasks, &self.vfs)
        &&& self.cpus@.len() == MAX_CPU
        &&& self.gkl.wf()
        &&& self.cache.chains@.len() == self.cache.width
        &&& self.pool.slots@.len() == self.pool.capacity
        &&& sem_store_wf(self.sem_store)
        &&& shm_store_wf(self.shm_store)
    }

    /// A kernel with `frame_count` free frames and nothing else.
    pub fn new(frame_count: usize) -> (r: Self)
        ensures
            r.wf(),
            r.tasks.map@.len() == 0,
            r.tasks.seq == 1,
            r.tasks.root is None,
            r.cache.width == N_CHAINS,
            r.disk.errs == 0 && r.disk.ops == 0 && r.disk.journal is None,
            r.pool.slots@ == Seq::new(frame_count as nat, |i: int| true),
            r.cpus@ == Seq::new(MAX_CPU as nat, |i: int| None::<usize>),
            r.mnt.entries@.len() == 0,
            r.sem_store.keys@.len() == 0,
            r.shm_store.keys@.len() == 0,
            r.tty_buf@.len() == 0,
            !r.gkl.flag,
    {
        let cpus: Vec<Option<usize>> = vec![None; MAX_CPU];
        let r = Kernel {
            tasks: TaskTable::new(),
            cache: BlockCache::new(N_CHAINS),
            disk: Disk::new("root"),
            pool: FramePool::new(frame_count),
            cpus,
            mnt: MountTable::new(),
            sem_store: SemStore::new(),
            shm_store: ShmStore::new(),
            tty_buf: VecDeque::new(),
            vfs: Vfs::new(),
            gkl: KernLock::new(),
            clk: Clocks::new(),
        };
        proof {
            assert(r.cpus@ =~= Seq::new(MAX_CPU as nat, |i: int| None::<usize>));
        }
        r
    }

    /// A clock tick on `cpu_id`: the block cache writes back every bucket
    /// whose lock is free (see `BlockCache::sync_all`); the global lock ends
    /// as it was, also when another owner holds it.
    pub fn tick(&mut self, cpu_id: usize)
        requires
            old(self).wf(),
            old(self).gkl.depth < usize::MAX,
        ensures
            final(self).wf(),
            final(self).gkl == old(self).gkl,
            final(self).cache.width == old(self).cache.width,
            final(self).cache.chains@.len() == old(self).cache.chains@.len(),
            final(self).cache.lock_states() == old(self).cache.lock_states(),
            forall|i: int|
                0 <= i < old(self).cache.chains@.len() ==> #[trigger] final(self).cache.view_chains()[i] == synced(
                    old(self).cache.view_chains()[i],
                    old(self).cache.lock_states()[i],
                ),
            final(self).tasks == old(self).tasks,
            final(self).vfs == old(self).vfs,
            final(self).clk == old(self).clk,
            final(self).cpus@ == old(self).cpus@,
            final(self).pool == old(self).pool,
    {
        self.cache.sync_all(&mut self.gkl, cpu_id);
    }

    /// The task current on `cpu`.
    pub fn cur_task(&self, cpu: usize) -> (r: Option<usize>)
        requires
            self.cpus@.len() == MAX_CPU,
        ensures
            r == if cpu < MAX_CPU {
                self.cpus@[cpu as int]
            } else {
                None
            },
    {
        if cpu >= self.cpus.len() {
            return None;
        }
        self.cpus[cpu]
    }

    /// Makes `task` current on `cpu` (when there is such a CPU).
    pub fn set_cur(&mut self, cpu: usize, task: Option<usize>)
        requires
            old(self).wf(),
        ensures
            final(self).wf(),
            final(self).cpus@ == if cpu < MAX_CPU {
                old(self).cpus@.update(cpu as int, task)
            } else {
                old(self).cpus@
            },
            final(self).tasks == old(self).tasks,
            final(self).vfs == old(self).vfs,
            devices_same(*old(self), *final(self)),
    {
        if cpu < self.cpus.len() {
            self.cpus.set(cpu, task);
        }
    }

    /// A page fault is handled when a task runs on CPU 0.
    pub fn handle_pgfault(&self, addr: usize) -> (r: bool)
        requires
            self.cpus@.len() == MAX_CPU,
        ensures
            r == self.cpus@[0] is Some,
    {
        self.cur_task(0).is_some()
    }

    pub fn handle_pgfault_ext(&self, addr: usize, access: u8) -> (r: bool)
        requires
            self.cpus@.len() == MAX_CPU,
        ensures
            r == self.cpus@[0] is Some,
    {
        self.handle_pgfault(addr)
    }

    /// Spawns the init task, running its own thread.
    pub fn proc_init(&mut self) -> (r: usize)
        requires
            old(self).wf(),
            old(self).tasks.seq < usize::MAX,
        ensures
            final(self).wf(),
            r == old(self).tasks.seq,
            final(self).tasks.root == Some(r),
            final(self).tasks.task(r) matches Some(t) && t.info.id == r && t.info.tag@ == "init"@
                && t.threads@ == seq![r] && t.parent is None && t.files@.len() == 0,
            forall|d: usize| d != r ==> #[trigger] final(self).tasks.task(d) == old(self).tasks.task(d),
            rest_same(*old(self), *final(self)),
            final(self).vfs == old(self).vfs,
    {
        let root_id = self.tasks.spawn_root();
        let mut root = self.tasks.take(root_id).unwrap();
        root.threads.push(root_id);
        proof {
            assert(root.threads@ =~= seq![root_id]);
        }
        self.tasks.put(root_id, root);
        root_id
    }

    /// Queues a terminal input byte (carriage return as newline) unless
    /// 4096 bytes wait already.
    pub fn tty_push(&mut self, byte: u8)
        ensures
            old(self).tty_buf@.len() < 4096 ==> final(self).tty_buf@ == old(self).tty_buf@.push(ser_spec(byte)),
            old(self).tty_buf@.len() >= 4096 ==> final(self).tty_buf@ == old(self).tty_buf@,
            final(self).tasks.map@ == old(self).tasks.map@,
    {
        let normalized_byte = ser(byte);
        if self.tty_buf.len() < 4096 {
            self.tty_buf.push_back(normalized_byte);
        }
    }

    /// The oldest waiting terminal byte.
    pub fn tty_pop(&mut self) -> (r: Option<u8>)
        ensures
            old(self).tty_buf@.len() == 0 ==> r is None && final(self).tty_buf@ == old(self).tty_buf@,
            old(self).tty_buf@.len() > 0 ==> r == Some(old(self).tty_buf@[0]) && final(self).tty_buf@
                == old(self).tty_buf@.drop_first(),
            final(self).tasks.map@ == old(self).tasks.map@,
    {
        self.tty_buf.pop_front()
    }

    /// The semaphore set for `key` (see `SemArr::get_or_create`).
    pub fn get_sem(&mut self, key: u32, nsems: usize, flags: usize) -> (r: Result<usize, &'static str>)
        requires
            old(self).wf(),
            old(self).sem_store.keys@.len() + 2 < u32::MAX,
            forall|j: int| 0 <= j < old(self).sem_store.holders@.len() ==> #[trigger] old(self).sem_store.holders@[j] < usize::MAX,
        ensures
            final(self).wf(),
            sem_get_post(old(self).sem_store, final(self).sem_store, key, nsems, flags, r),
            final(self).tasks.map@ == old(self).tasks.map@,
    {
        SemArr::get_or_create(key, nsems, flags, &mut self.sem_store)
    }

    /// The shared-memory segment for `key` (see `shm_get_or_create`).
    pub fn get_shm(&mut self, key: usize, npages: usize) -> (r: usize)
        requires
            old(self).wf(),
            forall|j: int| 0 <= j < old(self).shm_store.holders@.len() ==> #[trigger] old(self).shm_store.holders@[j] < usize::MAX,
        ensures
            final(self).wf(),
            shm_get_post(old(self).shm_store, final(self).shm_store, key, npages, r),
            final(self).tasks.map@ == old(self).tasks.map@,
    {
        shm_get_or_create(key, npages, &mut self.shm_store)
    }

    /// The scheduler's tick on `cpu`: the clocks advance (see `dtk`) and
    /// the block cache gets the same write-back as `tick`.
    pub fn schedule_tick(&mut self, cpu: usize)
        requires
            old(self).wf(),
            old(self).gkl.depth < usize::MAX,
        ensures
            final(self).wf(),
            final(self).clk.all == vstd::wrapping::usize_specs::wrapping_add(old(self).clk.all, 1),
            cpu == 0 ==> final(self).clk.wall == vstd::wrapping::usize_specs::wrapping_add(old(self).clk.wall, 1),
            cpu != 0 ==> final(self).clk.wall == old(self).clk.wall,
            final(self).gkl == old(self).gkl,
            final(self).cache.width == old(self).cache.width,
            final(self).cache.chains@.len() == old(self).cache.chains@.len(),
            final(self).cache.lock_states() == old(self).cache.lock_states(),
            forall|i: int|
                0 <= i < old(self).cache.chains@.len() ==> #[trigger] final(self).cache.view_chains()[i] == synced(
                    old(self).cache.view_chains()[i],
                    old(self).cache.lock_states()[i],
                ),
            final(self).tasks == old(self).tasks,
            final(self).vfs == old(self).vfs,
            final(self).cpus@ == old(self).cpus@,
            final(self).pool == old(self).pool,
    {
        dtk(&mut self.clk, cpu);
        self.cache.sync_all(&mut self.gkl, cpu);
    }

    /// The CPU to move work from, by `compute_load_balance` over each CPU's
    /// current task: its children plus one, its group as priority, and
    /// whether it is done (an idle CPU counts as empty).
    pub fn balance_load(&self) -> (r: usize)
        requires
            self.wf(),
            forall|i: int|
                0 <= i < MAX_CPU ==> (#[trigger] self.cpus@[i] matches Some(id) && self.tasks.task(id) matches Some(t)
                    ==> t.subtasks@.len() < usize::MAX && (t.subtasks@.len() + 1) * 100 + 0x6_0000_0000 <= i64::MAX),
        ensures
            r < MAX_CPU,
            ({
                let (c, p, b) = load_inputs(self);
                forall|i: int| 0 <= i < MAX_CPU ==> score_at(c, p, b, i) <= score_at(c, p, b, r as int)
            }),
    {
        let mut counts: Vec<usize> = Vec::new();
        let mut prios: Vec<i32> = Vec::new();
        let mut blocked: Vec<bool> = Vec::new();
        let mut i: usize = 0;
        while i < self.cpus.len()
            invariant
                self.wf(),
                i <= MAX_CPU,
                counts@.len() == i && prios@.len() == i && blocked@.len() == i,
                forall|j: int|
                    0 <= j < MAX_CPU ==> (#[trigger] self.cpus@[j] matches Some(id) && self.tasks.task(id) matches Some(t)
                        ==> t.subtasks@.len() < usize::MAX && (t.subtasks@.len() + 1) * 100 + 0x6_0000_0000 <= i64::MAX),
                forall|j: int|
                    0 <= j < i ==> counts@[j] == load_inputs(self).0[j] && prios@[j] == load_inputs(self).1[j]
                        && blocked@[j] == load_inputs(self).2[j],
            decreases MAX_CPU - i,
        {
            let (c, p, b) = match self.cpus[i] {
                Some(id) => match self.tasks.find(id) {
                    Some(t) => {
                        proof {
                            assert(self.cpus@[i as int] matches Some(id) && self.tasks.task(id) matches Some(t));
                            assert(t.subtasks@.len() < usize::MAX);
                        }
                        (t.n_children() + 1, t.pgid, t.done())
                    },
                    None => (0, 0, false),
                },
                None => (0, 0, false),
            };
            counts.push(c);
            prios.push(p);
            blocked.push(b);
            i = i + 1;
        }
        proof {
            let (c, p, b) = load_inputs(self);
            assert(counts@ =~= c);
            assert(prios@ =~= p);
            assert(blocked@ =~= b);
            assert forall|j: int| 0 <= j < counts@.len() implies #[trigger] counts@[j] * 100 + 0x6_0000_0000 <= i64::MAX by {
                assert(self.cpus@[j] matches Some(id) && self.tasks.task(id) matches Some(t) ==> (t.subtasks@.len() + 1)
                    * 100 + 0x6_0000_0000 <= i64::MAX);
            }
        }
        compute_load_balance(counts.as_slice(), prios.as_slice(), blocked.as_slice())
    }

    /// Reaps every task that is done; returns how many.
    pub fn reclaim_zombies(&mut self) -> (r: usize)
        requires
            old(self).wf(),
        ensures
            final(self).wf(),
            r == crate::process::keys_with(old(self).tasks.map@, crate::process::finished()).len(),
            forall|k: int|
                0 <= k < r ==> #[trigger] final(self).tasks.task(
                    crate::process::keys_with(old(self).tasks.map@, crate::process::finished())[k],
                ) is None,
    {
        let zombies = self.tasks.zombie_tasks();
        let count = zombies.len();
        let mut i: usize = 0;
        while i < zombies.len()
            invariant
                i <= zombies@.len(),
                self.wf(),
                forall|k: int| 0 <= k < i ==> #[trigger] self.tasks.task(zombies@[k]) is None,
            decreases zombies@.len() - i,
        {
            let ghost before = self.tasks;
            self.tasks.reap(zombies[i]);
            proof {
                assert forall|d: usize| #[trigger] self.tasks.task(d) is Some implies files_valid(
                    self.tasks.task(d).unwrap().files@,
                    &self.vfs,
                ) by {
                    assert(before.task(d) is Some);
                }
                assert forall|k: int| 0 <= k < i + 1 implies #[trigger] self.tasks.task(zombies@[k]) is None by {
                    if k < i {
                        assert(before.task(zombies@[k]) is None);
                    }
                }
            }
            i = i + 1;
        }
        count
    }

    /// Allocates up to `count` frames, lowest first, and gives their
    /// physical addresses.
    pub fn alloc_pages(&mut self, count: usize) -> (r: Vec<usize>)
        requires
            old(self).wf(),
            old(self).pool.slots@.len() * PAGE_SZ + MEM_OFF <= usize::MAX,
        ensures
            final(self).wf(),
            ({
                let taken = free_indices(old(self).pool.slots@).take(
                    if count < free_indices(old(self).pool.slots@).len() {
                        count as int
                    } else {
                        free_indices(old(self).pool.slots@).len() as int
                    },
                );
                &&& r@.len() == taken.len()
                &&& forall|k: int| 0 <= k < r@.len() ==> #[trigger] r@[k] == taken[k] * PAGE_SZ + MEM_OFF
            }),
            final(self).tasks.map@ == old(self).tasks.map@,
    {
        proof {
            crate::frames::lemma_free_indices_lt(self.pool.slots@);
        }
        let frames = self.pool.batch_alloc(count);
        let ghost n = self.pool.slots@.len();
        let mut out: Vec<usize> = Vec::new();
        let mut i: usize = 0;
        while i < frames.len()
            invariant
                i <= frames@.len(),
                out@.len() == i,
                n * PAGE_SZ + MEM_OFF <= usize::MAX,
                forall|k: int| 0 <= k < frames@.len() ==> #[trigger] frames@[k] < n,
                forall|k: int| 0 <= k < i ==> #[trigger] out@[k] == frames@[k] * PAGE_SZ + MEM_OFF,
            decreases frames@.len() - i,
        {
            let f = frames[i];
            proof {
                assert(f < n);
                assert(f * PAGE_SZ + MEM_OFF <= n * PAGE_SZ + MEM_OFF) by (nonlinear_arith)
                    requires
                        f < n,
                ;
            }
            out.push(f * PAGE_SZ + MEM_OFF);
            i = i + 1;
        }
        out
    }

    /// Gives back the frames at the physical addresses in `pages`; addresses
    /// below the memory offset or not on a frame boundary are skipped.
    pub fn free_pages(&mut self, pages: &[usize])
        requires
            old(self).wf(),
        ensures
            final(self).wf(),
            final(self).pool.slots@.len() == old(self).pool.slots@.len(),
            forall|k: int|
                0 <= k < old(self).pool.slots@.len() ==> #[trigger] final(self).pool.slots@[k] == (old(self).pool.slots@[k] || freed(pages@, k)),
            final(self).tasks.map@ == old(self).tasks.map@,
    {
        let mut i: usize = 0;
        while i < pages.len()
            invariant
                i <= pages@.len(),
                self.wf(),
                self.pool.slots@.len() == old(self).pool.slots@.len(),
                self.tasks.map@ == old(self).tasks.map@,
                forall|k: int|
                    0 <= k < old(self).pool.slots@.len() ==> #[trigger] self.pool.slots@[k] == (old(self).pool.slots@[k] || freed(pages@.subrange(0, i as int), k)),
            decreases pages@.len() - i,
        {
            let pa = pages[i];
            proof {
                assert(pages@.subrange(0, i + 1) =~= pages@.subrange(0, i as int).push(pa));
                assert forall|k: int| #[trigger] freed(pages@.subrange(0, i + 1), k) == (freed(
                    pages@.subrange(0, i as int),
                    k,
                ) || frame_of(pa) == Some(k)) by {
                    lemma_freed_push(pages@.subrange(0, i as int), pa, k);
                }
            }
            if pa >= MEM_OFF {
                let offset = pa - MEM_OFF;
                if offset % PAGE_SZ == 0 {
                    self.pool.put(offset / PAGE_SZ);
                }
            }
            i = i + 1;
        }
        proof {
            assert(pages@.subrange(0, i as int) =~= pages@);
        }
    }

    /// Percentage of frames in use (100 without frames).
    pub fn memory_pressure(&self) -> (r: usize)
        requires
            self.wf(),
            self.pool.capacity * 100 <= usize::MAX,
        ensures
            r == if self.pool.capacity == 0 {
                100
            } else {
                ((self.pool.capacity - count_true(self.pool.slots@)) * 100) / self.pool.capacity as int
            },
    {
        let total = self.pool.capacity;
        let free = self.pool.free_count();
        if total == 0 {
            return 100;
        }
        proof {
            crate::memory::lemma_count_true_bound(self.pool.slots@);
        }
        let used = total - free;
        proof {
            assert(used * 100 <= total * 100) by (nonlinear_arith)
                requires
                    used <= total,
            ;
        }
        (used * 100) / total
    }

    /// Blocks cached and blocks modified.
    pub fn cache_stats(&self) -> (r: (usize, usize))
        requires
            total_slots(self.cache.chains@) <= usize::MAX,
            total_modified(self.cache.chains@) <= usize::MAX,
        ensures
            r == (total_slots(self.cache.chains@) as usize, total_modified(self.cache.chains@) as usize),
    {
        (self.cache.total_entries(), self.cache.dirty_count())
    }

    /// Forks task `parent_id` (see `TaskTable::fork_task`); the child shares
    /// the parent's address space. "esrch" when there is no such task.
    pub fn do_fork(&mut self, parent_id: usize) -> (r: Result<usize, &'static str>)
        requires
            old(self).wf(),
            old(self).tasks.seq < usize::MAX,
            old(self).tasks.task(parent_id) matches Some(t) ==> pipe_room(t.files@, &old(self).vfs),
        ensures
            final(self).wf(),
            old(self).tasks.task(parent_id) is None ==> r == Err::<usize, &'static str>("esrch")
                && final(self).tasks.map@ == old(self).tasks.map@,
            old(self).tasks.task(parent_id) matches Some(p) ==> {
                &&& r == Ok::<usize, &'static str>(old(self).tasks.seq)
                &&& final(self).tasks.task(old(self).tasks.seq) matches Some(c) && c.parent == Some(parent_id)
                    && c.vm_token == p.vm_token && c.info.tag@ == p.info.tag@ && c.files@.len() == p.files@.len()
                &&& final(self).tasks.task(parent_id) matches Some(u) && u.subtasks@ == p.subtasks@.push(
                    old(self).tasks.seq,
                )
            },
    {
        if !self.tasks.contains(parent_id) {
            return Err("esrch");
        }
        let ghost v0 = self.vfs;
        let child_id = self.tasks.fork_task(&mut self.vfs, parent_id);
        let token = self.tasks.find(parent_id).unwrap().vm_token;
        let mut child = self.tasks.take(child_id).unwrap();
        child.vm_token = token;
        self.tasks.put(child_id, child);
        proof {
            assert forall|d: usize| #[trigger] self.tasks.task(d) is Some implies files_valid(self.tasks.task(d).unwrap().files@, &self.vfs) by {
                if d != child_id {
                    if let Some(t0) = old(self).tasks.task(d) {
                        lemma_files_grow(t0.files@, &v0, &self.vfs);
                    }
                }
            }
        }
        Ok(child_id)
    }

    /// Replaces the program of task `task_id`: its exec path becomes
    /// `path`, close-on-exec files are closed, and its saved context starts
    /// at 0x400000 with the stack pointer below the initial stack built
    /// from `args` and `envs`. "esrch" when there is no such task.
    pub fn do_exec(&mut self, task_id: usize, path: &str, args: Vec<String>, envs: Vec<String>) -> (r: Result<(), &'static str>)
        requires
            old(self).wf(),
        ensures
            final(self).wf(),
            old(self).tasks.task(task_id) is None ==> r == Err::<(), &'static str>("esrch")
                && final(self).tasks.map@ == old(self).tasks.map@,
            old(self).tasks.task(task_id) matches Some(t) ==> {
                &&& r == Ok::<(), &'static str>(())
                &&& final(self).tasks.task(task_id) matches Some(u) && {
                    &&& u.exec_path@ == path@
                    &&& u.files@ == t.files@.filter(kept_on_exec())
                    &&& u.thd_ctx matches Some(c) && c.uctx.ip == 0x0040_0000 && c.uctx.r@[15] == push_at_spec(
                        (USR_STK_OFF + USR_STK_SZ) as usize,
                        envs@,
                        args@,
                        0,
                    ) as u64
                    &&& u.info == t.info && u.parent == t.parent && u.subtasks@ == t.subtasks@ && u.pid == t.pid
                    &&& u.pgid == t.pgid && u.threads@ == t.threads@ && u.ev == t.ev && u.sig_queue@ == t.sig_queue@
                    &&& u.sig_mask == t.sig_mask && u.ep_inst@ == t.ep_inst@ && u.vm_token == t.vm_token
                }
            },
            forall|d: usize| d != task_id ==> #[trigger] final(self).tasks.task(d) == old(self).tasks.task(d),
            final(self).vfs == old(self).vfs,
    {
        let mut task = match self.tasks.take(task_id) {
            None => {
                return Err("esrch");
            },
            Some(t) => t,
        };
        proof {
            crate::process::lemma_lookup_in_table(old(self).tasks, task_id);
        }
        task.exec_path = path.to_owned();
        let ghost f0 = task.files@;
        let mut old_files: Vec<(usize, FLike)> = Vec::new();
        std::mem::swap(&mut old_files, &mut task.files);
        task.files = crate::process::drop_cloexec(old_files);
        let init = ProcInit { args, envs, auxv: BTreeMap::new() };
        let sp = init.push_at(USR_STK_OFF + USR_STK_SZ);
        let mut ctx = ThdCtx::default();
        ctx.uctx.set_sp(sp as u64);
        ctx.uctx.set_ip(0x0040_0000u64);
        task.thd_ctx = Some(ctx);
        proof {
            crate::process::lemma_filter_unique(f0, kept_on_exec());
            crate::process::lemma_filter_valid(f0, kept_on_exec(), &self.vfs);
        }
        self.tasks.put(task_id, task);
        Ok(())
    }

    /// Gives task `task_id` a new pipe: the read end, then the write end,
    /// each at the smallest unused descriptor. "esrch" when there is no
    /// such task.
    pub fn do_pipe(&mut self, task_id: usize) -> (r: Result<(usize, usize), &'static str>)
        requires
            old(self).wf(),
            old(self).tasks.task(task_id) matches Some(t) ==> t.files@.len() + 2 < usize::MAX,
        ensures
            final(self).wf(),
            old(self).tasks.task(task_id) is None ==> r == Err::<(usize, usize), &'static str>("esrch")
                && final(self).tasks.map@ == old(self).tasks.map@ && final(self).vfs == old(self).vfs,
            old(self).tasks.task(task_id) matches Some(t) ==> r matches Ok((rd, wr)) && {
                let p = old(self).vfs.pipes.len();
                &&& first_free(ids_of(t.files@), 0, rd as int)
                &&& first_free(ids_of(t.files@.push((rd, FLike::Pipe(PipeNode { data: p, dir: PipeDir::Rd })))), 0, wr as int)
                &&& final(self).tasks.task(task_id) matches Some(u) && u.files@ == t.files@.push(
                    (rd, FLike::Pipe(PipeNode { data: p, dir: PipeDir::Rd })),
                ).push((wr, FLike::Pipe(PipeNode { data: p, dir: PipeDir::Wr }))) && u.info == t.info
                    && u.parent == t.parent && u.subtasks@ == t.subtasks@ && u.pgid == t.pgid && u.threads@ == t.threads@
                &&& final(self).vfs.pipes@.len() == p + 1
            },
            forall|d: usize| d != task_id ==> #[trigger] final(self).tasks.task(d) == old(self).tasks.task(d),
            only_task(*old(self), *final(self), task_id),
    {
        let mut task = match self.tasks.take(task_id) {
            None => {
                return Err("esrch");
            },
            Some(t) => t,
        };
        proof {
            crate::process::lemma_lookup_in_table(old(self).tasks, task_id);
        }
        let ghost v0 = self.vfs;
        let (rd, wr) = PipeNode::pair(&mut self.vfs);
        proof {
            assert(rd == PipeNode { data: v0.pipes.len(), dir: PipeDir::Rd });
            assert(wr == PipeNode { data: v0.pipes.len(), dir: PipeDir::Wr });
        }
        let rd_fd = task.add_file(FLike::Pipe(rd));
        let wr_fd = task.add_file(FLike::Pipe(wr));
        proof {
            lemma_files_grow(old(self).tasks.task(task_id).unwrap().files@, &v0, &self.vfs);
            assert forall|d: usize| #[trigger] old(self).tasks.task(d) is Some implies files_valid(
                old(self).tasks.task(d).unwrap().files@,
                &self.vfs,
            ) by {
                lemma_files_grow(old(self).tasks.task(d).unwrap().files@, &v0, &self.vfs);
            }
            assert forall|k: int| 0 <= k < task.files@.len() implies (#[trigger] task.files@[k]).1.valid(&self.vfs) by {
                if k < task.files@.len() - 2 {
                    assert(task.files@[k] == old(self).tasks.task(task_id).unwrap().files@[k]);
                }
            }
        }
        self.tasks.put(task_id, task);
        Ok((rd_fd, wr_fd))
    }

    /// Waits (without blocking) for a child of `parent_id` selected by
    /// `target_pid` (see `wait_selects`) that is done: the first such
    /// child in the parent's list is reaped and its id and exit code
    /// returned. "esrch" without the parent; "echild" without children, or
    /// with none ready unless `options` has bit 0 (no hang), which answers
    /// (0, 0).
    pub fn do_wait(&mut self, parent_id: usize, target_pid: isize, options: usize) -> (r: Result<(usize, usize), &'static str>)
        requires
            old(self).wf(),
            target_pid != isize::MIN,
        ensures
            final(self).wf(),
            final(self).vfs == old(self).vfs,
            old(self).tasks.task(parent_id) is None ==> r == Err::<(usize, usize), &'static str>("esrch")
                && final(self).tasks.map@ == old(self).tasks.map@,
            old(self).tasks.task(parent_id) matches Some(p) ==> {
                let kids = p.subtasks@;
                if kids.len() == 0 {
                    r == Err::<(usize, usize), &'static str>("echild") && final(self).tasks.map@ == old(self).tasks.map@
                } else if exists|k: int| 0 <= k < kids.len() && #[trigger] ready_child(old(self).tasks, kids[k], target_pid, p.pgid) {
                    let k = choose|k: int|
                        0 <= k < kids.len() && #[trigger] ready_child(old(self).tasks, kids[k], target_pid, p.pgid) && forall|j: int|
                            0 <= j < k ==> !ready_child(old(self).tasks, kids[j], target_pid, p.pgid);
                    let c = old(self).tasks.task(kids[k]).unwrap();
                    &&& r == Ok::<(usize, usize), &'static str>((c.info.id, c.exit_code))
                    &&& reaped(old(self).tasks, final(self).tasks, c.info.id)
                } else {
                    &&& r == if options & 1 != 0 {
                        Ok::<(usize, usize), &'static str>((0, 0))
                    } else {
                        Err("echild")
                    }
                    &&& final(self).tasks.map@ == old(self).tasks.map@
                }
            },
    {
        let (kids, pgid) = match self.tasks.find(parent_id) {
            None => {
                return Err("esrch");
            },
            Some(p) => (copy_ids(&p.subtasks), p.pgid),
        };
        let wnohang = (options & 1) != 0;
        if kids.len() == 0 {
            return Err("echild");
        }
        match find_ready(&self.tasks, &kids, target_pid, pgid) {
            Some(k) => {
                let ch = self.tasks.find(kids[k]).unwrap();
                let id = ch.info.id;
                let code = ch.exit_code;
                proof {
                    let w = choose|w: int|
                        0 <= w < kids@.len() && #[trigger] ready_child(old(self).tasks, kids@[w], target_pid, pgid) && forall|j: int|
                            0 <= j < w ==> !ready_child(old(self).tasks, kids@[j], target_pid, pgid);
                    if w < k {
                    } else if w > k {
                        assert(ready_child(old(self).tasks, kids@[k as int], target_pid, pgid));
                    }
                }
                let ghost before = self.tasks;
                self.tasks.reap(id);
                proof {
                    assert forall|d: usize| #[trigger] self.tasks.task(d) is Some implies files_valid(
                        self.tasks.task(d).unwrap().files@,
                        &self.vfs,
                    ) by {
                        assert(before.task(d) is Some);
                    }
                }
                Ok((id, code))
            },
            None => {
                if wnohang {
                    Ok((0, 0))
                } else {
                    Err("echild")
                }
            },
        }
    }
}

/// Files kept across an exec: all but close-on-exec file handles.
pub open spec fn kept_on_exec() -> spec_fn((usize, FLike)) -> bool {
    |e: (usize, FLike)| !(e.1 matches FLike::File(h) && h.cloexec)
}

/// Child `id` is registered, selected by `target` for a parent in group
/// `pgid`, and done.
pub open spec fn ready_child(tt: TaskTable, id: usize, target: isize, pgid: i32) -> bool {
    tt.task(id) matches Some(c) && wait_selects(target, pgid, c) && c.info.status is Some
}

/// The table's keys ascend.
pub open spec fn keys_sorted_tt(tt: TaskTable) -> bool {
    crate::process::keys_sorted(tt.map@)
}

/// The first position in `kids` of a child ready for the wait.
fn find_ready(tt: &TaskTable, kids: &Vec<usize>, target_pid: isize, pgid: i32) -> (r: Option<usize>)
    requires
        keys_sorted_tt(*tt),
        target_pid != isize::MIN,
    ensures
        match r {
            Some(k) => k < kids@.len() && ready_child(*tt, kids@[k as int], target_pid, pgid) && forall|j: int|
                0 <= j < k ==> !#[trigger] ready_child(*tt, kids@[j], target_pid, pgid),
            None => forall|j: int| 0 <= j < kids@.len() ==> !#[trigger] ready_child(*tt, kids@[j], target_pid, pgid),
        },
{
    let mut i: usize = 0;
    while i < kids.len()
        invariant
            i <= kids@.len(),
            keys_sorted_tt(*tt),
            target_pid != isize::MIN,
            forall|j: int| 0 <= j < i ==> !#[trigger] ready_child(*tt, kids@[j], target_pid, pgid),
        decreases kids@.len() - i,
    {
        match tt.find(kids[i]) {
            Some(ch) => {
                let selects = if target_pid == -1 {
                    true
                } else if target_pid == 0 {
                    ch.pgid == pgid
                } else if target_pid > 0 {
                    ch.info.id == target_pid as usize
                } else {
                    ch.pgid == (-target_pid) as i32
                };
                if selects && ch.done() {
                    return Some(i);
                }
            },
            None => {},
        }
        i = i + 1;
    }
    None
}

/// A copy of a list of ids.
fn copy_ids(s: &Vec<usize>) -> (r: Vec<usize>)
    ensures
        r@ == s@,
{
    let mut out: Vec<usize> = Vec::new();
    let mut i: usize = 0;
    while i < s.len()
        invariant
            i <= s@.len(),
            out@ == s@.subrange(0, i as int),
        decreases s@.len() - i,
    {
        out.push(s[i]);
        i = i + 1;
        proof {
            assert(out@ =~= s@.subrange(0, i as int));
        }
    }
    proof {
        assert(out@ =~= s@);
    }
    out
}

/// A physical address names frame `k`.
pub open spec fn frame_of(pa: usize) -> Option<int> {
    if pa >= MEM_OFF && (pa - MEM_OFF) % (PAGE_SZ as int) == 0 {
        Some((pa - MEM_OFF) / (PAGE_SZ as int))
    } else {
        None
    }
}

/// Some address in `pages` names frame `k`.
pub open spec fn freed(pages: Seq<usize>, k: int) -> bool {
    exists|j: int| 0 <= j < pages.len() && frame_of(pages[j]) == Some(k)
}

proof fn lemma_freed_push(s: Seq<usize>, pa: usize, k: int)
    ensures
        freed(s.push(pa), k) == (freed(s, k) || frame_of(pa) == Some(k)),
{
    if freed(s, k) {
        let j = choose|j: int| 0 <= j < s.len() && frame_of(s[j]) == Some(k);
        assert(s.push(pa)[j] == s[j]);
    }
    if frame_of(pa) == Some(k) {
        assert(s.push(pa)[s.len() as int] == pa);
    }
    if freed(s.push(pa), k) {
        let j = choose|j: int| 0 <= j < s.push(pa).len() && frame_of(s.push(pa)[j]) == Some(k);
        if j < s.len() {
            assert(s[j] == s.push(pa)[j]);
        }
    }
}

/// The serial normalisation of a byte.
pub open spec fn ser_spec(byte: u8) -> u8 {
    if byte == 13 {
        10u8
    } else {
        byte
    }
}

/// The inputs `balance_load` hands to `compute_load_balance`.
pub open spec fn load_inputs(k: &Kernel) -> (Seq<usize>, Seq<i32>, Seq<bool>) {
    let at = |i: int| match k.cpus@[i] {
        Some(id) => k.tasks.task(id),
        None => None,
    };
    (
        Seq::new(MAX_CPU as nat, |i: int| match at(i) {
            Some(t) => (t.subtasks@.len() + 1) as usize,
            None => 0usize,
        }),
        Seq::new(MAX_CPU as nat, |i: int| match at(i) {
            Some(t) => t.pgid,
            None => 0i32,
        }),
        Seq::new(MAX_CPU as nat, |i: int| match at(i) {
            Some(t) => t.info.status is Some,
            None => false,
        }),
    )
}

} // verus!

use vstd::prelude::*;
use crate::consts::NSIG;
use crate::epoll::EpInst;
use crate::file::{swap_out, Vfs};
use crate::file_like::FLike;
use crate::ipc::{
    collect_ids, find_id, first_free, ids_of, lookup_id, smallest_free, SemCtx, ShmCtx,
};
use crate::pipe::{close_view, pipe_view, PipeDir, PipeNode, PipeView};
use crate::sync::{change_spec, EventBus, EventFlag};
use crate::task::{push_at_spec, Pid, ProcInit, ProcessGroup, TaskInfo, ThdCtx};
use crate::file::{FHandle, FdOpt, FdState};
use crate::consts::{USR_STK_OFF, USR_STK_SZ};
use std::collections::BTreeMap;
use crate::mount::str_eq;
use crate::condvar::without_tid;

verus! {

/// A simulated process: its identity and status, its parent and children
/// (by id), open files by descriptor, IPC contexts, thread ids, event bus,
/// exit code, queued signals with their senders, signal mask, epoll
/// instances by descriptor, saved thread context and address-space token.
pub struct Task {
    pub info: TaskInfo,
    pub parent: Option<usize>,
    pub subtasks: Vec<usize>,
    pub files: Vec<(usize, FLike)>,
    pub cwd: String,
    pub exec_path: String,
    pub sem_ctx: SemCtx,
    pub shm_ctx: ShmCtx,
    pub pid: Pid,
    pub pgid: i32,
    pub threads: Vec<usize>,
    pub ev: EventBus,
    pub exit_code: usize,
    pub sig_queue: Vec<(i32, isize)>,
    pub sig_mask: u64,
    pub ep_inst: Vec<(usize, EpInst)>,
    pub thd_ctx: Option<ThdCtx>,
    pub vm_token: usize,
}

/// Whether an entry's key is not `d`.
pub open spec fn key_not<V>(d: usize) -> spec_fn((usize, V)) -> bool {
    |e: (usize, V)| e.0 != d
}

/// Descriptors appear at most once.
pub open spec fn fds_unique<V>(s: Seq<(usize, V)>) -> bool {
    forall|a: int, b: int| 0 <= a < b < s.len() ==> s[a].0 != s[b].0
}

/// Every open file refers to objects of `v`.
pub open spec fn files_valid(s: Seq<(usize, FLike)>, v: &Vfs) -> bool {
    forall|k: int| 0 <= k < s.len() ==> (#[trigger] s[k]).1.valid(v)
}

/// The pipes of `v` as seen through `pipe_view`.
pub open spec fn pipe_views(v: &Vfs) -> Seq<PipeView> {
    v.pipes@.map_values(|p| pipe_view(p))
}

/// The pipes after the files of `s` are dropped, last first: every pipe
/// end closes.
pub open spec fn after_drops(views: Seq<PipeView>, s: Seq<(usize, FLike)>) -> Seq<PipeView>
    decreases s.len(),
{
    if s.len() == 0 {
        views
    } else {
        let v1 = match s.last().1 {
            FLike::Pipe(p) => views.update(p.data as int, close_view(views[p.data as int], p.dir)),
            _ => views,
        };
        after_drops(v1, s.drop_last())
    }
}

/// The pipes after one file is dropped.
pub open spec fn after_drop(views: Seq<PipeView>, f: FLike) -> Seq<PipeView> {
    match f {
        FLike::Pipe(p) => views.update(p.data as int, close_view(views[p.data as int], p.dir)),
        _ => views,
    }
}

/// `v` changed only in its pipes, which kept their number.
pub open spec fn only_pipes_changed(old_v: &Vfs, new_v: &Vfs) -> bool {
    &&& new_v.pipes@.len() == old_v.pipes@.len()
    &&& new_v.files@ == old_v.files@
    &&& new_v.descs@ == old_v.descs@
    &&& new_v.ep_maps@ == old_v.ep_maps@
    &&& new_v.ep_sets@ == old_v.ep_sets@
}

/// A queued signal (`signo`, `sender`) reaches task `id` under `mask`:
/// it is for every thread or for `id`, in range, and not masked.
pub open spec fn sig_deliverable(sig: (i32, isize), mask: u64, id: usize) -> bool {
    &&& (sig.1 == -1 || sig.1 as usize == id)
    &&& 0 <= sig.0 < 64
    &&& mask & (1u64 << (sig.0 as u64)) == 0
}

/// Drops a file: a pipe end closes; other files need nothing.
pub fn drop_file(f: FLike, v: &mut Vfs)
    requires
        f.valid(old(v)),
    ensures
        only_pipes_changed(old(v), final(v)),
        pipe_views(final(v)) == after_drop(pipe_views(old(v)), f),
{
    match f {
        FLike::Pipe(p) => {
            let ghost pd = p.data;
            p.close(v);
            proof {
                assert(pipe_views(v) =~= after_drop(pipe_views(old(v)), f));
            }
        },
        _ => {
            proof {
                assert(pipe_views(v) =~= pipe_views(old(v)));
            }
        },
    }
}

/// `t` is a fresh task `id` named `tag`: no status, parent, children,
/// files, IPC state, threads, signals or epoll instances; pid 0, group 0,
/// a quiet bus, exit code 0, no mask, a saved thread context and token 0.
pub open spec fn is_fresh(t: Task, id: usize, tag: Seq<char>) -> bool {
    &&& fresh_core(t, id, tag)
    &&& t.thd_ctx is Some
    &&& t.vm_token == 0
}

/// `t` is fresh apart from its thread context and address-space token.
pub open spec fn fresh_core(t: Task, id: usize, tag: Seq<char>) -> bool {
    &&& t.info.id == id
    &&& t.info.tag@ == tag
    &&& t.info.status is None
    &&& t.parent is None
    &&& t.subtasks@.len() == 0
    &&& t.files@.len() == 0
    &&& t.exec_path@.len() == 0
    &&& t.sem_ctx.arrays@.len() == 0
    &&& t.sem_ctx.undos@.len() == 0
    &&& t.shm_ctx.ids@.len() == 0
    &&& t.pid.0 == 0
    &&& t.pgid == 0
    &&& t.threads@.len() == 0
    &&& t.ev.events == 0
    &&& t.ev.callbacks@.len() == 0
    &&& t.exit_code == 0
    &&& t.sig_queue@.len() == 0
    &&& t.sig_mask == 0
    &&& t.ep_inst@.len() == 0
}

/// `u` is `t` after signal `signo` from `sender` was sent: queued and
/// announced with `RECV_SIG`, unless it is a standard signal already queued
/// from that sender; nothing else changes.
pub open spec fn sig_sent(t: Task, u: Task, signo: i32, sender: isize) -> bool {
    &&& same_core(t, u)
    &&& u.parent == t.parent
    &&& u.subtasks@ == t.subtasks@
    &&& if (exists|k: int| 0 <= k < t.sig_queue@.len() && #[trigger] t.sig_queue@[k] == (signo, sender)) && signo > 0
        && signo < NSIG {
        u.sig_queue@ == t.sig_queue@ && u.ev == t.ev
    } else {
        u.sig_queue@ == t.sig_queue@.push((signo, sender)) && (u.ev.events, u.ev.callbacks@) == change_spec(
            t.ev,
            0,
            EventFlag::RECV_SIG,
        )
    }
}

/// `a` and `b` agree on everything but their parent and children.
pub open spec fn same_but_links(a: Task, b: Task) -> bool {
    &&& same_core(a, b)
    &&& a.ev == b.ev
    &&& a.sig_queue@ == b.sig_queue@
}

/// `a` and `b` agree on everything but their parent, children, event bus
/// and signal queue.
pub open spec fn same_core(a: Task, b: Task) -> bool {
    &&& a.info == b.info
    &&& a.files@ == b.files@
    &&& a.cwd@ == b.cwd@
    &&& a.exec_path@ == b.exec_path@
    &&& a.sem_ctx.arrays@ == b.sem_ctx.arrays@
    &&& a.sem_ctx.undos@ == b.sem_ctx.undos@
    &&& a.shm_ctx.ids@ == b.shm_ctx.ids@
    &&& a.pid == b.pid
    &&& a.pgid == b.pgid
    &&& a.threads@ == b.threads@
    &&& a.exit_code == b.exit_code
    &&& a.sig_mask == b.sig_mask
    &&& a.ep_inst@ == b.ep_inst@
    &&& a.thd_ctx == b.thd_ctx
    &&& a.vm_token == b.vm_token
}

impl Task {
    /// Descriptors and epoll descriptors are unique.
    pub open spec fn wf(&self) -> bool {
        &&& fds_unique(self.files@)
        &&& fds_unique(self.ep_inst@)
    }

    /// The open file at `fd`.
    pub open spec fn file(&self, fd: usize) -> Option<FLike> {
        lookup_id(self.files@, fd)
    }

    /// A fresh task `id` named `tag`: no parent, children, files, threads or
    /// signals; root directory; default thread context.
    pub fn make(id: usize, tag: &str) -> (r: Self)
        ensures
            r.wf(),
            is_fresh(r, id, tag@),
            r.cwd@ == "/"@,
    {
        Task {
            info: TaskInfo { id, tag: tag.to_string(), status: None, fds: Vec::new() },
            parent: None,
            subtasks: Vec::new(),
            files: Vec::new(),
            cwd: "/".to_string(),
            exec_path: String::new(),
            sem_ctx: SemCtx::new(),
            shm_ctx: ShmCtx::new(),
            pid: Pid::new(),
            pgid: 0,
            threads: Vec::new(),
            ev: EventBus::make(),
            exit_code: 0,
            sig_queue: Vec::new(),
            sig_mask: 0,
            ep_inst: Vec::new(),
            thd_ctx: Some(ThdCtx::default()),
            vm_token: 0,
        }
    }

    pub fn id(&self) -> (r: usize)
        ensures
            r == self.info.id,
    {
        self.info.id
    }

    pub fn tag(&self) -> (r: String)
        ensures
            r@ == self.info.tag@,
    {
        self.info.tag.clone()
    }

    pub fn link_parent(&mut self, parent: usize)
        ensures
            final(self).parent == Some(parent),
            final(self).subtasks@ == old(self).subtasks@,
            same_but_links(*old(self), *final(self)),
    {
        self.parent = Some(parent);
    }

    pub fn link_child(&mut self, child: usize)
        ensures
            final(self).subtasks@ == old(self).subtasks@.push(child),
            final(self).parent == old(self).parent,
            same_but_links(*old(self), *final(self)),
    {
        self.subtasks.push(child);
    }

    /// A task is done once it has an exit status.
    pub fn done(&self) -> (r: bool)
        ensures
            r == self.info.status is Some,
    {
        self.info.status.is_some()
    }

    pub fn n_children(&self) -> (r: usize)
        ensures
            r == self.subtasks@.len(),
    {
        self.subtasks.len()
    }

    /// The smallest unused descriptor.
    pub fn get_free_fd(&self) -> (r: usize)
        requires
            self.files@.len() + 1 < usize::MAX,
        ensures
            first_free(ids_of(self.files@), 0, r as int),
    {
        let ids = collect_ids(&self.files);
        smallest_free(&ids, 0)
    }

    /// The smallest unused descriptor from `start_fd` on.
    pub fn get_free_fd_from(&self, start_fd: usize) -> (r: usize)
        requires
            start_fd + self.files@.len() + 1 < usize::MAX,
        ensures
            first_free(ids_of(self.files@), start_fd as int, r as int),
    {
        let ids = collect_ids(&self.files);
        smallest_free(&ids, start_fd)
    }

    /// Installs `file` at the smallest unused descriptor and returns it.
    pub fn add_file(&mut self, file: FLike) -> (r: usize)
        requires
            old(self).wf(),
            old(self).files@.len() + 1 < usize::MAX,
        ensures
            final(self).wf(),
            first_free(ids_of(old(self).files@), 0, r as int),
            final(self).files@ == old(self).files@.push((r, file)),
            *final(self) == (Task { files: final(self).files, ..*old(self) }),
    {
        let fd = self.get_free_fd();
        proof {
            assert forall|k: int| 0 <= k < old(self).files@.len() implies old(self).files@[k].0 != fd by {
                assert(ids_of(old(self).files@)[k] == old(self).files@[k].0);
            }
        }
        self.files.push((fd, file));
        fd
    }

    /// The open file at `fd`.
    pub fn get_file(&self, fd: usize) -> (r: Option<&FLike>)
        ensures
            match r {
                Some(f) => self.file(fd) == Some(*f),
                None => self.file(fd) is None,
            },
    {
        match find_id(&self.files, fd) {
            Some(j) => Some(&self.files[j].1),
            None => None,
        }
    }

    /// Closes every file, raises `PROC_QUIT`, records the exit code, drops
    /// the threads and takes the status from the code's low byte. Returns
    /// the parent, whose bus is to get `CHILD_QUIT`.
    pub fn exit_proc(&mut self, v: &mut Vfs, code: usize) -> (r: Option<usize>)
        requires
            files_valid(old(self).files@, old(v)),
        ensures
            r == old(self).parent,
            final(self).files@.len() == 0,
            only_pipes_changed(old(v), final(v)),
            pipe_views(final(v)) == after_drops(pipe_views(old(v)), old(self).files@),
            (final(self).ev.events, final(self).ev.callbacks@) == change_spec(old(self).ev, 0, EventFlag::PROC_QUIT),
            final(self).exit_code == code,
            final(self).threads@.len() == 0,
            final(self).info.status == Some((code & 0xFF) as i32),
            final(self).info.id == old(self).info.id,
            final(self).parent == old(self).parent,
            final(self).subtasks@ == old(self).subtasks@,
            final(self).pgid == old(self).pgid,
            final(self).ep_inst@ == old(self).ep_inst@,
            fds_unique(old(self).ep_inst@) ==> fds_unique(final(self).ep_inst@),
    {
        self.close_all(v);
        self.ev.set(EventFlag::PROC_QUIT);
        self.exit_code = code;
        self.threads.clear();
        self.info.status = Some((code & 0xFF) as i32);
        self.parent
    }

    /// Drops every open file, last first.
    fn close_all(&mut self, v: &mut Vfs)
        requires
            files_valid(old(self).files@, old(v)),
        ensures
            final(self).files@.len() == 0,
            only_pipes_changed(old(v), final(v)),
            pipe_views(final(v)) == after_drops(pipe_views(old(v)), old(self).files@),
            final(self).ev == old(self).ev,
            final(self).info == old(self).info,
            final(self).parent == old(self).parent,
            final(self).subtasks@ == old(self).subtasks@,
            final(self).pgid == old(self).pgid,
            final(self).ep_inst@ == old(self).ep_inst@,
            final(self).threads@ == old(self).threads@,
    {
        while self.files.len() > 0
            invariant
                files_valid(self.files@, v),
                only_pipes_changed(old(v), v),
                after_drops(pipe_views(v), self.files@) == after_drops(pipe_views(old(v)), old(self).files@),
                self.ev == old(self).ev,
                self.info == old(self).info,
                self.parent == old(self).parent,
                self.subtasks@ == old(self).subtasks@,
                self.pgid == old(self).pgid,
                self.ep_inst@ == old(self).ep_inst@,
                self.threads@ == old(self).threads@,
            decreases self.files@.len(),
        {
            let ghost before = self.files@;
            let ghost vb = *v;
            let (_, f) = self.files.pop().unwrap();
            proof {
                assert(before.drop_last() == self.files@);
                assert(before[before.len() - 1].1.valid(v));
            }
            drop_file(f, v);
            proof {
                assert forall|k: int| 0 <= k < self.files@.len() implies (#[trigger] self.files@[k]).1.valid(v) by {
                    assert(before[k] == self.files@[k]);
                    assert(before[k].1.valid(&vb));
                }
            }
        }
    }

    /// Whether the task has finished: no threads, or an exit status.
    pub fn exited(&self) -> (r: bool)
        ensures
            r == (self.threads@.len() == 0 || self.info.status is Some),
    {
        self.threads.len() == 0 || self.info.status.is_some()
    }

    /// A handle on the epoll instance at `fd`; "eperm" when there is none.
    pub fn get_ep_mut(&self, fd: usize) -> (r: Result<EpInst, &'static str>)
        ensures
            match lookup_id(self.ep_inst@, fd) {
                Some(e) => r matches Ok(h) && h.events.inner == e.events.inner && h.ready == e.ready
                    && h.new_ctl == e.new_ctl,
                None => r == Err::<EpInst, &'static str>("eperm"),
            },
    {
        match find_id(&self.ep_inst, fd) {
            Some(j) => Ok(self.ep_inst[j].1.share()),
            None => Err("eperm"),
        }
    }

    pub fn get_ep_ref(&self, fd: usize) -> (r: Result<EpInst, &'static str>)
        ensures
            match lookup_id(self.ep_inst@, fd) {
                Some(e) => r matches Ok(h) && h.events.inner == e.events.inner && h.ready == e.ready
                    && h.new_ctl == e.new_ctl,
                None => r == Err::<EpInst, &'static str>("eperm"),
            },
    {
        self.get_ep_mut(fd)
    }

    /// Installs `instance` at `fd`, replacing any instance there.
    pub fn set_ep(&mut self, fd: usize, instance: EpInst)
        requires
            fds_unique(old(self).ep_inst@),
        ensures
            fds_unique(final(self).ep_inst@),
            lookup_id(final(self).ep_inst@, fd) == Some(instance),
            forall|d: usize| d != fd ==> lookup_id(final(self).ep_inst@, d) == lookup_id(old(self).ep_inst@, d),
            final(self).files@ == old(self).files@,
            final(self).info == old(self).info,
    {
        let ghost e0 = self.ep_inst@;
        match find_id(&self.ep_inst, fd) {
            Some(j) => {
                let _ = swap_out(&mut self.ep_inst, j, (fd, instance));
                proof {
                    assert forall|d: usize| lookup_id(self.ep_inst@, d) == if d == fd {
                        Some(instance)
                    } else {
                        lookup_id(e0, d)
                    } by {
                        lemma_lookup_unique(self.ep_inst@, d);
                        lemma_lookup_unique(e0, d);
                        if lookup_id(e0, d) is Some {
                            let k = choose|k: int| 0 <= k < e0.len() && e0[k].0 == d;
                            assert(self.ep_inst@[k].0 == d);
                        }
                        if lookup_id(self.ep_inst@, d) is Some {
                            let k = choose|k: int| 0 <= k < self.ep_inst@.len() && self.ep_inst@[k].0 == d;
                            assert(e0[k].0 == d);
                        }
                    }
                }
            },
            None => {
                self.ep_inst.push((fd, instance));
                proof {
                    assert forall|d: usize| lookup_id(self.ep_inst@, d) == if d == fd {
                        Some(instance)
                    } else {
                        lookup_id(e0, d)
                    } by {
                        lemma_lookup_unique(self.ep_inst@, d);
                        lemma_lookup_unique(e0, d);
                        if lookup_id(e0, d) is Some {
                            let k = choose|k: int| 0 <= k < e0.len() && e0[k].0 == d;
                            assert(self.ep_inst@[k].0 == d);
                        }
                        if d != fd && lookup_id(self.ep_inst@, d) is Some {
                            let k = choose|k: int| 0 <= k < self.ep_inst@.len() && self.ep_inst@[k].0 == d;
                            assert(e0[k].0 == d);
                        }
                        if d == fd {
                            assert(self.ep_inst@[e0.len() as int].0 == fd);
                        }
                    }
                }
            },
        }
    }

    /// Takes the saved thread context to run it (a default one when none
    /// is saved).
    pub fn begin_run(&mut self) -> (r: ThdCtx)
        ensures
            *final(self) == (Task { thd_ctx: None, ..*old(self) }),
            old(self).thd_ctx is Some ==> r == old(self).thd_ctx.unwrap(),
            old(self).thd_ctx is None ==> r.clear_tid == 0 && r.smask == 0,
    {
        match self.thd_ctx.take() {
            Some(c) => c,
            None => ThdCtx::default(),
        }
    }

    /// Saves the thread context after running.
    pub fn end_run(&mut self, context: ThdCtx)
        ensures
            *final(self) == (Task { thd_ctx: Some(context), ..*old(self) }),
    {
        self.thd_ctx = Some(context);
    }

    /// Whether some queued signal can reach the task.
    pub fn has_sig(&self) -> (r: bool)
        ensures
            r == exists|k: int|
                0 <= k < self.sig_queue@.len() && sig_deliverable(#[trigger] self.sig_queue@[k], self.sig_mask, self.info.id),
    {
        let mask = self.sig_mask;
        let id = self.info.id;
        let mut i: usize = 0;
        while i < self.sig_queue.len()
            invariant
                i <= self.sig_queue@.len(),
                mask == self.sig_mask,
                id == self.info.id,
                forall|k: int| 0 <= k < i ==> !sig_deliverable(#[trigger] self.sig_queue@[k], mask, id),
            decreases self.sig_queue@.len() - i,
        {
            let (signal, sender) = self.sig_queue[i];
            let for_us = sender == -1 || sender as usize == id;
            if for_us && signal >= 0 && signal < 64 {
                let bit: u64 = 1u64 << (signal as u64);
                if mask & bit == 0 {
                    proof {
                        assert(sig_deliverable(self.sig_queue@[i as int], mask, id));
                    }
                    return true;
                }
            }
            i = i + 1;
        }
        false
    }

    /// Queues signal `signo` from `sender_tid` and raises `RECV_SIG`. A
    /// standard signal (1 to `NSIG - 1`) already queued from the same sender
    /// is not queued again.
    pub fn send_sig(&mut self, signo: i32, sender_tid: isize)
        ensures
            sig_sent(*old(self), *final(self), signo, sender_tid),
    {
        let mut dup = false;
        let mut i: usize = 0;
        while i < self.sig_queue.len()
            invariant
                i <= self.sig_queue@.len(),
                self.sig_queue@ == old(self).sig_queue@,
                dup == exists|k: int| 0 <= k < i && #[trigger] self.sig_queue@[k] == (signo, sender_tid),
            decreases self.sig_queue@.len() - i,
        {
            if self.sig_queue[i].0 == signo && self.sig_queue[i].1 == sender_tid {
                dup = true;
            }
            i = i + 1;
        }
        if dup && signo > 0 && (signo as u32) < NSIG {
            return;
        }
        self.sig_queue.push((signo, sender_tid));
        self.ev.set(EventFlag::RECV_SIG);
    }

    /// Closes `fd` (dropping the file); "ebadf" when it is not open.
    pub fn close_fd(&mut self, v: &mut Vfs, fd: usize) -> (r: Result<(), &'static str>)
        requires
            old(self).wf(),
            files_valid(old(self).files@, old(v)),
        ensures
            final(self).wf(),
            files_valid(final(self).files@, final(v)),
            old(self).file(fd) is None ==> r == Err::<(), &'static str>("ebadf") && final(self).files@
                == old(self).files@ && *final(v) == *old(v),
            old(self).file(fd) matches Some(f) ==> {
                &&& r == Ok::<(), &'static str>(())
                &&& final(self).files@ == old(self).files@.filter(key_not::<FLike>(fd))
                &&& only_pipes_changed(old(v), final(v))
                &&& pipe_views(final(v)) == after_drop(pipe_views(old(v)), f)
            },
            final(self).info == old(self).info,
            final(self).parent == old(self).parent,
            final(self).subtasks@ == old(self).subtasks@,
            final(self).ep_inst@ == old(self).ep_inst@,
    {
        match find_id(&self.files, fd) {
            None => Err("ebadf"),
            Some(j) => {
                let ghost f0 = self.files@;
                let (_, f) = self.files.remove(j);
                proof {
                    assert(f0[j as int].1.valid(v));
                    lemma_remove_unique(f0, j as int);
                }
                drop_file(f, v);
                proof {
                    assert forall|k: int| 0 <= k < self.files@.len() implies (#[trigger] self.files@[k]).1.valid(v) by {
                        if k < j {
                            assert(self.files@[k] == f0[k]);
                        } else {
                            assert(self.files@[k] == f0[k + 1]);
                        }
                    }
                }
                Ok(())
            },
        }
    }

    /// Duplicates `old_fd` to the smallest unused descriptor with the
    /// given close-on-exec flag; "ebadf" when `old_fd` is not open.
    pub fn dup_fd(&mut self, v: &mut Vfs, old_fd: usize, cloexec: bool) -> (r: Result<usize, &'static str>)
        requires
            old(self).wf(),
            files_valid(old(self).files@, old(v)),
            old(self).files@.len() + 1 < usize::MAX,
            pipe_room(old(self).files@, old(v)),
        ensures
            final(self).wf(),
            old(self).file(old_fd) is None ==> r == Err::<usize, &'static str>("ebadf") && final(self).files@
                == old(self).files@ && *final(v) == *old(v),
            old(self).file(old_fd) is Some ==> (r matches Ok(nfd) && first_free(ids_of(old(self).files@), 0, nfd as int)
                && final(self).files@.len() == old(self).files@.len() + 1 && final(self).files@.drop_last()
                == old(self).files@ && final(self).files@.last().0 == nfd),
            files_valid(final(self).files@, final(v)),
            only_pipes_changed(old(v), final(v)),
            final(self).info == old(self).info,
            final(self).parent == old(self).parent,
            final(self).subtasks@ == old(self).subtasks@,
    {
        match find_id(&self.files, old_fd) {
            None => Err("ebadf"),
            Some(j) => {
                proof {
                    assert(self.files@[j as int].1.valid(v));
                }
                let copy = self.files[j].1.dup(v, cloexec);
                let fd = self.add_file(copy);
                proof {
                    assert forall|k: int| 0 <= k < self.files@.len() implies (#[trigger] self.files@[k]).1.valid(v) by {
                        if k < old(self).files@.len() {
                            assert(self.files@[k] == old(self).files@[k]);
                            assert(old(self).files@[k].1.valid(old(v)));
                        }
                    }
                }
                Ok(fd)
            },
        }
    }

    /// Duplicates `old_fd` onto `new_fd`, dropping any file there; the same
    /// descriptor twice only checks it is open. "ebadf" when `old_fd` is not
    /// open.
    pub fn dup2_fd(&mut self, v: &mut Vfs, old_fd: usize, new_fd: usize) -> (r: Result<usize, &'static str>)
        requires
            old(self).wf(),
            files_valid(old(self).files@, old(v)),
            pipe_room(old(self).files@, old(v)),
        ensures
            final(self).wf(),
            old(self).file(old_fd) is None ==> r == Err::<usize, &'static str>("ebadf") && final(self).files@
                == old(self).files@ && *final(v) == *old(v),
            old(self).file(old_fd) is Some && old_fd == new_fd ==> r == Ok::<usize, &'static str>(new_fd)
                && final(self).files@ == old(self).files@ && *final(v) == *old(v),
            old(self).file(old_fd) is Some && old_fd != new_fd ==> r == Ok::<usize, &'static str>(new_fd)
                && final(self).file(new_fd) is Some && forall|d: usize| d != new_fd ==> #[trigger] final(self).file(d)
                == old(self).file(d),
            files_valid(final(self).files@, final(v)),
            only_pipes_changed(old(v), final(v)),
            final(self).info == old(self).info,
            final(self).parent == old(self).parent,
            final(self).subtasks@ == old(self).subtasks@,
    {
        let j = match find_id(&self.files, old_fd) {
            None => return Err("ebadf"),
            Some(j) => j,
        };
        if old_fd == new_fd {
            return Ok(new_fd);
        }
        proof {
            assert(self.files@[j as int].1.valid(v));
        }
        let copy = self.files[j].1.dup(v, false);
        let ghost f0 = self.files@;
        match find_id(&self.files, new_fd) {
            Some(k) => {
                let (_, replaced) = swap_out(&mut self.files, k, (new_fd, copy));
                proof {
                    assert forall|a: int, b: int| 0 <= a < b < self.files@.len() implies self.files@[a].0 != self.files@[b].0 by {
                        assert(f0[a].0 != f0[b].0);
                    }
                    assert forall|d: usize| d != new_fd implies #[trigger] lookup_id(self.files@, d) == lookup_id(f0, d) by {
                        lemma_lookup_unique(self.files@, d);
                        lemma_lookup_unique(f0, d);
                        if lookup_id(f0, d) is Some {
                            let w = choose|w: int| 0 <= w < f0.len() && f0[w].0 == d;
                            assert(self.files@[w].0 == d);
                        }
                        if lookup_id(self.files@, d) is Some {
                            let w = choose|w: int| 0 <= w < self.files@.len() && self.files@[w].0 == d;
                            assert(f0[w].0 == d);
                        }
                    }
                    assert(self.files@[k as int].0 == new_fd);
                }
                proof {
                    assert(f0[k as int].1.valid(v));
                }
                let ghost vb = *v;
                drop_file(replaced, v);
                proof {
                    assert forall|q: int| 0 <= q < self.files@.len() implies (#[trigger] self.files@[q]).1.valid(v) by {
                        if q != k {
                            assert(self.files@[q] == f0[q]);
                            assert(old(self).files@[q].1.valid(old(v)));
                        }
                    }
                }
            },
            None => {
                self.files.push((new_fd, copy));
                proof {
                    assert forall|a: int, b: int| 0 <= a < b < self.files@.len() implies self.files@[a].0 != self.files@[b].0 by {
                        if b < f0.len() {
                            assert(f0[a].0 != f0[b].0);
                        }
                    }
                    assert forall|d: usize| d != new_fd implies #[trigger] lookup_id(self.files@, d) == lookup_id(f0, d) by {
                        lemma_lookup_unique(self.files@, d);
                        lemma_lookup_unique(f0, d);
                        if lookup_id(f0, d) is Some {
                            let w = choose|w: int| 0 <= w < f0.len() && f0[w].0 == d;
                            assert(self.files@[w].0 == d);
                        }
                        if lookup_id(self.files@, d) is Some {
                            let w = choose|w: int| 0 <= w < self.files@.len() && self.files@[w].0 == d;
                            if w < f0.len() {
                                assert(f0[w].0 == d);
                            }
                        }
                    }
                    assert(self.files@[f0.len() as int].0 == new_fd);
                    assert forall|q: int| 0 <= q < self.files@.len() implies (#[trigger] self.files@[q]).1.valid(v) by {
                        if q < f0.len() {
                            assert(self.files@[q] == f0[q]);
                            assert(old(self).files@[q].1.valid(old(v)));
                        }
                    }
                }
            },
        }
        Ok(new_fd)
    }

    pub fn fd_count(&self) -> (r: usize)
        ensures
            r == self.files@.len(),
    {
        self.files.len()
    }

    /// Sets the close-on-exec flag of the file at `fd`; other kinds of open
    /// descriptor are left as they are. "ebadf" when `fd` is not open.
    pub fn set_cloexec(&mut self, fd: usize, value: bool) -> (r: Result<(), &'static str>)
        requires
            old(self).wf(),
        ensures
            final(self).wf(),
            old(self).file(fd) is None ==> r == Err::<(), &'static str>("ebadf") && final(self).files@
                == old(self).files@,
            old(self).file(fd) is Some ==> r == Ok::<(), &'static str>(()),
            old(self).file(fd) matches Some(FLike::File(h)) ==> (final(self).file(fd) matches Some(FLike::File(g))
                && g.cloexec == value && g.data == h.data && g.desc == h.desc && g.path@ == h.path@
                && g.pipe == h.pipe),
            !(old(self).file(fd) matches Some(FLike::File(_))) ==> final(self).files@ == old(self).files@,
            forall|d: usize| d != fd ==> #[trigger] final(self).file(d) == old(self).file(d),
            final(self).files@.len() == old(self).files@.len(),
            final(self).info == old(self).info,
    {
        match find_id(&self.files, fd) {
            None => Err("ebadf"),
            Some(j) => {
                let ghost f0 = self.files@;
                let (k, entry) = self.files.remove(j);
                let entry = match entry {
                    FLike::File(mut h) => {
                        h.cloexec = value;
                        FLike::File(h)
                    },
                    other => other,
                };
                self.files.insert(j, (k, entry));
                proof {
                    assert forall|a: int, b: int| 0 <= a < b < self.files@.len() implies self.files@[a].0 != self.files@[b].0 by {
                        assert(f0[a].0 != f0[b].0);
                    }
                    assert forall|d: usize| d != fd implies #[trigger] lookup_id(self.files@, d) == lookup_id(f0, d) by {
                        lemma_lookup_unique(self.files@, d);
                        lemma_lookup_unique(f0, d);
                        if lookup_id(f0, d) is Some {
                            let w = choose|w: int| 0 <= w < f0.len() && f0[w].0 == d;
                            assert(self.files@[w].0 == d);
                        }
                        if lookup_id(self.files@, d) is Some {
                            let w = choose|w: int| 0 <= w < self.files@.len() && self.files@[w].0 == d;
                            assert(f0[w].0 == d);
                        }
                    }
                    lemma_lookup_unique(self.files@, fd);
                    assert(self.files@[j as int].0 == fd);
                    if !(f0[j as int].1 is File) {
                        assert(self.files@ =~= f0);
                    }
                }
                Ok(())
            },
        }
    }
}

/// Every pipe has room for as many more ends as `s` holds files.
pub open spec fn pipe_room(s: Seq<(usize, FLike)>, v: &Vfs) -> bool {
    forall|i: int|
        0 <= i < v.pipes@.len() ==> {
            &&& (#[trigger] v.pipes@[i]).ends + s.len() < i32::MAX
            &&& v.pipes@[i].readers + s.len() < i32::MAX
            &&& v.pipes@[i].writers + s.len() < i32::MAX
        }
}

/// With unique keys, the entry for `d` is the one holding `d`.
proof fn lemma_lookup_unique<V>(s: Seq<(usize, V)>, d: usize)
    requires
        fds_unique(s),
    ensures
        forall|k: int| 0 <= k < s.len() && s[k].0 == d ==> lookup_id(s, d) == Some(s[k].1),
        lookup_id(s, d) is None <==> forall|k: int| 0 <= k < s.len() ==> s[k].0 != d,
{
    assert forall|k: int| 0 <= k < s.len() && s[k].0 == d implies lookup_id(s, d) == Some(s[k].1) by {
        assert forall|i: int| 0 <= i < k implies s[i].0 != d by {
            assert(s[i].0 != s[k].0);
        }
        let w = choose|j: int| 0 <= j < s.len() && s[j].0 == d && forall|i: int| 0 <= i < j ==> s[i].0 != d;
        assert(0 <= w < s.len() && s[w].0 == d);
        if w < k {
            assert(s[w].0 != s[k].0);
        } else if w > k {
            assert(s[k].0 != d);
        }
    }
}

/// Removing an entry keeps keys unique and removes exactly that key.
proof fn lemma_remove_unique<V>(s: Seq<(usize, V)>, j: int)
    requires
        fds_unique(s),
        0 <= j < s.len(),
    ensures
        fds_unique(s.remove(j)),
        s.remove(j) == s.filter(key_not::<V>(s[j].0)),
{
    let d = s[j].0;
    assert forall|a: int, b: int| 0 <= a < b < s.remove(j).len() implies s.remove(j)[a].0 != s.remove(j)[b].0 by {
        let a1 = if a < j { a } else { a + 1 };
        let b1 = if b < j { b } else { b + 1 };
        assert(s.remove(j)[a] == s[a1]);
        assert(s.remove(j)[b] == s[b1]);
    }
    lemma_filter_one(s, j);
}

/// Filtering out the only entry with key `s[j].0` removes position `j`.
proof fn lemma_filter_one<V>(s: Seq<(usize, V)>, j: int)
    requires
        fds_unique(s),
        0 <= j < s.len(),
    ensures
        s.remove(j) == s.filter(key_not::<V>(s[j].0)),
    decreases s.len(),
{
    let d = s[j].0;
    reveal(Seq::filter);
    if j == s.len() - 1 {
        assert(s.remove(j) =~= s.drop_last());
        assert forall|k: int| 0 <= k < s.drop_last().len() implies s.drop_last()[k].0 != d by {
            assert(s[k].0 != s[j].0);
        }
        lemma_filter_keeps_all(s.drop_last(), d);
    } else {
        let t = s.drop_last();
        assert(fds_unique(t)) by {
            assert forall|a: int, b: int| 0 <= a < b < t.len() implies t[a].0 != t[b].0 by {
                assert(s[a].0 != s[b].0);
            }
        }
        assert(t[j] == s[j]);
        lemma_filter_one(t, j);
        assert(s.last().0 != d) by {
            assert(s[j].0 != s[s.len() - 1].0);
        }
        assert(s.remove(j) =~= t.remove(j).push(s.last()));
    }
}

proof fn lemma_filter_keeps_all<V>(s: Seq<(usize, V)>, d: usize)
    requires
        forall|k: int| 0 <= k < s.len() ==> s[k].0 != d,
    ensures
        s.filter(key_not::<V>(d)) == s,
    decreases s.len(),
{
    reveal(Seq::filter);
    if s.len() > 0 {
        lemma_filter_keeps_all(s.drop_last(), d);
        assert(s.drop_last().push(s.last()) =~= s);
    }
}


/// A key that is looked up is held by some entry with that value.
proof fn lemma_lookup_in<V>(s: Seq<(usize, V)>, d: usize)
    ensures
        lookup_id(s, d) is Some ==> exists|k: int|
            0 <= k < s.len() && s[k].0 == d && Some(#[trigger] s[k].1) == lookup_id(s, d),
{
    if exists|j: int| 0 <= j < s.len() && s[j].0 == d {
        let j0 = choose|j: int| 0 <= j < s.len() && s[j].0 == d;
        lemma_first_key(s, d, j0);
        let w = choose|j: int| 0 <= j < s.len() && s[j].0 == d && forall|i: int| 0 <= i < j ==> s[i].0 != d;
        assert(s[w].0 == d);
        assert(Some(s[w].1) == lookup_id(s, d));
    }
}

/// Some entry holding `d` is the first one holding it.
proof fn lemma_first_key<V>(s: Seq<(usize, V)>, d: usize, j: int)
    requires
        0 <= j < s.len(),
        s[j].0 == d,
    ensures
        exists|m: int| 0 <= m < s.len() && s[m].0 == d && forall|i: int| 0 <= i < m ==> s[i].0 != d,
    decreases j,
{
    if exists|i: int| 0 <= i < j && s[i].0 == d {
        let i = choose|i: int| 0 <= i < j && s[i].0 == d;
        lemma_first_key(s, d, i);
    }
}

/// Entries below one bound are below a larger one.
proof fn lemma_bound_up(s: Seq<(usize, Task)>, b: usize, c: usize)
    requires
        entries_ok(s, b),
        b <= c,
    ensures
        entries_ok(s, c),
{
}

/// How reaping `task_id` (with parent `parent`, children `children` and
/// init task `root`) leaves task `d`, which was `t`: the parent's children
/// lose `task_id`, the init task's children gain the orphans, and each
/// orphan gets the init task as parent; nothing else changes.
pub open spec fn relinked(
    t: Task,
    u: Task,
    d: usize,
    task_id: usize,
    parent: Option<usize>,
    children: Seq<usize>,
    root: Option<usize>,
) -> bool {
    let s1 = if parent == Some(d) {
        without_tid(t.subtasks@, task_id)
    } else {
        t.subtasks@
    };
    &&& u.subtasks@ == if root == Some(d) {
        s1 + children
    } else {
        s1
    }
    &&& u.parent == if root is Some && children.contains(d) {
        root
    } else {
        t.parent
    }
    &&& same_but_links(t, u)
}

proof fn lemma_push_contains(s: Seq<usize>, x: usize, d: usize)
    ensures
        s.push(x).contains(d) == (s.contains(d) || d == x),
{
    if s.contains(d) {
        let w = choose|w: int| 0 <= w < s.len() && s[w] == d;
        assert(s.push(x)[w] == d);
    }
    if d == x {
        assert(s.push(x)[s.len() as int] == d);
    }
    if s.push(x).contains(d) {
        let w = choose|w: int| 0 <= w < s.push(x).len() && s.push(x)[w] == d;
        if w < s.len() {
            assert(s[w] == d);
        }
    }
}

/// A pipe seen through `pipe_view` after it gains an end of direction
/// `dir`.
pub open spec fn dup_view(p: PipeView, dir: PipeDir) -> PipeView {
    (
        p.0,
        p.1,
        p.2,
        (p.3 + 1) as i32,
        (p.4 + if dir == PipeDir::Rd {
            1int
        } else {
            0
        }) as i32,
        (p.5 + if dir == PipeDir::Wr {
            1int
        } else {
            0
        }) as i32,
    )
}

/// The pipes after duplicating one file.
pub open spec fn after_dup(views: Seq<PipeView>, f: FLike) -> Seq<PipeView> {
    match f {
        FLike::Pipe(p) => views.update(p.data as int, dup_view(views[p.data as int], p.dir)),
        _ => views,
    }
}

/// The pipes after duplicating the files of `s` in order.
pub open spec fn after_dups(views: Seq<PipeView>, s: Seq<(usize, FLike)>) -> Seq<PipeView>
    decreases s.len(),
{
    if s.len() == 0 {
        views
    } else {
        after_dup(after_dups(views, s.drop_last()), s.last().1)
    }
}

/// `b` duplicates `a` without close-on-exec: a handle on the same
/// file and description, an end of the same pipe in the same direction,
/// or a handle on the same epoll instance.
pub open spec fn dup_of(a: FLike, b: FLike) -> bool {
    match (a, b) {
        (FLike::File(f), FLike::File(g)) => g.data == f.data && g.desc == f.desc && !g.cloexec && g.path@
            == f.path@ && g.pipe == f.pipe,
        (FLike::Pipe(p), FLike::Pipe(q)) => q.data == p.data && q.dir == p.dir,
        (FLike::Ep(e), FLike::Ep(h)) => h.events.inner == e.events.inner && h.ready == e.ready && h.new_ctl
            == e.new_ctl,
        _ => false,
    }
}

/// `d` holds the same descriptors as `s`, each a duplicate of its file.
pub open spec fn duplicated(s: Seq<(usize, FLike)>, d: Seq<(usize, FLike)>) -> bool {
    &&& d.len() == s.len()
    &&& forall|k: int| 0 <= k < s.len() ==> (#[trigger] d[k]).0 == s[k].0 && dup_of(s[k].1, d[k].1)
}

/// Duplicates every file of `files`, in order.
fn dup_files(files: &Vec<(usize, FLike)>, v: &mut Vfs) -> (r: Vec<(usize, FLike)>)
    requires
        files_valid(files@, old(v)),
        pipe_room(files@, old(v)),
    ensures
        duplicated(files@, r@),
        files_valid(r@, final(v)),
        files_valid(files@, final(v)),
        only_pipes_changed(old(v), final(v)),
        pipe_views(final(v)) == after_dups(pipe_views(old(v)), files@),
{
    let mut out: Vec<(usize, FLike)> = Vec::new();
    let n = files.len();
    let mut k: usize = 0;
    while k < files.len()
        invariant
            k <= n,
            n == files@.len(),
            out@.len() == k,
            forall|j: int| 0 <= j < k ==> (#[trigger] out@[j]).0 == files@[j].0 && dup_of(files@[j].1, out@[j].1),
            files_valid(out@, v),
            files_valid(files@, v),
            only_pipes_changed(old(v), v),
            pipe_views(v) == after_dups(pipe_views(old(v)), files@.subrange(0, k as int)),
            forall|i: int|
                0 <= i < v.pipes@.len() ==> {
                    &&& (#[trigger] v.pipes@[i]).ends + (n - k) < i32::MAX
                    &&& v.pipes@[i].readers + (n - k) < i32::MAX
                    &&& v.pipes@[i].writers + (n - k) < i32::MAX
                },
        decreases n - k,
    {
        let ghost vb = *v;
        proof {
            assert(files@[k as int].1.valid(v));
            assert(files@.subrange(0, k + 1).drop_last() =~= files@.subrange(0, k as int));
        }
        let d = files[k].1.dup(v, false);
        proof {
            assert(pipe_views(v) =~= after_dup(pipe_views(&vb), files@[k as int].1));
            assert forall|j: int| 0 <= j < out@.len() implies (#[trigger] out@[j]).1.valid(v) by {
                assert(out@[j].1.valid(&vb));
            }
            assert forall|j: int| 0 <= j < files@.len() implies (#[trigger] files@[j]).1.valid(v) by {
                assert(files@[j].1.valid(&vb));
            }
        }
        out.push((files[k].0, d));
        k = k + 1;
    }
    proof {
        assert(files@.subrange(0, k as int) =~= files@);
    }
    out
}

/// Table `f` is table `o` after reaping `task_id`: the task is gone, the
/// others are relinked (see `relinked`), and the id counter and init task
/// stay.
pub open spec fn reaped(o: TaskTable, f: TaskTable, task_id: usize) -> bool {
    &&& f.seq == o.seq
    &&& f.root == o.root
    &&& o.task(task_id) is None ==> f.map@ == o.map@
    &&& o.task(task_id) matches Some(t) ==> {
        &&& f.task(task_id) is None
        &&& forall|d: usize|
            d != task_id ==> {
                &&& (o.task(d) is None ==> #[trigger] f.task(d) is None)
                &&& (o.task(d) matches Some(x) ==> f.task(d) matches Some(y) && relinked(
                    x,
                    y,
                    d,
                    task_id,
                    t.parent,
                    t.subtasks@,
                    o.root,
                ))
            }
    }
}

/// `y` is `x` (task `d`) after every task of `kids` was made a child of
/// `root`.
pub open spec fn adopted_by(x: Task, y: Task, d: usize, kids: Seq<usize>, root: usize) -> bool {
    &&& y.parent == if kids.contains(d) {
        Some(root)
    } else {
        x.parent
    }
    &&& y.subtasks@ == if d == root {
        x.subtasks@ + kids
    } else {
        x.subtasks@
    }
    &&& same_but_links(x, y)
}

/// Table `f` and open files `vf` are table `o` and files `vo` after
/// `TaskTable::fork_task(source)` answered `r`.
pub open spec fn forked(o: TaskTable, f: TaskTable, vo: &Vfs, vf: &Vfs, source: usize, r: usize) -> bool {
    &&& (r == o.seq)
    &&& (f.seq == o.seq + 1)
    &&& (f.root == o.root)
    &&& (({
                let src = o.task(source).unwrap();
                &&& f.task(r) matches Some(c) && {
                    &&& c.info.id == r
                    &&& c.info.tag@ == src.info.tag@
                    &&& c.info.status is None
                    &&& c.parent == Some(source)
                    &&& c.subtasks@.len() == 0
                    &&& duplicated(src.files@, c.files@)
                    &&& files_valid(c.files@, vf)
                    &&& c.cwd@ == src.cwd@
                    &&& c.exec_path@ == src.exec_path@
                    &&& c.pgid == src.pgid
                    &&& c.sem_ctx.arrays@ == src.sem_ctx.arrays@
                    &&& c.sem_ctx.undos@.len() == 0
                    &&& c.shm_ctx.ids@ == src.shm_ctx.ids@
                    &&& c.sig_mask == src.sig_mask
                    &&& c.pid == Pid(r)
                    &&& c.threads@ == seq![r]
                    &&& c.exit_code == 0
                    &&& c.sig_queue@.len() == 0
                    &&& c.ev.events == 0
                    &&& c.ep_inst@.len() == 0
                    &&& c.thd_ctx is Some
                    &&& c.vm_token == 0
                }
                &&& f.task(source) matches Some(u) && u.subtasks@ == src.subtasks@.push(r) && u.parent
                    == src.parent && same_but_links(src, u)
                &&& only_pipes_changed(vo, vf)
                &&& pipe_views(vf) == after_dups(pipe_views(vo), src.files@)
            }))
    &&& (forall|d: usize| d != r && d != source ==> #[trigger] f.task(d) == o.task(d))
}

/// Drops every occurrence of `x`.
fn retain_not(v: &mut Vec<usize>, x: usize)
    ensures
        final(v)@ == without_tid(old(v)@, x),
{
    let mut kept: Vec<usize> = Vec::new();
    let mut i: usize = 0;
    while i < v.len()
        invariant
            i <= v@.len(),
            v@ == old(v)@,
            kept@ == without_tid(v@.subrange(0, i as int), x),
        decreases v@.len() - i,
    {
        proof {
            assert(v@.subrange(0, i + 1).drop_last() =~= v@.subrange(0, i as int));
            reveal(Seq::filter);
        }
        if v[i] != x {
            kept.push(v[i]);
        }
        i = i + 1;
    }
    proof {
        assert(v@.subrange(0, i as int) =~= v@);
    }
    *v = kept;
}

/// The task a table finds under `d` is one of its well-formed entries.
pub proof fn lemma_lookup_in_table(tt: TaskTable, d: usize)
    requires
        tt.wf(),
    ensures
        tt.task(d) matches Some(t) ==> t.wf() && d < tt.seq,
{
    lemma_lookup_in(tt.map@, d);
}

/// Filtering keeps keys unique.
pub proof fn lemma_filter_unique(s: Seq<(usize, FLike)>, f: spec_fn((usize, FLike)) -> bool)
    requires
        fds_unique(s),
    ensures
        fds_unique(s.filter(f)),
    decreases s.len(),
{
    reveal(Seq::filter);
    if s.len() > 0 {
        let t = s.drop_last();
        assert(fds_unique(t)) by {
            assert forall|a: int, b: int| 0 <= a < b < t.len() implies t[a].0 != t[b].0 by {
                assert(s[a].0 != s[b].0);
            }
        }
        lemma_filter_unique(t, f);
        if f(s.last()) {
            let g = t.filter(f);
            assert forall|a: int, b: int| 0 <= a < b < g.push(s.last()).len() implies g.push(s.last())[a].0 != g.push(s.last())[b].0 by {
                if b == g.len() {
                    assert(g.contains(g[a]));
                    t.lemma_filter_contains_rev(f, g[a]);
                    let w = choose|w: int| 0 <= w < t.len() && t[w] == g[a];
                    assert(s[w].0 != s[s.len() - 1].0);
                }
            }
        }
    }
}

/// Filtering keeps files valid.
pub proof fn lemma_filter_valid(s: Seq<(usize, FLike)>, f: spec_fn((usize, FLike)) -> bool, v: &Vfs)
    requires
        files_valid(s, v),
    ensures
        files_valid(s.filter(f), v),
{
    assert forall|k: int| 0 <= k < s.filter(f).len() implies (#[trigger] s.filter(f)[k]).1.valid(v) by {
        let e = s.filter(f)[k];
        assert(s.filter(f).contains(e));
        s.lemma_filter_contains_rev(f, e);
    }
}

/// The files of `files` that survive an exec, in order.
pub fn drop_cloexec(files: Vec<(usize, FLike)>) -> (r: Vec<(usize, FLike)>)
    ensures
        r@ == files@.filter(crate::kernel::kept_on_exec()),
{
    let mut files = files;
    let ghost orig = files@;
    let mut kept: Vec<(usize, FLike)> = Vec::new();
    let mut i: usize = 0;
    proof {
        assert(orig.len() == files.len());
    }
    while files.len() > 0
        invariant
            orig.len() <= usize::MAX,
            i <= orig.len(),
            files@ == orig.subrange(i as int, orig.len() as int),
            kept@ == orig.subrange(0, i as int).filter(crate::kernel::kept_on_exec()),
        decreases files@.len(),
    {
        let e = files.remove(0);
        proof {
            assert(orig[i as int] == e);
            assert(orig.subrange(0, i + 1).drop_last() =~= orig.subrange(0, i as int));
            assert(orig.subrange(0, i + 1).last() == e);
            reveal(Seq::filter);
        }
        let keep = match &e.1 {
            FLike::File(h) => !h.cloexec,
            _ => true,
        };
        if keep {
            kept.push(e);
        }
        i = i + 1;
        proof {
            assert(files@ =~= orig.subrange(i as int, orig.len() as int));
        }
    }
    proof {
        assert(orig.subrange(0, i as int) =~= orig);
    }
    kept
}

/// Entries keyed in strictly ascending order.
pub open spec fn keys_sorted<V>(s: Seq<(usize, V)>) -> bool {
    forall|a: int, b: int| 0 <= a < b < s.len() ==> s[a].0 < s[b].0
}

proof fn lemma_sorted_unique<V>(s: Seq<(usize, V)>)
    requires
        keys_sorted(s),
    ensures
        fds_unique(s),
{
}

/// Looking up after replacing entry `k` by one with the same key.
proof fn lemma_lookup_update<V>(s: Seq<(usize, V)>, k: int, e: (usize, V), d: usize)
    requires
        fds_unique(s),
        0 <= k < s.len(),
        s[k].0 == e.0,
    ensures
        fds_unique(s.update(k, e)),
        lookup_id(s.update(k, e), d) == if d == e.0 {
            Some(e.1)
        } else {
            lookup_id(s, d)
        },
{
    let t = s.update(k, e);
    assert forall|a: int, b: int| 0 <= a < b < t.len() implies t[a].0 != t[b].0 by {
        assert(s[a].0 != s[b].0);
    }
    lemma_lookup_unique(s, d);
    lemma_lookup_unique(t, d);
    if d == e.0 {
        assert(t[k].0 == d);
    } else {
        if lookup_id(s, d) is Some {
            let w = choose|w: int| 0 <= w < s.len() && s[w].0 == d;
            assert(t[w].0 == d);
        }
        if lookup_id(t, d) is Some {
            let w = choose|w: int| 0 <= w < t.len() && t[w].0 == d;
            assert(s[w].0 == d);
        }
    }
}

/// Looking up after inserting a new key.
proof fn lemma_lookup_insert<V>(s: Seq<(usize, V)>, p: int, e: (usize, V), d: usize)
    requires
        fds_unique(s),
        0 <= p <= s.len(),
        forall|k: int| 0 <= k < s.len() ==> s[k].0 != e.0,
    ensures
        fds_unique(s.insert(p, e)),
        lookup_id(s.insert(p, e), d) == if d == e.0 {
            Some(e.1)
        } else {
            lookup_id(s, d)
        },
{
    let t = s.insert(p, e);
    assert forall|a: int, b: int| 0 <= a < b < t.len() implies t[a].0 != t[b].0 by {
        if a < p && b < p {
            assert(s[a].0 != s[b].0);
        } else if a < p && b > p {
            assert(s[a].0 != s[b - 1].0);
        } else if a > p {
            assert(s[a - 1].0 != s[b - 1].0);
        }
    }
    lemma_lookup_unique(s, d);
    lemma_lookup_unique(t, d);
    if d == e.0 {
        assert(t[p].0 == d);
    } else {
        if lookup_id(s, d) is Some {
            let w = choose|w: int| 0 <= w < s.len() && s[w].0 == d;
            if w < p {
                assert(t[w].0 == d);
            } else {
                assert(t[w + 1].0 == d);
            }
        }
        if lookup_id(t, d) is Some {
            let w = choose|w: int| 0 <= w < t.len() && t[w].0 == d;
            if w < p {
                assert(s[w].0 == d);
            } else {
                assert(s[w - 1].0 == d);
            }
        }
    }
}

/// Looking up after removing entry `k`.
proof fn lemma_lookup_remove<V>(s: Seq<(usize, V)>, k: int, d: usize)
    requires
        fds_unique(s),
        0 <= k < s.len(),
    ensures
        fds_unique(s.remove(k)),
        lookup_id(s.remove(k), d) == if d == s[k].0 {
            None
        } else {
            lookup_id(s, d)
        },
{
    let t = s.remove(k);
    assert forall|a: int, b: int| 0 <= a < b < t.len() implies t[a].0 != t[b].0 by {
        let a1 = if a < k { a } else { a + 1 };
        let b1 = if b < k { b } else { b + 1 };
        assert(s[a1].0 != s[b1].0);
    }
    lemma_lookup_unique(s, d);
    lemma_lookup_unique(t, d);
    if lookup_id(s, d) is Some && d != s[k].0 {
        let w = choose|w: int| 0 <= w < s.len() && s[w].0 == d;
        if w < k {
            assert(t[w].0 == d);
        } else {
            assert(t[w - 1].0 == d);
        }
    }
    if lookup_id(t, d) is Some {
        let w = choose|w: int| 0 <= w < t.len() && t[w].0 == d;
        if w < k {
            assert(s[w].0 == d);
        } else {
            assert(s[w + 1].0 == d);
            assert(s[w + 1].0 != s[k].0);
        }
    }
}

/// Where `key` is in a sorted table, or where it would go.
fn table_pos<V>(map: &Vec<(usize, V)>, key: usize) -> (r: Result<usize, usize>)
    requires
        keys_sorted(map@),
    ensures
        match r {
            Ok(k) => k < map@.len() && map@[k as int].0 == key,
            Err(p) => p <= map@.len() && (forall|i: int| 0 <= i < p ==> map@[i].0 < key) && (forall|i: int|
                p <= i < map@.len() ==> map@[i].0 > key),
        },
{
    let mut i: usize = 0;
    while i < map.len() && map[i].0 < key
        invariant
            i <= map@.len(),
            keys_sorted(map@),
            forall|j: int| 0 <= j < i ==> map@[j].0 < key,
        decreases map@.len() - i,
    {
        i = i + 1;
    }
    if i < map.len() && map[i].0 == key {
        Ok(i)
    } else {
        proof {
            assert forall|j: int| i <= j < map@.len() implies map@[j].0 > key by {
                if j > i {
                    assert(map@[i as int].0 < map@[j].0);
                }
            }
        }
        Err(i)
    }
}

/// The task table: tasks by id in ascending order, the next id to hand
/// out, and the init task that orphans are given to.
pub struct TaskTable {
    pub map: Vec<(usize, Task)>,
    pub seq: usize,
    pub root: Option<usize>,
}

/// The keys of the entries whose task satisfies `f`, in order.
pub open spec fn keys_with(s: Seq<(usize, Task)>, f: spec_fn(Task) -> bool) -> Seq<usize>
    decreases s.len(),
{
    if s.len() == 0 {
        Seq::empty()
    } else {
        keys_with(s.drop_last(), f) + if f(s.last().1) {
            seq![s.last().0]
        } else {
            Seq::<usize>::empty()
        }
    }
}

proof fn lemma_keys_with_len(s: Seq<(usize, Task)>, f: spec_fn(Task) -> bool)
    ensures
        keys_with(s, f).len() <= s.len(),
    decreases s.len(),
{
    if s.len() > 0 {
        lemma_keys_with_len(s.drop_last(), f);
    }
}

proof fn lemma_keys_with_prefix(s: Seq<(usize, Task)>, f: spec_fn(Task) -> bool, i: int)
    requires
        0 <= i <= s.len(),
    ensures
        keys_with(s.subrange(0, i), f).len() <= keys_with(s, f).len(),
    decreases s.len() - i,
{
    if i < s.len() {
        lemma_keys_with_prefix(s, f, i + 1);
        assert(s.subrange(0, i + 1).drop_last() =~= s.subrange(0, i));
    } else {
        assert(s.subrange(0, i) =~= s);
    }
}

/// The file at a descriptor refers into the open-file state the task's
/// files refer into.
pub proof fn lemma_file_valid(t: Task, fd: usize, v: &Vfs)
    requires
        t.wf(),
        files_valid(t.files@, v),
    ensures
        t.file(fd) matches Some(f) ==> f.valid(v),
{
    let s = t.files@;
    lemma_lookup_unique(s, fd);
    if t.file(fd) is Some {
        let k = choose|k: int| 0 <= k < s.len() && s[k].0 == fd;
        assert(s[k].1.valid(v));
    }
}

/// In a table with sorted keys, the ids selected by `f` are increasing and
/// each names a registered task that `f` accepts.
pub proof fn lemma_keys_with_facts(s: Seq<(usize, Task)>, f: spec_fn(Task) -> bool)
    requires
        keys_sorted(s),
    ensures
        forall|a: int, b: int| 0 <= a < b < keys_with(s, f).len() ==> keys_with(s, f)[a] < keys_with(s, f)[b],
        forall|i: int|
            0 <= i < keys_with(s, f).len() ==> (lookup_id(s, #[trigger] keys_with(s, f)[i]) matches Some(t) && f(t)),
    decreases s.len(),
{
    if s.len() > 0 {
        let p = s.drop_last();
        lemma_keys_with_facts(p, f);
        lemma_sorted_unique(s);
        lemma_sorted_unique(p);
        let ks = keys_with(s, f);
        let kp = keys_with(p, f);
        assert forall|i: int| 0 <= i < kp.len() implies kp[i] < s.last().0 by {
            let t = lookup_id(p, kp[i]).unwrap();
            lemma_lookup_unique(p, kp[i]);
            let j = choose|j: int| 0 <= j < p.len() && p[j].0 == kp[i];
            assert(s[j] == p[j]);
        }
        assert forall|i: int| 0 <= i < ks.len() implies (lookup_id(s, #[trigger] ks[i]) matches Some(t) && f(t)) by {
            lemma_lookup_unique(s, ks[i]);
            if i < kp.len() {
                assert(ks[i] == kp[i]);
                lemma_lookup_unique(p, kp[i]);
                let j = choose|j: int| 0 <= j < p.len() && p[j].0 == kp[i];
                assert(s[j] == p[j]);
            } else {
                assert(ks[i] == s.last().0);
                assert(s[s.len() - 1].0 == ks[i]);
            }
        }
    }
}

/// Tasks named `tag`.
pub open spec fn tag_is(tag: Seq<char>) -> spec_fn(Task) -> bool {
    |t: Task| t.info.tag@ == tag
}

/// Tasks of process group `pgid`.
pub open spec fn in_group(pgid: i32) -> spec_fn(Task) -> bool {
    |t: Task| t.pgid == pgid
}

/// Tasks without an exit status.
pub open spec fn running() -> spec_fn(Task) -> bool {
    |t: Task| t.info.status is None
}

/// Tasks with an exit status.
pub open spec fn finished() -> spec_fn(Task) -> bool {
    |t: Task| t.info.status is Some
}

/// Every entry's key is below `bound` and its task is well formed.
pub open spec fn entries_ok(s: Seq<(usize, Task)>, bound: usize) -> bool {
    forall|k: int| 0 <= k < s.len() ==> (#[trigger] s[k]).0 < bound && s[k].1.wf()
}

impl TaskTable {
    /// Ids ascend and were all handed out already; every task is
    /// well formed.
    pub open spec fn wf(&self) -> bool {
        &&& keys_sorted(self.map@)
        &&& entries_ok(self.map@, self.seq)
    }

    /// The task registered under `id`.
    pub open spec fn task(&self, id: usize) -> Option<Task> {
        lookup_id(self.map@, id)
    }

    pub fn new() -> (r: Self)
        ensures
            r.wf(),
            r.map@.len() == 0,
            r.seq == 1,
            r.root is None,
    {
        TaskTable { map: Vec::new(), seq: 1, root: None }
    }

    /// Puts `task` under `key`, replacing any task there.
    pub(crate) fn put(&mut self, key: usize, task: Task)
        requires
            keys_sorted(old(self).map@),
        ensures
            keys_sorted(final(self).map@),
            final(self).task(key) == Some(task),
            forall|d: usize| d != key ==> #[trigger] final(self).task(d) == old(self).task(d),
            final(self).seq == old(self).seq,
            final(self).root == old(self).root,
            forall|b: usize| entries_ok(old(self).map@, b) && key < b && task.wf() ==> #[trigger] entries_ok(final(self).map@, b),
    {
        proof {
            lemma_sorted_unique(self.map@);
        }
        let ghost s0 = self.map@;
        match table_pos(&self.map, key) {
            Ok(k) => {
                let _ = swap_out(&mut self.map, k, (key, task));
                proof {
                    assert forall|d: usize| #[trigger] lookup_id(self.map@, d) == if d == key {
                        Some(task)
                    } else {
                        lookup_id(s0, d)
                    } by {
                        lemma_lookup_update(s0, k as int, (key, task), d);
                    }
                    assert forall|a: int, b: int| 0 <= a < b < self.map@.len() implies self.map@[a].0 < self.map@[b].0 by {
                        assert(s0[a].0 < s0[b].0);
                    }
                }
            },
            Err(p) => {
                self.map.insert(p, (key, task));
                proof {
                    assert forall|d: usize| #[trigger] lookup_id(self.map@, d) == if d == key {
                        Some(task)
                    } else {
                        lookup_id(s0, d)
                    } by {
                        lemma_lookup_insert(s0, p as int, (key, task), d);
                    }
                    assert forall|a: int, b: int| 0 <= a < b < self.map@.len() implies self.map@[a].0 < self.map@[b].0 by {
                        if a < p && b < p {
                            assert(s0[a].0 < s0[b].0);
                        } else if a < p && b > p {
                            assert(s0[a].0 < s0[b - 1].0);
                        } else if a > p {
                            assert(s0[a - 1].0 < s0[b - 1].0);
                        }
                    }
                }
            },
        }
    }

    /// Takes the task under `key` out of the table.
    pub(crate) fn take(&mut self, key: usize) -> (r: Option<Task>)
        requires
            keys_sorted(old(self).map@),
        ensures
            keys_sorted(final(self).map@),
            r == old(self).task(key),
            r is None ==> final(self).map@ == old(self).map@,
            final(self).task(key) is None,
            forall|d: usize| d != key ==> #[trigger] final(self).task(d) == old(self).task(d),
            final(self).seq == old(self).seq,
            final(self).root == old(self).root,
            forall|b: usize| entries_ok(old(self).map@, b) ==> #[trigger] entries_ok(final(self).map@, b),
    {
        proof {
            lemma_sorted_unique(self.map@);
        }
        let ghost s0 = self.map@;
        match table_pos(&self.map, key) {
            Ok(k) => {
                let (_, t) = self.map.remove(k);
                proof {
                    lemma_lookup_unique(s0, key);
                    assert forall|d: usize| #[trigger] lookup_id(self.map@, d) == if d == key {
                        None
                    } else {
                        lookup_id(s0, d)
                    } by {
                        lemma_lookup_remove(s0, k as int, d);
                    }
                    assert forall|a: int, b: int| 0 <= a < b < self.map@.len() implies self.map@[a].0 < self.map@[b].0 by {
                        let a1 = if a < k { a } else { a + 1 };
                        let b1 = if b < k { b } else { b + 1 };
                        assert(s0[a1].0 < s0[b1].0);
                    }
                }
                Some(t)
            },
            Err(_) => {
                proof {
                    lemma_lookup_unique(s0, key);
                }
                None
            },
        }
    }

    /// Whether a task is registered under `id`.
    pub fn contains(&self, id: usize) -> (r: bool)
        requires
            keys_sorted(self.map@),
        ensures
            r == self.task(id) is Some,
    {
        proof {
            lemma_sorted_unique(self.map@);
            lemma_lookup_unique(self.map@, id);
        }
        match table_pos(&self.map, id) {
            Ok(_) => true,
            Err(_) => false,
        }
    }

    /// The task registered under `task_id`.
    pub fn find(&self, task_id: usize) -> (r: Option<&Task>)
        requires
            keys_sorted(self.map@),
        ensures
            match r {
                Some(t) => self.task(task_id) == Some(*t),
                None => self.task(task_id) is None,
            },
    {
        proof {
            lemma_sorted_unique(self.map@);
            lemma_lookup_unique(self.map@, task_id);
        }
        match table_pos(&self.map, task_id) {
            Ok(k) => Some(&self.map[k].1),
            Err(_) => None,
        }
    }

    /// Registers a fresh task named `tag` under the next id and returns
    /// the id.
    pub fn spawn(&mut self, tag: &str) -> (r: usize)
        requires
            old(self).wf(),
            old(self).seq < usize::MAX,
        ensures
            final(self).wf(),
            r == old(self).seq,
            final(self).seq == old(self).seq + 1,
            final(self).root == old(self).root,
            final(self).task(r) matches Some(t) && is_fresh(t, r, tag@),
            forall|d: usize| d != r ==> #[trigger] final(self).task(d) == old(self).task(d),
    {
        let task_id = self.seq;
        self.seq = self.seq + 1;
        let task = Task::make(task_id, tag);
        self.put(task_id, task);
        task_id
    }

    /// Spawns the init task and makes it the root.
    pub fn spawn_root(&mut self) -> (r: usize)
        requires
            old(self).wf(),
            old(self).seq < usize::MAX,
        ensures
            final(self).wf(),
            r == old(self).seq,
            final(self).seq == old(self).seq + 1,
            final(self).root == Some(r),
            final(self).task(r) matches Some(t) && is_fresh(t, r, "init"@),
            forall|d: usize| d != r ==> #[trigger] final(self).task(d) == old(self).task(d),
    {
        let id = self.spawn("init");
        proof {
            assert forall|d: usize| d != id implies #[trigger] lookup_id(self.map@, d) == old(self).task(d) by {
                assert(self.task(d) == old(self).task(d));
            }
        }
        self.root = Some(id);
        id
    }

    /// Registers `task` under `pid`, recording the pid in the task; a task
    /// already there is replaced.
    pub fn register(&mut self, task: Task, pid: Pid)
        requires
            old(self).wf(),
            pid.0 < old(self).seq,
            task.wf(),
        ensures
            final(self).wf(),
            final(self).task(pid.0) == Some(Task { pid, ..task }),
            forall|d: usize| d != pid.0 ==> #[trigger] final(self).task(d) == old(self).task(d),
            final(self).seq == old(self).seq,
            final(self).root == old(self).root,
    {
        let mut task = task;
        task.pid = pid;
        self.put(pid.0, task);
    }

    /// Ids of the tasks named `tag`, ascending.
    pub fn find_by_tag(&self, tag: &str) -> (r: Vec<usize>)
        ensures
            r@ == keys_with(self.map@, tag_is(tag@)),
    {
        let mut out: Vec<usize> = Vec::new();
        let mut i: usize = 0;
        while i < self.map.len()
            invariant
                i <= self.map@.len(),
                out@ == keys_with(self.map@.subrange(0, i as int), tag_is(tag@)),
            decreases self.map@.len() - i,
        {
            proof {
                assert(self.map@.subrange(0, i + 1).drop_last() =~= self.map@.subrange(0, i as int));
            }
            if str_eq(self.map[i].1.info.tag.as_str(), tag) {
                out.push(self.map[i].0);
            }
            i = i + 1;
        }
        proof {
            assert(self.map@.subrange(0, i as int) =~= self.map@);
        }
        out
    }

    /// The first task, by ascending id, running thread `tid`.
    pub fn process_of_tid(&self, tid: usize) -> (r: Option<usize>)
        ensures
            match r {
                Some(id) => exists|k: int|
                    0 <= k < self.map@.len() && self.map@[k].0 == id && self.map@[k].1.threads@.contains(tid)
                        && forall|j: int| 0 <= j < k ==> !(#[trigger] self.map@[j]).1.threads@.contains(tid),
                None => forall|k: int| 0 <= k < self.map@.len() ==> !(#[trigger] self.map@[k]).1.threads@.contains(tid),
            },
    {
        let mut i: usize = 0;
        while i < self.map.len()
            invariant
                i <= self.map@.len(),
                forall|j: int| 0 <= j < i ==> !(#[trigger] self.map@[j]).1.threads@.contains(tid),
            decreases self.map@.len() - i,
        {
            let mut k: usize = 0;
            let mut found = false;
            while k < self.map[i].1.threads.len()
                invariant
                    i < self.map@.len(),
                    k <= self.map@[i as int].1.threads@.len(),
                    found == exists|j: int| 0 <= j < k && self.map@[i as int].1.threads@[j] == tid,
                decreases self.map@[i as int].1.threads@.len() - k,
            {
                if self.map[i].1.threads[k] == tid {
                    found = true;
                }
                k = k + 1;
            }
            if found {
                return Some(self.map[i].0);
            }
            i = i + 1;
        }
        None
    }

    /// Ids of the tasks in process group `pgid`, ascending.
    pub fn pgid_group(&self, pgid: i32) -> (r: Vec<usize>)
        ensures
            r@ == keys_with(self.map@, in_group(pgid)),
    {
        let mut out: Vec<usize> = Vec::new();
        let mut i: usize = 0;
        while i < self.map.len()
            invariant
                i <= self.map@.len(),
                out@ == keys_with(self.map@.subrange(0, i as int), in_group(pgid)),
            decreases self.map@.len() - i,
        {
            proof {
                assert(self.map@.subrange(0, i + 1).drop_last() =~= self.map@.subrange(0, i as int));
            }
            if self.map[i].1.pgid == pgid {
                out.push(self.map[i].0);
            }
            i = i + 1;
        }
        proof {
            assert(self.map@.subrange(0, i as int) =~= self.map@);
        }
        out
    }

    /// Ids of the tasks still running, ascending.
    pub fn active_tasks(&self) -> (r: Vec<usize>)
        ensures
            r@ == keys_with(self.map@, running()),
    {
        let mut out: Vec<usize> = Vec::new();
        let mut i: usize = 0;
        while i < self.map.len()
            invariant
                i <= self.map@.len(),
                out@ == keys_with(self.map@.subrange(0, i as int), running()),
            decreases self.map@.len() - i,
        {
            proof {
                assert(self.map@.subrange(0, i + 1).drop_last() =~= self.map@.subrange(0, i as int));
            }
            if !self.map[i].1.done() {
                out.push(self.map[i].0);
            }
            i = i + 1;
        }
        proof {
            assert(self.map@.subrange(0, i as int) =~= self.map@);
        }
        out
    }

    /// Ids of the tasks that are done, ascending.
    pub fn zombie_tasks(&self) -> (r: Vec<usize>)
        ensures
            r@ == keys_with(self.map@, finished()),
    {
        let mut out: Vec<usize> = Vec::new();
        let mut i: usize = 0;
        while i < self.map.len()
            invariant
                i <= self.map@.len(),
                out@ == keys_with(self.map@.subrange(0, i as int), finished()),
            decreases self.map@.len() - i,
        {
            proof {
                assert(self.map@.subrange(0, i + 1).drop_last() =~= self.map@.subrange(0, i as int));
            }
            if self.map[i].1.done() {
                out.push(self.map[i].0);
            }
            i = i + 1;
        }
        proof {
            assert(self.map@.subrange(0, i as int) =~= self.map@);
        }
        out
    }

    /// Sends `signo` (from no particular thread) to every task of group
    /// `pgid`; returns how many there were.
    pub fn send_signal_group(&mut self, pgid: i32, signo: i32) -> (r: usize)
        requires
            old(self).wf(),
        ensures
            final(self).wf(),
            r == keys_with(old(self).map@, in_group(pgid)).len(),
            final(self).map@.len() == old(self).map@.len(),
            final(self).seq == old(self).seq,
            final(self).root == old(self).root,
            forall|j: int|
                0 <= j < old(self).map@.len() ==> {
                    &&& (#[trigger] final(self).map@[j]).0 == old(self).map@[j].0
                    &&& if old(self).map@[j].1.pgid == pgid {
                        sig_sent(old(self).map@[j].1, final(self).map@[j].1, signo, -1isize)
                    } else {
                        final(self).map@[j] == old(self).map@[j]
                    }
                },
    {
        let mut count: usize = 0;
        let mut i: usize = 0;
        proof {
            lemma_keys_with_len(old(self).map@, in_group(pgid));
        }
        while i < self.map.len()
            invariant
                i <= self.map@.len(),
                self.map@.len() == old(self).map@.len(),
                self.seq == old(self).seq,
                self.root == old(self).root,
                count == keys_with(old(self).map@.subrange(0, i as int), in_group(pgid)).len(),
                keys_with(old(self).map@, in_group(pgid)).len() <= old(self).map@.len(),
                forall|j: int|
                    0 <= j < old(self).map@.len() ==> {
                        &&& (#[trigger] self.map@[j]).0 == old(self).map@[j].0
                        &&& self.map@[j].1.wf() == old(self).map@[j].1.wf()
                        &&& if j >= i {
                            self.map@[j] == old(self).map@[j]
                        } else if old(self).map@[j].1.pgid == pgid {
                            sig_sent(old(self).map@[j].1, self.map@[j].1, signo, -1isize)
                        } else {
                            self.map@[j] == old(self).map@[j]
                        }
                    },
            decreases self.map@.len() - i,
        {
            proof {
                assert(old(self).map@.subrange(0, i + 1).drop_last() =~= old(self).map@.subrange(0, i as int));
                lemma_keys_with_len(old(self).map@.subrange(0, i + 1), in_group(pgid));
                lemma_keys_with_prefix(old(self).map@, in_group(pgid), i + 1);
            }
            let (k, mut t) = self.map.remove(i);
            if t.pgid == pgid {
                t.send_sig(signo, -1);
                count = count + 1;
            }
            self.map.insert(i, (k, t));
            i = i + 1;
        }
        proof {
            assert(old(self).map@.subrange(0, i as int) =~= old(self).map@);
            assert forall|a: int, b: int| 0 <= a < b < self.map@.len() implies self.map@[a].0 < self.map@[b].0 by {
                assert(old(self).map@[a].0 < old(self).map@[b].0);
            }
            assert forall|j: int| 0 <= j < self.map@.len() implies (#[trigger] self.map@[j]).0 < self.seq
                && self.map@[j].1.wf() by {
                assert(old(self).map@[j].0 < old(self).seq);
            }
        }
        count
    }

    /// Starts a thread of `source` as a new task: same name, a context
    /// returning 0 with the given stack top, TLS and clear-tid word and the
    /// source's signal mask, and the source's address space. The source
    /// lists the thread.
    pub fn clone_thread(&mut self, source: usize, stack_top: u64, tls: u64, clear_tid: usize) -> (r: usize)
        requires
            old(self).wf(),
            old(self).seq < usize::MAX,
            old(self).task(source) is Some,
        ensures
            final(self).wf(),
            r == old(self).seq,
            final(self).seq == old(self).seq + 1,
            final(self).root == old(self).root,
            ({
                let src = old(self).task(source).unwrap();
                &&& final(self).task(r) matches Some(t) && {
                    &&& fresh_core(t, r, src.info.tag@)
                    &&& t.vm_token == src.vm_token
                    &&& t.thd_ctx matches Some(c) && c.clear_tid == clear_tid && c.smask == src.sig_mask
                        && c.uctx.ip == 0 && c.uctx.flags == 0 && c.uctx.r@ == Seq::new(16, |i: int| 0u64).update(
                        0,
                        0,
                    ).update(15, stack_top).update(14, tls)
                }
                &&& final(self).task(source) matches Some(u) && u.threads@ == src.threads@.push(r) && same_core(
                    Task { threads: u.threads, ..src },
                    u,
                ) && u.ev == src.ev && u.sig_queue@ == src.sig_queue@ && u.parent == src.parent
                    && u.subtasks@ == src.subtasks@
            }),
            forall|d: usize| d != r && d != source ==> #[trigger] final(self).task(d) == old(self).task(d),
    {
        let task_id = self.seq;
        proof {
            lemma_lookup_in(self.map@, source);
            lemma_bound_up(self.map@, self.seq, (self.seq + 1) as usize);
        }
        self.seq = self.seq + 1;
        let mut src = self.take(source).unwrap();
        let mut task = Task::make(task_id, src.info.tag.as_str());
        let mut context = ThdCtx::default();
        context.uctx.set_ret(0);
        context.uctx.set_sp(stack_top);
        context.uctx.set_tls(tls);
        context.clear_tid = clear_tid;
        context.smask = src.sig_mask;
        proof {
            assert(context.uctx.r@ =~= Seq::new(16, |i: int| 0u64).update(0, 0).update(15, stack_top).update(14, tls));
        }
        task.end_run(context);
        task.vm_token = src.vm_token;
        src.threads.push(task_id);
        self.put(task_id, task);
        self.put(source, src);
        task_id
    }

    /// Makes `c` a child of `root`: `c` (when registered) gets `root` as
    /// parent and `root` (when registered) lists `c`.
    fn adopt(&mut self, c: usize, root: usize)
        requires
            keys_sorted(old(self).map@),
            entries_ok(old(self).map@, old(self).seq),
        ensures
            keys_sorted(final(self).map@),
            entries_ok(final(self).map@, final(self).seq),
            final(self).seq == old(self).seq,
            final(self).root == old(self).root,
            forall|d: usize|
                {
                    &&& (old(self).task(d) is None ==> #[trigger] final(self).task(d) is None)
                    &&& (old(self).task(d) matches Some(x) ==> final(self).task(d) matches Some(y) && {
                        &&& y.parent == if d == c {
                            Some(root)
                        } else {
                            x.parent
                        }
                        &&& y.subtasks@ == if d == root {
                            x.subtasks@.push(c)
                        } else {
                            x.subtasks@
                        }
                        &&& same_but_links(x, y)
                    })
                },
    {
        let ghost m0 = *self;
        if let Some(mut ct) = self.take(c) {
            proof {
                lemma_lookup_in(m0.map@, c);
                lemma_bound_up(self.map@, self.seq, self.seq);
            }
            ct.link_parent(root);
            self.put(c, ct);
        }
        let ghost m1 = *self;
        if let Some(mut rt) = self.take(root) {
            proof {
                lemma_lookup_in(m1.map@, root);
            }
            rt.link_child(c);
            self.put(root, rt);
        }
    }

    /// Makes every task of `kids` a child of `root`, in order (see
    /// `adopted_by`).
    pub(crate) fn adopt_all(&mut self, kids: &Vec<usize>, root: usize)
        requires
            keys_sorted(old(self).map@),
            entries_ok(old(self).map@, old(self).seq),
        ensures
            keys_sorted(final(self).map@),
            entries_ok(final(self).map@, final(self).seq),
            final(self).seq == old(self).seq,
            final(self).root == old(self).root,
            forall|d: usize|
                {
                    &&& (old(self).task(d) is None ==> #[trigger] final(self).task(d) is None)
                    &&& (old(self).task(d) matches Some(x) ==> final(self).task(d) matches Some(y) && adopted_by(
                        x,
                        y,
                        d,
                        kids@,
                        root,
                    ))
                },
    {
        let ghost m0 = *self;
        let mut i: usize = 0;
        while i < kids.len()
            invariant
                i <= kids@.len(),
                self.seq == m0.seq,
                self.root == m0.root,
                keys_sorted(self.map@),
                entries_ok(self.map@, self.seq),
                forall|d: usize|
                    {
                        &&& (m0.task(d) is None ==> #[trigger] self.task(d) is None)
                        &&& (m0.task(d) matches Some(x) ==> self.task(d) matches Some(y) && adopted_by(
                            x,
                            y,
                            d,
                            kids@.subrange(0, i as int),
                            root,
                        ))
                    },
            decreases kids@.len() - i,
        {
            let c = kids[i];
            let ghost before = *self;
            self.adopt(c, root);
            proof {
                let pre = kids@.subrange(0, i as int);
                let post = kids@.subrange(0, i + 1);
                assert(post =~= pre.push(c));
                assert forall|d: usize|
                    {
                        &&& (m0.task(d) is None ==> #[trigger] self.task(d) is None)
                        &&& (m0.task(d) matches Some(x) ==> self.task(d) matches Some(y) && adopted_by(
                            x,
                            y,
                            d,
                            post,
                            root,
                        ))
                    } by {
                    lemma_push_contains(pre, c, d);
                    if let Some(x) = m0.task(d) {
                        assert(x.subtasks@ + post =~= (x.subtasks@ + pre).push(c));
                    }
                }
            }
            i = i + 1;
        }
        proof {
            assert(kids@.subrange(0, i as int) =~= kids@);
        }
    }

    /// Takes `task_id` out of the table: its parent no longer lists it and,
    /// with an init task, its children become init's children.
    pub fn reap(&mut self, task_id: usize)
        requires
            old(self).wf(),
        ensures
            final(self).wf(),
            reaped(*old(self), *final(self), task_id),
    {
        let ghost m0 = *self;
        let task = match self.take(task_id) {
            None => {
                proof {
                    assert(self.map@ =~= old(self).map@);
                }
                return;
            },
            Some(t) => t,
        };
        let ghost m1 = *self;
        let ghost children = task.subtasks@;
        if let Some(pid) = task.parent {
            if let Some(mut p) = self.take(pid) {
                retain_not(&mut p.subtasks, task_id);
                self.put(pid, p);
            }
        }
        proof {
            assert forall|d: usize| d != task_id implies {
                &&& (m0.task(d) is None ==> #[trigger] self.task(d) is None)
                &&& (m0.task(d) matches Some(x) ==> self.task(d) matches Some(y) && relinked(
                    x,
                    y,
                    d,
                    task_id,
                    task.parent,
                    children.subrange(0, 0),
                    m0.root,
                ))
            } by {
                assert(children.subrange(0, 0) =~= Seq::<usize>::empty());
                if let Some(x) = m0.task(d) {
                    assert(x.subtasks@ + Seq::<usize>::empty() =~= x.subtasks@);
                    assert(without_tid(x.subtasks@, task_id) + Seq::<usize>::empty() =~= without_tid(x.subtasks@, task_id));
                }
            }
        }
        if let Some(root) = self.root {
            let mut i: usize = 0;
            while i < task.subtasks.len()
                invariant
                    i <= children.len(),
                    children == task.subtasks@,
                    self.root == Some(root),
                    self.root == m0.root,
                    self.seq == m0.seq,
                    keys_sorted(self.map@),
                    entries_ok(self.map@, self.seq),
                    self.task(task_id) is None,
                    forall|d: usize|
                        d != task_id ==> {
                            &&& (m0.task(d) is None ==> #[trigger] self.task(d) is None)
                            &&& (m0.task(d) matches Some(x) ==> self.task(d) matches Some(y) && relinked(
                                x,
                                y,
                                d,
                                task_id,
                                task.parent,
                                children.subrange(0, i as int),
                                m0.root,
                            ))
                        },
                decreases children.len() - i,
            {
                let c = task.subtasks[i];
                let ghost before = *self;
                self.adopt(c, root);
                proof {
                    let pre = children.subrange(0, i as int);
                    let post = children.subrange(0, i + 1);
                    assert(post =~= pre.push(c));
                    assert forall|d: usize| d != task_id implies {
                        &&& (m0.task(d) is None ==> #[trigger] self.task(d) is None)
                        &&& (m0.task(d) matches Some(x) ==> self.task(d) matches Some(y) && relinked(
                            x,
                            y,
                            d,
                            task_id,
                            task.parent,
                            post,
                            m0.root,
                        ))
                    } by {
                        lemma_push_contains(pre, c, d);
                        if let Some(x) = m0.task(d) {
                            let s1 = if task.parent == Some(d) {
                                without_tid(x.subtasks@, task_id)
                            } else {
                                x.subtasks@
                            };
                            assert(s1 + post =~= (s1 + pre).push(c));
                        }
                    }
                }
                i = i + 1;
            }
        } else {
            proof {
                assert forall|d: usize| d != task_id implies {
                    &&& (m0.task(d) is None ==> #[trigger] self.task(d) is None)
                    &&& (m0.task(d) matches Some(x) ==> self.task(d) matches Some(y) && relinked(
                        x,
                        y,
                        d,
                        task_id,
                        task.parent,
                        children,
                        m0.root,
                    ))
                } by {
                    if let Some(x) = m0.task(d) {
                        assert(self.task(d) matches Some(y) && relinked(x, y, d, task_id, task.parent, children.subrange(0, 0), m0.root));
                    }
                }
            }
        }
        proof {
            assert(children.subrange(0, children.len() as int) =~= children);
        }
    }

    /// Forks `source`: a new task under the next id with the source's
    /// name, directories, duplicated files (same descriptors), group,
    /// semaphore sets (no undo records), shared memory and signal mask; it
    /// is the source's child, registered and running one thread.
    pub fn fork_task(&mut self, v: &mut Vfs, source: usize) -> (r: usize)
        requires
            old(self).wf(),
            old(self).seq < usize::MAX,
            old(self).task(source) matches Some(t) && files_valid(t.files@, old(v)) && pipe_room(t.files@, old(v)),
        ensures
            final(self).wf(),
            forked(*old(self), *final(self), old(v), final(v), source, r),
    {
        let child_id = self.seq;
        proof {
            lemma_lookup_in(self.map@, source);
            lemma_bound_up(self.map@, self.seq, (self.seq + 1) as usize);
        }
        self.seq = self.seq + 1;
        let mut src = self.take(source).unwrap();
        let mut child = Task::make(child_id, src.info.tag.as_str());
        child.cwd = src.cwd.as_str().to_owned();
        child.exec_path = src.exec_path.as_str().to_owned();
        child.files = dup_files(&src.files, v);
        child.pgid = src.pgid;
        child.sem_ctx = src.sem_ctx.fork();
        child.shm_ctx = src.shm_ctx.duplicate();
        child.sig_mask = src.sig_mask;
        child.link_parent(source);
        src.link_child(child_id);
        child.pid = Pid(child_id);
        child.threads.push(child_id);
        proof {
            assert(child.threads@ =~= seq![child_id]);
            assert forall|a: int, b: int| 0 <= a < b < child.files@.len() implies child.files@[a].0 != child.files@[b].0 by {
                assert(src.files@[a].0 != src.files@[b].0);
            }
        }
        self.put(child_id, child);
        self.put(source, src);
        child_id
    }

    /// Creates a user task for program `path`: named and with exec path
    /// `path`, its stack pointer set below the initial stack built from
    /// `args` and `envs`, and descriptors 0 (read), 1 (write) and 2 (a
    /// duplicate of 1) on the terminal; registered and running one thread.
    pub fn new_user_task(&mut self, v: &mut Vfs, path: &str, args: Vec<String>, envs: Vec<String>) -> (r: usize)
        requires
            old(self).wf(),
            old(self).seq < usize::MAX,
        ensures
            final(self).wf(),
            r == old(self).seq,
            final(self).seq == old(self).seq + 1,
            final(self).root == old(self).root,
            final(self).task(r) matches Some(t) && {
                &&& t.info.id == r
                &&& t.info.tag@ == path@
                &&& t.exec_path@ == path@
                &&& t.pid == Pid(r)
                &&& t.threads@ == seq![r]
                &&& t.parent is None
                &&& t.thd_ctx matches Some(c) && c.uctx.r@[15] == push_at_spec(
                    (USR_STK_OFF + USR_STK_SZ) as usize,
                    envs@,
                    args@,
                    0,
                ) as u64
                &&& t.files@.len() == 3
                &&& t.files@[0].0 == 0 && t.files@[1].0 == 1 && t.files@[2].0 == 2
                &&& t.files@[0].1 matches FLike::File(h) && h.path@ == "/dev/tty"@ && h.data == old(v).files@.len()
                    && h.desc == old(v).descs@.len() && !h.cloexec
                &&& t.files@[1].1 matches FLike::File(h) && h.path@ == "/dev/tty"@ && h.data == old(v).files@.len() + 1
                    && h.desc == old(v).descs@.len() + 1 && !h.cloexec
                &&& t.files@[2].1 matches FLike::File(h) && h.path@ == "/dev/tty"@ && h.data == old(v).files@.len() + 1
                    && h.desc == old(v).descs@.len() + 1 && !h.cloexec
                &&& files_valid(t.files@, final(v))
            },
            final(v).descs@ == old(v).descs@.push(FdState { off: 0, opt: FdOpt { rd: true, wr: false, ap: false, nb: false }, flk: 0 }).push(
                FdState { off: 0, opt: FdOpt { rd: false, wr: true, ap: false, nb: false }, flk: 0 },
            ),
            final(v).files@.len() == old(v).files@.len() + 2,
            final(v).files@.subrange(0, old(v).files@.len() as int) == old(v).files@,
            final(v).files@[old(v).files@.len() as int]@.len() == 0,
            final(v).files@[old(v).files@.len() + 1int]@.len() == 0,
            final(v).pipes@ == old(v).pipes@,
            final(v).ep_maps@ == old(v).ep_maps@,
            final(v).ep_sets@ == old(v).ep_sets@,
            forall|d: usize| d != r ==> #[trigger] final(self).task(d) == old(self).task(d),
    {
        let task_id = self.seq;
        proof {
            lemma_bound_up(self.map@, self.seq, (self.seq + 1) as usize);
        }
        self.seq = self.seq + 1;
        let mut task = Task::make(task_id, path);
        task.exec_path = path.to_owned();
        let mut context = ThdCtx::default();
        let init = ProcInit { args, envs, auxv: BTreeMap::new() };
        let stack_pointer = init.push_at(USR_STK_OFF + USR_STK_SZ);
        context.uctx.set_sp(stack_pointer as u64);
        task.end_run(context);
        let ghost v0 = *v;
        let stdin = FHandle::new("/dev/tty", FdOpt { rd: true, wr: false, ap: false, nb: false }, false, false, v);
        let ghost v1 = *v;
        let stdout = FHandle::new("/dev/tty", FdOpt { rd: false, wr: true, ap: false, nb: false }, false, false, v);
        let stderr = stdout.dup(false);
        proof {
            assert(v.files@.subrange(0, v0.files@.len() as int) =~= v1.files@.subrange(0, v0.files@.len() as int));
        }
        task.files.push((0, FLike::File(stdin)));
        task.files.push((1, FLike::File(stdout)));
        task.files.push((2, FLike::File(stderr)));
        task.pid = Pid(task_id);
        task.threads.push(task_id);
        proof {
            assert(task.threads@ =~= seq![task_id]);
            reveal_strlit("/dev/tty");
        }
        self.put(task_id, task);
        task_id
    }

    /// Ends task `task_id` with `code` (closing its files and telling its
    /// parent) and reaps it. False when there is no such task.
    pub fn terminate_and_collect(&mut self, v: &mut Vfs, task_id: usize, code: usize) -> (r: bool)
        requires
            old(self).wf(),
            old(self).task(task_id) matches Some(t) ==> files_valid(t.files@, old(v)),
        ensures
            final(self).wf(),
            final(self).seq == old(self).seq,
            final(self).root == old(self).root,
            r == old(self).task(task_id) is Some,
            !r ==> final(self).map@ == old(self).map@ && *final(v) == *old(v),
            old(self).task(task_id) matches Some(t) ==> {
                &&& final(self).task(task_id) is None
                &&& only_pipes_changed(old(v), final(v))
                &&& pipe_views(final(v)) == after_drops(pipe_views(old(v)), t.files@)
                &&& forall|d: usize|
                    d != task_id ==> {
                        &&& (old(self).task(d) is None ==> #[trigger] final(self).task(d) is None)
                        &&& (old(self).task(d) matches Some(x) ==> final(self).task(d) matches Some(y) && {
                            &&& relinked(
                                Task { ev: y.ev, ..x },
                                y,
                                d,
                                task_id,
                                t.parent,
                                t.subtasks@,
                                old(self).root,
                            )
                            &&& if t.parent == Some(d) {
                                (y.ev.events, y.ev.callbacks@) == change_spec(x.ev, 0, EventFlag::CHILD_QUIT)
                            } else {
                                y.ev == x.ev
                            }
                        })
                    }
            },
    {
        let ghost m0 = *self;
        let mut t = match self.take(task_id) {
            None => {
                return false;
            },
            Some(t) => t,
        };
        proof {
            lemma_lookup_in(m0.map@, task_id);
        }
        let ghost t0 = t;
        let parent = t.exit_proc(v, code);
        let ghost parent_field = t.parent;
        self.put(task_id, t);
        let ghost m1 = *self;
        if let Some(p) = parent {
            if p != task_id {
                if let Some(mut pt) = self.take(p) {
                    proof {
                        lemma_lookup_in(m1.map@, p);
                    }
                    pt.ev.set(EventFlag::CHILD_QUIT);
                    self.put(p, pt);
                }
            }
        }
        let ghost m2 = *self;
        self.reap(task_id);
        proof {
            assert forall|d: usize| d != task_id implies {
                &&& (m0.task(d) is None ==> #[trigger] self.task(d) is None)
                &&& (m0.task(d) matches Some(x) ==> self.task(d) matches Some(y) && {
                    &&& relinked(Task { ev: y.ev, ..x }, y, d, task_id, t0.parent, t0.subtasks@, m0.root)
                    &&& if t0.parent == Some(d) {
                        (y.ev.events, y.ev.callbacks@) == change_spec(x.ev, 0, EventFlag::CHILD_QUIT)
                    } else {
                        y.ev == x.ev
                    }
                })
            } by {
                assert(m2.task(task_id) matches Some(z) && z.parent == t0.parent && z.subtasks@ == t0.subtasks@);
            }
        }
        true
    }

    /// Number of registered tasks.
    pub fn count(&self) -> (r: usize)
        ensures
            r == self.map@.len(),
    {
        self.map.len()
    }
}


proof fn lemma_without_absent(s: Seq<usize>, x: usize)
    requires
        !s.contains(x),
    ensures
        without_tid(s, x) == s,
    decreases s.len(),
{
    reveal(Seq::filter);
    if s.len() > 0 {
        assert(!s.drop_last().contains(x)) by {
            if s.drop_last().contains(x) {
                let w = choose|w: int| 0 <= w < s.drop_last().len() && s.drop_last()[w] == x;
                assert(s[w] == x);
            }
        }
        lemma_without_absent(s.drop_last(), x);
        assert(s.last() != x) by {
            assert(s[s.len() - 1] == s.last());
        }
        assert(s.drop_last().push(s.last()) =~= s);
    }
}

proof fn lemma_without_push(s: Seq<usize>, x: usize)
    ensures
        without_tid(s.push(x), x) == without_tid(s, x),
{
    reveal(Seq::filter);
    assert(s.push(x).drop_last() =~= s);
}


impl ProcessGroup {
    /// Sends `signo`, from the leader, to every member that is registered.
    pub fn broadcast_signal(&self, signo: i32, tasks: &mut TaskTable)
        requires
            old(tasks).wf(),
            self.members@.no_duplicates(),
        ensures
            final(tasks).wf(),
            final(tasks).seq == old(tasks).seq,
            final(tasks).root == old(tasks).root,
            forall|d: usize|
                if self.members@.contains(d) && old(tasks).task(d) is Some {
                    #[trigger] final(tasks).task(d) matches Some(y) && sig_sent(
                        old(tasks).task(d).unwrap(),
                        y,
                        signo,
                        self.leader as isize,
                    )
                } else {
                    final(tasks).task(d) == old(tasks).task(d)
                },
    {
        let ghost t0 = *tasks;
        let ghost ms = self.members@;
        let mut i: usize = 0;
        while i < self.members.len()
            invariant
                i <= ms.len(),
                self.members@ == ms,
                ms.no_duplicates(),
                t0.wf(),
                tasks.wf(),
                tasks.seq == t0.seq,
                tasks.root == t0.root,
                forall|d: usize|
                    if ms.subrange(0, i as int).contains(d) && t0.task(d) is Some {
                        #[trigger] tasks.task(d) matches Some(y) && sig_sent(t0.task(d).unwrap(), y, signo, self.leader as isize)
                    } else {
                        tasks.task(d) == t0.task(d)
                    },
            decreases ms.len() - i,
        {
            let pid = self.members[i];
            let ghost pre = ms.subrange(0, i as int);
            let ghost post = ms.subrange(0, i + 1);
            let ghost mid = *tasks;
            proof {
                assert(post =~= pre.push(pid));
                lemma_push_contains(pre, pid, pid);
                assert(!pre.contains(pid)) by {
                    if pre.contains(pid) {
                        let j = choose|j: int| 0 <= j < pre.len() && pre[j] == pid;
                        assert(ms[j] == ms[i as int]);
                    }
                }
                lemma_lookup_in_table(*tasks, pid);
            }
            if let Some(mut t) = tasks.take(pid) {
                t.send_sig(signo, self.leader as isize);
                tasks.put(pid, t);
            }
            proof {
                assert forall|d: usize|
                    if post.contains(d) && t0.task(d) is Some {
                        #[trigger] tasks.task(d) matches Some(y) && sig_sent(t0.task(d).unwrap(), y, signo, self.leader as isize)
                    } else {
                        tasks.task(d) == t0.task(d)
                    } by {
                    lemma_push_contains(pre, pid, d);
                    if d != pid {
                        assert(tasks.task(d) == mid.task(d));
                    }
                }
            }
            i = i + 1;
        }
        proof {
            assert(ms.subrange(0, i as int) =~= ms);
        }
    }
}
} // verus!

use vstd::prelude::*;
use crate::epoll::{set_insert, set_of};
use crate::file::{swap_out, Vfs};

verus! {

/// An epoll registration woken with a condition variable: the ready list
/// of the registering process's epoll instance (by position in a `Vfs`),
/// the thread, the epoll descriptor and the watched descriptor.
#[derive(Clone, Copy, PartialEq, Eq, Structural)]
pub struct RegisteredProcess {
    pub ready: usize,
    pub tid: usize,
    pub epfd: usize,
    pub fd: usize,
}

/// A condition variable: the threads waiting on it, in arrival order and
/// each once, and the epoll registrations it wakes.
pub struct Condvar {
    pub wait_queue: Vec<usize>,
    pub epoll_queue: Vec<RegisteredProcess>,
}

/// The descriptors that registrations in `regs` add to ready list `i`.
pub open spec fn woken_fds(regs: Seq<RegisteredProcess>, i: int) -> Set<usize> {
    Set::new(|fd: usize| exists|k: int| #[trigger] reg_adds(regs, k, i, fd))
}

/// Registration `k` of `regs` adds `fd` to ready list `i`.
pub open spec fn reg_adds(regs: Seq<RegisteredProcess>, k: int, i: int, fd: usize) -> bool {
    0 <= k < regs.len() && regs[k].ready == i && regs[k].fd == fd
}

/// The ready lists after a wake-up: each gains the descriptors registered
/// for it.
pub open spec fn after_wake(sets: Seq<Vec<usize>>, regs: Seq<RegisteredProcess>, i: int) -> Set<usize> {
    set_of(sets[i]@).union(woken_fds(regs, i))
}

/// Whether an entry is not `x`.
pub open spec fn not_tid(x: usize) -> spec_fn(usize) -> bool {
    |t: usize| t != x
}

/// `s` without `x`.
pub open spec fn without_tid(s: Seq<usize>, x: usize) -> Seq<usize> {
    s.filter(not_tid(x))
}

/// How long a timeout of `sec` seconds and `nsec` nanoseconds lasts in
/// milliseconds, saturated at the largest word.
pub open spec fn timeout_ms_spec(sec: u64, nsec: u32) -> int {
    let ms = sec * 1000 + nsec / 1_000_000;
    if ms > usize::MAX {
        usize::MAX as int
    } else {
        ms
    }
}

/// Whole milliseconds of a timeout given as seconds and nanoseconds.
pub fn timeout_millis(sec: u64, nsec: u32) -> (r: usize)
    ensures
        r == timeout_ms_spec(sec, nsec),
{
    let ms: u128 = (sec as u128) * 1000 + (nsec / 1_000_000) as u128;
    if ms > usize::MAX as u128 {
        usize::MAX
    } else {
        ms as usize
    }
}

impl Condvar {
    /// Every thread waits at most once.
    pub open spec fn wf(&self) -> bool {
        self.wait_queue@.no_duplicates()
    }

    /// Every registration names an existing ready list.
    pub open spec fn regs_valid(&self, v: &Vfs) -> bool {
        forall|k: int| 0 <= k < self.epoll_queue@.len() ==> (#[trigger] self.epoll_queue@[k]).ready
            < v.ep_sets@.len()
    }

    pub fn new() -> (r: Self)
        ensures
            r.wf(),
            r.wait_queue@.len() == 0,
            r.epoll_queue@.len() == 0,
    {
        Condvar { wait_queue: Vec::new(), epoll_queue: Vec::new() }
    }

    pub fn wait_queue_len(&self) -> (r: usize)
        ensures
            r == self.wait_queue@.len(),
    {
        self.wait_queue.len()
    }

    /// Whether thread `tid` still waits.
    pub fn is_waiting(&self, tid: usize) -> (r: bool)
        ensures
            r == self.wait_queue@.contains(tid),
    {
        let mut i: usize = 0;
        while i < self.wait_queue.len()
            invariant
                i <= self.wait_queue@.len(),
                forall|j: int| 0 <= j < i ==> self.wait_queue@[j] != tid,
            decreases self.wait_queue@.len() - i,
        {
            if self.wait_queue[i] == tid {
                return true;
            }
            i = i + 1;
        }
        false
    }

    /// Queues `tid` unless it already waits.
    fn push_waiter(&mut self, tid: usize)
        requires
            old(self).wf(),
        ensures
            final(self).wf(),
            final(self).epoll_queue@ == old(self).epoll_queue@,
            final(self).wait_queue@ == if old(self).wait_queue@.contains(tid) {
                old(self).wait_queue@
            } else {
                old(self).wait_queue@.push(tid)
            },
    {
        if !self.is_waiting(tid) {
            self.wait_queue.push(tid);
        }
    }

    /// Takes `tid` out of the queue; reports whether it was there.
    pub fn remove_waiter(&mut self, tid: usize) -> (r: bool)
        requires
            old(self).wf(),
        ensures
            final(self).wf(),
            final(self).epoll_queue@ == old(self).epoll_queue@,
            final(self).wait_queue@ == without_tid(old(self).wait_queue@, tid),
            r == old(self).wait_queue@.contains(tid),
    {
        let ghost q = self.wait_queue@;
        let mut kept: Vec<usize> = Vec::new();
        let mut found = false;
        let mut i: usize = 0;
        while i < self.wait_queue.len()
            invariant
                i <= q.len(),
                self.wait_queue@ == q,
                kept@ == without_tid(q.subrange(0, i as int), tid),
                found == q.subrange(0, i as int).contains(tid),
                q.no_duplicates(),
                kept@.no_duplicates(),
            decreases q.len() - i,
        {
            proof {
                assert(q.subrange(0, i + 1).drop_last() =~= q.subrange(0, i as int));
                reveal(Seq::filter);
            }
            if self.wait_queue[i] != tid {
                proof {
                    if kept@.contains(q[i as int]) {
                        q.subrange(0, i as int).lemma_filter_contains_rev(not_tid(tid), q[i as int]);
                        let w = choose|w: int| 0 <= w < i && q.subrange(0, i as int)[w] == q[i as int];
                        assert(q[w] == q[i as int]);
                    }
                }
                kept.push(self.wait_queue[i]);
            } else {
                found = true;
            }
            i = i + 1;
            proof {
                let s0 = q.subrange(0, i - 1);
                let s1 = q.subrange(0, i as int);
                assert(s1 =~= s0.push(q[i - 1]));
                if s0.contains(tid) {
                    let w = choose|w: int| 0 <= w < s0.len() && s0[w] == tid;
                    assert(s1[w] == tid);
                }
                if q[i - 1] == tid {
                    assert(s1[i - 1] == tid);
                }
                if s1.contains(tid) {
                    let w = choose|w: int| 0 <= w < s1.len() && s1[w] == tid;
                    if w < i - 1 {
                        assert(s0[w] == tid);
                    }
                }
            }
        }
        proof {
            assert(q.subrange(0, i as int) =~= q);
        }
        self.wait_queue = kept;
        found
    }

    /// Enqueues the caller to wait for a notification; `is_waiting` stays
    /// true until one takes it off the queue.
    pub fn wait(&mut self, tid: Option<usize>)
        requires
            old(self).wf(),
        ensures
            final(self).wf(),
            final(self).epoll_queue@ == old(self).epoll_queue@,
            final(self).wait_queue@ == match tid {
                Some(t) => if old(self).wait_queue@.contains(t) {
                    old(self).wait_queue@
                } else {
                    old(self).wait_queue@.push(t)
                },
                None => old(self).wait_queue@,
            },
    {
        if let Some(t) = tid {
            self.push_waiter(t);
        }
    }

    /// One check of a timed wait after `wait`: `Some(true)` once the caller
    /// was notified, `Some(false)` when `elapsed_ms` reached `timeout_ms`
    /// (the caller leaves the queue), `None` to keep waiting.
    pub fn wait_timeout(&mut self, tid: Option<usize>, elapsed_ms: usize, timeout_ms: usize) -> (r: Option<bool>)
        requires
            old(self).wf(),
        ensures
            final(self).wf(),
            final(self).epoll_queue@ == old(self).epoll_queue@,
            tid matches Some(t) && !old(self).wait_queue@.contains(t) ==> r == Some(true) && final(self).wait_queue@ == old(self).wait_queue@,
            !(tid matches Some(t) && !old(self).wait_queue@.contains(t)) && elapsed_ms >= timeout_ms ==> r
                == Some(false) && final(self).wait_queue@ == match tid {
                Some(t) => without_tid(old(self).wait_queue@, t),
                None => old(self).wait_queue@,
            },
            !(tid matches Some(t) && !old(self).wait_queue@.contains(t)) && elapsed_ms < timeout_ms ==> r
                is None && final(self).wait_queue@ == old(self).wait_queue@,
    {
        if let Some(t) = tid {
            if !self.is_waiting(t) {
                return Some(true);
            }
        }
        if elapsed_ms >= timeout_ms {
            if let Some(t) = tid {
                let _ = self.remove_waiter(t);
            }
            return Some(false);
        }
        None
    }

    /// Adds every registered descriptor to its ready list.
    fn epoll_callback(&self, v: &mut Vfs)
        requires
            self.regs_valid(old(v)),
        ensures
            final(v).ep_sets@.len() == old(v).ep_sets@.len(),
            forall|i: int|
                0 <= i < old(v).ep_sets@.len() ==> set_of(#[trigger] final(v).ep_sets@[i]@) == after_wake(
                    old(v).ep_sets@,
                    self.epoll_queue@,
                    i,
                ),
            final(v).files@ == old(v).files@,
            final(v).descs@ == old(v).descs@,
            final(v).pipes@ == old(v).pipes@,
            final(v).ep_maps@ == old(v).ep_maps@,
    {
        let ghost regs = self.epoll_queue@;
        let mut k: usize = 0;
        while k < self.epoll_queue.len()
            invariant
                k <= regs.len(),
                regs == self.epoll_queue@,
                self.regs_valid(old(v)),
                v.ep_sets@.len() == old(v).ep_sets@.len(),
                forall|i: int|
                    0 <= i < old(v).ep_sets@.len() ==> set_of(#[trigger] v.ep_sets@[i]@) == after_wake(
                        old(v).ep_sets@,
                        regs.subrange(0, k as int),
                        i,
                    ),
                v.files@ == old(v).files@,
                v.descs@ == old(v).descs@,
                v.pipes@ == old(v).pipes@,
                v.ep_maps@ == old(v).ep_maps@,
            decreases regs.len() - k,
        {
            let reg = self.epoll_queue[k];
            let ghost before = v.ep_sets@;
            let mut set = swap_out(&mut v.ep_sets, reg.ready, Vec::new());
            set_insert(&mut set, reg.fd);
            let _ = swap_out(&mut v.ep_sets, reg.ready, set);
            proof {
                assert forall|i: int| 0 <= i < old(v).ep_sets@.len() implies set_of(#[trigger] v.ep_sets@[i]@)
                    == after_wake(old(v).ep_sets@, regs.subrange(0, k + 1), i) by {
                    assert(set_of(before[i]@) == after_wake(old(v).ep_sets@, regs.subrange(0, k as int), i));
                    assert(woken_fds(regs.subrange(0, k + 1), i) =~= if i == reg.ready {
                        woken_fds(regs.subrange(0, k as int), i).insert(reg.fd)
                    } else {
                        woken_fds(regs.subrange(0, k as int), i)
                    }) by {
                        assert forall|fd: usize| #[trigger] woken_fds(regs.subrange(0, k + 1), i).contains(fd) implies (
                        if i == reg.ready {
                            woken_fds(regs.subrange(0, k as int), i).insert(reg.fd)
                        } else {
                            woken_fds(regs.subrange(0, k as int), i)
                        }).contains(fd) by {
                            let w = choose|w: int| #[trigger] reg_adds(regs.subrange(0, k + 1), w, i, fd);
                            if w < k {
                                assert(regs.subrange(0, k as int)[w] == regs.subrange(0, k + 1)[w]);
                                assert(reg_adds(regs.subrange(0, k as int), w, i, fd));
                            }
                        }
                        assert forall|fd: usize| (if i == reg.ready {
                            woken_fds(regs.subrange(0, k as int), i).insert(reg.fd)
                        } else {
                            woken_fds(regs.subrange(0, k as int), i)
                        }).contains(fd) implies #[trigger] woken_fds(regs.subrange(0, k + 1), i).contains(fd) by {
                            if i == reg.ready && fd == reg.fd {
                                assert(regs.subrange(0, k + 1)[k as int] == reg);
                                assert(reg_adds(regs.subrange(0, k + 1), k as int, i, fd));
                            } else {
                                let w = choose|w: int| #[trigger] reg_adds(regs.subrange(0, k as int), w, i, fd);
                                assert(regs.subrange(0, k + 1)[w] == regs.subrange(0, k as int)[w]);
                                assert(reg_adds(regs.subrange(0, k + 1), w, i, fd));
                            }
                        }
                    }
                }
            }
            k = k + 1;
        }
        proof {
            assert(regs.subrange(0, k as int) =~= regs);
        }
    }

    /// Wakes the first waiter, if any: every registration is made ready.
    pub fn notify_one(&mut self, v: &mut Vfs)
        requires
            old(self).wf(),
            old(self).regs_valid(old(v)),
        ensures
            final(self).wf(),
            final(self).epoll_queue@ == old(self).epoll_queue@,
            old(self).wait_queue@.len() == 0 ==> final(self).wait_queue@ == old(self).wait_queue@ && *final(v)
                == *old(v),
            old(self).wait_queue@.len() > 0 ==> {
                &&& final(self).wait_queue@ == old(self).wait_queue@.drop_first()
                &&& final(v).ep_sets@.len() == old(v).ep_sets@.len()
                &&& forall|i: int|
                    0 <= i < old(v).ep_sets@.len() ==> set_of(#[trigger] final(v).ep_sets@[i]@) == after_wake(
                        old(v).ep_sets@,
                        old(self).epoll_queue@,
                        i,
                    )
            },
    {
        let r = self.notify_n(v, 1);
    }

    /// Wakes every waiter.
    pub fn notify_all(&mut self, v: &mut Vfs)
        requires
            old(self).wf(),
            old(self).regs_valid(old(v)),
        ensures
            final(self).wf(),
            final(self).epoll_queue@ == old(self).epoll_queue@,
            final(self).wait_queue@.len() == 0,
            old(self).wait_queue@.len() == 0 ==> *final(v) == *old(v),
            old(self).wait_queue@.len() > 0 ==> {
                &&& final(v).ep_sets@.len() == old(v).ep_sets@.len()
                &&& forall|i: int|
                    0 <= i < old(v).ep_sets@.len() ==> set_of(#[trigger] final(v).ep_sets@[i]@) == after_wake(
                        old(v).ep_sets@,
                        old(self).epoll_queue@,
                        i,
                    )
            },
    {
        let n = self.wait_queue.len();
        let r = self.notify_n(v, n);
        proof {
            assert(self.wait_queue@ =~= old(self).wait_queue@.subrange(n as int, n as int));
        }
    }

    /// Wakes up to `n` waiters from the front; returns how many.
    pub fn notify_n(&mut self, v: &mut Vfs, n: usize) -> (r: usize)
        requires
            old(self).wf(),
            old(self).regs_valid(old(v)),
        ensures
            final(self).wf(),
            r == if n < old(self).wait_queue@.len() {
                n as int
            } else {
                old(self).wait_queue@.len() as int
            },
            final(self).epoll_queue@ == old(self).epoll_queue@,
            final(self).wait_queue@ == old(self).wait_queue@.subrange(r as int, old(self).wait_queue@.len() as int),
            r == 0 ==> *final(v) == *old(v),
            r > 0 ==> {
                &&& final(v).ep_sets@.len() == old(v).ep_sets@.len()
                &&& forall|i: int|
                    0 <= i < old(v).ep_sets@.len() ==> set_of(#[trigger] final(v).ep_sets@[i]@) == after_wake(
                        old(v).ep_sets@,
                        old(self).epoll_queue@,
                        i,
                    )
            },
    {
        let count: usize = if n < self.wait_queue.len() {
            n
        } else {
            self.wait_queue.len()
        };
        if count > 0 {
            self.epoll_callback(v);
            proof {
                assert forall|i: int| 0 <= i < old(v).ep_sets@.len() implies set_of(#[trigger] v.ep_sets@[i]@)
                    == after_wake(old(v).ep_sets@, old(self).epoll_queue@, i) by {
                    assert(after_wake(v.ep_sets@, self.epoll_queue@, i) =~= after_wake(
                        v.ep_sets@,
                        self.epoll_queue@,
                        i,
                    ).union(woken_fds(self.epoll_queue@, i)));
                }
            }
        }
        let ghost q = self.wait_queue@;
        let mut rest: Vec<usize> = Vec::new();
        let mut i: usize = count;
        while i < self.wait_queue.len()
            invariant
                count <= i <= q.len(),
                self.wait_queue@ == q,
                rest@ == q.subrange(count as int, i as int),
            decreases q.len() - i,
        {
            rest.push(self.wait_queue[i]);
            i = i + 1;
            proof {
                assert(rest@ =~= q.subrange(count as int, i as int));
            }
        }
        proof {
            assert forall|a: int, b: int| 0 <= a < b < rest@.len() implies rest@[a] != rest@[b] by {
                assert(rest@[a] == q[count + a]);
                assert(rest@[b] == q[count + b]);
            }
        }
        self.wait_queue = rest;
        count
    }

    /// Registers an epoll interest to be made ready on every notification.
    pub fn register_epoll_list(&mut self, ready: usize, tid: usize, epfd: usize, fd: usize)
        ensures
            final(self).wait_queue@ == old(self).wait_queue@,
            final(self).epoll_queue@ == old(self).epoll_queue@.push(RegisteredProcess { ready, tid, epfd, fd }),
    {
        self.epoll_queue.push(RegisteredProcess { ready, tid, epfd, fd });
    }

    /// Drops the first registration of (`tid`, `epfd`, `fd`); reports
    /// whether there was one.
    pub fn unregister_epoll_list(&mut self, tid: usize, epfd: usize, fd: usize) -> (r: bool)
        ensures
            final(self).wait_queue@ == old(self).wait_queue@,
            r == exists|k: int|
                0 <= k < old(self).epoll_queue@.len() && #[trigger] old(self).epoll_queue@[k].tid == tid
                    && old(self).epoll_queue@[k].epfd == epfd && old(self).epoll_queue@[k].fd == fd,
            r ==> exists|k: int|
                0 <= k < old(self).epoll_queue@.len() && old(self).epoll_queue@[k].tid == tid
                    && old(self).epoll_queue@[k].epfd == epfd && old(self).epoll_queue@[k].fd == fd
                    && (forall|j: int|
                    0 <= j < k ==> !(old(self).epoll_queue@[j].tid == tid && old(self).epoll_queue@[j].epfd
                        == epfd && old(self).epoll_queue@[j].fd == fd)) && final(self).epoll_queue@
                    == old(self).epoll_queue@.remove(k),
            !r ==> final(self).epoll_queue@ == old(self).epoll_queue@,
    {
        let mut idx: usize = 0;
        while idx < self.epoll_queue.len()
            invariant
                idx <= self.epoll_queue@.len(),
                self.epoll_queue@ == old(self).epoll_queue@,
                self.wait_queue@ == old(self).wait_queue@,
                forall|j: int|
                    0 <= j < idx ==> !(self.epoll_queue@[j].tid == tid && self.epoll_queue@[j].epfd == epfd
                        && self.epoll_queue@[j].fd == fd),
            decreases self.epoll_queue@.len() - idx,
        {
            let e = self.epoll_queue[idx];
            if e.tid == tid && e.epfd == epfd && e.fd == fd {
                self.epoll_queue.remove(idx);
                return true;
            }
            idx = idx + 1;
        }
        false
    }
}

impl Condvar {
    /// One check of a wait on one condition variable: with the condition
    /// `satisfied` the caller leaves the queue and is done (`true`);
    /// otherwise it queues and waits on (`false`).
    pub fn wait_event(condvar: &mut Condvar, tid: Option<usize>, satisfied: bool) -> (r: bool)
        requires
            old(condvar).wf(),
        ensures
            r == satisfied,
            final(condvar).wf(),
            final(condvar).epoll_queue@ == old(condvar).epoll_queue@,
            final(condvar).wait_queue@ == match tid {
                None => old(condvar).wait_queue@,
                Some(t) => if satisfied {
                    without_tid(old(condvar).wait_queue@, t)
                } else if old(condvar).wait_queue@.contains(t) {
                    old(condvar).wait_queue@
                } else {
                    old(condvar).wait_queue@.push(t)
                },
            },
    {
        if let Some(t) = tid {
            if satisfied {
                let _ = condvar.remove_waiter(t);
            } else {
                condvar.push_waiter(t);
            }
        }
        satisfied
    }

    /// One check of a wait on several condition variables, as `wait_event`
    /// on each of them.
    pub fn wait_events(condvars: &mut Vec<Condvar>, tid: Option<usize>, satisfied: bool) -> (r: bool)
        requires
            forall|k: int| 0 <= k < old(condvars)@.len() ==> (#[trigger] old(condvars)@[k]).wf(),
        ensures
            r == satisfied,
            final(condvars)@.len() == old(condvars)@.len(),
            forall|k: int|
                0 <= k < old(condvars)@.len() ==> {
                    &&& (#[trigger] final(condvars)@[k]).wf()
                    &&& final(condvars)@[k].epoll_queue@ == old(condvars)@[k].epoll_queue@
                    &&& final(condvars)@[k].wait_queue@ == match tid {
                        None => old(condvars)@[k].wait_queue@,
                        Some(t) => if satisfied {
                            without_tid(old(condvars)@[k].wait_queue@, t)
                        } else if old(condvars)@[k].wait_queue@.contains(t) {
                            old(condvars)@[k].wait_queue@
                        } else {
                            old(condvars)@[k].wait_queue@.push(t)
                        },
                    }
                },
    {
        let mut k: usize = 0;
        while k < condvars.len()
            invariant
                k <= condvars@.len(),
                condvars@.len() == old(condvars)@.len(),
                forall|j: int| k <= j < condvars@.len() ==> #[trigger] condvars@[j] == old(condvars)@[j],
                forall|j: int| 0 <= j < old(condvars)@.len() ==> (#[trigger] old(condvars)@[j]).wf(),
                forall|j: int|
                    0 <= j < k ==> {
                        &&& (#[trigger] condvars@[j]).wf()
                        &&& condvars@[j].epoll_queue@ == old(condvars)@[j].epoll_queue@
                        &&& condvars@[j].wait_queue@ == match tid {
                            None => old(condvars)@[j].wait_queue@,
                            Some(t) => if satisfied {
                                without_tid(old(condvars)@[j].wait_queue@, t)
                            } else if old(condvars)@[j].wait_queue@.contains(t) {
                                old(condvars)@[j].wait_queue@
                            } else {
                                old(condvars)@[j].wait_queue@.push(t)
                            },
                        }
                    },
            decreases condvars@.len() - k,
        {
            let mut cv = swap_out(condvars, k, Condvar::new());
            let _ = Condvar::wait_event(&mut cv, tid, satisfied);
            let _ = swap_out(condvars, k, cv);
            k = k + 1;
        }
        satisfied
    }
}

} // verus!

use vstd::prelude::*;
use crate::condvar::{not_tid, without_tid};
use crate::file::swap_out;

verus! {

/// An epoll interest registered with a wait queue.
#[derive(Clone, Copy, Debug, PartialEq, Eq, Structural)]
pub struct RegEp {
    pub task_id: usize,
    pub epfd: usize,
    pub fd: usize,
}

/// A wait queue: the waiting threads (by id) in arrival order, epoll
/// registrations, and wake-ups that came while nobody waited (tokens).
pub struct SyncQueue {
    pub waiters: Vec<usize>,
    pub epoll_registrations: Vec<RegEp>,
    pub pending_signal_tokens: usize,
}

/// `s` with `x` appended unless it is already there.
pub open spec fn pushed_once(s: Seq<usize>, x: usize) -> Seq<usize> {
    if s.contains(x) {
        s
    } else {
        s.push(x)
    }
}

/// Whether `x` occurs in `s`.
fn holds_id(s: &Vec<usize>, x: usize) -> (r: bool)
    ensures
        r == s@.contains(x),
{
    let mut i: usize = 0;
    while i < s.len()
        invariant
            i <= s@.len(),
            forall|j: int| 0 <= j < i ==> s@[j] != x,
        decreases s@.len() - i,
    {
        if s[i] == x {
            return true;
        }
        i = i + 1;
    }
    false
}

/// Drops every `x` from `s`; reports whether there was one.
fn drop_id(s: &mut Vec<usize>, x: usize) -> (r: bool)
    ensures
        final(s)@ == without_tid(old(s)@, x),
        r == old(s)@.contains(x),
{
    let ghost q = s@;
    let mut kept: Vec<usize> = Vec::new();
    let mut found = false;
    let mut i: usize = 0;
    while i < s.len()
        invariant
            i <= q.len(),
            s@ == q,
            kept@ == without_tid(q.subrange(0, i as int), x),
            found == q.subrange(0, i as int).contains(x),
        decreases q.len() - i,
    {
        proof {
            assert(q.subrange(0, i + 1).drop_last() =~= q.subrange(0, i as int));
            reveal(Seq::filter);
        }
        if s[i] != x {
            kept.push(s[i]);
        } else {
            found = true;
        }
        i = i + 1;
        proof {
            let s0 = q.subrange(0, i - 1);
            let s1 = q.subrange(0, i as int);
            assert(s1 =~= s0.push(q[i - 1]));
            if s0.contains(x) {
                let w = choose|w: int| 0 <= w < s0.len() && s0[w] == x;
                assert(s1[w] == x);
            }
            if q[i - 1] == x {
                assert(s1[i - 1] == x);
            }
            if s1.contains(x) {
                let w = choose|w: int| 0 <= w < s1.len() && s1[w] == x;
                if w < i - 1 {
                    assert(s0[w] == x);
                }
            }
        }
    }
    proof {
        assert(q.subrange(0, i as int) =~= q);
    }
    *s = kept;
    found
}

impl SyncQueue {
    pub fn new() -> (r: Self)
        ensures
            r.waiters@.len() == 0,
            r.epoll_registrations@.len() == 0,
            r.pending_signal_tokens == 0,
    {
        SyncQueue { waiters: Vec::new(), epoll_registrations: Vec::new(), pending_signal_tokens: 0 }
    }

    /// Uses up a stored wake-up, if there is one.
    fn consume_signal(&mut self) -> (r: bool)
        ensures
            r == (old(self).pending_signal_tokens > 0),
            final(self).pending_signal_tokens == if r {
                old(self).pending_signal_tokens - 1
            } else {
                0
            },
            final(self).waiters@ == old(self).waiters@,
            final(self).epoll_registrations@ == old(self).epoll_registrations@,
    {
        if self.pending_signal_tokens == 0 {
            return false;
        }
        self.pending_signal_tokens = self.pending_signal_tokens - 1;
        true
    }

    /// Stores a wake-up, saturating.
    fn record_signal(&mut self)
        ensures
            final(self).pending_signal_tokens == if old(self).pending_signal_tokens == usize::MAX {
                usize::MAX as int
            } else {
                old(self).pending_signal_tokens + 1
            },
            final(self).waiters@ == old(self).waiters@,
            final(self).epoll_registrations@ == old(self).epoll_registrations@,
    {
        if self.pending_signal_tokens != usize::MAX {
            self.pending_signal_tokens = self.pending_signal_tokens + 1;
        }
    }

    /// A waiting thread was woken: it leaves the queue. Reports whether it
    /// was still queued.
    pub fn end_wait(&mut self, tid: usize) -> (r: bool)
        ensures
            final(self).waiters@ == without_tid(old(self).waiters@, tid),
            r == old(self).waiters@.contains(tid),
            final(self).pending_signal_tokens == old(self).pending_signal_tokens,
            final(self).epoll_registrations@ == old(self).epoll_registrations@,
    {
        drop_id(&mut self.waiters, tid)
    }

    /// Queues `tid` (once) when `should_wait`; reports whether it waits.
    pub fn enqueue_if(&mut self, tid: usize, should_wait: bool) -> (r: bool)
        ensures
            r == should_wait,
            final(self).waiters@ == if should_wait {
                pushed_once(old(self).waiters@, tid)
            } else {
                old(self).waiters@
            },
            final(self).pending_signal_tokens == old(self).pending_signal_tokens,
            final(self).epoll_registrations@ == old(self).epoll_registrations@,
    {
        if !should_wait {
            return false;
        }
        if !holds_id(&self.waiters, tid) {
            self.waiters.push(tid);
        }
        true
    }

    /// One check of a wait for a condition by thread `tid`: done (with
    /// `true`) when it holds; done with `false` when a stored wake-up is
    /// used instead; otherwise the thread queues and parks (`None`), and
    /// after waking calls `end_wait` and checks the condition again.
    pub fn park_on(&mut self, tid: usize, holds: bool) -> (r: Option<bool>)
        ensures
            holds ==> r == Some(true) && final(self).waiters@ == old(self).waiters@
                && final(self).pending_signal_tokens == old(self).pending_signal_tokens,
            !holds && old(self).pending_signal_tokens > 0 ==> r == Some(false) && final(self).waiters@
                == old(self).waiters@ && final(self).pending_signal_tokens == old(self).pending_signal_tokens - 1,
            !holds && old(self).pending_signal_tokens == 0 ==> r is None && final(self).waiters@
                == old(self).waiters@.push(tid) && final(self).pending_signal_tokens == 0,
            final(self).epoll_registrations@ == old(self).epoll_registrations@,
    {
        if holds {
            return Some(true);
        }
        if self.consume_signal() {
            return Some(holds);
        }
        self.waiters.push(tid);
        None
    }

    /// Wakes the first waiter; with none, stores the wake-up.
    pub fn signal(&mut self)
        ensures
            old(self).waiters@.len() > 0 ==> final(self).waiters@ == old(self).waiters@.drop_first()
                && final(self).pending_signal_tokens == old(self).pending_signal_tokens,
            old(self).waiters@.len() == 0 ==> final(self).waiters@ == old(self).waiters@
                && final(self).pending_signal_tokens == if old(self).pending_signal_tokens == usize::MAX {
                usize::MAX as int
            } else {
                old(self).pending_signal_tokens + 1
            },
            final(self).epoll_registrations@ == old(self).epoll_registrations@,
    {
        if self.waiters.len() > 0 {
            self.waiters.remove(0);
        } else {
            self.record_signal();
        }
    }

    /// Wakes every waiter.
    pub fn broadcast(&mut self)
        ensures
            final(self).waiters@.len() == 0,
            final(self).pending_signal_tokens == old(self).pending_signal_tokens,
            final(self).epoll_registrations@ == old(self).epoll_registrations@,
    {
        self.waiters = Vec::new();
    }

    /// Wakes up to `requested_wake_count` waiters from the front; returns
    /// how many.
    pub fn signal_n(&mut self, requested_wake_count: usize) -> (r: usize)
        ensures
            r == if requested_wake_count < old(self).waiters@.len() {
                requested_wake_count as int
            } else {
                old(self).waiters@.len() as int
            },
            final(self).waiters@ == old(self).waiters@.subrange(r as int, old(self).waiters@.len() as int),
            final(self).pending_signal_tokens == old(self).pending_signal_tokens,
            final(self).epoll_registrations@ == old(self).epoll_registrations@,
    {
        let to_wake = if requested_wake_count < self.waiters.len() {
            requested_wake_count
        } else {
            self.waiters.len()
        };
        let ghost q = self.waiters@;
        let mut rest: Vec<usize> = Vec::new();
        let mut i: usize = to_wake;
        while i < self.waiters.len()
            invariant
                to_wake <= i <= q.len(),
                self.waiters@ == q,
                rest@ == q.subrange(to_wake as int, i as int),
            decreases q.len() - i,
        {
            rest.push(self.waiters[i]);
            i = i + 1;
            proof {
                assert(rest@ =~= q.subrange(to_wake as int, i as int));
            }
        }
        self.waiters = rest;
        to_wake
    }

    /// Number of waiting threads.
    pub fn pending(&self) -> (r: usize)
        ensures
            r == self.waiters@.len(),
    {
        self.waiters.len()
    }

    /// One check of an event wait by thread `tid`: with an `outcome` the
    /// thread leaves the queue and the wait ends with it; otherwise it
    /// queues (once) and parks (`None`), calling `end_wait` after waking.
    pub fn wait_ev(&mut self, tid: usize, outcome: Option<bool>) -> (r: Option<bool>)
        ensures
            r == outcome,
            final(self).waiters@ == match outcome {
                Some(_) => without_tid(old(self).waiters@, tid),
                None => pushed_once(old(self).waiters@, tid),
            },
            final(self).pending_signal_tokens == old(self).pending_signal_tokens,
            final(self).epoll_registrations@ == old(self).epoll_registrations@,
    {
        match outcome {
            Some(result) => {
                let _ = self.end_wait(tid);
                Some(result)
            },
            None => {
                let _ = self.enqueue_if(tid, true);
                None
            },
        }
    }

    /// One check of a wait on several queues, as `wait_ev` on each.
    pub fn wait_events(queues: &mut Vec<SyncQueue>, tid: usize, outcome: Option<bool>) -> (r: Option<bool>)
        ensures
            r == outcome,
            final(queues)@.len() == old(queues)@.len(),
            forall|k: int|
                0 <= k < old(queues)@.len() ==> {
                    &&& (#[trigger] final(queues)@[k]).waiters@ == match outcome {
                        Some(_) => without_tid(old(queues)@[k].waiters@, tid),
                        None => pushed_once(old(queues)@[k].waiters@, tid),
                    }
                    &&& final(queues)@[k].pending_signal_tokens == old(queues)@[k].pending_signal_tokens
                    &&& final(queues)@[k].epoll_registrations@ == old(queues)@[k].epoll_registrations@
                },
    {
        let mut k: usize = 0;
        while k < queues.len()
            invariant
                k <= queues@.len(),
                queues@.len() == old(queues)@.len(),
                forall|j: int| k <= j < queues@.len() ==> #[trigger] queues@[j] == old(queues)@[j],
                forall|j: int|
                    0 <= j < k ==> {
                        &&& (#[trigger] queues@[j]).waiters@ == match outcome {
                            Some(_) => without_tid(old(queues)@[j].waiters@, tid),
                            None => pushed_once(old(queues)@[j].waiters@, tid),
                        }
                        &&& queues@[j].pending_signal_tokens == old(queues)@[j].pending_signal_tokens
                        &&& queues@[j].epoll_registrations@ == old(queues)@[j].epoll_registrations@
                    },
            decreases queues@.len() - k,
        {
            let mut q = swap_out(queues, k, SyncQueue::new());
            let _ = q.wait_ev(tid, outcome);
            let _ = swap_out(queues, k, q);
            k = k + 1;
        }
        outcome
    }

    /// Queues `tid` (even when it already waits) before it parks.
    pub fn wait_guard(&mut self, tid: usize)
        ensures
            final(self).waiters@ == old(self).waiters@.push(tid),
            final(self).pending_signal_tokens == old(self).pending_signal_tokens,
            final(self).epoll_registrations@ == old(self).epoll_registrations@,
    {
        self.waiters.push(tid);
    }

    /// Queues `tid` for a timed wait; after the timeout or a wake-up,
    /// `end_wait` reports whether it was still queued (timed out).
    pub fn wait_timeout(&mut self, tid: usize)
        ensures
            final(self).waiters@ == old(self).waiters@.push(tid),
            final(self).pending_signal_tokens == old(self).pending_signal_tokens,
            final(self).epoll_registrations@ == old(self).epoll_registrations@,
    {
        self.waiters.push(tid);
    }

    pub fn reg_epoll(&mut self, task_id: usize, epfd: usize, fd: usize)
        ensures
            final(self).epoll_registrations@ == old(self).epoll_registrations@.push(RegEp { task_id, epfd, fd }),
            final(self).waiters@ == old(self).waiters@,
            final(self).pending_signal_tokens == old(self).pending_signal_tokens,
    {
        self.epoll_registrations.push(RegEp { task_id, epfd, fd });
    }

    /// Drops the first registration of (`task_id`, `epfd`, `fd`); reports
    /// whether there was one.
    pub fn unreg_epoll(&mut self, task_id: usize, epfd: usize, fd: usize) -> (r: bool)
        ensures
            r == old(self).epoll_registrations@.contains(RegEp { task_id, epfd, fd }),
            r ==> exists|i: int|
                first_at(old(self).epoll_registrations@, RegEp { task_id, epfd, fd }, i)
                    && final(self).epoll_registrations@ == old(self).epoll_registrations@.remove(i),
            !r ==> final(self).epoll_registrations@ == old(self).epoll_registrations@,
            final(self).waiters@ == old(self).waiters@,
            final(self).pending_signal_tokens == old(self).pending_signal_tokens,
    {
        let target = RegEp { task_id, epfd, fd };
        let mut index: usize = 0;
        while index < self.epoll_registrations.len()
            invariant
                index <= self.epoll_registrations@.len(),
                target == (RegEp { task_id, epfd, fd }),
                self.epoll_registrations@ == old(self).epoll_registrations@,
                self.waiters@ == old(self).waiters@,
                self.pending_signal_tokens == old(self).pending_signal_tokens,
                forall|j: int| 0 <= j < index ==> self.epoll_registrations@[j] != target,
            decreases self.epoll_registrations@.len() - index,
        {
            let e = self.epoll_registrations[index];
            if e == target {
                proof {
                    assert(self.epoll_registrations@[index as int] == target);
                    assert(first_at(old(self).epoll_registrations@, target, index as int));
                }
                let ghost before = self.epoll_registrations@;
                self.epoll_registrations.remove(index);
                proof {
                    assert(before[index as int] == target);
                    assert(before.contains(target));
                    assert(self.epoll_registrations@ == before.remove(index as int));
                }
                return true;
            }
            index = index + 1;
        }
        false
    }
}

/// `i` is the first position of `t` in `s`.
pub open spec fn first_at(s: Seq<RegEp>, t: RegEp, i: int) -> bool {
    &&& 0 <= i < s.len()
    &&& s[i] == t
    &&& forall|j: int| 0 <= j < i ==> s[j] != t
}

} // verus!

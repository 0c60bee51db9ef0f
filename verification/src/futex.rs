use vstd::prelude::*;
use crate::file::swap_out;

verus! {

/// A waiting task's record: the waker to call (by id) once it is woken,
/// and whether it was woken.
#[derive(Clone, Copy, PartialEq, Eq, Structural)]
pub struct Waiter {
    pub waker: Option<usize>,
    pub woken: bool,
}

/// The queue of a futex word: waiters (by position in a waiter table) in
/// arrival order.
pub struct FutexInner {
    pub waiters: Vec<usize>,
}

pub struct Futex {
    pub inner: FutexInner,
}

/// What a poll of a futex wait answers: done with a result, or pending
/// (arming a timer for the deadline on the first poll that has one).
#[derive(Clone, Copy)]
pub enum FutexPoll {
    Ready(Result<usize, &'static str>),
    Pending { arm_timer: bool },
}

/// One wait on a futex: its waiter and deadline.
#[derive(Clone, Copy, PartialEq, Eq, Structural)]
pub struct FutexWait {
    pub waiter: usize,
    pub deadline: Option<usize>,
}

/// The effect of waking up to `want` waiters from the front of `q`:
/// already woken waiters are dropped without counting, the others are
/// marked woken and their wakers taken. Gives the queue left, the waiter
/// table, the number woken and the wakers taken.
pub open spec fn wake_spec(q: Seq<usize>, ws: Seq<Waiter>, want: nat) -> (Seq<usize>, Seq<Waiter>, nat, Seq<usize>)
    decreases q.len(),
{
    if want == 0 || q.len() == 0 {
        (q, ws, 0, Seq::empty())
    } else {
        let w = q[0];
        if ws[w as int].woken {
            wake_spec(q.drop_first(), ws, want)
        } else {
            let ws1 = ws.update(w as int, Waiter { waker: None, woken: true });
            let rest = wake_spec(q.drop_first(), ws1, (want - 1) as nat);
            let taken = match ws[w as int].waker {
                Some(k) => seq![k] + rest.3,
                None => rest.3,
            };
            (rest.0, rest.1, rest.2 + 1, taken)
        }
    }
}

/// Every queued waiter has a record.
pub open spec fn queue_valid(q: Seq<usize>, ws: Seq<Waiter>) -> bool {
    forall|k: int| 0 <= k < q.len() ==> (#[trigger] q[k]) < ws.len()
}

proof fn lemma_wake_spec_len(q: Seq<usize>, ws: Seq<Waiter>, want: nat)
    requires
        queue_valid(q, ws),
    ensures
        wake_spec(q, ws, want).1.len() == ws.len(),
        wake_spec(q, ws, want).2 <= want,
    decreases q.len(),
{
    if want == 0 || q.len() == 0 {
    } else {
        let w = q[0];
        if ws[w as int].woken {
            lemma_wake_spec_len(q.drop_first(), ws, want);
        } else {
            let ws1 = ws.update(w as int, Waiter { waker: None, woken: true });
            lemma_wake_spec_len(q.drop_first(), ws1, (want - 1) as nat);
        }
    }
}

impl Futex {
    pub fn new() -> (r: Self)
        ensures
            r.inner.waiters@.len() == 0,
    {
        Futex { inner: FutexInner { waiters: Vec::new() } }
    }

    /// Wakes up to `wake_count` waiters: gives how many were woken and
    /// the wakers to call, in queue order.
    pub fn wake(&mut self, ws: &mut Vec<Waiter>, wake_count: usize) -> (r: (usize, Vec<usize>))
        requires
            queue_valid(old(self).inner.waiters@, old(ws)@),
        ensures
            ({
                let e = wake_spec(old(self).inner.waiters@, old(ws)@, wake_count as nat);
                &&& final(self).inner.waiters@ == e.0
                &&& final(ws)@ == e.1
                &&& r.0 == e.2
                &&& r.1@ == e.3
            }),
            queue_valid(final(self).inner.waiters@, final(ws)@),
    {
        let ghost q0 = self.inner.waiters@;
        let ghost ws0 = ws@;
        let mut woken: usize = 0;
        let mut wakers: Vec<usize> = Vec::new();
        let mut i: usize = 0;
        proof {
            lemma_wake_spec_len(q0, ws0, wake_count as nat);
            assert(q0.subrange(0, q0.len() as int) =~= q0);
            assert(wakers@ + wake_spec(q0, ws0, wake_count as nat).3 =~= wake_spec(q0, ws0, wake_count as nat).3);
        }
        while woken < wake_count && i < self.inner.waiters.len()
            invariant
                self.inner.waiters@ == q0,
                i <= q0.len(),
                woken <= wake_count,
                queue_valid(q0, ws0),
                queue_valid(q0.subrange(i as int, q0.len() as int), ws@),
                ws@.len() == ws0.len(),
                ({
                    let e = wake_spec(q0, ws0, wake_count as nat);
                    let m = wake_spec(q0.subrange(i as int, q0.len() as int), ws@, (wake_count - woken) as nat);
                    &&& e.0 == m.0
                    &&& e.1 == m.1
                    &&& e.2 == woken + m.2
                    &&& e.3 == wakers@ + m.3
                }),
            decreases q0.len() - i,
        {
            let ghost rest = q0.subrange(i as int, q0.len() as int);
            let w = self.inner.waiters[i];
            proof {
                assert(rest[0] == w);
                assert(rest.drop_first() =~= q0.subrange(i + 1, q0.len() as int));
                assert(w < ws@.len());
            }
            let wt = ws[w];
            if !wt.woken {
                let ghost ws_before = ws@;
                let _ = swap_out(ws, w, Waiter { waker: None, woken: true });
                if let Some(k) = wt.waker {
                    wakers.push(k);
                    proof {
                        let m = wake_spec(q0.subrange(i + 1, q0.len() as int), ws@, (wake_count - woken - 1) as nat);
                        assert(wakers@ + m.3 =~= wakers@.drop_last() + (seq![k] + m.3));
                    }
                }
                woken = woken + 1;
            }
            i = i + 1;
            proof {
                assert forall|k: int| 0 <= k < q0.subrange(i as int, q0.len() as int).len() implies (#[trigger] q0.subrange(i as int, q0.len() as int)[k]) < ws@.len() by {
                    assert(q0.subrange(i as int, q0.len() as int)[k] == q0[i + k]);
                }
            }
        }
        let mut left: Vec<usize> = Vec::new();
        let mut j: usize = i;
        while j < self.inner.waiters.len()
            invariant
                self.inner.waiters@ == q0,
                i <= j <= q0.len(),
                left@ == q0.subrange(i as int, j as int),
            decreases q0.len() - j,
        {
            left.push(self.inner.waiters[j]);
            j = j + 1;
            proof {
                assert(left@ =~= q0.subrange(i as int, j as int));
            }
        }
        proof {
            let rest = q0.subrange(i as int, q0.len() as int);
            assert(left@ =~= rest);
            assert(wakers@ + Seq::<usize>::empty() =~= wakers@);
        }
        self.inner.waiters = left;
        (woken, wakers)
    }

    /// Starts a wait at time `now`: a fresh waiter record and the deadline
    /// `timeout` after `now`, if any.
    pub fn wait(&self, ws: &mut Vec<Waiter>, now: usize, timeout: Option<usize>) -> (r: FutexWait)
        requires
            timeout matches Some(t) ==> now + t <= usize::MAX,
        ensures
            r.waiter == old(ws)@.len(),
            final(ws)@ == old(ws)@.push(Waiter { waker: None, woken: false }),
            r.deadline == match timeout {
                Some(t) => Some((now + t) as usize),
                None => None::<usize>,
            },
    {
        let waiter = ws.len();
        ws.push(Waiter { waker: None, woken: false });
        let deadline = match timeout {
            Some(t) => Some(now + t),
            None => None,
        };
        FutexWait { waiter, deadline }
    }
}

impl FutexWait {
    /// One poll at time `now` by a task with waker `waker`. A woken waiter
    /// is done with 0. Past the deadline it is marked woken, drops its
    /// waker, leaves the queue, and the wait fails with "etimedout". On the
    /// first poll the waker is stored, the waiter queued (once), and a
    /// timer is to be armed when there is a deadline. Otherwise pending.
    pub fn poll(&self, futex: &mut Futex, ws: &mut Vec<Waiter>, now: usize, waker: usize) -> (r: FutexPoll)
        requires
            self.waiter < old(ws)@.len(),
        ensures
            final(ws)@.len() == old(ws)@.len(),
            ({
                let w = old(ws)@[self.waiter as int];
                let q = old(futex).inner.waiters@;
                if w.woken {
                    r == FutexPoll::Ready(Ok(0)) && final(ws)@ == old(ws)@ && final(futex).inner.waiters@ == q
                } else if self.deadline matches Some(d) && now >= d {
                    &&& r == FutexPoll::Ready(Err("etimedout"))
                    &&& final(ws)@ == old(ws)@.update(self.waiter as int, Waiter { waker: None, woken: true })
                    &&& final(futex).inner.waiters@ == if q.contains(self.waiter) {
                        q.remove(first_pos(q, self.waiter))
                    } else {
                        q
                    }
                } else if w.waker is None {
                    &&& r == FutexPoll::Pending { arm_timer: self.deadline is Some }
                    &&& final(ws)@ == old(ws)@.update(self.waiter as int, Waiter { waker: Some(waker), ..w })
                    &&& final(futex).inner.waiters@ == if q.contains(self.waiter) {
                        q
                    } else {
                        q.push(self.waiter)
                    }
                } else {
                    r == FutexPoll::Pending { arm_timer: false } && final(ws)@ == old(ws)@
                        && final(futex).inner.waiters@ == q
                }
            }),
    {
        let w = ws[self.waiter];
        if w.woken {
            return FutexPoll::Ready(Ok(0));
        }
        if let Some(d) = self.deadline {
            if now >= d {
                let _ = swap_out(ws, self.waiter, Waiter { waker: None, woken: true });
                remove_first(&mut futex.inner.waiters, self.waiter);
                return FutexPoll::Ready(Err("etimedout"));
            }
        }
        if w.waker.is_none() {
            let _ = swap_out(ws, self.waiter, Waiter { waker: Some(waker), woken: w.woken });
            if !contains(&futex.inner.waiters, self.waiter) {
                futex.inner.waiters.push(self.waiter);
            }
            return FutexPoll::Pending { arm_timer: self.deadline.is_some() };
        }
        FutexPoll::Pending { arm_timer: false }
    }
}

/// The first position of `x` in `s`.
pub open spec fn first_pos(s: Seq<usize>, x: usize) -> int {
    choose|i: int| 0 <= i < s.len() && s[i] == x && forall|j: int| 0 <= j < i ==> s[j] != x
}

/// Whether `x` occurs in `s`.
fn contains(s: &Vec<usize>, x: usize) -> (r: bool)
    ensures
        r == s@.contains(x),
{
    let mut i: usize = 0;
    while i < s.len()
        invariant
            i <= s@.len(),
            forall|j: int| 0 <= j < i ==> s@[j] != x,
        decreases s@.len() - i,
    {
        if s[i] == x {
            return true;
        }
        i = i + 1;
    }
    false
}

/// Removes the first occurrence of `x`, if any.
fn remove_first(s: &mut Vec<usize>, x: usize)
    ensures
        final(s)@ == if old(s)@.contains(x) {
            old(s)@.remove(first_pos(old(s)@, x))
        } else {
            old(s)@
        },
{
    let mut i: usize = 0;
    while i < s.len()
        invariant
            i <= s@.len(),
            s@ == old(s)@,
            forall|j: int| 0 <= j < i ==> s@[j] != x,
        decreases s@.len() - i,
    {
        if s[i] == x {
            proof {
                assert(s@.contains(x));
                assert(0 <= i < s@.len() && s@[i as int] == x && forall|j: int| 0 <= j < i ==> s@[j] != x);
                let k = first_pos(s@, x);
                if k < i {
                } else if k > i {
                    assert(s@[i as int] == x);
                }
            }
            s.remove(i);
            return;
        }
        i = i + 1;
    }
}

} // verus!

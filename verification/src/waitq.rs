use vstd::prelude::*;

verus! {

/// The waiters a futex wake leaves, and the threads it wakes, walking the
/// queue front to back: the first `count` waiters on `addr` are woken.
pub open spec fn wake_walk(s: Seq<(usize, usize)>, addr: usize, count: nat) -> (Seq<(usize, usize)>, Seq<usize>)
    decreases s.len(),
{
    if s.len() == 0 {
        (Seq::empty(), Seq::empty())
    } else {
        let (kept, woken) = wake_walk(s.drop_last(), addr, count);
        let e = s.last();
        if e.0 == addr && woken.len() < count {
            (kept, woken.push(e.1))
        } else {
            (kept.push(e), woken)
        }
    }
}

/// A requeue walk: the first `wake_n` waiters on `src` are woken, the next
/// `move_n` move to `dst`; gives the queue left, the woken threads and how
/// many moved.
pub open spec fn requeue_walk(
    s: Seq<(usize, usize)>,
    src: usize,
    dst: usize,
    wake_n: nat,
    move_n: nat,
) -> (Seq<(usize, usize)>, Seq<usize>, nat)
    decreases s.len(),
{
    if s.len() == 0 {
        (Seq::empty(), Seq::empty(), 0)
    } else {
        let (kept, woken, moved) = requeue_walk(s.drop_last(), src, dst, wake_n, move_n);
        let e = s.last();
        if e.0 == src && woken.len() < wake_n {
            (kept, woken.push(e.1), moved)
        } else if e.0 == src && moved < move_n {
            (kept.push((dst, e.1)), woken, moved + 1)
        } else {
            (kept.push(e), woken, moved)
        }
    }
}

/// Number of waiters on `addr`.
pub open spec fn count_at(s: Seq<(usize, usize)>, addr: usize) -> nat
    decreases s.len(),
{
    if s.len() == 0 {
        0
    } else {
        count_at(s.drop_last(), addr) + if s.last().0 == addr {
            1nat
        } else {
            0nat
        }
    }
}

proof fn lemma_wake_walk_bound(s: Seq<(usize, usize)>, addr: usize, count: nat)
    ensures
        wake_walk(s, addr, count).1.len() <= count,
        wake_walk(s, addr, count).0.len() + wake_walk(s, addr, count).1.len() == s.len(),
    decreases s.len(),
{
    if s.len() > 0 {
        lemma_wake_walk_bound(s.drop_last(), addr, count);
    }
}

/// One futex wake over a waiter queue: returns the queue left and the
/// woken threads, oldest first.
fn walk_wake(waiters: &Vec<(usize, usize)>, addr: usize, count: usize) -> (r: (Vec<(usize, usize)>, Vec<usize>))
    ensures
        (r.0@, r.1@) == wake_walk(waiters@, addr, count as nat),
{
    let mut kept: Vec<(usize, usize)> = Vec::new();
    let mut woken: Vec<usize> = Vec::new();
    let mut i: usize = 0;
    while i < waiters.len()
        invariant
            i <= waiters@.len(),
            (kept@, woken@) == wake_walk(waiters@.subrange(0, i as int), addr, count as nat),
        decreases waiters@.len() - i,
    {
        proof {
            assert(waiters@.subrange(0, i + 1).drop_last() =~= waiters@.subrange(0, i as int));
            lemma_wake_walk_bound(waiters@.subrange(0, i as int), addr, count as nat);
        }
        let e = waiters[i];
        if e.0 == addr && woken.len() < count {
            woken.push(e.1);
        } else {
            kept.push(e);
        }
        i = i + 1;
    }
    proof {
        assert(waiters@.subrange(0, i as int) =~= waiters@);
    }
    (kept, woken)
}

/// One requeue walk over a waiter queue.
fn walk_requeue(waiters: &Vec<(usize, usize)>, src: usize, dst: usize, wake_n: usize, move_n: usize) -> (r: (
    Vec<(usize, usize)>,
    Vec<usize>,
    usize,
))
    ensures
        (r.0@, r.1@, r.2 as nat) == requeue_walk(waiters@, src, dst, wake_n as nat, move_n as nat),
{
    let mut kept: Vec<(usize, usize)> = Vec::new();
    let mut woken: Vec<usize> = Vec::new();
    let mut moved: usize = 0;
    let mut i: usize = 0;
    while i < waiters.len()
        invariant
            i <= waiters@.len(),
            (kept@, woken@, moved as nat) == requeue_walk(
                waiters@.subrange(0, i as int),
                src,
                dst,
                wake_n as nat,
                move_n as nat,
            ),
            moved <= move_n,
        decreases waiters@.len() - i,
    {
        proof {
            assert(waiters@.subrange(0, i + 1).drop_last() =~= waiters@.subrange(0, i as int));
        }
        let e = waiters[i];
        if e.0 == src && woken.len() < wake_n {
            woken.push(e.1);
        } else if e.0 == src && moved < move_n {
            kept.push((dst, e.1));
            moved = moved + 1;
        } else {
            kept.push(e);
        }
        i = i + 1;
    }
    proof {
        assert(waiters@.subrange(0, i as int) =~= waiters@);
    }
    (kept, woken, moved)
}

/// `s` without its entries for (`addr`, `tid`).
pub open spec fn drop_entry(s: Seq<(usize, usize)>, addr: usize, tid: usize) -> Seq<(usize, usize)> {
    s.filter(|e: (usize, usize)| !(e.0 == addr && e.1 == tid))
}

/// Per-address futex wait bucket: waiters as (address, thread id), oldest
/// first.
pub struct FutexBucket {
    pub waiters: Vec<(usize, usize)>,
}

impl FutexBucket {
    pub fn new() -> (r: Self)
        ensures
            r.waiters@.len() == 0,
    {
        FutexBucket { waiters: Vec::new() }
    }

    /// First half of a wait by thread `tid` on `addr`: refused with
    /// "changed" when the futex word no longer holds `expected`, otherwise
    /// the thread queues and parks (`None`); `finish_wait` ends the wait.
    pub fn wait(&mut self, addr: usize, expected: u32, val: u32, tid: usize) -> (r: Option<
        Result<(), &'static str>,
    >)
        ensures
            val != expected ==> r == Some(Err::<(), &'static str>("changed")) && final(self).waiters@
                == old(self).waiters@,
            val == expected ==> r is None && final(self).waiters@ == old(self).waiters@.push(
                (addr, tid),
            ),
    {
        if val != expected {
            return Some(Err("changed"));
        }
        self.waiters.push((addr, tid));
        None
    }

    /// Second half of a wait: `Ok` when a wake reached the thread; after a
    /// timeout its entry leaves the queue and the wait fails with "timeout".
    pub fn finish_wait(&mut self, addr: usize, tid: usize, woken: bool) -> (r: Result<(), &'static str>)
        ensures
            woken ==> r is Ok && final(self).waiters@ == old(self).waiters@,
            !woken ==> r == Err::<(), &'static str>("timeout") && final(self).waiters@ == drop_entry(old(self).waiters@, addr, tid),
    {
        if woken {
            Ok(())
        } else {
            let _ = self.remove_waiter(addr, tid);
            Err("timeout")
        }
    }

    /// Drops every entry of (`addr`, `tid`); reports whether there was one.
    fn remove_waiter(&mut self, addr: usize, tid: usize) -> (r: bool)
        ensures
            final(self).waiters@ == drop_entry(old(self).waiters@, addr, tid),
            r == (final(self).waiters@.len() != old(self).waiters@.len()),
    {
        let ghost q = self.waiters@;
        let mut kept: Vec<(usize, usize)> = Vec::new();
        let mut i: usize = 0;
        let before = self.waiters.len();
        while i < self.waiters.len()
            invariant
                i <= q.len(),
                self.waiters@ == q,
                before == q.len(),
                kept@ == drop_entry(q.subrange(0, i as int), addr, tid),
            decreases q.len() - i,
        {
            proof {
                assert(q.subrange(0, i + 1).drop_last() =~= q.subrange(0, i as int));
                reveal(Seq::filter);
            }
            let e = self.waiters[i];
            if !(e.0 == addr && e.1 == tid) {
                kept.push(e);
            }
            i = i + 1;
        }
        proof {
            assert(q.subrange(0, i as int) =~= q);
        }
        self.waiters = kept;
        self.waiters.len() != before
    }

    /// Wakes up to `count` waiters on `addr`, oldest first; returns how many
    /// and which threads.
    pub fn wake(&mut self, addr: usize, count: usize) -> (r: (usize, Vec<usize>))
        ensures
            (final(self).waiters@, r.1@) == wake_walk(old(self).waiters@, addr, count as nat),
            r.0 == r.1@.len(),
            r.0 <= count,
    {
        let (kept, woken) = walk_wake(&self.waiters, addr, count);
        proof {
            lemma_wake_walk_bound(self.waiters@, addr, count as nat);
        }
        self.waiters = kept;
        (woken.len(), woken)
    }

    /// Wakes up to `wake_n` waiters on `src` and moves up to `move_n` more
    /// to `dst`; returns how many were woken, and which threads.
    pub fn requeue(&mut self, src: usize, dst: usize, wake_n: usize, move_n: usize) -> (r: (usize, Vec<usize>))
        ensures
            final(self).waiters@ == requeue_walk(old(self).waiters@, src, dst, wake_n as nat, move_n as nat).0,
            r.1@ == requeue_walk(old(self).waiters@, src, dst, wake_n as nat, move_n as nat).1,
            r.0 == r.1@.len(),
    {
        let (kept, woken, _moved) = walk_requeue(&self.waiters, src, dst, wake_n, move_n);
        self.waiters = kept;
        (woken.len(), woken)
    }

    /// Number of waiters on `addr`.
    pub fn pending_at(&self, addr: usize) -> (r: usize)
        ensures
            r == count_at(self.waiters@, addr),
    {
        count_waiters(&self.waiters, addr)
    }
}

fn count_waiters(s: &Vec<(usize, usize)>, addr: usize) -> (r: usize)
    ensures
        r == count_at(s@, addr),
{
    let mut n: usize = 0;
    let mut i: usize = 0;
    while i < s.len()
        invariant
            i <= s@.len(),
            n == count_at(s@.subrange(0, i as int), addr),
            n <= i,
        decreases s@.len() - i,
    {
        proof {
            assert(s@.subrange(0, i + 1).drop_last() =~= s@.subrange(0, i as int));
        }
        if s[i].0 == addr {
            n = n + 1;
        }
        i = i + 1;
    }
    proof {
        assert(s@.subrange(0, i as int) =~= s@);
    }
    n
}

/// A plain futex table: waiters as (address, thread id), oldest first.
pub struct FutexTable {
    pub table: Vec<(usize, usize)>,
}

impl FutexTable {
    pub fn new() -> (r: Self)
        ensures
            r.table@.len() == 0,
    {
        FutexTable { table: Vec::new() }
    }

    /// Thread `tid` waits on `addr` while the futex word `val` holds
    /// `expected`: it queues and parks (`true`); otherwise nothing happens
    /// (`false`).
    pub fn ftx_wait(&mut self, addr: usize, expected: u32, val: u32, tid: usize) -> (r: bool)
        ensures
            r == (val == expected),
            r ==> final(self).table@ == old(self).table@.push((addr, tid)),
            !r ==> final(self).table@ == old(self).table@,
    {
        if val != expected {
            return false;
        }
        self.table.push((addr, tid));
        true
    }

    /// Wakes up to `count` waiters on `addr`, oldest first; returns how many.
    pub fn ftx_wake(&mut self, addr: usize, count: usize) -> (r: usize)
        ensures
            final(self).table@ == wake_walk(old(self).table@, addr, count as nat).0,
            r == wake_walk(old(self).table@, addr, count as nat).1.len(),
            r <= count,
    {
        let (kept, woken) = walk_wake(&self.table, addr, count);
        proof {
            lemma_wake_walk_bound(self.table@, addr, count as nat);
        }
        self.table = kept;
        woken.len()
    }

    /// Wakes up to `wake_n` waiters on `src_addr` and moves up to `move_n`
    /// more to `dst_addr`; returns how many were woken.
    pub fn ftx_requeue(&mut self, src_addr: usize, dst_addr: usize, wake_n: usize, move_n: usize) -> (r: usize)
        ensures
            final(self).table@ == requeue_walk(old(self).table@, src_addr, dst_addr, wake_n as nat, move_n as nat).0,
            r == requeue_walk(old(self).table@, src_addr, dst_addr, wake_n as nat, move_n as nat).1.len(),
    {
        let (kept, woken, _moved) = walk_requeue(&self.table, src_addr, dst_addr, wake_n, move_n);
        self.table = kept;
        woken.len()
    }
}

/// The entries of `s` whose decision in `d` is `false` (those not woken).
pub open spec fn kept_by(s: Seq<(usize, usize, u32)>, d: Seq<bool>) -> Seq<(usize, usize, u32)>
    decreases s.len(),
{
    if s.len() == 0 || d.len() == 0 {
        Seq::empty()
    } else if d.last() {
        kept_by(s.drop_last(), d.drop_last())
    } else {
        kept_by(s.drop_last(), d.drop_last()).push(s.last())
    }
}

/// Number of `true` decisions.
pub open spec fn count_true(d: Seq<bool>) -> nat
    decreases d.len(),
{
    if d.len() == 0 {
        0
    } else {
        count_true(d.drop_last()) + if d.last() {
            1nat
        } else {
            0nat
        }
    }
}

/// The decisions of a wake by key: an entry is woken when its key is `key`.
pub open spec fn key_decisions(s: Seq<(usize, usize, u32)>, key: usize) -> Seq<bool> {
    Seq::new(s.len(), |i: int| s[i].0 == key)
}

/// Position of the last entry equal to `e`, or -1.
pub open spec fn last_pos(s: Seq<(usize, usize, u32)>, e: (usize, usize, u32)) -> int
    decreases s.len(),
{
    if s.len() == 0 {
        -1
    } else if s.last() == e {
        s.len() - 1
    } else {
        last_pos(s.drop_last(), e)
    }
}

/// Position of the first entry with key `key`, or -1.
pub open spec fn first_key(s: Seq<(usize, usize, u32)>, key: usize) -> int
    decreases s.len(),
{
    if s.len() == 0 {
        -1
    } else if first_key(s.drop_last(), key) >= 0 {
        first_key(s.drop_last(), key)
    } else if s.last().0 == key {
        s.len() - 1
    } else {
        -1
    }
}

proof fn lemma_last_pos_range(s: Seq<(usize, usize, u32)>, e: (usize, usize, u32))
    ensures
        -1 <= last_pos(s, e) < s.len(),
        last_pos(s, e) >= 0 ==> s[last_pos(s, e)] == e,
    decreases s.len(),
{
    if s.len() > 0 {
        lemma_last_pos_range(s.drop_last(), e);
    }
}

proof fn lemma_first_key_range(s: Seq<(usize, usize, u32)>, key: usize)
    ensures
        -1 <= first_key(s, key) < s.len(),
        first_key(s, key) >= 0 ==> s[first_key(s, key)].0 == key,
        first_key(s, key) == -1 <==> forall|j: int| 0 <= j < s.len() ==> s[j].0 != key,
    decreases s.len(),
{
    if s.len() > 0 {
        lemma_first_key_range(s.drop_last(), key);
        if first_key(s.drop_last(), key) == -1 && s.last().0 != key {
            assert forall|j: int| 0 <= j < s.len() implies s[j].0 != key by {
                if j < s.len() - 1 {
                    assert(s.drop_last()[j] == s[j]);
                }
            }
        }
        if first_key(s, key) >= 0 {
            if first_key(s.drop_last(), key) >= 0 {
                assert(s.drop_last()[first_key(s.drop_last(), key)] == s[first_key(s.drop_last(), key)]);
            }
        }
        if first_key(s.drop_last(), key) >= 0 {
            let k = first_key(s.drop_last(), key);
            assert(s[k] == s.drop_last()[k]);
        }
    }
}

proof fn lemma_count_true_bound(d: Seq<bool>)
    ensures
        count_true(d) <= d.len(),
    decreases d.len(),
{
    if d.len() > 0 {
        lemma_count_true_bound(d.drop_last());
    }
}

/// A keyed wait queue: waiters as (key, thread id, flags), oldest first,
/// and a count of wake-ups delivered.
pub struct WaitQueue {
    pub inner: Vec<(usize, usize, u32)>,
    pub wake_count: usize,
}

impl WaitQueue {
    pub fn new() -> (r: Self)
        ensures
            r.inner@.len() == 0,
            r.wake_count == 0,
    {
        WaitQueue { inner: Vec::new(), wake_count: 0 }
    }

    /// Thread `tid` queues on `key` and parks.
    pub fn sleep(&mut self, key: usize, flags: u32, tid: usize)
        ensures
            final(self).inner@ == old(self).inner@.push((key, tid, flags)),
            final(self).wake_count == old(self).wake_count,
    {
        self.inner.push((key, tid, flags));
    }

    /// Thread `tid` queues on `key` for a timed sleep; `finish_timeout`
    /// ends it.
    pub fn sleep_timeout(&mut self, key: usize, flags: u32, tid: usize)
        ensures
            final(self).inner@ == old(self).inner@.push((key, tid, flags)),
            final(self).wake_count == old(self).wake_count,
    {
        self.inner.push((key, tid, flags));
    }

    /// End of a timed sleep: when the thread's latest entry is still queued
    /// it was not woken; the entry leaves and the result is `false`.
    /// Otherwise a wake-up removed it and the result is `true`.
    pub fn finish_timeout(&mut self, key: usize, flags: u32, tid: usize) -> (r: bool)
        ensures
            r == (last_pos(old(self).inner@, (key, tid, flags)) < 0),
            !r ==> final(self).inner@ == old(self).inner@.remove(last_pos(old(self).inner@, (key, tid, flags))),
            r ==> final(self).inner@ == old(self).inner@,
            final(self).wake_count == old(self).wake_count,
    {
        let ghost e = (key, tid, flags);
        proof {
            lemma_last_pos_range(self.inner@, e);
        }
        let mut i: usize = self.inner.len();
        proof {
            assert(self.inner@.subrange(0, i as int) =~= self.inner@);
        }
        while i > 0
            invariant
                i <= self.inner@.len(),
                self.inner@ == old(self).inner@,
                self.wake_count == old(self).wake_count,
                e == (key, tid, flags),
                last_pos(self.inner@, e) == last_pos(self.inner@.subrange(0, i as int), e),
            decreases i,
        {
            let w = self.inner[i - 1];
            proof {
                assert(self.inner@.subrange(0, i as int).drop_last() =~= self.inner@.subrange(0, i - 1));
            }
            if w.0 == key && w.1 == tid && w.2 == flags {
                proof {
                    assert(self.inner@.subrange(0, i as int).last() == e);
                }
                self.inner.remove(i - 1);
                return false;
            }
            i = i - 1;
        }
        true
    }

    /// Wakes the oldest waiter on `key`, if any.
    pub fn wake_one(&mut self, key: usize) -> (r: bool)
        ensures
            r == (first_key(old(self).inner@, key) >= 0),
            r ==> final(self).inner@ == old(self).inner@.remove(first_key(old(self).inner@, key))
                && final(self).wake_count == old(self).wake_count + 1 - (if old(self).wake_count
                == usize::MAX {
                usize::MAX as int + 1
            } else {
                0
            }),
            !r ==> final(self).inner@ == old(self).inner@ && final(self).wake_count == old(self).wake_count,
    {
        proof {
            lemma_first_key_range(self.inner@, key);
        }
        let mut i: usize = 0;
        while i < self.inner.len()
            invariant
                i <= self.inner@.len(),
                self.inner@ == old(self).inner@,
                self.wake_count == old(self).wake_count,
                forall|j: int| 0 <= j < i ==> self.inner@[j].0 != key,
                -1 <= first_key(self.inner@, key) < self.inner@.len(),
                first_key(self.inner@, key) >= 0 ==> self.inner@[first_key(self.inner@, key)].0 == key,
                first_key(self.inner@, key) == -1 <==> forall|j: int|
                    0 <= j < self.inner@.len() ==> self.inner@[j].0 != key,
            decreases self.inner@.len() - i,
        {
            if self.inner[i].0 == key {
                proof {
                    lemma_first_key_is_first(self.inner@, key, i as int);
                }
                self.inner.remove(i);
                self.wake_count = self.wake_count.wrapping_add(1);
                return true;
            }
            i = i + 1;
        }
        false
    }

    /// Wakes every waiter for which `predicate(key, flags)` holds; returns
    /// how many.
    pub fn wake_filtered<F: Fn(usize, u32) -> bool>(&mut self, predicate: F) -> (r: usize)
        requires
            forall|k: usize, f: u32| predicate.requires((k, f)),
        ensures
            exists|d: Seq<bool>|
                {
                    &&& d.len() == old(self).inner@.len()
                    &&& forall|i: int|
                        0 <= i < d.len() ==> predicate.ensures(
                            (old(self).inner@[i].0, old(self).inner@[i].2),
                            #[trigger] d[i],
                        )
                    &&& final(self).inner@ == kept_by(old(self).inner@, d)
                    &&& r == count_true(d)
                },
            final(self).wake_count == vstd::wrapping::usize_specs::wrapping_add(old(self).wake_count, r),
    {
        let ghost q = self.inner@;
        let ghost mut d: Seq<bool> = Seq::empty();
        let mut kept: Vec<(usize, usize, u32)> = Vec::new();
        let mut woken_count: usize = 0;
        let mut i: usize = 0;
        while i < self.inner.len()
            invariant
                i <= q.len(),
                self.inner@ == q,
                self.wake_count == old(self).wake_count,
                q == old(self).inner@,
                forall|k: usize, f: u32| predicate.requires((k, f)),
                d.len() == i,
                forall|j: int| 0 <= j < i ==> predicate.ensures((q[j].0, q[j].2), #[trigger] d[j]),
                kept@ == kept_by(q.subrange(0, i as int), d),
                woken_count == count_true(d),
            decreases q.len() - i,
        {
            proof {
                lemma_count_true_bound(d);
            }
            let e = self.inner[i];
            let wake = predicate(e.0, e.2);
            proof {
                let d0 = d;
                d = d.push(wake);
                assert(d.drop_last() =~= d0);
                assert(q.subrange(0, i + 1).drop_last() =~= q.subrange(0, i as int));
            }
            if wake {
                woken_count = woken_count + 1;
            } else {
                kept.push(e);
            }
            i = i + 1;
        }
        proof {
            assert(q.subrange(0, i as int) =~= q);
        }
        self.inner = kept;
        self.wake_count = self.wake_count.wrapping_add(woken_count);
        woken_count
    }

    /// Wakes every waiter on `key`; returns how many.
    pub fn wake_all(&mut self, key: usize) -> (r: usize)
        ensures
            final(self).inner@ == kept_by(old(self).inner@, key_decisions(old(self).inner@, key)),
            r == count_true(key_decisions(old(self).inner@, key)),
            final(self).wake_count == vstd::wrapping::usize_specs::wrapping_add(old(self).wake_count, r),
    {
        let ghost q = self.inner@;
        let r = self.wake_filtered(|wait_key: usize, flags: u32| -> (b: bool)
            ensures
                b == (wait_key == key),
            { wait_key == key });
        proof {
            let d = choose|d: Seq<bool>|
                {
                    &&& d.len() == q.len()
                    &&& forall|i: int| 0 <= i < d.len() ==> #[trigger] d[i] == (q[i].0 == key)
                    &&& self.inner@ == kept_by(q, d)
                    &&& r == count_true(d)
                };
            assert(d =~= key_decisions(q, key));
        }
        r
    }

    /// Orders the waiters by their flags, lowest first.
    pub fn reorder_by_priority(&mut self)
        ensures
            final(self).inner@.to_multiset() == old(self).inner@.to_multiset(),
            final(self).inner@.len() == old(self).inner@.len(),
            forall|i: int, j: int|
                0 <= i < j < final(self).inner@.len() ==> final(self).inner@[i].2 <= final(self).inner@[j].2,
            final(self).wake_count == old(self).wake_count,
    {
        broadcast use vstd::seq_lib::group_to_multiset_ensures;

        let ghost q = self.inner@;
        let mut sorted: Vec<(usize, usize, u32)> = Vec::new();
        let mut i: usize = 0;
        while i < self.inner.len()
            invariant
                i <= q.len(),
                self.inner@ == q,
                self.wake_count == old(self).wake_count,
                q == old(self).inner@,
                sorted@.len() == i,
                sorted@.to_multiset() == q.subrange(0, i as int).to_multiset(),
                forall|a: int, b: int| 0 <= a < b < sorted@.len() ==> sorted@[a].2 <= sorted@[b].2,
            decreases q.len() - i,
        {
            let e = self.inner[i];
            let mut p: usize = 0;
            while p < sorted.len() && sorted[p].2 <= e.2
                invariant
                    p <= sorted@.len(),
                    forall|a: int| 0 <= a < p ==> sorted@[a].2 <= e.2,
                decreases sorted@.len() - p,
            {
                p = p + 1;
            }
            let ghost before = sorted@;
            sorted.insert(p, e);
            proof {
                vstd::seq_lib::to_multiset_insert(before, p as int, e);
                assert(e == q[i as int]);
                assert(sorted@ == before.insert(p as int, e));
                assert(q.subrange(0, i + 1) =~= q.subrange(0, i as int).push(q[i as int]));
                q.subrange(0, i as int).to_multiset_ensures();
                assert(q.subrange(0, i + 1).to_multiset() == q.subrange(0, i as int).to_multiset().insert(e));
                assert forall|a: int, b: int| 0 <= a < b < sorted@.len() implies sorted@[a].2 <= sorted@[b].2 by {
                    if b < p {
                    } else if b == p {
                    } else if a < p {
                        assert(sorted@[b] == before[b - 1]);
                    } else if a == p {
                        assert(sorted@[b] == before[b - 1]);
                    } else {
                        assert(sorted@[a] == before[a - 1]);
                        assert(sorted@[b] == before[b - 1]);
                    }
                }
            }
            i = i + 1;
        }
        proof {
            assert(q.subrange(0, i as int) =~= q);
        }
        self.inner = sorted;
    }

    pub fn pending_count(&self) -> (r: usize)
        ensures
            r == self.inner@.len(),
    {
        self.inner.len()
    }

    pub fn total_wakes(&self) -> (r: usize)
        ensures
            r == self.wake_count,
    {
        self.wake_count
    }

    /// Whether some waiter sleeps on `key`.
    pub fn has_waiters_for(&self, key: usize) -> (r: bool)
        ensures
            r == exists|j: int| 0 <= j < self.inner@.len() && self.inner@[j].0 == key,
    {
        let mut i: usize = 0;
        while i < self.inner.len()
            invariant
                i <= self.inner@.len(),
                forall|j: int| 0 <= j < i ==> self.inner@[j].0 != key,
            decreases self.inner@.len() - i,
        {
            if self.inner[i].0 == key {
                return true;
            }
            i = i + 1;
        }
        false
    }
}

proof fn lemma_first_key_is_first(s: Seq<(usize, usize, u32)>, key: usize, i: int)
    requires
        0 <= i < s.len(),
        s[i].0 == key,
        forall|j: int| 0 <= j < i ==> s[j].0 != key,
    ensures
        first_key(s, key) == i,
    decreases s.len(),
{
    if i < s.len() - 1 {
        let t = s.drop_last();
        assert(forall|j: int| 0 <= j < i ==> t[j] == s[j]);
        lemma_first_key_is_first(t, key, i);
    } else {
        lemma_first_key_range(s.drop_last(), key);
        assert forall|j: int| 0 <= j < s.drop_last().len() implies s.drop_last()[j].0 != key by {
            assert(s.drop_last()[j] == s[j]);
        }
    }
}

} // verus!

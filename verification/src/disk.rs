use vstd::prelude::*;
use std::collections::VecDeque;
use crate::consts::IOQUEUE_DEPTH;

verus! {

/// One pending disk request: target block, direction, priority and the tick
/// at which it was submitted.
#[derive(Clone, Copy, PartialEq, Eq, Structural)]
pub struct IoRequest {
    pub block: usize,
    pub write: bool,
    pub priority: u8,
    pub submitted_tick: usize,
}

/// Disk request queue with a SCAN-like dispatch policy: the head position
/// and direction, and counters of dispatched and merged requests.
pub struct IoQueue {
    pub pending: VecDeque<IoRequest>,
    pub head_pos: usize,
    pub direction_up: bool,
    pub dispatched: usize,
    pub merged: usize,
}

/// How far the head travels to `block`: forward distance when moving up,
/// backward distance when moving down, and half the address space plus an
/// offset for blocks behind the head.
pub open spec fn seek_distance(block: usize, head: usize, up: bool) -> int {
    if up {
        if block >= head {
            block - head
        } else {
            usize::MAX / 2 + block
        }
    } else if block <= head {
        head - block
    } else {
        usize::MAX / 2 + head
    }
}

/// Every request's seek distance fits in a word (the distance of a block
/// behind the head adds half the address space).
pub open spec fn seek_fits(q: Seq<IoRequest>, head: usize, up: bool) -> bool {
    forall|k: int|
        0 <= k < q.len() ==> (if up {
            #[trigger] q[k].block >= head || usize::MAX / 2 + q[k].block <= usize::MAX
        } else {
            q[k].block <= head || usize::MAX / 2 + head <= usize::MAX
        })
}

/// Index and distance of the first request among the first `n` with the
/// least seek distance below `usize::MAX`; `(0, usize::MAX)` when none is.
pub open spec fn best_request(q: Seq<IoRequest>, n: int, head: usize, up: bool) -> (int, int)
    decreases n,
{
    if n <= 0 {
        (0, usize::MAX as int)
    } else {
        let (bi, bd) = best_request(q, n - 1, head, up);
        let d = seek_distance(q[n - 1].block, head, up);
        if d < bd {
            (n - 1, d)
        } else {
            (bi, bd)
        }
    }
}

/// The queue after merging: each request is dropped when it continues the
/// last kept one (the next block, same direction).
pub open spec fn merged_requests(q: Seq<IoRequest>) -> Seq<IoRequest>
    decreases q.len(),
{
    if q.len() == 0 {
        q
    } else {
        let m = merged_requests(q.drop_last());
        let e = q.last();
        if m.len() > 0 && m.last().block + 1 == e.block && m.last().write == e.write {
            m
        } else {
            m.push(e)
        }
    }
}

/// The requests of `reqs` as submitted at tick `now`.
pub open spec fn as_requests(reqs: Seq<(usize, bool, u8)>, now: usize) -> Seq<IoRequest> {
    reqs.map_values(|t: (usize, bool, u8)| IoRequest { block: t.0, write: t.1, priority: t.2, submitted_tick: now })
}

proof fn lemma_best_request_bound(q: Seq<IoRequest>, n: int, head: usize, up: bool)
    requires
        0 <= n <= q.len(),
    ensures
        0 <= best_request(q, n, head, up).0 < (if n == 0 {
            1
        } else {
            n
        }),
        best_request(q, n, head, up).1 <= usize::MAX,
    decreases n,
{
    if n > 0 {
        lemma_best_request_bound(q, n - 1, head, up);
    }
}

/// The request `best_request` picks is the first of least seek distance:
/// among the first `n` requests, when some distance is below `usize::MAX`,
/// the chosen one has the least distance and every earlier one a larger
/// distance; otherwise the answer is `(0, usize::MAX)`.
pub proof fn lemma_best_request_first_least(q: Seq<IoRequest>, n: int, head: usize, up: bool)
    requires
        0 <= n <= q.len(),
    ensures
        ({
            let (bi, bd) = best_request(q, n, head, up);
            if exists|i: int| 0 <= i < n && seek_distance(q[i].block, head, up) < usize::MAX {
                &&& 0 <= bi < n
                &&& bd == seek_distance(q[bi].block, head, up)
                &&& forall|j: int| 0 <= j < n ==> bd <= seek_distance(#[trigger] q[j].block, head, up)
                &&& forall|j: int| 0 <= j < bi ==> bd < seek_distance(#[trigger] q[j].block, head, up)
            } else {
                bi == 0 && bd == usize::MAX
            }
        }),
    decreases n,
{
    if n > 0 {
        lemma_best_request_first_least(q, n - 1, head, up);
        let (bi, bd) = best_request(q, n - 1, head, up);
        let d = seek_distance(q[n - 1].block, head, up);
        if exists|i: int| 0 <= i < n - 1 && seek_distance(q[i].block, head, up) < usize::MAX {
        } else {
            assert forall|j: int| 0 <= j < n - 1 implies seek_distance(#[trigger] q[j].block, head, up) >= usize::MAX by {
            }
        }
    }
}

proof fn lemma_merged_len(q: Seq<IoRequest>)
    ensures
        merged_requests(q).len() <= q.len(),
        q.len() > 0 ==> merged_requests(q).len() > 0,
    decreases q.len(),
{
    if q.len() > 0 {
        lemma_merged_len(q.drop_last());
    }
}

impl IoQueue {
    /// An empty queue with the head at block 0 moving up.
    pub fn new() -> (r: Self)
        ensures
            r.pending@.len() == 0,
            r.head_pos == 0,
            r.direction_up,
            r.dispatched == 0,
            r.merged == 0,
    {
        IoQueue { pending: VecDeque::new(), head_pos: 0, direction_up: true, dispatched: 0, merged: 0 }
    }

    /// Queues a request for `block_id`, stamped with tick `now`.
    pub fn submit(&mut self, block_id: usize, write: bool, priority: u8, now: usize)
        ensures
            final(self).pending@ == old(self).pending@.push(
                IoRequest { block: block_id, write, priority, submitted_tick: now },
            ),
            final(self).head_pos == old(self).head_pos,
            final(self).direction_up == old(self).direction_up,
            final(self).dispatched == old(self).dispatched,
            final(self).merged == old(self).merged,
    {
        self.pending.push_back(IoRequest { block: block_id, write, priority, submitted_tick: now });
    }

    /// Queues all of `requests`, stamped with tick `now`; when the queue is
    /// then deeper than `IOQUEUE_DEPTH` it merges adjacent requests. Returns
    /// how many were queued.
    pub fn submit_batch(&mut self, requests: &[(usize, bool, u8)], now: usize) -> (r: usize)
        ensures
            r == requests@.len(),
            ({
                let all = old(self).pending@ + as_requests(requests@, now);
                if all.len() > IOQUEUE_DEPTH {
                    &&& final(self).pending@ == merged_requests(all)
                    &&& final(self).merged == vstd::wrapping::usize_specs::wrapping_add(
                        old(self).merged,
                        (all.len() - merged_requests(all).len()) as usize,
                    )
                } else {
                    &&& final(self).pending@ == all
                    &&& final(self).merged == old(self).merged
                }
            }),
            final(self).head_pos == old(self).head_pos,
            final(self).direction_up == old(self).direction_up,
            final(self).dispatched == old(self).dispatched,
    {
        let mut i: usize = 0;
        while i < requests.len()
            invariant
                i <= requests@.len(),
                self.pending@ == old(self).pending@ + as_requests(requests@, now).subrange(0, i as int),
                self.head_pos == old(self).head_pos,
                self.direction_up == old(self).direction_up,
                self.dispatched == old(self).dispatched,
                self.merged == old(self).merged,
            decreases requests@.len() - i,
        {
            let (block_id, write, priority) = requests[i];
            self.pending.push_back(IoRequest { block: block_id, write, priority, submitted_tick: now });
            i = i + 1;
            proof {
                assert(self.pending@ =~= old(self).pending@ + as_requests(requests@, now).subrange(0, i as int));
            }
        }
        proof {
            assert(as_requests(requests@, now).subrange(0, i as int) =~= as_requests(requests@, now));
        }
        if self.pending.len() > IOQUEUE_DEPTH {
            self.merge_adjacent();
        }
        requests.len()
    }

    /// Serves the pending request nearest to the head in its direction (see
    /// `seek_distance`), moves the head there, and turns the head around
    /// when nothing is left beyond it.
    pub fn dispatch(&mut self) -> (r: Option<(usize, bool)>)
        requires
            seek_fits(old(self).pending@, old(self).head_pos, old(self).direction_up),
        ensures
            old(self).pending@.len() == 0 ==> r is None && final(self).pending@ == old(self).pending@
                && final(self).head_pos == old(self).head_pos && final(self).direction_up == old(self).direction_up && final(self).dispatched == old(self).dispatched,
            old(self).pending@.len() > 0 ==> {
                let q = old(self).pending@;
                let head = old(self).head_pos;
                let up = old(self).direction_up;
                let b = best_request(q, q.len() as int, head, up).0;
                let req = q[b];
                let rest = q.remove(b);
                &&& r == Some((req.block, req.write))
                &&& final(self).pending@ == rest
                &&& final(self).head_pos == req.block
                &&& final(self).direction_up == (if up && req.block >= head {
                    !(forall|k: int| 0 <= k < rest.len() ==> #[trigger] rest[k].block < req.block)
                } else if !up && req.block <= head {
                    forall|k: int| 0 <= k < rest.len() ==> #[trigger] rest[k].block > req.block
                } else {
                    up
                })
                &&& final(self).dispatched == vstd::wrapping::usize_specs::wrapping_add(
                    old(self).dispatched,
                    1,
                )
            },
            final(self).merged == old(self).merged,
    {
        if self.pending.len() == 0 {
            return None;
        }
        let head_position = self.head_pos;
        let going_up = self.direction_up;
        let mut best_index: usize = 0;
        let mut best_distance: usize = usize::MAX;
        let mut index: usize = 0;
        while index < self.pending.len()
            invariant
                index <= self.pending@.len(),
                self.pending@ == old(self).pending@,
                head_position == old(self).head_pos,
                going_up == old(self).direction_up,
                seek_fits(self.pending@, head_position, going_up),
                (best_index as int, best_distance as int) == best_request(
                    self.pending@,
                    index as int,
                    head_position,
                    going_up,
                ),
            decreases self.pending@.len() - index,
        {
            let block = self.pending[index].block;
            assert(block == self.pending@[index as int].block);
            let distance = if going_up {
                if block >= head_position {
                    block - head_position
                } else {
                    usize::MAX / 2 + block
                }
            } else if block <= head_position {
                head_position - block
            } else {
                usize::MAX / 2 + head_position
            };
            if distance < best_distance {
                best_distance = distance;
                best_index = index;
            }
            index = index + 1;
        }
        proof {
            lemma_best_request_bound(self.pending@, self.pending@.len() as int, head_position, going_up);
        }
        let request = match self.pending.remove(best_index) {
            Some(req) => req,
            None => return None,
        };
        self.head_pos = request.block;
        if going_up && request.block >= head_position {
            if self.all_below(request.block) {
                self.direction_up = false;
            }
        } else if !going_up && request.block <= head_position {
            if self.all_above(request.block) {
                self.direction_up = true;
            }
        }
        self.dispatched = self.dispatched.wrapping_add(1);
        Some((request.block, request.write))
    }

    fn all_below(&self, block: usize) -> (r: bool)
        ensures
            r == forall|k: int| 0 <= k < self.pending@.len() ==> #[trigger] self.pending@[k].block < block,
    {
        let mut i: usize = 0;
        while i < self.pending.len()
            invariant
                i <= self.pending@.len(),
                forall|k: int| 0 <= k < i ==> #[trigger] self.pending@[k].block < block,
            decreases self.pending@.len() - i,
        {
            if self.pending[i].block >= block {
                return false;
            }
            i = i + 1;
        }
        true
    }

    fn all_above(&self, block: usize) -> (r: bool)
        ensures
            r == forall|k: int| 0 <= k < self.pending@.len() ==> #[trigger] self.pending@[k].block > block,
    {
        let mut i: usize = 0;
        while i < self.pending.len()
            invariant
                i <= self.pending@.len(),
                forall|k: int| 0 <= k < i ==> #[trigger] self.pending@[k].block > block,
            decreases self.pending@.len() - i,
        {
            if self.pending[i].block <= block {
                return false;
            }
            i = i + 1;
        }
        true
    }

    /// Drops every request that continues the request kept before it (next
    /// block, same direction) and returns how many were dropped.
    pub fn merge_adjacent(&mut self) -> (r: usize)
        ensures
            final(self).pending@ == merged_requests(old(self).pending@),
            r == old(self).pending@.len() - merged_requests(old(self).pending@).len(),
            final(self).merged == vstd::wrapping::usize_specs::wrapping_add(old(self).merged, r),
            final(self).head_pos == old(self).head_pos,
            final(self).direction_up == old(self).direction_up,
            final(self).dispatched == old(self).dispatched,
    {
        let ghost orig = self.pending@;
        let mut merged_count: usize = 0;
        let mut index: usize = 0;
        let ghost mut k: int = if orig.len() > 0 {
            1
        } else {
            0
        };
        proof {
            if orig.len() > 0 {
                let s1 = orig.subrange(0, 1);
                assert(s1.drop_last() =~= Seq::<IoRequest>::empty());
                assert(merged_requests(s1.drop_last()).len() == 0);
                assert(merged_requests(s1) =~= seq![orig[0]]);
                assert(seq![orig[0]] + orig.subrange(1, orig.len() as int) =~= orig);
            } else {
                assert(merged_requests(orig.subrange(0, 0)) =~= Seq::<IoRequest>::empty());
                assert(orig.subrange(0, 0) + orig =~= orig);
            }
        }
        assert(orig.len() == self.pending.len());
        while index + 1 < self.pending.len()
            invariant
                0 <= k <= orig.len(),
                orig.len() <= usize::MAX,
                orig.len() > 0 ==> k >= 1 && index + 1 == merged_requests(orig.subrange(0, k)).len(),
                orig.len() == 0 ==> index == 0 && self.pending@.len() == 0,
                self.pending@ == merged_requests(orig.subrange(0, k)) + orig.subrange(k, orig.len() as int),
                merged_count == k - merged_requests(orig.subrange(0, k)).len(),
                merged_requests(orig.subrange(0, k)).len() <= k,
                self.head_pos == old(self).head_pos,
                self.direction_up == old(self).direction_up,
                self.dispatched == old(self).dispatched,
                self.merged == old(self).merged,
            decreases orig.len() - k,
        {
            let ghost m = merged_requests(orig.subrange(0, k));
            proof {
                assert(self.pending@[index as int] == m.last());
                assert(self.pending@[index + 1] == orig[k]);
                let pre = orig.subrange(0, k + 1);
                assert(pre.drop_last() =~= orig.subrange(0, k));
                assert(pre.last() == orig[k]);
            }
            let a = self.pending[index];
            let b = self.pending[index + 1];
            let joins = match a.block.checked_add(1) {
                Some(n) => n == b.block,
                None => false,
            };
            if joins && a.write == b.write {
                self.pending.remove(index + 1);
                merged_count = merged_count + 1;
                proof {
                    assert(self.pending@ =~= m + orig.subrange(k + 1, orig.len() as int));
                    k = k + 1;
                }
            } else {
                index = index + 1;
                proof {
                    assert(self.pending@ =~= m.push(orig[k]) + orig.subrange(k + 1, orig.len() as int));
                    k = k + 1;
                }
            }
        }
        proof {
            if orig.len() > 0 {
                assert(k == orig.len());
            }
            assert(orig.subrange(0, k) =~= orig);
            assert(orig.subrange(k, orig.len() as int) =~= Seq::<IoRequest>::empty());
            assert(self.pending@ =~= merged_requests(orig));
        }
        self.merged = self.merged.wrapping_add(merged_count);
        merged_count
    }

    /// Number of pending requests.
    pub fn depth(&self) -> (r: usize)
        ensures
            r == self.pending@.len(),
    {
        self.pending.len()
    }
}


/// A simulated block device: remaining transient errors (`usize::MAX`
/// means the device never recovers), an operation counter, a label and an
/// optional journal device that failed reads consult.
pub struct Disk {
    pub errs: usize,
    pub ops: usize,
    pub label: String,
    pub journal: Option<Box<Disk>>,
}

/// How many devices hang below `d` through journals.
pub open spec fn disk_depth(d: Disk) -> nat
    decreases d,
{
    match d.journal {
        Some(j) => 1 + disk_depth(*j),
        None => 0,
    }
}

/// `a + b` in a word, wrapping.
pub open spec fn wrap_add(a: usize, b: int) -> usize {
    ((a + b) % (usize::MAX as int + 1)) as usize
}

/// A read limited to `limit` attempts (0: unlimited) succeeds when the
/// transient errors run out within the limit.
pub open spec fn read_succeeds(errs: usize, limit: usize) -> bool {
    errs != usize::MAX && (limit == 0 || errs < limit)
}

/// The failed attempts of such a read.
pub open spec fn read_fails(errs: usize, limit: usize) -> nat {
    if read_succeeds(errs, limit) {
        errs as nat
    } else {
        limit as nat
    }
}

/// The device after one read limited to `limit` attempts, each failure
/// making one read of the journal limited to `jl` attempts; only the first
/// `depth` journal levels are followed.
pub open spec fn after_read(d: Disk, limit: usize, jl: usize, depth: nat) -> Disk
    decreases depth, 0nat,
{
    let fails = read_fails(d.errs, limit);
    let attempts: int = if read_succeeds(d.errs, limit) {
        fails + 1int
    } else {
        fails as int
    };
    Disk {
        errs: if d.errs == usize::MAX {
            d.errs
        } else {
            (d.errs - fails) as usize
        },
        ops: wrap_add(d.ops, attempts),
        label: d.label,
        journal: match d.journal {
            Some(j) => if depth > 0 {
                Some(Box::new(after_reads(*j, jl, fails, (depth - 1) as nat)))
            } else {
                Some(j)
            },
            None => None,
        },
    }
}

/// The device after `n` reads limited to `limit` attempts, as a journal
/// reads them (its own journal reads limited the same way).
pub open spec fn after_reads(d: Disk, limit: usize, n: nat, depth: nat) -> Disk
    decreases depth, n + 1,
{
    if n == 0 {
        d
    } else {
        after_reads(after_read(d, limit, min5(limit), depth), limit, (n - 1) as nat, depth)
    }
}

/// The smaller of `limit` and 5.
pub open spec fn min5(limit: usize) -> usize {
    if limit < 5 {
        limit
    } else {
        5
    }
}

/// Reads limited to `limit` attempts on `d` end: with no limit, every
/// device they reach must eventually run out of errors.
pub open spec fn reads_end(d: Disk, limit: usize) -> bool
    decreases d,
{
    limit > 0 || (d.errs != usize::MAX && (d.errs > 0 ==> match d.journal {
        Some(j) => reads_end(*j, 0),
        None => true,
    }))
}


/// Reads keep the chain of journals as deep as it was.
proof fn lemma_after_read_depth(d: Disk, limit: usize, jl: usize, depth: nat)
    ensures
        disk_depth(after_read(d, limit, jl, depth)) == disk_depth(d),
    decreases depth, 0nat,
{
    match d.journal {
        Some(j) => {
            if depth > 0 {
                lemma_after_reads_depth(*j, jl, read_fails(d.errs, limit), (depth - 1) as nat);
            }
        },
        None => {},
    }
}

proof fn lemma_after_reads_depth(d: Disk, limit: usize, n: nat, depth: nat)
    ensures
        disk_depth(after_reads(d, limit, n, depth)) == disk_depth(d),
    decreases depth, n + 1,
{
    if n > 0 {
        lemma_after_read_depth(d, limit, min5(limit), depth);
        lemma_after_reads_depth(after_read(d, limit, min5(limit), depth), limit, (n - 1) as nat, depth);
    }
}

/// One more read after `n` reads is `n + 1` reads.
proof fn lemma_after_reads_snoc(d: Disk, limit: usize, n: nat, depth: nat)
    ensures
        after_reads(d, limit, n + 1, depth) == after_read(after_reads(d, limit, n, depth), limit, min5(limit), depth),
    decreases n,
{
    let d1 = after_read(d, limit, min5(limit), depth);
    if n > 0 {
        lemma_after_reads_snoc(d1, limit, (n - 1) as nat, depth);
    } else {
        assert(after_reads(d1, limit, 0, depth) == d1);
        assert(after_reads(d, limit, 0, depth) == d);
    }
}

/// Reads that end keep ending after a read.
proof fn lemma_reads_end_kept(d: Disk, limit: usize, jl: usize, depth: nat)
    requires
        reads_end(d, limit),
    ensures
        reads_end(after_read(d, limit, jl, depth), limit),
{
}

proof fn lemma_reads_end_after_reads(d: Disk, limit: usize, n: nat, depth: nat)
    requires
        reads_end(d, limit),
    ensures
        reads_end(after_reads(d, limit, n, depth), limit),
    decreases n,
{
    if n > 0 {
        lemma_reads_end_kept(d, limit, min5(limit), depth);
        lemma_after_reads_depth(d, limit, 0, depth);
        lemma_reads_end_after_reads(after_read(d, limit, min5(limit), depth), limit, (n - 1) as nat, depth);
    }
}

proof fn lemma_wrap_add_step(a: usize, k: int)
    requires
        k >= 0,
    ensures
        vstd::wrapping::usize_specs::wrapping_add(wrap_add(a, k), 1) == wrap_add(a, k + 1),
{
    let m = usize::MAX as int + 1;
    vstd::arithmetic::div_mod::lemma_add_mod_noop(a + k, 1, m);
    vstd::arithmetic::div_mod::lemma_mod_pos_bound(a + k, m);
    vstd::arithmetic::div_mod::lemma_small_mod(1, m as nat);
    vstd::arithmetic::div_mod::lemma_mod_pos_bound(a + k + 1, m);
    let w = wrap_add(a, k);
    if w + 1 > usize::MAX {
        vstd::arithmetic::div_mod::lemma_mod_self_0(m);
    } else {
        vstd::arithmetic::div_mod::lemma_small_mod((w + 1) as nat, m as nat);
    }
}

impl Disk {
    /// A healthy device with no journal.
    pub fn new(label: &str) -> (r: Self)
        ensures
            r.errs == 0 && r.ops == 0 && r.label@ == label@ && r.journal is None,
    {
        Disk { errs: 0, ops: 0, label: label.to_string(), journal: None }
    }

    /// A device that fails its next `error_count` operations
    /// (`usize::MAX`: all of them).
    pub fn failing(label: &str, error_count: usize) -> (r: Self)
        ensures
            r.errs == error_count && r.ops == 0 && r.label@ == label@ && r.journal is None,
    {
        Disk { errs: error_count, ops: 0, label: label.to_string(), journal: None }
    }

    pub fn attach_journal(&mut self, journal: Disk)
        ensures
            final(self).journal == Some(Box::new(journal)),
            final(self).errs == old(self).errs,
            final(self).ops == old(self).ops,
            final(self).label == old(self).label,
    {
        self.journal = Some(Box::new(journal));
    }

    pub fn set_errs(&mut self, error_count: usize)
        ensures
            *final(self) == (Disk { errs: error_count, ..*old(self) }),
    {
        self.errs = error_count;
    }

    /// The retry loop of the reads: at most `limit` attempts (0: until one
    /// works), each failure using up one transient error and reading the
    /// journal limited to `jl` attempts.
    fn retry_read(&mut self, block_id: usize, out: &mut [u8], limit: usize, jl: usize) -> (r: Result<usize, &'static str>)
        requires
            reads_end(*old(self), limit) || (jl > 0 && old(self).errs != usize::MAX),
            jl > 0 || limit == 0,
        ensures
            *final(self) == after_read(*old(self), limit, jl, disk_depth(*old(self))),
            read_succeeds(old(self).errs, limit) ==> r == Ok::<usize, &'static str>((old(self).errs + 1) as usize)
                && final(out)@ == Seq::new(old(out)@.len(), |i: int| 0xAAu8),
            !read_succeeds(old(self).errs, limit) ==> r == Err::<usize, &'static str>("limit") && final(out)@
                == old(out)@,
        decreases disk_depth(*old(self)), 0nat,
    {
        let ghost d0 = *self;
        let ghost fails = read_fails(d0.errs, limit);
        let mut attempt: usize = 0;
        proof {
            vstd::arithmetic::div_mod::lemma_small_mod(d0.ops as nat, (usize::MAX as int + 1) as nat);
            assert(after_reads(*d0.journal.unwrap(), jl, 0, (disk_depth(d0) - 1) as nat) == *d0.journal.unwrap()) by {
                if d0.journal is Some {}
            }
        }
        loop
            invariant
                attempt < fails || read_succeeds(d0.errs, limit),
                reads_end(d0, limit) || (jl > 0 && d0.errs != usize::MAX),
                jl > 0 || limit == 0,
                d0 == *old(self),
                fails == read_fails(d0.errs, limit),
                attempt <= fails,
                self.label == d0.label,
                self.errs == (if d0.errs == usize::MAX {
                    usize::MAX as int
                } else {
                    d0.errs - attempt
                }),
                self.ops == wrap_add(d0.ops, attempt as int),
                match d0.journal {
                    Some(j) => self.journal == Some(
                        Box::new(after_reads(*j, jl, attempt as nat, (disk_depth(d0) - 1) as nat)),
                    ),
                    None => self.journal is None,
                },
                out@ == old(out)@,
            decreases fails + 1 - attempt,
        {
            attempt = attempt + 1;
            proof {
                lemma_wrap_add_step(d0.ops, (attempt - 1) as int);
            }
            self.ops = self.ops.wrapping_add(1);
            if self.errs == 0 {
                let mut i: usize = 0;
                while i < out.len()
                    invariant
                        i <= out@.len(),
                        out@.len() == old(out)@.len(),
                        forall|k: int| 0 <= k < i ==> out@[k] == 0xAAu8,
                    decreases out@.len() - i,
                {
                    out[i] = 0xAA;
                    i = i + 1;
                }
                proof {
                    assert(out@ =~= Seq::new(old(out)@.len(), |i: int| 0xAAu8));
                }
                return Ok(attempt);
            }
            if self.errs != usize::MAX {
                self.errs = self.errs - 1;
            }
            match self.journal.take() {
                Some(mut jb) => {
                    let ghost jd = *jb;
                    proof {
                        let j0 = *d0.journal.unwrap();
                        lemma_after_reads_depth(j0, jl, (attempt - 1) as nat, (disk_depth(d0) - 1) as nat);
                        if jl == 0 {
                            assert(d0.errs > 0);
                            assert(reads_end(j0, 0));
                            lemma_reads_end_after_reads(j0, 0, (attempt - 1) as nat, (disk_depth(d0) - 1) as nat);
                        }
                        lemma_after_reads_snoc(j0, jl, (attempt - 1) as nat, (disk_depth(d0) - 1) as nat);
                    }
                    let mut scratch = [0u8; 8];
                    let _ = (&mut *jb).read_block_n(block_id, &mut scratch, jl);
                    self.journal = Some(jb);
                },
                None => {},
            }
            if limit > 0 && attempt >= limit {
                return Err("limit");
            }
        }
    }

    /// Reads a block, retrying at most `limit` times (0: until it works).
    /// Each failed attempt uses up one transient error and reads the
    /// journal, limited to at most 5 attempts. Success fills `out` with
    /// 0xAA and gives the number of attempts; running out of attempts is
    /// "limit".
    pub fn read_block_n(&mut self, block_id: usize, out: &mut [u8], limit: usize) -> (r: Result<usize, &'static str>)
        requires
            reads_end(*old(self), limit),
        ensures
            *final(self) == after_read(*old(self), limit, min5(limit), disk_depth(*old(self))),
            read_succeeds(old(self).errs, limit) ==> r == Ok::<usize, &'static str>((old(self).errs + 1) as usize)
                && final(out)@ == Seq::new(old(out)@.len(), |i: int| 0xAAu8),
            !read_succeeds(old(self).errs, limit) ==> r == Err::<usize, &'static str>("limit") && final(out)@
                == old(out)@,
        decreases disk_depth(*old(self)), 1nat,
    {
        let jl: usize = if limit < 5 {
            limit
        } else {
            5
        };
        self.retry_read(block_id, out, limit, jl)
    }

    /// Reads a block, retrying until the transient errors run out; each
    /// failure reads the journal with at most 5 attempts. Fills `out` with
    /// 0xAA. A device that never recovers would retry forever.
    pub fn read_block(&mut self, block_id: usize, out: &mut [u8]) -> (r: Result<(), &'static str>)
        requires
            old(self).errs != usize::MAX,
        ensures
            *final(self) == after_read(*old(self), 0, 5, disk_depth(*old(self))),
            r == Ok::<(), &'static str>(()),
            final(out)@ == Seq::new(old(out)@.len(), |i: int| 0xAAu8),
    {
        match self.retry_read(block_id, out, 0, 5) {
            Ok(_) => Ok(()),
            Err(e) => Err(e),
        }
    }

    /// A write counts one operation and fails with "io_error" while
    /// transient errors remain, using one up.
    pub fn write_block(&mut self, block_id: usize, data: &[u8]) -> (r: Result<(), &'static str>)
        ensures
            final(self).ops == vstd::wrapping::usize_specs::wrapping_add(old(self).ops, 1),
            final(self).label == old(self).label,
            final(self).journal == old(self).journal,
            old(self).errs == 0 ==> r == Ok::<(), &'static str>(()) && final(self).errs == 0,
            old(self).errs != 0 ==> r == Err::<(), &'static str>("io_error") && final(self).errs == (if old(self).errs == usize::MAX {
                usize::MAX as int
            } else {
                old(self).errs - 1
            }),
    {
        self.ops = self.ops.wrapping_add(1);
        if self.errs != 0 {
            if self.errs != usize::MAX {
                self.errs = self.errs - 1;
            }
            return Err("io_error");
        }
        Ok(())
    }

    /// Counts one operation here and one on the journal.
    pub fn flush(&mut self) -> (r: Result<(), &'static str>)
        ensures
            r == Ok::<(), &'static str>(()),
            final(self).ops == vstd::wrapping::usize_specs::wrapping_add(old(self).ops, 1),
            final(self).errs == old(self).errs,
            final(self).label == old(self).label,
            match old(self).journal {
                Some(j) => final(self).journal == Some(
                    Box::new(Disk { ops: vstd::wrapping::usize_specs::wrapping_add(j.ops, 1), ..*j }),
                ),
                None => final(self).journal is None,
            },
    {
        self.ops = self.ops.wrapping_add(1);
        match self.journal.take() {
            Some(mut jb) => {
                jb.ops = jb.ops.wrapping_add(1);
                self.journal = Some(jb);
            },
            None => {},
        }
        Ok(())
    }

    pub fn total_ops(&self) -> (r: usize)
        ensures
            r == self.ops,
    {
        self.ops
    }

    pub fn reset_ops(&mut self)
        ensures
            *final(self) == (Disk { ops: 0, ..*old(self) }),
    {
        self.ops = 0;
    }
}

} // verus!

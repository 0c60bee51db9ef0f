use vstd::prelude::*;
use crate::consts::{PRIO_DEFAULT, SCHED_NORMAL};

verus! {

/// Scheduling parameters of a task.
#[derive(Clone, Copy, PartialEq, Eq, Structural)]
pub struct SchedulePolicy {
    pub policy: u8,
    pub prio: i32,
    pub nice: i32,
    pub time_slice: usize,
    pub vruntime: u64,
}

/// `p` clamped to the nice range `-20..=19`.
pub open spec fn clamp_prio(p: int) -> int {
    if p < -20 {
        -20
    } else if p > 19 {
        19
    } else {
        p
    }
}

/// The policy of a normal task at priority `p` (already clamped): the time
/// slice is `20 - p` ticks.
pub open spec fn policy_at(p: int) -> SchedulePolicy {
    SchedulePolicy {
        policy: SCHED_NORMAL,
        prio: p as i32,
        nice: p as i32,
        time_slice: (20 - p) as usize,
        vruntime: 0,
    }
}

/// Load weight of a nice level, about 1024 * 1.25^(-nice) in five steps.
pub open spec fn weight_of(nice: i32) -> u64 {
    if nice < -10 {
        88761
    } else if nice < 0 {
        29154
    } else if nice == 0 {
        1024
    } else if nice < 10 {
        335
    } else {
        110
    }
}

impl SchedulePolicy {
    /// The default policy: normal class, default priority, 10-tick slice.
    pub fn new() -> (r: Self)
        ensures
            r == (SchedulePolicy {
                policy: SCHED_NORMAL,
                prio: PRIO_DEFAULT,
                nice: 0,
                time_slice: 10,
                vruntime: 0,
            }),
    {
        SchedulePolicy { policy: SCHED_NORMAL, prio: PRIO_DEFAULT, nice: 0, time_slice: 10, vruntime: 0 }
    }

    /// A normal policy at priority `prio`, clamped to `-20..=19`; the nice
    /// value follows the priority.
    pub fn with_prio(prio: i32) -> (r: Self)
        ensures
            r == policy_at(clamp_prio(prio as int)),
    {
        let p = if prio < -20 {
            -20
        } else if prio > 19 {
            19
        } else {
            prio
        };
        let slice: i32 = 20i32 - p;
        let slice = if slice < 1 {
            1
        } else {
            slice
        };
        SchedulePolicy { policy: SCHED_NORMAL, prio: p, nice: p, time_slice: slice as usize, vruntime: 0 }
    }

    /// Load weight of this policy's nice level.
    pub fn weight(&self) -> (r: u64)
        ensures
            r == weight_of(self.nice),
    {
        if self.nice < -10 {
            88761
        } else if self.nice < 0 {
            29154
        } else if self.nice == 0 {
            1024
        } else if self.nice < 10 {
            335
        } else {
            110
        }
    }
}

/// The ids of the queued tasks, in queue order.
pub open spec fn queue_ids(q: Seq<(usize, SchedulePolicy)>) -> Seq<usize> {
    q.map_values(|e: (usize, SchedulePolicy)| e.0)
}

/// First position in `q` whose vruntime is above `v`, or the length.
pub open spec fn insert_pos(q: Seq<(usize, SchedulePolicy)>, v: u64) -> int
    decreases q.len(),
{
    if q.len() == 0 {
        0
    } else if q[0].1.vruntime > v {
        0
    } else {
        1 + insert_pos(q.drop_first(), v)
    }
}

/// `q` with `e` inserted after every entry whose vruntime is not above
/// `e`'s, counting from the front.
pub open spec fn insert_by_vruntime(q: Seq<(usize, SchedulePolicy)>, e: (usize, SchedulePolicy)) -> Seq<
    (usize, SchedulePolicy),
> {
    q.insert(insert_pos(q, e.1.vruntime), e)
}

/// Stable sort of `q` by vruntime, by insertion from the front.
pub open spec fn sort_by_vruntime(q: Seq<(usize, SchedulePolicy)>) -> Seq<(usize, SchedulePolicy)>
    decreases q.len(),
{
    if q.len() == 0 {
        q
    } else {
        insert_by_vruntime(sort_by_vruntime(q.drop_last()), q.last())
    }
}

/// Entries of `q` are in non-decreasing vruntime order.
pub open spec fn sorted_by_vruntime(q: Seq<(usize, SchedulePolicy)>) -> bool {
    forall|i: int, j: int| 0 <= i <= j < q.len() ==> q[i].1.vruntime <= q[j].1.vruntime
}

/// `q` with every entry of task `id` removed.
pub open spec fn without_task(q: Seq<(usize, SchedulePolicy)>, id: usize) -> Seq<(usize, SchedulePolicy)> {
    q.filter(|e: (usize, SchedulePolicy)| e.0 != id)
}

/// The policy after a boost of `amount`: priority lowered by `amount`
/// (raising it), clamped, with nice and time slice following.
pub open spec fn boosted(p: SchedulePolicy, amount: i32) -> SchedulePolicy {
    let b = clamp_prio(p.prio - amount);
    SchedulePolicy { prio: b as i32, nice: b as i32, time_slice: (20 - b) as usize, ..p }
}

/// Queue of runnable tasks with their policies, the task currently running,
/// and a preemption-disable count.
pub struct RunQueue {
    pub queue: Vec<(usize, SchedulePolicy)>,
    pub current: Option<(usize, SchedulePolicy)>,
    pub preempt_count: usize,
}

/// Position of the first entry of task `id`, if any.
pub open spec fn find_task(q: Seq<(usize, SchedulePolicy)>, id: usize) -> Option<int> {
    if exists|i: int| 0 <= i < q.len() && q[i].0 == id {
        Some(choose|i: int| 0 <= i < q.len() && q[i].0 == id && forall|j: int| 0 <= j < i ==> q[j].0 != id)
    } else {
        None
    }
}

fn position_of(q: &Vec<(usize, SchedulePolicy)>, id: usize) -> (r: Option<usize>)
    ensures
        match r {
            Some(i) => i < q@.len() && q@[i as int].0 == id && forall|j: int| 0 <= j < i ==> q@[j].0 != id,
            None => forall|j: int| 0 <= j < q@.len() ==> q@[j].0 != id,
        },
        r matches Some(i) ==> find_task(q@, id) == Some(i as int),
        r is None ==> find_task(q@, id) is None,
{
    let mut i: usize = 0;
    while i < q.len()
        invariant
            i <= q@.len(),
            forall|j: int| 0 <= j < i ==> q@[j].0 != id,
        decreases q@.len() - i,
    {
        if q[i].0 == id {
            proof {
                let k = choose|k: int| 0 <= k < q@.len() && q@[k].0 == id && forall|j: int| 0 <= j < k ==> q@[j].0 != id;
                assert(0 <= i < q@.len() && q@[i as int].0 == id && forall|j: int| 0 <= j < i ==> q@[j].0 != id);
                if k < i {
                } else if k > i {
                }
            }
            return Some(i);
        }
        i = i + 1;
    }
    None
}

fn vruntime_pos(q: &Vec<(usize, SchedulePolicy)>, v: u64) -> (r: usize)
    ensures
        r == insert_pos(q@, v),
        r <= q@.len(),
{
    let mut i: usize = 0;
    proof {
        assert(q@.subrange(0, q@.len() as int) =~= q@);
    }
    while i < q.len()
        invariant
            i <= q@.len(),
            insert_pos(q@, v) == i + insert_pos(q@.subrange(i as int, q@.len() as int), v),
        decreases q@.len() - i,
    {
        proof {
            let rest = q@.subrange(i as int, q@.len() as int);
            assert(rest.drop_first() =~= q@.subrange(i + 1, q@.len() as int));
        }
        if q[i].1.vruntime > v {
            return i;
        }
        i = i + 1;
    }
    proof {
        assert(q@.subrange(i as int, q@.len() as int).len() == 0);
    }
    i
}

proof fn lemma_insert_pos_bound(q: Seq<(usize, SchedulePolicy)>, v: u64)
    ensures
        0 <= insert_pos(q, v) <= q.len(),
    decreases q.len(),
{
    if q.len() > 0 && q[0].1.vruntime <= v {
        lemma_insert_pos_bound(q.drop_first(), v);
    }
}

proof fn lemma_insert_pos_split(q: Seq<(usize, SchedulePolicy)>, v: u64)
    ensures
        forall|i: int| 0 <= i < insert_pos(q, v) ==> q[i].1.vruntime <= v,
        insert_pos(q, v) < q.len() ==> q[insert_pos(q, v)].1.vruntime > v,
    decreases q.len(),
{
    lemma_insert_pos_bound(q, v);
    if q.len() > 0 && q[0].1.vruntime <= v {
        lemma_insert_pos_split(q.drop_first(), v);
        assert forall|i: int| 0 <= i < insert_pos(q, v) implies q[i].1.vruntime <= v by {
            if i > 0 {
                assert(q[i] == q.drop_first()[i - 1]);
            }
        }
        let k = insert_pos(q.drop_first(), v);
        lemma_insert_pos_bound(q.drop_first(), v);
        if k < q.drop_first().len() {
            assert(q[k + 1] == q.drop_first()[k]);
        }
    }
}

/// Insertion by vruntime keeps a sorted queue sorted.
pub proof fn lemma_insert_sorted(q: Seq<(usize, SchedulePolicy)>, e: (usize, SchedulePolicy))
    requires
        sorted_by_vruntime(q),
    ensures
        sorted_by_vruntime(insert_by_vruntime(q, e)),
        insert_by_vruntime(q, e).len() == q.len() + 1,
{
    lemma_insert_pos_split(q, e.1.vruntime);
    lemma_insert_pos_bound(q, e.1.vruntime);
    let p = insert_pos(q, e.1.vruntime);
    let r = insert_by_vruntime(q, e);
    assert forall|i: int, j: int| 0 <= i <= j < r.len() implies r[i].1.vruntime <= r[j].1.vruntime by {
        if i < p && j == p {
        } else if i == p && j > p {
            assert(r[j] == q[j - 1]);
            if p < q.len() {
                assert(q[p].1.vruntime <= q[j - 1].1.vruntime);
            }
        } else if i < p && j > p {
            assert(r[j] == q[j - 1]);
        } else if i > p {
            assert(r[i] == q[i - 1]);
            assert(r[j] == q[j - 1]);
        }
    }
}

/// Sorting by vruntime gives a sorted queue of the same length.
pub proof fn lemma_sort_sorted(q: Seq<(usize, SchedulePolicy)>)
    ensures
        sorted_by_vruntime(sort_by_vruntime(q)),
        sort_by_vruntime(q).len() == q.len(),
    decreases q.len(),
{
    if q.len() > 0 {
        lemma_sort_sorted(q.drop_last());
        lemma_insert_sorted(sort_by_vruntime(q.drop_last()), q.last());
    }
}

impl RunQueue {
    /// An empty queue, nothing running, preemption enabled.
    pub fn new() -> (r: Self)
        ensures
            r.queue@.len() == 0,
            r.current is None,
            r.preempt_count == 0,
    {
        RunQueue { queue: Vec::new(), current: None, preempt_count: 0 }
    }

    /// Queues `task_id` after every queued task whose vruntime is not above
    /// its own; a task already queued is left where it is.
    pub fn enqueue(&mut self, task_id: usize, policy: SchedulePolicy)
        ensures
            final(self).current == old(self).current,
            final(self).preempt_count == old(self).preempt_count,
            queue_ids(old(self).queue@).contains(task_id) ==> final(self).queue@ == old(self).queue@,
            !queue_ids(old(self).queue@).contains(task_id) ==> final(self).queue@ == insert_by_vruntime(
                old(self).queue@,
                (task_id, policy),
            ),
    {
        match position_of(&self.queue, task_id) {
            Some(i) => {
                proof {
                    assert(queue_ids(self.queue@)[i as int] == task_id);
                }
                return;
            },
            None => {
                proof {
                    assert forall|k: int| 0 <= k < queue_ids(self.queue@).len() implies queue_ids(self.queue@)[k] != task_id by {
                        assert(self.queue@[k].0 != task_id);
                    }
                }
            },
        }
        let at = vruntime_pos(&self.queue, policy.vruntime);
        self.queue.insert(at, (task_id, policy));
    }

    /// Removes and returns the task at the front.
    pub fn dequeue(&mut self) -> (r: Option<(usize, SchedulePolicy)>)
        ensures
            final(self).current == old(self).current,
            final(self).preempt_count == old(self).preempt_count,
            old(self).queue@.len() == 0 ==> r is None && final(self).queue@ == old(self).queue@,
            old(self).queue@.len() > 0 ==> r == Some(old(self).queue@[0]) && final(self).queue@
                == old(self).queue@.drop_first(),
    {
        if self.queue.len() == 0 {
            return None;
        }
        let e = self.queue.remove(0);
        proof {
            assert(self.queue@ =~= old(self).queue@.drop_first());
        }
        Some(e)
    }

    /// The task at the front, if any.
    pub fn pick_next(&self) -> (r: Option<usize>)
        ensures
            self.queue@.len() == 0 ==> r is None,
            self.queue@.len() > 0 ==> r == Some(self.queue@[0].0),
    {
        if self.queue.len() == 0 {
            None
        } else {
            Some(self.queue[0].0)
        }
    }

    /// Reorders the queue by vruntime; tasks with equal vruntime keep their
    /// order.
    pub fn rebalance(&mut self)
        ensures
            final(self).queue@ == sort_by_vruntime(old(self).queue@),
            sorted_by_vruntime(final(self).queue@),
            final(self).current == old(self).current,
            final(self).preempt_count == old(self).preempt_count,
    {
        let mut sorted: Vec<(usize, SchedulePolicy)> = Vec::new();
        let mut i: usize = 0;
        while i < self.queue.len()
            invariant
                i <= self.queue@.len(),
                self.queue@ == old(self).queue@,
                sorted@ == sort_by_vruntime(self.queue@.subrange(0, i as int)),
            decreases self.queue@.len() - i,
        {
            let e = self.queue[i];
            let at = vruntime_pos(&sorted, e.1.vruntime);
            sorted.insert(at, e);
            proof {
                let pre = self.queue@.subrange(0, i + 1);
                assert(pre.drop_last() =~= self.queue@.subrange(0, i as int));
            }
            i = i + 1;
        }
        proof {
            assert(self.queue@.subrange(0, i as int) =~= old(self).queue@);
            lemma_sort_sorted(old(self).queue@);
        }
        self.queue = sorted;
    }

    /// Records `task_id` as running with the default policy.
    pub fn set_current(&mut self, task_id: usize)
        ensures
            final(self).current == Some((task_id, policy_default())),
            final(self).queue@ == old(self).queue@,
            final(self).preempt_count == old(self).preempt_count,
    {
        self.set_current_with_policy(task_id, SchedulePolicy::new());
    }

    /// Records `task_id` as running with `policy`.
    pub fn set_current_with_policy(&mut self, task_id: usize, policy: SchedulePolicy)
        ensures
            final(self).current == Some((task_id, policy)),
            final(self).queue@ == old(self).queue@,
            final(self).preempt_count == old(self).preempt_count,
    {
        self.current = Some((task_id, policy));
    }

    /// Records that nothing is running.
    pub fn clear_current(&mut self)
        ensures
            final(self).current is None,
            final(self).queue@ == old(self).queue@,
            final(self).preempt_count == old(self).preempt_count,
    {
        self.current = None;
    }

    /// Number of queued tasks.
    pub fn len(&self) -> (r: usize)
        ensures
            r == self.queue@.len(),
    {
        self.queue.len()
    }

    /// Removes every entry of `task_id`; tells whether there was one.
    pub fn remove(&mut self, task_id: usize) -> (r: bool)
        ensures
            final(self).queue@ == without_task(old(self).queue@, task_id),
            r == queue_ids(old(self).queue@).contains(task_id),
            final(self).current == old(self).current,
            final(self).preempt_count == old(self).preempt_count,
    {
        let mut kept: Vec<(usize, SchedulePolicy)> = Vec::new();
        let mut found = false;
        let mut i: usize = 0;
        while i < self.queue.len()
            invariant
                i <= self.queue@.len(),
                self.queue@ == old(self).queue@,
                kept@ == without_task(self.queue@.subrange(0, i as int), task_id),
                found == exists|j: int| 0 <= j < i && self.queue@[j].0 == task_id,
            decreases self.queue@.len() - i,
        {
            let e = self.queue[i];
            proof {
                let pre = self.queue@.subrange(0, i + 1);
                assert(pre.drop_last() =~= self.queue@.subrange(0, i as int));
                assert(pre.last() == e);
                reveal(Seq::filter);
                assert(self.queue@.subrange(0, i as int).push(e) =~= pre);
            }
            if e.0 != task_id {
                kept.push(e);
            } else {
                found = true;
            }
            i = i + 1;
        }
        proof {
            assert(self.queue@.subrange(0, i as int) =~= old(self).queue@);
            if found {
                let j = choose|j: int| 0 <= j < i && self.queue@[j].0 == task_id;
                assert(queue_ids(old(self).queue@)[j] == task_id);
            }
            if queue_ids(old(self).queue@).contains(task_id) {
                let j = choose|j: int| 0 <= j < queue_ids(old(self).queue@).len() && queue_ids(old(self).queue@)[j] == task_id;
                assert(self.queue@[j].0 == task_id);
            }
        }
        self.queue = kept;
        found
    }

    /// Adds `delta` scaled by 1024 / weight to the vruntime of the first
    /// entry of `task_id`, both steps saturating.
    pub fn update_vruntime(&mut self, task_id: usize, delta: u64)
        ensures
            final(self).current == old(self).current,
            final(self).preempt_count == old(self).preempt_count,
            match find_task(old(self).queue@, task_id) {
                None => final(self).queue@ == old(self).queue@,
                Some(i) => final(self).queue@ == old(self).queue@.update(
                    i,
                    (
                        task_id,
                        SchedulePolicy {
                            vruntime: sat_add(
                                old(self).queue@[i].1.vruntime,
                                sat_mul(delta, 1024) / weight_of(old(self).queue@[i].1.nice),
                            ),
                            ..old(self).queue@[i].1
                        },
                    ),
                ),
            },
    {
        match position_of(&self.queue, task_id) {
            None => {},
            Some(i) => {
                let (id, mut policy) = self.queue[i];
                let product = match delta.checked_mul(1024) {
                    Some(v) => v,
                    None => u64::MAX,
                };
                let scaled = product / policy.weight();
                policy.vruntime = policy.vruntime.saturating_add(scaled);
                self.queue.set(i, (id, policy));
            },
        }
    }

    /// Disables preemption once more.
    pub fn preempt_disable(&mut self)
        requires
            old(self).preempt_count < usize::MAX,
        ensures
            final(self).preempt_count == old(self).preempt_count + 1,
            final(self).queue@ == old(self).queue@,
            final(self).current == old(self).current,
    {
        self.preempt_count = self.preempt_count + 1;
    }

    /// Undoes one `preempt_disable`; at zero it stays zero.
    pub fn preempt_enable(&mut self)
        ensures
            final(self).preempt_count == if old(self).preempt_count == 0 {
                0
            } else {
                (old(self).preempt_count - 1) as usize
            },
            final(self).queue@ == old(self).queue@,
            final(self).current == old(self).current,
    {
        if self.preempt_count != 0 {
            self.preempt_count = self.preempt_count - 1;
        }
    }

    /// Whether preemption is enabled.
    pub fn preemptible(&self) -> (r: bool)
        ensures
            r == (self.preempt_count == 0),
    {
        self.preempt_count == 0
    }

    /// Raises the priority of the first queued entry of `task_id` by
    /// `amount` (clamped), updating nice and time slice alike.
    pub fn boost_priority(&mut self, task_id: usize, amount: i32)
        ensures
            final(self).current == old(self).current,
            final(self).preempt_count == old(self).preempt_count,
            match find_task(old(self).queue@, task_id) {
                None => final(self).queue@ == old(self).queue@,
                Some(i) => final(self).queue@ == old(self).queue@.update(
                    i,
                    (task_id, boosted(old(self).queue@[i].1, amount)),
                ),
            },
    {
        match position_of(&self.queue, task_id) {
            None => {},
            Some(i) => {
                let (id, mut policy) = self.queue[i];
                let raw: i64 = policy.prio as i64 - amount as i64;
                let b: i32 = if raw < -20 {
                    -20
                } else if raw > 19 {
                    19
                } else {
                    raw as i32
                };
                policy.prio = b;
                policy.nice = b;
                let slice: i32 = 20i32 - b;
                policy.time_slice = if slice < 1 {
                    1
                } else {
                    slice as usize
                };
                self.queue.set(i, (id, policy));
            },
        }
    }

    /// Puts the running task back in the queue and clears it; false when
    /// nothing was running.
    pub fn yield_current(&mut self) -> (r: bool)
        ensures
            r == old(self).current is Some,
            final(self).current is None,
            final(self).preempt_count == old(self).preempt_count,
            match old(self).current {
                None => final(self).queue@ == old(self).queue@,
                Some(e) => queue_ids(old(self).queue@).contains(e.0) ==> final(self).queue@ == old(self).queue@,
            },
            match old(self).current {
                None => true,
                Some(e) => !queue_ids(old(self).queue@).contains(e.0) ==> final(self).queue@
                    == insert_by_vruntime(old(self).queue@, e),
            },
    {
        let cur = self.current;
        self.current = None;
        match cur {
            Some((task_id, policy)) => {
                self.enqueue(task_id, policy);
                true
            },
            None => false,
        }
    }
}

/// The policy `SchedulePolicy::new` gives.
pub open spec fn policy_default() -> SchedulePolicy {
    SchedulePolicy { policy: SCHED_NORMAL, prio: PRIO_DEFAULT, nice: 0, time_slice: 10, vruntime: 0 }
}

/// `a * b`, or `u64::MAX` on overflow.
pub open spec fn sat_mul(a: u64, b: u64) -> u64 {
    if a * b > u64::MAX {
        u64::MAX
    } else {
        (a * b) as u64
    }
}

/// `a + b`, or `u64::MAX` on overflow.
pub open spec fn sat_add(a: u64, b: u64) -> u64 {
    if a + b > u64::MAX {
        u64::MAX
    } else {
        (a + b) as u64
    }
}

/// Entries of `q` name distinct tasks.
pub open spec fn ids_distinct(q: Seq<(usize, SchedulePolicy)>) -> bool {
    forall|i: int, j: int| 0 <= i < j < q.len() ==> q[i].0 != q[j].0
}

/// Queueing a task not yet queued keeps a sorted queue of distinct tasks
/// sorted and distinct, one entry longer, with the new entry after every
/// entry whose vruntime is not above its own and before the others.
pub proof fn law_enqueue_keeps_queue_valid(q: Seq<(usize, SchedulePolicy)>, e: (usize, SchedulePolicy))
    requires
        sorted_by_vruntime(q),
        ids_distinct(q),
        !queue_ids(q).contains(e.0),
    ensures
        sorted_by_vruntime(insert_by_vruntime(q, e)),
        ids_distinct(insert_by_vruntime(q, e)),
        insert_by_vruntime(q, e).len() == q.len() + 1,
        ({
            let p = insert_pos(q, e.1.vruntime);
            &&& insert_by_vruntime(q, e)[p] == e
            &&& forall|i: int| 0 <= i < p ==> (#[trigger] q[i]).1.vruntime <= e.1.vruntime
            &&& forall|i: int| p <= i < q.len() ==> (#[trigger] q[i]).1.vruntime > e.1.vruntime
        }),
{
    lemma_insert_sorted(q, e);
    lemma_insert_pos_split(q, e.1.vruntime);
    lemma_insert_pos_bound(q, e.1.vruntime);
    let p = insert_pos(q, e.1.vruntime);
    let r = insert_by_vruntime(q, e);
    assert forall|i: int| 0 <= i < q.len() implies (#[trigger] q[i]).0 != e.0 by {
        assert(queue_ids(q)[i] == q[i].0);
    }
    assert forall|i: int, j: int| 0 <= i < j < r.len() implies r[i].0 != r[j].0 by {
        if i < p && j == p {
        } else if i == p {
            assert(r[j] == q[j - 1]);
        } else if i < p && j > p {
            assert(r[j] == q[j - 1]);
        } else if i > p {
            assert(r[i] == q[i - 1]);
            assert(r[j] == q[j - 1]);
        }
    }
    if p < q.len() {
        assert forall|i: int| p <= i < q.len() implies (#[trigger] q[i]).1.vruntime > e.1.vruntime by {
            assert(q[p].1.vruntime <= q[i].1.vruntime);
        }
    }
}

/// A queue that starts sorted stays sorted through enqueue, dequeue and
/// rebalance: the vruntime order that picking the next task relies on.
pub proof fn law_queue_order_kept(q: Seq<(usize, SchedulePolicy)>, e: (usize, SchedulePolicy))
    requires
        sorted_by_vruntime(q),
    ensures
        sorted_by_vruntime(insert_by_vruntime(q, e)),
        q.len() > 0 ==> sorted_by_vruntime(q.drop_first()),
        sorted_by_vruntime(sort_by_vruntime(q)),
{
    lemma_insert_sorted(q, e);
    lemma_sort_sorted(q);
    if q.len() > 0 {
        assert forall|i: int, j: int| 0 <= i <= j < q.drop_first().len() implies q.drop_first()[i].1.vruntime
            <= q.drop_first()[j].1.vruntime by {
            assert(q.drop_first()[i] == q[i + 1]);
            assert(q.drop_first()[j] == q[j + 1]);
        }
    }
}

} // verus!

use vstd::prelude::*;
use crate::file::swap_out;
use crate::sync::{change_spec, EventFlag, Sema};
use vstd::set_lib::{lemma_int_range, lemma_len_subset, set_int_range};

verus! {

/// SysV IPC permissions: key, owner and creator ids, mode bits, sequence
/// number and padding.
#[derive(Clone, Copy, PartialEq, Eq, Structural)]
pub struct IpcPerm {
    pub key: u32,
    pub uid: u32,
    pub gid: u32,
    pub cuid: u32,
    pub cgid: u32,
    pub mode: u32,
    pub seq: u32,
    pub pad1: usize,
    pub pad2: usize,
}

/// SysV semaphore set descriptor.
#[derive(Clone, Copy, PartialEq, Eq, Structural)]
pub struct SemDs {
    pub perm: IpcPerm,
    pub otime: usize,
    pub _p1: usize,
    pub ctime: usize,
    pub _p2: usize,
    pub nsems: usize,
}

/// A semaphore set and its descriptor.
pub struct SemArr {
    pub ds: SemDs,
    pub sems: Vec<Sema>,
}

/// Semaphore sets by key. `holders` counts, for each set, the handles on
/// it that are still held; a key whose set has no holder left is free for a
/// new set, and the dead set stays in place but is never handed out again.
pub struct SemStore {
    pub keys: Vec<(u32, usize)>,
    pub arrays: Vec<SemArr>,
    pub holders: Vec<usize>,
}

/// Keys name stored sets and every set has a holder count.
pub open spec fn sem_store_wf(s: SemStore) -> bool {
    &&& forall|j: int| 0 <= j < s.keys@.len() ==> (#[trigger] s.keys@[j]).1 < s.arrays@.len()
    &&& s.holders@.len() == s.arrays@.len()
}

/// `key` names a set that some handle still holds.
pub open spec fn sem_live(s: SemStore, key: u32) -> bool {
    &&& key != 0
    &&& key_pos(s.keys@, key) is Some
    &&& s.holders@[s.keys@[key_pos(s.keys@, key).unwrap()].1 as int] > 0
}

impl SemStore {
    /// An empty store.
    pub fn new() -> (r: Self)
        ensures
            r.keys@.len() == 0,
            r.arrays@.len() == 0,
            r.holders@.len() == 0,
            sem_store_wf(r),
    {
        SemStore { keys: Vec::new(), arrays: Vec::new(), holders: Vec::new() }
    }

    /// One more handle on the set at `pos`.
    pub fn hold(&mut self, pos: usize)
        requires
            pos < old(self).holders@.len(),
            old(self).holders@[pos as int] < usize::MAX,
        ensures
            final(self).keys@ == old(self).keys@,
            final(self).arrays@ == old(self).arrays@,
            final(self).holders@ == old(self).holders@.update(pos as int, (old(self).holders@[pos as int] + 1) as usize),
    {
        let h = self.holders[pos];
        self.holders.set(pos, h + 1);
    }

    /// A handle on the set at `pos` is dropped (none below zero).
    pub fn release(&mut self, pos: usize)
        requires
            pos < old(self).holders@.len(),
        ensures
            final(self).keys@ == old(self).keys@,
            final(self).arrays@ == old(self).arrays@,
            final(self).holders@ == old(self).holders@.update(
                pos as int,
                if old(self).holders@[pos as int] > 0 {
                    (old(self).holders@[pos as int] - 1) as usize
                } else {
                    0usize
                },
            ),
    {
        let h = self.holders[pos];
        if h > 0 {
            self.holders.set(pos, h - 1);
        } else {
            self.holders.set(pos, 0);
        }
    }
}

/// Some value from `start` to `start + s.len()` is missing from `s`: `s`
/// has too few elements to hold them all.
proof fn lemma_pigeonhole(s: Seq<usize>, start: int)
    ensures
        exists|c: int| start <= c <= start + s.len() && !#[trigger] holds(s, c),
{
    if forall|c: int| start <= c <= start + s.len() ==> #[trigger] holds(s, c) {
        lemma_pigeonhole_full(s, start);
    }
}

proof fn lemma_pigeonhole_full(s: Seq<usize>, start: int)
    requires
        forall|c: int| start <= c <= start + s.len() ==> #[trigger] holds(s, c),
    ensures
        s.len() + 1 <= s.len(),
{
    let ks = s.map_values(|k: usize| k as int);
    ks.lemma_cardinality_of_set();
    vstd::seq_lib::seq_to_set_is_finite(ks);
    lemma_int_range(start, start + s.len() + 1);
    assert forall|c: int| set_int_range(start, start + s.len() + 1).contains(c) implies ks.to_set().contains(c) by {
        assert(holds(s, c));
        let j = choose|j: int| 0 <= j < s.len() && s[j] == c;
        assert(ks[j] == c);
    }
    lemma_len_subset(set_int_range(start, start + s.len() + 1), ks.to_set());
}

/// `s` holds `d`.
pub open spec fn holds(s: Seq<usize>, d: int) -> bool {
    exists|j: int| 0 <= j < s.len() && s[j] == d
}

/// The smallest value from `start` on that `s` does not hold.
pub open spec fn first_free(s: Seq<usize>, start: int, c: int) -> bool {
    &&& start <= c
    &&& forall|j: int| 0 <= j < s.len() ==> s[j] != c
    &&& forall|d: int| start <= d < c ==> #[trigger] holds(s, d)
}

pub(crate) fn smallest_free(s: &Vec<usize>, start: usize) -> (r: usize)
    requires
        start + s@.len() < usize::MAX,
    ensures
        first_free(s@, start as int, r as int),
        r <= start + s@.len(),
{
    let mut c = start;
    loop
        invariant
            start <= c <= start + s@.len(),
            start + s@.len() < usize::MAX,
            forall|d: int| start <= d < c ==> #[trigger] holds(s@, d),
        decreases start + s@.len() - c,
    {
        let mut j: usize = 0;
        let mut found = false;
        while j < s.len()
            invariant
                j <= s@.len(),
                found ==> exists|k: int| 0 <= k < s@.len() && s@[k] == c,
                !found ==> forall|k: int| 0 <= k < j ==> s@[k] != c,
            decreases s@.len() - j,
        {
            if s[j] == c {
                found = true;
            }
            j = j + 1;
        }
        if !found {
            proof {
                assert(!holds(s@, c as int));
            }
            return c;
        }
        proof {
            assert(holds(s@, c as int));
        }
        if c == start + s.len() {
            proof {
                lemma_pigeonhole(s@, start as int);
                let f = choose|f: int| start <= f <= start + s@.len() && !#[trigger] holds(s@, f);
                if f < c {
                    assert(holds(s@, f));
                }
            }
        }
        c = c + 1;
    }
}

/// The first element of `s` whose first component is `k`, by position.
pub open spec fn key_pos<V>(s: Seq<(u32, V)>, k: u32) -> Option<int> {
    if exists|j: int| 0 <= j < s.len() && s[j].0 == k {
        Some(choose|j: int| 0 <= j < s.len() && s[j].0 == k && forall|i: int| 0 <= i < j ==> s[i].0 != k)
    } else {
        None
    }
}

fn find_key(s: &Vec<(u32, usize)>, k: u32) -> (r: Option<usize>)
    ensures
        match r {
            Some(j) => j < s@.len() && s@[j as int].0 == k && key_pos(s@, k) == Some(j as int),
            None => key_pos(s@, k) is None && forall|j: int| 0 <= j < s@.len() ==> s@[j].0 != k,
        },
{
    let mut i: usize = 0;
    while i < s.len()
        invariant
            i <= s@.len(),
            forall|j: int| 0 <= j < i ==> s@[j].0 != k,
        decreases s@.len() - i,
    {
        if s[i].0 == k {
            proof {
                let p = choose|j: int| 0 <= j < s@.len() && s@[j].0 == k && forall|x: int| 0 <= x < j ==> s@[x].0 != k;
                assert(0 <= i < s@.len() && s@[i as int].0 == k && forall|x: int| 0 <= x < i ==> s@[x].0 != k);
                if p < i {
                } else if p > i {
                }
            }
            return Some(i);
        }
        i = i + 1;
    }
    None
}

/// The descriptor of a new set: the resolved key, mode from the low nine
/// flag bits, `nsems` semaphores, everything else zero.
pub open spec fn new_sem_ds(key: u32, flags: usize, nsems: usize) -> SemDs {
    SemDs {
        perm: IpcPerm {
            key,
            uid: 0,
            gid: 0,
            cuid: 0,
            cgid: 0,
            mode: ((flags as u32) & 0x1ff) as u32,
            seq: 0,
            pad1: 0,
            pad2: 0,
        },
        otime: 0,
        _p1: 0,
        ctime: 0,
        _p2: 0,
        nsems,
    }
}

/// A semaphore as a new set holds it: value 0, no owner, not removed, no
/// events or subscribers.
pub open spec fn fresh_sema(s: Sema) -> bool {
    &&& s.permit_count == 0
    &&& s.pid == 0
    &&& !s.removed
    &&& s.bus.events == 0
    &&& s.bus.callbacks@.len() == 0
}

/// `n` fresh semaphores.
fn fresh_semas(n: usize) -> (r: Vec<Sema>)
    ensures
        r@.len() == n,
        forall|i: int| 0 <= i < n ==> fresh_sema(#[trigger] r@[i]),
{
    let mut v: Vec<Sema> = Vec::new();
    let mut i: usize = 0;
    while i < n
        invariant
            i <= n,
            v@.len() == i,
            forall|k: int| 0 <= k < i ==> fresh_sema(#[trigger] v@[k]),
        decreases n - i,
    {
        v.push(Sema::new(0));
        i = i + 1;
    }
    v
}

/// What `SemArr::get_or_create` does: store `o` becomes `f` and it
/// answers `r`.
pub open spec fn sem_get_post(o: SemStore, f: SemStore, key: u32, nsems: usize, flags: usize, r: Result<usize, &'static str>) -> bool {
    &&& sem_store_wf(f)
    &&& (nsems == 0 ==> r == Err::<usize, &'static str>("einval") && f.keys@ == o.keys@
            && f.arrays@ == o.arrays@ && f.holders@ == o.holders@)
    &&& (nsems > 0 && sem_live(o, key) ==> {
            let idx = o.keys@[key_pos(o.keys@, key).unwrap()].1;
            &&& f.keys@ == o.keys@
            &&& f.arrays@ == o.arrays@
            &&& r == if flags & 0x200 != 0 && flags & 0x400 != 0 {
                Err::<usize, &'static str>("eexist")
            } else if o.arrays@[idx as int].ds.nsems < nsems {
                Err("einval")
            } else {
                Ok(idx)
            }
            &&& f.holders@ == if r is Ok {
                o.holders@.update(idx as int, (o.holders@[idx as int] + 1) as usize)
            } else {
                o.holders@
            }
        })
    &&& (nsems > 0 && !sem_live(o, key) ==> {
            let k = if key == 0 {
                f.keys@.last().0
            } else {
                key
            };
            &&& r == Ok::<usize, &'static str>(o.arrays.len())
            &&& f.keys@ == if key != 0 && key_pos(o.keys@, key) is Some {
                o.keys@.update(key_pos(o.keys@, key).unwrap(), (key, o.arrays.len()))
            } else {
                o.keys@.push((k, o.arrays.len()))
            }
            &&& f.arrays@.len() == o.arrays@.len() + 1
            &&& forall|j: int| 0 <= j < o.arrays@.len() ==> #[trigger] f.arrays@[j] == o.arrays@[j]
            &&& f.arrays@.last().ds == new_sem_ds(k, flags, nsems)
            &&& f.arrays@.last().sems@.len() == nsems
            &&& forall|i: int| 0 <= i < nsems ==> fresh_sema(#[trigger] f.arrays@.last().sems@[i])
            &&& f.holders@ == o.holders@.push(1)
            &&& key == 0 ==> first_free(o.keys@.map_values(|e: (u32, usize)| e.0 as usize), 1, k as int)
        })
}

impl SemArr {
    /// Marks every semaphore of the set removed.
    pub fn remove(&mut self)
        ensures
            final(self).ds == old(self).ds,
            final(self).sems@.len() == old(self).sems@.len(),
            forall|i: int|
                0 <= i < old(self).sems@.len() ==> {
                    &&& (#[trigger] final(self).sems@[i]).removed
                    &&& final(self).sems@[i].permit_count == old(self).sems@[i].permit_count
                    &&& final(self).sems@[i].pid == old(self).sems@[i].pid
                    &&& (final(self).sems@[i].bus.events, final(self).sems@[i].bus.callbacks@) == change_spec(
                        old(self).sems@[i].bus,
                        0,
                        EventFlag::SEM_RM,
                    )
                },
    {
        let mut i: usize = 0;
        while i < self.sems.len()
            invariant
                i <= self.sems@.len(),
                self.ds == old(self).ds,
                self.sems@.len() == old(self).sems@.len(),
                forall|k: int|
                    0 <= k < i ==> {
                        &&& (#[trigger] self.sems@[k]).removed
                        &&& self.sems@[k].permit_count == old(self).sems@[k].permit_count
                        &&& self.sems@[k].pid == old(self).sems@[k].pid
                        &&& (self.sems@[k].bus.events, self.sems@[k].bus.callbacks@) == change_spec(
                            old(self).sems@[k].bus,
                            0,
                            EventFlag::SEM_RM,
                        )
                    },
                forall|k: int| i <= k < self.sems@.len() ==> #[trigger] self.sems@[k] == old(self).sems@[k],
            decreases self.sems@.len() - i,
        {
            let mut s = swap_out(&mut self.sems, i, Sema::new(0));
            s.remove();
            let _ = swap_out(&mut self.sems, i, s);
            i = i + 1;
        }
    }

    /// Stamps the last operation time with tick `now`.
    pub fn otime_now(&mut self, now: usize)
        ensures
            final(self).ds == (SemDs { otime: now, ..old(self).ds }),
            final(self).sems@ == old(self).sems@,
    {
        self.ds.otime = now;
    }

    /// Stamps the last change time with tick `now`.
    pub fn ctime_now(&mut self, now: usize)
        ensures
            final(self).ds == (SemDs { ctime: now, ..old(self).ds }),
            final(self).sems@ == old(self).sems@,
    {
        self.ds.ctime = now;
    }

    /// Takes owner ids and the low nine mode bits from `new_descriptor`.
    pub fn set_ds(&mut self, new_descriptor: &SemDs)
        ensures
            final(self).ds == (SemDs {
                perm: IpcPerm {
                    uid: new_descriptor.perm.uid,
                    gid: new_descriptor.perm.gid,
                    mode: new_descriptor.perm.mode & 0x1ff,
                    ..old(self).ds.perm
                },
                ..old(self).ds
            }),
            final(self).sems@ == old(self).sems@,
    {
        self.ds.perm.uid = new_descriptor.perm.uid;
        self.ds.perm.gid = new_descriptor.perm.gid;
        self.ds.perm.mode = new_descriptor.perm.mode & 0x1ff;
    }

    /// Finds or creates the set for `key`, giving its position in the
    /// store. No semaphores is `"einval"`. Key 0 takes the smallest unused
    /// key from 1. A set that some handle still holds is `"eexist"` when
    /// both `IPC_CREAT` and `IPC_EXCL` (bits 9 and 10) are in `flags`,
    /// `"einval"` when it has fewer than `nsems` semaphores, and found
    /// otherwise (one more handle on it). Otherwise a new set is created
    /// with `nsems` semaphores of value 0 and one handle, and the key names
    /// it from then on.
    #[verifier::rlimit(80)]
    pub fn get_or_create(key: u32, nsems: usize, flags: usize, store: &mut SemStore) -> (r: Result<usize, &'static str>)
        requires
            old(store).keys@.len() + 2 < u32::MAX,
            sem_store_wf(*old(store)),
            forall|j: int| 0 <= j < old(store).holders@.len() ==> #[trigger] old(store).holders@[j] < usize::MAX,
        ensures
            sem_get_post(*old(store), *final(store), key, nsems, flags, r),
    {
        if nsems == 0 {
            return Err("einval");
        }
        if key == 0 {
            let c = free_key(&store.keys);
            let idx = push_set(store, c, nsems, flags, None);
            return Ok(idx);
        }
        match find_key(&store.keys, key) {
            Some(j) => {
                let idx = store.keys[j].1;
                if store.holders[idx] > 0 {
                    if (flags & 0x200) != 0 && (flags & 0x400) != 0 {
                        return Err("eexist");
                    }
                    if store.arrays[idx].ds.nsems < nsems {
                        return Err("einval");
                    }
                    store.hold(idx);
                    return Ok(idx);
                }
                let idx = push_set(store, key, nsems, flags, Some(j));
                Ok(idx)
            },
            None => {
                let idx = push_set(store, key, nsems, flags, None);
                Ok(idx)
            },
        }
    }
}

/// The smallest key from 1 that `keys` does not use.
fn free_key(keys: &Vec<(u32, usize)>) -> (c: u32)
    requires
        keys@.len() + 2 < u32::MAX,
    ensures
        first_free(keys@.map_values(|e: (u32, usize)| e.0 as usize), 1, c as int),
{
    let mut ks: Vec<usize> = Vec::new();
    let mut i: usize = 0;
    while i < keys.len()
        invariant
            i <= keys@.len(),
            ks@ == keys@.subrange(0, i as int).map_values(|e: (u32, usize)| e.0 as usize),
        decreases keys@.len() - i,
    {
        ks.push(keys[i].0 as usize);
        i = i + 1;
        proof {
            assert(ks@ =~= keys@.subrange(0, i as int).map_values(|e: (u32, usize)| e.0 as usize));
        }
    }
    proof {
        assert(keys@.subrange(0, i as int) =~= keys@);
    }
    let c = smallest_free(&ks, 1);
    c as u32
}

/// Adds a new set under `key` with `nsems` fresh semaphores and one
/// handle; the key entry at `replace_at` is pointed at it, or a new entry
/// is added.
fn push_set(store: &mut SemStore, key: u32, nsems: usize, flags: usize, replace_at: Option<usize>) -> (idx: usize)
    requires
        sem_store_wf(*old(store)),
        replace_at matches Some(j) ==> j < old(store).keys@.len(),
    ensures
        idx == old(store).arrays@.len(),
        sem_store_wf(*final(store)),
        final(store).keys@ == match replace_at {
            Some(j) => old(store).keys@.update(j as int, (key, idx)),
            None => old(store).keys@.push((key, idx)),
        },
        final(store).arrays@.len() == old(store).arrays@.len() + 1,
        forall|j: int| 0 <= j < old(store).arrays@.len() ==> #[trigger] final(store).arrays@[j] == old(store).arrays@[j],
        final(store).arrays@.last().ds == new_sem_ds(key, flags, nsems),
        final(store).arrays@.last().sems@.len() == nsems,
        forall|i: int| 0 <= i < nsems ==> fresh_sema(#[trigger] final(store).arrays@.last().sems@[i]),
        final(store).holders@ == old(store).holders@.push(1),
{
    let ds = SemDs {
        perm: IpcPerm {
            key,
            uid: 0,
            gid: 0,
            cuid: 0,
            cgid: 0,
            mode: (flags as u32) & 0x1ff,
            seq: 0,
            pad1: 0,
            pad2: 0,
        },
        otime: 0,
        _p1: 0,
        ctime: 0,
        _p2: 0,
        nsems,
    };
    let idx = store.arrays.len();
    let sems = fresh_semas(nsems);
    store.arrays.push(SemArr { ds, sems });
    store.holders.push(1);
    match replace_at {
        Some(j) => store.keys.set(j, (key, idx)),
        None => store.keys.push((key, idx)),
    }
    idx
}

/// A task's semaphore context: its set ids (with the sets' positions in a
/// store) and its undo adjustments by set id and semaphore number.
pub struct SemCtx {
    pub arrays: Vec<(usize, usize)>,
    pub undos: Vec<((usize, u16), i16)>,
}

/// The ids used in `s`.
pub open spec fn ids_of<V>(s: Seq<(usize, V)>) -> Seq<usize> {
    s.map_values(|e: (usize, V)| e.0)
}

/// The position of the first entry for `id` (meaningful when there is one).
pub open spec fn id_pos<V>(s: Seq<(usize, V)>, id: usize) -> int {
    choose|j: int| 0 <= j < s.len() && s[j].0 == id && forall|i: int| 0 <= i < j ==> s[i].0 != id
}

/// The entry for `id`, if any (the first).
pub open spec fn lookup_id<V>(s: Seq<(usize, V)>, id: usize) -> Option<V> {
    if exists|j: int| 0 <= j < s.len() && s[j].0 == id {
        Some(s[id_pos(s, id)].1)
    } else {
        None
    }
}

pub(crate) fn find_id<V>(s: &Vec<(usize, V)>, id: usize) -> (r: Option<usize>)
    ensures
        match r {
            Some(j) => j < s@.len() && s@[j as int].0 == id && lookup_id(s@, id) == Some(s@[j as int].1) && id_pos(
                s@,
                id,
            ) == j,
            None => lookup_id(s@, id) is None && forall|j: int| 0 <= j < s@.len() ==> s@[j].0 != id,
        },
{
    let mut i: usize = 0;
    while i < s.len()
        invariant
            i <= s@.len(),
            forall|j: int| 0 <= j < i ==> s@[j].0 != id,
        decreases s@.len() - i,
    {
        if s[i].0 == id {
            proof {
                let p = choose|j: int| 0 <= j < s@.len() && s@[j].0 == id && forall|x: int| 0 <= x < j ==> s@[x].0 != id;
                assert(0 <= i < s@.len() && s@[i as int].0 == id && forall|x: int| 0 <= x < i ==> s@[x].0 != id);
                if p < i {
                } else if p > i {
                }
            }
            return Some(i);
        }
        i = i + 1;
    }
    None
}

pub(crate) fn collect_ids<V>(s: &Vec<(usize, V)>) -> (r: Vec<usize>)
    ensures
        r@ == ids_of(s@),
{
    let mut out: Vec<usize> = Vec::new();
    let mut i: usize = 0;
    while i < s.len()
        invariant
            i <= s@.len(),
            out@ == ids_of(s@.subrange(0, i as int)),
        decreases s@.len() - i,
    {
        out.push(s[i].0);
        i = i + 1;
        proof {
            assert(out@ =~= ids_of(s@.subrange(0, i as int)));
        }
    }
    proof {
        assert(s@.subrange(0, i as int) =~= s@);
    }
    out
}

impl SemCtx {
    /// No sets, no undo records.
    pub fn new() -> (r: Self)
        ensures
            r.arrays@.len() == 0,
            r.undos@.len() == 0,
    {
        SemCtx { arrays: Vec::new(), undos: Vec::new() }
    }

    /// Gives the set at store position `array` the smallest unused id and
    /// returns it.
    pub fn add(&mut self, array: usize) -> (r: usize)
        requires
            old(self).arrays@.len() + 1 < usize::MAX,
        ensures
            first_free(ids_of(old(self).arrays@), 0, r as int),
            final(self).arrays@ == old(self).arrays@.push((r, array)),
            final(self).undos@ == old(self).undos@,
    {
        let ids = collect_ids(&self.arrays);
        let id = smallest_free(&ids, 0);
        self.arrays.push((id, array));
        id
    }

    /// Drops the set `id` and its undo records; the others keep their order.
    pub fn remove(&mut self, id: usize)
        ensures
            final(self).arrays@ == old(self).arrays@.filter(|e: (usize, usize)| e.0 != id),
            final(self).undos@ == old(self).undos@.filter(|u: ((usize, u16), i16)| u.0.0 != id),
            undo_keys_sorted(old(self).undos@) ==> undo_keys_sorted(final(self).undos@),
    {
        let mut kept: Vec<(usize, usize)> = Vec::new();
        let mut i: usize = 0;
        while i < self.arrays.len()
            invariant
                i <= self.arrays@.len(),
                self.arrays@ == old(self).arrays@,
                kept@ == self.arrays@.subrange(0, i as int).filter(|e: (usize, usize)| e.0 != id),
            decreases self.arrays@.len() - i,
        {
            proof {
                assert(self.arrays@.subrange(0, i + 1).drop_last() =~= self.arrays@.subrange(0, i as int));
                reveal(Seq::filter);
            }
            if self.arrays[i].0 != id {
                kept.push(self.arrays[i]);
            }
            i = i + 1;
        }
        proof {
            assert(self.arrays@.subrange(0, i as int) =~= old(self).arrays@);
        }
        self.arrays = kept;
        let mut kept_u: Vec<((usize, u16), i16)> = Vec::new();
        let mut k: usize = 0;
        while k < self.undos.len()
            invariant
                k <= self.undos@.len(),
                self.undos@ == old(self).undos@,
                kept_u@ == self.undos@.subrange(0, k as int).filter(|u: ((usize, u16), i16)| u.0.0 != id),
                undo_keys_sorted(old(self).undos@) ==> undo_keys_sorted(kept_u@),
                undo_keys_sorted(old(self).undos@) ==> forall|a: int, j: int|
                    0 <= a < kept_u@.len() && k <= j < old(self).undos@.len() ==> key_lt(
                        #[trigger] kept_u@[a].0,
                        #[trigger] old(self).undos@[j].0,
                    ),
            decreases self.undos@.len() - k,
        {
            proof {
                assert(self.undos@.subrange(0, k + 1).drop_last() =~= self.undos@.subrange(0, k as int));
                reveal(Seq::filter);
            }
            if self.undos[k].0.0 != id {
                let ghost before = kept_u@;
                kept_u.push(self.undos[k]);
                proof {
                    if undo_keys_sorted(old(self).undos@) {
                        let u0 = old(self).undos@;
                        assert forall|a: int, b: int| 0 <= a < b < kept_u@.len() implies key_lt(
                            #[trigger] kept_u@[a].0,
                            #[trigger] kept_u@[b].0,
                        ) by {
                            if b < before.len() {
                                assert(key_lt(before[a].0, before[b].0));
                            } else {
                                assert(key_lt(before[a].0, u0[k as int].0));
                            }
                        }
                        assert forall|a: int, j: int| 0 <= a < kept_u@.len() && k + 1 <= j < u0.len() implies key_lt(
                            #[trigger] kept_u@[a].0,
                            #[trigger] u0[j].0,
                        ) by {
                            if a < before.len() {
                                assert(key_lt(before[a].0, u0[j].0));
                            } else {
                                assert(key_lt(u0[k as int].0, u0[j].0));
                            }
                        }
                    }
                }
            }
            k = k + 1;
        }
        proof {
            assert(self.undos@.subrange(0, k as int) =~= old(self).undos@);
        }
        self.undos = kept_u;
    }

    /// The context a forked task starts with: the same sets, no undo
    /// records.
    pub fn fork(&self) -> (r: SemCtx)
        ensures
            r.arrays@ == self.arrays@,
            r.undos@.len() == 0,
    {
        let mut arrays: Vec<(usize, usize)> = Vec::new();
        let mut i: usize = 0;
        while i < self.arrays.len()
            invariant
                i <= self.arrays@.len(),
                arrays@ == self.arrays@.subrange(0, i as int),
            decreases self.arrays@.len() - i,
        {
            arrays.push(self.arrays[i]);
            i = i + 1;
            proof {
                assert(arrays@ =~= self.arrays@.subrange(0, i as int));
            }
        }
        proof {
            assert(arrays@ =~= self.arrays@);
        }
        SemCtx { arrays, undos: Vec::new() }
    }

    /// The store position of set `id`.
    pub fn get(&self, id: usize) -> (r: Option<usize>)
        ensures
            r == lookup_id(self.arrays@, id),
    {
        match find_id(&self.arrays, id) {
            Some(j) => Some(self.arrays[j].1),
            None => None,
        }
    }

    /// Records an undo of `op` on semaphore `sem_num` of set `id`: the
    /// adjustment kept for it (0 when there is none) drops by `op`. Records
    /// are kept in ascending order of set id, then semaphore number; a new
    /// one goes in its place in that order.
    pub fn add_undo(&mut self, id: usize, sem_num: u16, op: i16)
        requires
            undo_keys_sorted(old(self).undos@),
            forall|j: int|
                0 <= j < old(self).undos@.len() && (#[trigger] old(self).undos@[j]).0 == (id, sem_num)
                    ==> i16::MIN <= old(self).undos@[j].1 - op <= i16::MAX,
            op > i16::MIN,
        ensures
            undo_keys_sorted(final(self).undos@),
            (exists|j: int| 0 <= j < old(self).undos@.len() && old(self).undos@[j].0 == (id, sem_num)) ==> exists|j: int|
                0 <= j < old(self).undos@.len() && old(self).undos@[j].0 == (id, sem_num) && final(self).undos@
                    == old(self).undos@.update(j, ((id, sem_num), (old(self).undos@[j].1 - op) as i16)),
            !(exists|j: int| 0 <= j < old(self).undos@.len() && old(self).undos@[j].0 == (id, sem_num))
                ==> exists|p: int|
                #![trigger old(self).undos@.insert(p, ((id, sem_num), (0 - op) as i16))]
                0 <= p <= old(self).undos@.len() && final(self).undos@ == old(self).undos@.insert(
                    p,
                    ((id, sem_num), (0 - op) as i16),
                ) && (forall|j: int| 0 <= j < p ==> key_lt(#[trigger] old(self).undos@[j].0, (id, sem_num)))
                    && (forall|j: int| p <= j < old(self).undos@.len() ==> key_lt((id, sem_num), #[trigger] old(self).undos@[j].0)),
            final(self).arrays@ == old(self).arrays@,
    {
        let ghost key = (id, sem_num);
        let mut i: usize = 0;
        while i < self.undos.len()
            invariant
                i <= self.undos@.len(),
                self.undos@ == old(self).undos@,
                self.arrays@ == old(self).arrays@,
                undo_keys_sorted(old(self).undos@),
                key == (id, sem_num),
                op > i16::MIN,
                forall|j: int|
                    0 <= j < old(self).undos@.len() && (#[trigger] old(self).undos@[j]).0 == (id, sem_num)
                        ==> i16::MIN <= old(self).undos@[j].1 - op <= i16::MAX,
                forall|j: int| 0 <= j < i ==> key_lt(#[trigger] self.undos@[j].0, key),
            decreases self.undos@.len() - i,
        {
            let k = self.undos[i].0;
            if k.0 == id && k.1 == sem_num {
                let old_adj = self.undos[i].1;
                proof {
                    assert(old(self).undos@[i as int].0 == (id, sem_num));
                }
                self.undos.set(i, ((id, sem_num), old_adj - op));
                proof {
                    assert forall|x: int, y: int| 0 <= x < y < self.undos@.len() implies key_lt(
                        #[trigger] self.undos@[x].0,
                        #[trigger] self.undos@[y].0,
                    ) by {
                        assert(key_lt(old(self).undos@[x].0, old(self).undos@[y].0));
                    }
                }
                return;
            }
            if k.0 > id || (k.0 == id && k.1 > sem_num) {
                self.undos.insert(i, ((id, sem_num), 0 - op));
                proof {
                    let u0 = old(self).undos@;
                    assert forall|j: int| i <= j < u0.len() implies key_lt(key, #[trigger] u0[j].0) by {
                        if j > i {
                            assert(key_lt(u0[i as int].0, u0[j].0));
                        }
                    }
                    assert forall|j: int| 0 <= j < u0.len() implies (#[trigger] u0[j]).0 != key by {
                        if j >= i {
                            assert(key_lt(key, u0[j].0));
                        } else {
                            assert(key_lt(u0[j].0, key));
                        }
                    }
                    assert forall|x: int, y: int| 0 <= x < y < self.undos@.len() implies key_lt(
                        #[trigger] self.undos@[x].0,
                        #[trigger] self.undos@[y].0,
                    ) by {
                        if y < i {
                            assert(key_lt(u0[x].0, u0[y].0));
                        } else if y == i {
                        } else if x < i {
                            assert(key_lt(u0[x].0, key));
                            assert(key_lt(key, u0[y - 1].0));
                            lemma_key_lt_trans(u0[x].0, key, u0[y - 1].0);
                        } else if x == i {
                        } else {
                            assert(key_lt(u0[x - 1].0, u0[y - 1].0));
                        }
                    }
                }
                return;
            }
            i = i + 1;
        }
        self.undos.push(((id, sem_num), 0 - op));
        proof {
            let u0 = old(self).undos@;
            assert(self.undos@ =~= u0.insert(u0.len() as int, ((id, sem_num), (0 - op) as i16)));
            assert forall|j: int| 0 <= j < u0.len() implies (#[trigger] u0[j]).0 != key by {
                assert(key_lt(u0[j].0, key));
            }
            assert forall|x: int, y: int| 0 <= x < y < self.undos@.len() implies key_lt(
                #[trigger] self.undos@[x].0,
                #[trigger] self.undos@[y].0,
            ) by {
                if y < u0.len() {
                    assert(key_lt(u0[x].0, u0[y].0));
                } else {
                    assert(self.undos@[x] == u0[x]);
                }
            }
        }
    }
}

/// Undo record keys in ascending order: by set id, then semaphore number.
pub open spec fn key_lt(a: (usize, u16), b: (usize, u16)) -> bool {
    a.0 < b.0 || (a.0 == b.0 && a.1 < b.1)
}

proof fn lemma_key_lt_trans(a: (usize, u16), b: (usize, u16), c: (usize, u16))
    requires
        key_lt(a, b),
        key_lt(b, c),
    ensures
        key_lt(a, c),
{
}

/// Undo records in strictly ascending key order, so no semaphore has two.
pub open spec fn undo_keys_sorted(u: Seq<((usize, u16), i16)>) -> bool {
    forall|a: int, b: int| 0 <= a < b < u.len() ==> key_lt(#[trigger] u[a].0, #[trigger] u[b].0)
}

/// The permit counts of every set of a store.
pub open spec fn store_permits(st: SemStore) -> Seq<Seq<int>> {
    st.arrays@.map_values(|a: SemArr| a.sems@.map_values(|x: Sema| x.permit_count as int))
}

/// Which semaphores of a store were removed.
pub open spec fn store_removed(st: SemStore) -> Seq<Seq<bool>> {
    st.arrays@.map_values(|a: SemArr| a.sems@.map_values(|x: Sema| x.removed))
}

/// A count after one undo adjustment `op`: a positive one gives back that
/// many permits; a negative one takes up to that many while any are left,
/// unless the semaphore was removed.
pub open spec fn undo_count(p: int, removed: bool, op: int) -> int {
    if op > 0 {
        p + op
    } else if op < 0 && !removed && p > 0 {
        if p + op > 0 {
            p + op
        } else {
            0
        }
    } else {
        p
    }
}

/// The counts after replaying the first `n` undo records, in the order they
/// are kept, against the sets that `arrays` names; records of sets the
/// context no longer has are ignored.
pub open spec fn replay_counts(
    perms: Seq<Seq<int>>,
    rem: Seq<Seq<bool>>,
    arrays: Seq<(usize, usize)>,
    undos: Seq<((usize, u16), i16)>,
    n: nat,
) -> Seq<Seq<int>>
    decreases n,
{
    if n == 0 {
        perms
    } else {
        let prev = replay_counts(perms, rem, arrays, undos, (n - 1) as nat);
        let u = undos[n - 1];
        match lookup_id(arrays, u.0.0) {
            Some(pos) => prev.update(
                pos as int,
                prev[pos as int].update(
                    u.0.1 as int,
                    undo_count(prev[pos as int][u.0.1 as int], rem[pos as int][u.0.1 as int], u.1 as int),
                ),
            ),
            None => prev,
        }
    }
}

/// The shape of `p` (how many sets, how many semaphores each) is that of `q`.
pub open spec fn same_shape<A, B>(p: Seq<Seq<A>>, q: Seq<Seq<B>>) -> bool {
    &&& p.len() == q.len()
    &&& forall|i: int| 0 <= i < p.len() ==> (#[trigger] p[i]).len() == q[i].len()
}

proof fn lemma_replay_shape(
    perms: Seq<Seq<int>>,
    rem: Seq<Seq<bool>>,
    arrays: Seq<(usize, usize)>,
    undos: Seq<((usize, u16), i16)>,
    n: nat,
)
    requires
        n <= undos.len(),
        same_shape(perms, rem),
        forall|j: int|
            0 <= j < undos.len() ==> (lookup_id(arrays, (#[trigger] undos[j]).0.0) matches Some(pos) ==> pos
                < perms.len() && undos[j].0.1 < perms[pos as int].len()),
    ensures
        same_shape(replay_counts(perms, rem, arrays, undos, n), perms),
    decreases n,
{
    if n > 0 {
        lemma_replay_shape(perms, rem, arrays, undos, (n - 1) as nat);
        let u = undos[n - 1];
        assert(lookup_id(arrays, u.0.0) matches Some(pos) ==> pos < perms.len() && u.0.1 < perms[pos as int].len());
    }
}

/// Undo adjustment `op` applied to semaphore `sn` of the set at store
/// position `pos`.
fn apply_undo(store: &mut SemStore, pos: usize, sn: usize, op: i16)
    requires
        pos < old(store).arrays@.len(),
        sn < old(store).arrays@[pos as int].sems@.len(),
        store_permits(*old(store))[pos as int][sn as int] + op <= isize::MAX,
    ensures
        final(store).keys@ == old(store).keys@,
        store_removed(*final(store)) == store_removed(*old(store)),
        store_permits(*final(store)) == store_permits(*old(store)).update(
            pos as int,
            store_permits(*old(store))[pos as int].update(
                sn as int,
                undo_count(
                    store_permits(*old(store))[pos as int][sn as int],
                    store_removed(*old(store))[pos as int][sn as int],
                    op as int,
                ),
            ),
        ),
        forall|i: int| 0 <= i < old(store).arrays@.len() ==> (#[trigger] final(store).arrays@[i]).ds == old(store).arrays@[i].ds,
{
    let ghost st0 = *store;
    let mut arr = store.arrays.remove(pos);
    let ghost arrs1 = store.arrays@;
    let ghost sems0 = arr.sems@;
    let mut sema = arr.sems.remove(sn);
    let ghost s0 = sema;
    if op > 0 {
        let mut i: i16 = 0;
        while i < op
            invariant
                0 <= i <= op,
                sema.permit_count == s0.permit_count + i,
                sema.removed == s0.removed,
                s0.permit_count + op <= isize::MAX,
            decreases op - i,
        {
            sema.release();
            i = i + 1;
        }
    } else if op < 0 {
        let k: isize = 0 - (op as isize);
        let mut i: isize = 0;
        while i < k
            invariant
                0 <= i <= k,
                k == 0 - op,
                sema.removed == s0.removed,
                sema.permit_count == if s0.removed || s0.permit_count <= 0 {
                    s0.permit_count as int
                } else if s0.permit_count - i > 0 {
                    s0.permit_count - i
                } else {
                    0
                },
            decreases k - i,
        {
            let _ = sema.try_acquire();
            i = i + 1;
        }
    }
    proof {
        assert(sema.permit_count == undo_count(s0.permit_count as int, s0.removed, op as int));
    }
    arr.sems.insert(sn, sema);
    store.arrays.insert(pos, arr);
    proof {
        assert(arr.sems@ =~= sems0.update(sn as int, sema));
        assert(store.arrays@ =~= st0.arrays@.update(pos as int, arr));
        assert(sems0 == st0.arrays@[pos as int].sems@);
        assert(s0 == sems0[sn as int]);
        let pf = store_permits(*store);
        let p0 = store_permits(st0);
        assert(pf[pos as int] =~= p0[pos as int].update(sn as int, sema.permit_count as int));
        assert(pf =~= p0.update(pos as int, p0[pos as int].update(sn as int, sema.permit_count as int)));
        assert(store_removed(*store)[pos as int] =~= store_removed(st0)[pos as int]);
        assert(store_removed(*store) =~= store_removed(st0));
    }
}

/// Holder counts after one handle on each set of `arrays` (the first `n`)
/// is given back, none below zero.
pub open spec fn released(h: Seq<usize>, arrays: Seq<(usize, usize)>, n: nat) -> Seq<usize>
    decreases n,
{
    if n == 0 {
        h
    } else {
        let prev = released(h, arrays, (n - 1) as nat);
        let pos = arrays[n - 1].1 as int;
        if 0 <= pos < prev.len() {
            prev.update(pos, if prev[pos] > 0 {
                (prev[pos] - 1) as usize
            } else {
                0usize
            })
        } else {
            prev
        }
    }
}

impl SemCtx {
    /// The second half of what the context does when it goes away (after
    /// `replay_undos`): it gives back its handle on each set it holds, so a
    /// set no one else holds lets its key go.
    pub fn release_sets(&self, store: &mut SemStore)
        ensures
            final(store).keys@ == old(store).keys@,
            final(store).arrays@ == old(store).arrays@,
            final(store).holders@ == released(old(store).holders@, self.arrays@, self.arrays@.len()),
    {
        let mut i: usize = 0;
        while i < self.arrays.len()
            invariant
                i <= self.arrays@.len(),
                store.keys@ == old(store).keys@,
                store.arrays@ == old(store).arrays@,
                store.holders@ == released(old(store).holders@, self.arrays@, i as nat),
                released(old(store).holders@, self.arrays@, i as nat).len() == old(store).holders@.len(),
            decreases self.arrays@.len() - i,
        {
            let pos = self.arrays[i].1;
            if pos < store.holders.len() {
                store.release(pos);
            }
            i = i + 1;
        }
    }

    /// What the context does when it goes away: each undo record, in the
    /// order kept (ascending by set id, then semaphore number, as
    /// `add_undo` keeps them), adjusts its semaphore in the set that the context still
    /// names (see `undo_count`); records of sets no longer held are
    /// ignored. Each named semaphore must exist, and no count may pass
    /// `isize::MAX` on the way. `release_sets` then gives back its handles.
    pub fn replay_undos(&self, store: &mut SemStore)
        requires
            forall|j: int|
                0 <= j < self.undos@.len() ==> (lookup_id(self.arrays@, (#[trigger] self.undos@[j]).0.0) matches Some(pos)
                    ==> pos < old(store).arrays@.len() && self.undos@[j].0.1 < old(store).arrays@[pos as int].sems@.len()),
            forall|n: int, a: int, b: int|
                0 <= n <= self.undos@.len() && 0 <= a < old(store).arrays@.len() && 0 <= b < old(store).arrays@[a].sems@.len()
                    ==> #[trigger] replay_counts(
                    store_permits(*old(store)),
                    store_removed(*old(store)),
                    self.arrays@,
                    self.undos@,
                    n as nat,
                )[a][b] <= isize::MAX,
        ensures
            final(store).keys@ == old(store).keys@,
            store_removed(*final(store)) == store_removed(*old(store)),
            store_permits(*final(store)) == replay_counts(
                store_permits(*old(store)),
                store_removed(*old(store)),
                self.arrays@,
                self.undos@,
                self.undos@.len(),
            ),
    {
        let ghost p0 = store_permits(*store);
        let ghost r0 = store_removed(*store);
        proof {
            assert(same_shape(p0, r0));
        }
        let mut j: usize = 0;
        while j < self.undos.len()
            invariant
                j <= self.undos@.len(),
                store.keys@ == old(store).keys@,
                store_removed(*store) == r0,
                p0 == store_permits(*old(store)),
                r0 == store_removed(*old(store)),
                same_shape(p0, r0),
                store.arrays@.len() == old(store).arrays@.len(),
                store_permits(*store) == replay_counts(p0, r0, self.arrays@, self.undos@, j as nat),
                forall|i: int|
                    0 <= i < self.undos@.len() ==> (lookup_id(self.arrays@, (#[trigger] self.undos@[i]).0.0) matches Some(pos)
                        ==> pos < old(store).arrays@.len() && self.undos@[i].0.1 < old(store).arrays@[pos as int].sems@.len()),
                forall|n: int, a: int, b: int|
                    0 <= n <= self.undos@.len() && 0 <= a < old(store).arrays@.len() && 0 <= b
                        < old(store).arrays@[a].sems@.len() ==> #[trigger] replay_counts(
                        p0,
                        r0,
                        self.arrays@,
                        self.undos@,
                        n as nat,
                    )[a][b] <= isize::MAX,
            decreases self.undos@.len() - j,
        {
            let u = self.undos[j];
            proof {
                lemma_replay_shape(p0, r0, self.arrays@, self.undos@, j as nat);
                assert(lookup_id(self.arrays@, self.undos@[j as int].0.0) matches Some(pos) ==> pos
                    < old(store).arrays@.len() && self.undos@[j as int].0.1 < old(store).arrays@[pos as int].sems@.len());
            }
            match self.get(u.0.0) {
                Some(pos) => {
                    let sn = u.0.1 as usize;
                    proof {
                        let prev = replay_counts(p0, r0, self.arrays@, self.undos@, j as nat);
                        assert(p0[pos as int].len() == old(store).arrays@[pos as int].sems@.len());
                        assert(store_permits(*store)[pos as int].len() == store.arrays@[pos as int].sems@.len());
                        let nxt = replay_counts(p0, r0, self.arrays@, self.undos@, (j + 1) as nat);
                        assert(nxt[pos as int][sn as int] <= isize::MAX);
                        assert(nxt[pos as int][sn as int] == undo_count(prev[pos as int][sn as int], r0[pos as int][sn as int], u.1 as int));
                        if u.1 > 0 {
                            assert(prev[pos as int][sn as int] + u.1 <= isize::MAX);
                        }
                    }
                    apply_undo(store, pos, sn, u.1);
                },
                None => {},
            }
            j = j + 1;
        }
    }
}



/// One shared-memory attachment: where it is mapped and its segment (by
/// position in a `ShmStore`).
#[derive(Clone, Copy, PartialEq, Eq, Structural)]
pub struct ShmTag {
    pub addr: usize,
    pub pages: usize,
}

impl ShmTag {
    pub fn set_addr(&mut self, addr: usize)
        ensures
            final(self).addr == addr,
            final(self).pages == old(self).pages,
    {
        self.addr = addr;
    }
}

/// Shared-memory segments (their page frames) and the keys naming them.
/// `holders` counts, for each segment, the handles on it still held; a key
/// whose segment has no holder left is free for a new segment.
pub struct ShmStore {
    pub keys: Vec<(usize, usize)>,
    pub segments: Vec<Vec<usize>>,
    pub holders: Vec<usize>,
}

/// Keys name stored segments and every segment has a holder count.
pub open spec fn shm_store_wf(s: ShmStore) -> bool {
    &&& forall|j: int| 0 <= j < s.keys@.len() ==> (#[trigger] s.keys@[j]).1 < s.segments@.len()
    &&& s.holders@.len() == s.segments@.len()
}

/// `key` names a segment that some handle still holds.
pub open spec fn shm_live(s: ShmStore, key: usize) -> bool {
    &&& key != 0
    &&& lookup_id(s.keys@, key) is Some
    &&& s.holders@[lookup_id(s.keys@, key).unwrap() as int] > 0
}

impl ShmStore {
    /// An empty store.
    pub fn new() -> (r: Self)
        ensures
            r.keys@.len() == 0,
            r.segments@.len() == 0,
            r.holders@.len() == 0,
            shm_store_wf(r),
    {
        ShmStore { keys: Vec::new(), segments: Vec::new(), holders: Vec::new() }
    }

    /// One more handle on the segment at `pos`.
    pub fn hold(&mut self, pos: usize)
        requires
            pos < old(self).holders@.len(),
            old(self).holders@[pos as int] < usize::MAX,
        ensures
            final(self).keys@ == old(self).keys@,
            final(self).segments@ == old(self).segments@,
            final(self).holders@ == old(self).holders@.update(pos as int, (old(self).holders@[pos as int] + 1) as usize),
    {
        let h = self.holders[pos];
        self.holders.set(pos, h + 1);
    }

    /// A handle on the segment at `pos` is dropped (none below zero).
    pub fn release(&mut self, pos: usize)
        requires
            pos < old(self).holders@.len(),
        ensures
            final(self).keys@ == old(self).keys@,
            final(self).segments@ == old(self).segments@,
            final(self).holders@ == old(self).holders@.update(
                pos as int,
                if old(self).holders@[pos as int] > 0 {
                    (old(self).holders@[pos as int] - 1) as usize
                } else {
                    0usize
                },
            ),
    {
        let h = self.holders[pos];
        if h > 0 {
            self.holders.set(pos, h - 1);
        } else {
            self.holders.set(pos, 0);
        }
    }
}

/// What `shm_get_or_create` does: store `o` becomes `f` and it answers
/// `r`.
pub open spec fn shm_get_post(o: ShmStore, f: ShmStore, key: usize, npages: usize, r: usize) -> bool {
    &&& shm_store_wf(f)
    &&& (shm_live(o, key) ==> {
            let idx = lookup_id(o.keys@, key).unwrap();
            let seg = o.segments@[idx as int]@;
            &&& r == idx
            &&& f.keys@ == o.keys@
            &&& f.segments@.len() == o.segments@.len()
            &&& f.segments@[r as int]@ == if seg.len() < npages {
                seg + Seq::new((npages - seg.len()) as nat, |i: int| 0usize)
            } else {
                seg
            }
            &&& forall|j: int| 0 <= j < o.segments@.len() && j != r ==> #[trigger] f.segments@[j] == o.segments@[j]
            &&& f.holders@ == o.holders@.update(idx as int, (o.holders@[idx as int] + 1) as usize)
        })
    &&& (!shm_live(o, key) ==> {
            &&& r == o.segments.len()
            &&& f.segments@.len() == o.segments@.len() + 1
            &&& f.segments@[r as int]@ == Seq::new(npages as nat, |i: int| 0usize)
            &&& forall|j: int| 0 <= j < o.segments@.len() ==> #[trigger] f.segments@[j] == o.segments@[j]
            &&& f.holders@ == o.holders@.push(1)
            &&& f.keys@ == if key == 0 {
                o.keys@
            } else if lookup_id(o.keys@, key) is Some {
                o.keys@.update(id_pos(o.keys@, key), (key, r))
            } else {
                o.keys@.push((key, r))
            }
        })
}

/// Finds or creates the segment for `key`, giving its position in the
/// store. Key 0 always makes a new private segment; a named segment that
/// some handle still holds is found (one more handle on it) and extended
/// with zero frames when shorter than `npages`; otherwise a new segment is
/// made and registered under its key. New segments hold `npages` zero
/// frames and one handle.
#[verifier::rlimit(40)]
pub fn shm_get_or_create(key: usize, npages: usize, store: &mut ShmStore) -> (r: usize)
    requires
        shm_store_wf(*old(store)),
        forall|j: int| 0 <= j < old(store).holders@.len() ==> #[trigger] old(store).holders@[j] < usize::MAX,
    ensures
        shm_get_post(*old(store), *final(store), key, npages, r),
{
    if key == 0 {
        let idx = push_segment(&mut store.segments, npages);
        store.holders.push(1);
        return idx;
    }
    match find_id(&store.keys, key) {
        Some(j) => {
            let idx = store.keys[j].1;
            if store.holders[idx] > 0 {
                grow_segment(&mut store.segments, idx, npages);
                store.hold(idx);
                idx
            } else {
                let idx = push_segment(&mut store.segments, npages);
                store.holders.push(1);
                store.keys.set(j, (key, idx));
                idx
            }
        },
        None => {
            let idx = push_segment(&mut store.segments, npages);
            store.holders.push(1);
            store.keys.push((key, idx));
            idx
        },
    }
}

/// Appends a zero-filled segment of `npages` pages; returns its index.
fn push_segment(segs: &mut Vec<Vec<usize>>, npages: usize) -> (idx: usize)
    ensures
        idx == old(segs)@.len(),
        final(segs)@ == old(segs)@.push(final(segs)@[idx as int]),
        final(segs)@[idx as int]@ == Seq::new(npages as nat, |i: int| 0usize),
{
    let idx = segs.len();
    segs.push(vec![0usize; npages]);
    proof {
        assert(segs@[idx as int]@ =~= Seq::new(npages as nat, |i: int| 0usize));
        assert(segs@ =~= old(segs)@.push(segs@[idx as int]));
    }
    idx
}

/// Extends segment `idx` with zero pages up to `npages` pages.
fn grow_segment(segs: &mut Vec<Vec<usize>>, idx: usize, npages: usize)
    requires
        idx < old(segs)@.len(),
    ensures
        final(segs)@.len() == old(segs)@.len(),
        final(segs)@[idx as int]@ == if old(segs)@[idx as int]@.len() < npages {
            old(segs)@[idx as int]@ + Seq::new((npages - old(segs)@[idx as int]@.len()) as nat, |i: int| 0usize)
        } else {
            old(segs)@[idx as int]@
        },
        forall|j: int| 0 <= j < old(segs)@.len() && j != idx ==> #[trigger] final(segs)@[j] == old(segs)@[j],
{
    if segs[idx].len() < npages {
        let mut seg = swap_out(segs, idx, Vec::new());
        let ghost s0 = seg@;
        seg.resize(npages, 0);
        proof {
            assert(seg@ =~= s0 + Seq::new((npages - s0.len()) as nat, |i: int| 0usize));
        }
        let _ = swap_out(segs, idx, seg);
    }
}

/// A task's shared-memory attachments by id, in ascending id order.
pub struct ShmCtx {
    pub ids: Vec<(usize, ShmTag)>,
}

/// Ids strictly ascending.
pub open spec fn ids_sorted(s: Seq<(usize, ShmTag)>) -> bool {
    forall|a: int, b: int| 0 <= a < b < s.len() ==> s[a].0 < s[b].0
}

/// Where an entry with id `id` goes in an ascending list: after the
/// smaller ids.
pub open spec fn id_slot(s: Seq<(usize, ShmTag)>, id: usize) -> int
    decreases s.len(),
{
    if s.len() == 0 || s[0].0 > id {
        0
    } else {
        1 + id_slot(s.drop_first(), id)
    }
}

proof fn lemma_id_slot(s: Seq<(usize, ShmTag)>, id: usize)
    requires
        ids_sorted(s),
    ensures
        0 <= id_slot(s, id) <= s.len(),
        forall|k: int| 0 <= k < id_slot(s, id) ==> s[k].0 <= id,
        forall|k: int| id_slot(s, id) <= k < s.len() ==> s[k].0 > id,
    decreases s.len(),
{
    if s.len() > 0 && s[0].0 <= id {
        let d = s.drop_first();
        assert forall|a: int, b: int| 0 <= a < b < d.len() implies d[a].0 < d[b].0 by {
            assert(d[a] == s[a + 1]);
            assert(d[b] == s[b + 1]);
        }
        lemma_id_slot(d, id);
        assert forall|k: int| 0 <= k < id_slot(s, id) implies s[k].0 <= id by {
            if k > 0 {
                assert(s[k] == d[k - 1]);
            }
        }
        assert forall|k: int| id_slot(s, id) <= k < s.len() implies s[k].0 > id by {
            assert(s[k] == d[k - 1]);
        }
    } else if s.len() > 0 {
        assert forall|k: int| 0 <= k < s.len() implies s[k].0 > id by {
            if k > 0 {
                assert(s[0].0 < s[k].0);
            }
        }
    }
}

impl ShmCtx {
    /// No attachments.
    pub fn new() -> (r: Self)
        ensures
            r.ids@.len() == 0,
    {
        ShmCtx { ids: Vec::new() }
    }

    /// A copy with the same attachments.
    pub fn duplicate(&self) -> (r: ShmCtx)
        ensures
            r.ids@ == self.ids@,
    {
        let mut ids: Vec<(usize, ShmTag)> = Vec::new();
        let mut i: usize = 0;
        while i < self.ids.len()
            invariant
                i <= self.ids@.len(),
                ids@ == self.ids@.subrange(0, i as int),
            decreases self.ids@.len() - i,
        {
            ids.push(self.ids[i]);
            i = i + 1;
            proof {
                assert(ids@ =~= self.ids@.subrange(0, i as int));
            }
        }
        proof {
            assert(ids@ =~= self.ids@);
        }
        ShmCtx { ids }
    }

    fn slot_for(&self, id: usize) -> (r: usize)
        requires
            ids_sorted(self.ids@),
        ensures
            r == id_slot(self.ids@, id),
    {
        proof {
            lemma_id_slot(self.ids@, id);
        }
        let mut i: usize = 0;
        while i < self.ids.len() && self.ids[i].0 <= id
            invariant
                i <= self.ids@.len(),
                ids_sorted(self.ids@),
                0 <= id_slot(self.ids@, id) <= self.ids@.len(),
                forall|k: int| 0 <= k < id_slot(self.ids@, id) ==> self.ids@[k].0 <= id,
                forall|k: int| id_slot(self.ids@, id) <= k < self.ids@.len() ==> self.ids@[k].0 > id,
                i <= id_slot(self.ids@, id),
            decreases self.ids@.len() - i,
        {
            i = i + 1;
        }
        i
    }

    /// Attaches segment `pages` at address 0 under the smallest unused id,
    /// and returns that id.
    pub fn add(&mut self, pages: usize) -> (r: usize)
        requires
            ids_sorted(old(self).ids@),
            old(self).ids@.len() + 1 < usize::MAX,
        ensures
            ids_sorted(final(self).ids@),
            first_free(ids_of(old(self).ids@), 0, r as int),
            final(self).ids@ == old(self).ids@.insert(id_slot(old(self).ids@, r), (r, ShmTag { addr: 0, pages })),
    {
        let keys = collect_ids(&self.ids);
        let id = smallest_free(&keys, 0);
        let p = self.slot_for(id);
        proof {
            lemma_id_slot(self.ids@, id);
            assert forall|k: int| 0 <= k < self.ids@.len() implies self.ids@[k].0 != id by {
                assert(ids_of(self.ids@)[k] == self.ids@[k].0);
            }
        }
        self.ids.insert(p, (id, ShmTag { addr: 0, pages }));
        proof {
            let n = self.ids@;
            assert forall|a: int, b: int| 0 <= a < b < n.len() implies n[a].0 < n[b].0 by {
                if b < p {
                } else if a < p && b == p {
                } else if a < p && b > p {
                    assert(n[b] == old(self).ids@[b - 1]);
                } else if a == p {
                    assert(n[b] == old(self).ids@[b - 1]);
                } else {
                    assert(n[a] == old(self).ids@[a - 1]);
                    assert(n[b] == old(self).ids@[b - 1]);
                }
            }
        }
        id
    }

    /// The attachment `id`.
    pub fn get(&self, id: usize) -> (r: Option<ShmTag>)
        ensures
            r == lookup_id(self.ids@, id),
    {
        match find_id(&self.ids, id) {
            Some(j) => Some(self.ids[j].1),
            None => None,
        }
    }

    /// Sets attachment `id` to `tag`, adding it in id order when absent.
    pub fn set(&mut self, id: usize, tag: ShmTag)
        requires
            ids_sorted(old(self).ids@),
        ensures
            ids_sorted(final(self).ids@),
            lookup_id(old(self).ids@, id) is Some ==> exists|j: int|
                0 <= j < old(self).ids@.len() && old(self).ids@[j].0 == id && final(self).ids@ == old(self).ids@.update(j, (id, tag)),
            lookup_id(old(self).ids@, id) is None ==> final(self).ids@ == old(self).ids@.insert(id_slot(old(self).ids@, id), (id, tag)),
    {
        match find_id(&self.ids, id) {
            Some(j) => {
                self.ids.set(j, (id, tag));
                proof {
                    let n = self.ids@;
                    assert forall|a: int, b: int| 0 <= a < b < n.len() implies n[a].0 < n[b].0 by {
                        assert(old(self).ids@[a].0 < old(self).ids@[b].0);
                    }
                }
            },
            None => {
                let p = self.slot_for(id);
                proof {
                    lemma_id_slot(self.ids@, id);
                }
                self.ids.insert(p, (id, tag));
                proof {
                    let n = self.ids@;
                    assert forall|a: int, b: int| 0 <= a < b < n.len() implies n[a].0 < n[b].0 by {
                        if b < p {
                        } else if a < p && b == p {
                            assert(old(self).ids@[a].0 != id);
                        } else if a < p && b > p {
                            assert(n[b] == old(self).ids@[b - 1]);
                        } else if a == p {
                            assert(n[b] == old(self).ids@[b - 1]);
                        } else {
                            assert(n[a] == old(self).ids@[a - 1]);
                            assert(n[b] == old(self).ids@[b - 1]);
                        }
                    }
                }
            },
        }
    }

    /// The smallest id attached at `addr`.
    pub fn get_id_by_addr(&self, addr: usize) -> (r: Option<usize>)
        ensures
            match r {
                Some(id) => exists|j: int|
                    0 <= j < self.ids@.len() && self.ids@[j].0 == id && self.ids@[j].1.addr == addr && forall|k: int|
                        0 <= k < j ==> self.ids@[k].1.addr != addr,
                None => forall|k: int| 0 <= k < self.ids@.len() ==> self.ids@[k].1.addr != addr,
            },
    {
        let mut i: usize = 0;
        while i < self.ids.len()
            invariant
                i <= self.ids@.len(),
                forall|k: int| 0 <= k < i ==> self.ids@[k].1.addr != addr,
            decreases self.ids@.len() - i,
        {
            if self.ids[i].1.addr == addr {
                return Some(self.ids[i].0);
            }
            i = i + 1;
        }
        None
    }

    /// Detaches `id`.
    pub fn pop(&mut self, id: usize)
        requires
            ids_sorted(old(self).ids@),
        ensures
            ids_sorted(final(self).ids@),
            lookup_id(old(self).ids@, id) is None ==> final(self).ids@ == old(self).ids@,
            lookup_id(old(self).ids@, id) is Some ==> exists|j: int|
                0 <= j < old(self).ids@.len() && old(self).ids@[j].0 == id && final(self).ids@ == old(self).ids@.remove(j),
    {
        match find_id(&self.ids, id) {
            Some(j) => {
                self.ids.remove(j);
                proof {
                    let n = self.ids@;
                    assert forall|a: int, b: int| 0 <= a < b < n.len() implies n[a].0 < n[b].0 by {
                        let a2 = if a < j { a } else { a + 1 };
                        let b2 = if b < j { b } else { b + 1 };
                        assert(old(self).ids@[a2].0 < old(self).ids@[b2].0);
                    }
                }
            },
            None => {},
        }
    }
}

} // verus!

use vstd::prelude::*;
use crate::cache::{lemma_without, without};
use crate::file::{swap_out, Vfs};

verus! {

/// User data carried by an epoll event.
#[derive(Clone, Copy, PartialEq, Eq, Structural)]
pub struct EpData {
    pub ptr: u64,
}

/// An epoll interest mask and the caller's data.
#[derive(Clone, Copy, PartialEq, Eq, Structural)]
pub struct EpEvent {
    pub events: u32,
    pub data: EpData,
}

impl EpEvent {
    pub const IN: u32 = 0x001;
    pub const OUT: u32 = 0x004;
    pub const ERR: u32 = 0x008;
    pub const HUP: u32 = 0x010;
    pub const PRI: u32 = 0x002;
    pub const RDNORM: u32 = 0x040;
    pub const RDBAND: u32 = 0x080;
    pub const WRNORM: u32 = 0x100;
    pub const WRBAND: u32 = 0x200;
    pub const MSG: u32 = 0x400;
    pub const RDHUP: u32 = 0x2000;
    pub const EXCL: u32 = 0x1000_0000;
    pub const WAKEUP: u32 = 0x2000_0000;
    pub const ONESHOT: u32 = 0x4000_0000;
    pub const ET: u32 = 0x8000_0000;

    /// Whether any bit of `event_mask` is in the interest mask.
    pub fn has(&self, event_mask: u32) -> (r: bool)
        ensures
            r == (self.events & event_mask != 0),
    {
        (self.events & event_mask) != 0
    }
}

/// Operations of `EpInst::control`.
pub struct EpCtlOp;

impl EpCtlOp {
    pub const ADD: i32 = 1;
    pub const DEL: i32 = 2;
    pub const MOD: i32 = 3;
}

/// Registrations with distinct descriptors.
pub open spec fn keys_unique(s: Seq<(usize, EpEvent)>) -> bool {
    forall|i: int, j: int| 0 <= i < j < s.len() ==> s[i].0 != s[j].0
}

/// The registration of `fd` in `s`, if any.
pub open spec fn ep_lookup(s: Seq<(usize, EpEvent)>, fd: usize) -> Option<EpEvent> {
    if exists|j: int| 0 <= j < s.len() && s[j].0 == fd {
        Some(s[choose|j: int| 0 <= j < s.len() && s[j].0 == fd].1)
    } else {
        None
    }
}

/// The registrations as a map from descriptor to event.
pub open spec fn ep_map(s: Seq<(usize, EpEvent)>) -> Map<usize, EpEvent> {
    Map::new(|fd: usize| ep_lookup(s, fd) is Some, |fd: usize| ep_lookup(s, fd).unwrap())
}

/// The elements of a set kept as a sequence.
pub open spec fn set_of(s: Seq<usize>) -> Set<usize> {
    Set::new(|x: usize| s.contains(x))
}

proof fn lemma_lookup_at(s: Seq<(usize, EpEvent)>, j: int)
    requires
        keys_unique(s),
        0 <= j < s.len(),
    ensures
        ep_lookup(s, s[j].0) == Some(s[j].1),
{
    let k = choose|k: int| 0 <= k < s.len() && s[k].0 == s[j].0;
    assert(k == j);
}

proof fn lemma_lookup_none(s: Seq<(usize, EpEvent)>, fd: usize)
    requires
        forall|j: int| 0 <= j < s.len() ==> #[trigger] s[j].0 != fd,
    ensures
        ep_lookup(s, fd) is None,
{
}

/// Shared epoll registration table, by position in a `Vfs`.
pub struct EpEventMap {
    pub inner: usize,
}

fn find_fd(s: &Vec<(usize, EpEvent)>, fd: usize) -> (r: Option<usize>)
    ensures
        match r {
            Some(j) => j < s@.len() && s@[j as int].0 == fd,
            None => forall|j: int| 0 <= j < s@.len() ==> #[trigger] s@[j].0 != fd,
        },
{
    let mut i: usize = 0;
    while i < s.len()
        invariant
            i <= s@.len(),
            forall|j: int| 0 <= j < i ==> #[trigger] s@[j].0 != fd,
        decreases s@.len() - i,
    {
        if s[i].0 == fd {
            return Some(i);
        }
        i = i + 1;
    }
    None
}

impl EpEventMap {
    pub open spec fn valid(&self, v: &Vfs) -> bool {
        self.inner < v.ep_maps@.len() && keys_unique(v.ep_maps@[self.inner as int]@)
    }

    /// The registrations.
    pub open spec fn map(&self, v: &Vfs) -> Map<usize, EpEvent> {
        ep_map(v.ep_maps@[self.inner as int]@)
    }

    /// A new, empty registration table.
    pub fn new(v: &mut Vfs) -> (r: Self)
        ensures
            r.inner == old(v).ep_maps@.len(),
            final(v).ep_maps@.len() == old(v).ep_maps@.len() + 1,
            forall|i: int| 0 <= i < old(v).ep_maps@.len() ==> #[trigger] final(v).ep_maps@[i] == old(v).ep_maps@[i],
            r.valid(final(v)),
            r.map(final(v)) == Map::<usize, EpEvent>::empty(),
            final(v).files@ == old(v).files@,
            final(v).descs@ == old(v).descs@,
            final(v).pipes@ == old(v).pipes@,
            final(v).ep_sets@ == old(v).ep_sets@,
    {
        let idx = v.ep_maps.len();
        v.ep_maps.push(Vec::new());
        let r = EpEventMap { inner: idx };
        proof {
            assert(r.map(v) =~= Map::<usize, EpEvent>::empty());
        }
        r
    }

    /// Registers `event` for `fd`, returning the registration it replaces.
    pub fn insert(&self, v: &mut Vfs, fd: usize, event: EpEvent) -> (r: Option<EpEvent>)
        requires
            self.valid(old(v)),
        ensures
            self.valid(final(v)),
            r == ep_lookup(old(v).ep_maps@[self.inner as int]@, fd),
            self.map(final(v)) == self.map(old(v)).insert(fd, event),
            final(v).ep_maps@.len() == old(v).ep_maps@.len(),
            forall|i: int| 0 <= i < old(v).ep_maps@.len() && i != self.inner ==> #[trigger] final(v).ep_maps@[i] == old(v).ep_maps@[i],
            final(v).files@ == old(v).files@,
            final(v).descs@ == old(v).descs@,
            final(v).pipes@ == old(v).pipes@,
            final(v).ep_sets@ == old(v).ep_sets@,
    {
        let mut m = swap_out(&mut v.ep_maps, self.inner, Vec::new());
        let ghost s0 = m@;
        let r = match find_fd(&m, fd) {
            Some(j) => {
                let old_ev = m[j].1;
                m.set(j, (fd, event));
                proof {
                    lemma_lookup_at(s0, j as int);
                    assert forall|a: int, b: int| 0 <= a < b < m@.len() implies m@[a].0 != m@[b].0 by {
                        assert(s0[a].0 != s0[b].0);
                    }
                    assert forall|k: usize| ep_lookup(m@, k) == (if k == fd { Some(event) } else { ep_lookup(s0, k) }) by {
                        if k == fd {
                            lemma_lookup_at(m@, j as int);
                        } else if exists|x: int| 0 <= x < s0.len() && s0[x].0 == k {
                            let x = choose|x: int| 0 <= x < s0.len() && s0[x].0 == k;
                            lemma_lookup_at(s0, x);
                            lemma_lookup_at(m@, x);
                        } else {
                            assert forall|x: int| 0 <= x < m@.len() implies #[trigger] m@[x].0 != k by {
                                if x != j {
                                    assert(m@[x] == s0[x]);
                                }
                            }
                        }
                    }
                }
                Some(old_ev)
            },
            None => {
                m.push((fd, event));
                proof {
                    lemma_lookup_none(s0, fd);
                    assert forall|a: int, b: int| 0 <= a < b < m@.len() implies m@[a].0 != m@[b].0 by {
                        if b < s0.len() {
                            assert(s0[a].0 != s0[b].0);
                        } else {
                            assert(m@[a] == s0[a]);
                        }
                    }
                    assert forall|k: usize| ep_lookup(m@, k) == (if k == fd { Some(event) } else { ep_lookup(s0, k) }) by {
                        if k == fd {
                            lemma_lookup_at(m@, s0.len() as int);
                        } else if exists|x: int| 0 <= x < s0.len() && s0[x].0 == k {
                            let x = choose|x: int| 0 <= x < s0.len() && s0[x].0 == k;
                            lemma_lookup_at(s0, x);
                            lemma_lookup_at(m@, x);
                        } else {
                            assert forall|x: int| 0 <= x < m@.len() implies #[trigger] m@[x].0 != k by {
                                if x < s0.len() {
                                    assert(m@[x] == s0[x]);
                                }
                            }
                        }
                    }
                }
                None
            },
        };
        proof {
            assert(ep_map(m@) =~= ep_map(s0).insert(fd, event));
        }
        let _ = swap_out(&mut v.ep_maps, self.inner, m);
        r
    }

    /// Whether `fd` is registered.
    pub fn contains_key(&self, v: &Vfs, fd: &usize) -> (r: bool)
        requires
            self.valid(v),
        ensures
            r == self.map(v).dom().contains(*fd),
    {
        match find_fd(&v.ep_maps[self.inner], *fd) {
            Some(j) => {
                proof {
                    lemma_lookup_at(v.ep_maps@[self.inner as int]@, j as int);
                }
                true
            },
            None => false,
        }
    }

    /// Drops the registration of `fd` and returns it.
    pub fn remove(&self, v: &mut Vfs, fd: &usize) -> (r: Option<EpEvent>)
        requires
            self.valid(old(v)),
        ensures
            self.valid(final(v)),
            r == ep_lookup(old(v).ep_maps@[self.inner as int]@, *fd),
            self.map(final(v)) == self.map(old(v)).remove(*fd),
            final(v).ep_maps@.len() == old(v).ep_maps@.len(),
            forall|i: int| 0 <= i < old(v).ep_maps@.len() && i != self.inner ==> #[trigger] final(v).ep_maps@[i] == old(v).ep_maps@[i],
            final(v).files@ == old(v).files@,
            final(v).descs@ == old(v).descs@,
            final(v).pipes@ == old(v).pipes@,
            final(v).ep_sets@ == old(v).ep_sets@,
    {
        let fd = *fd;
        let mut m = swap_out(&mut v.ep_maps, self.inner, Vec::new());
        let ghost s0 = m@;
        let r = match find_fd(&m, fd) {
            Some(j) => {
                let (_, ev) = m.remove(j);
                proof {
                    lemma_lookup_at(s0, j as int);
                    assert forall|a: int, b: int| 0 <= a < b < m@.len() implies m@[a].0 != m@[b].0 by {
                        let a2 = if a < j { a } else { a + 1 };
                        let b2 = if b < j { b } else { b + 1 };
                        assert(s0[a2].0 != s0[b2].0);
                    }
                    assert forall|k: usize| ep_lookup(m@, k) == (if k == fd { None } else { ep_lookup(s0, k) }) by {
                        if k == fd {
                            assert forall|x: int| 0 <= x < m@.len() implies #[trigger] m@[x].0 != k by {
                                let x2 = if x < j { x } else { x + 1 };
                                assert(s0[x2].0 != s0[j as int].0);
                            }
                        } else if exists|x: int| 0 <= x < s0.len() && s0[x].0 == k {
                            let x = choose|x: int| 0 <= x < s0.len() && s0[x].0 == k;
                            lemma_lookup_at(s0, x);
                            let x2 = if x < j { x } else { x - 1 };
                            assert(m@[x2] == s0[x]);
                            lemma_lookup_at(m@, x2);
                        } else {
                            assert forall|x: int| 0 <= x < m@.len() implies #[trigger] m@[x].0 != k by {
                                let x2 = if x < j { x } else { x + 1 };
                                assert(m@[x] == s0[x2]);
                            }
                        }
                    }
                }
                Some(ev)
            },
            None => {
                proof {
                    lemma_lookup_none(s0, fd);
                }
                None
            },
        };
        proof {
            assert(ep_map(m@) =~= ep_map(s0).remove(fd));
        }
        let _ = swap_out(&mut v.ep_maps, self.inner, m);
        r
    }
}

pub(crate) fn set_insert(s: &mut Vec<usize>, x: usize)
    ensures
        set_of(final(s)@) == set_of(old(s)@).insert(x),
        old(s)@.no_duplicates() ==> final(s)@.no_duplicates(),
{
    let mut i: usize = 0;
    while i < s.len()
        invariant
            i <= s@.len(),
            s@ == old(s)@,
            forall|j: int| 0 <= j < i ==> s@[j] != x,
        decreases s@.len() - i,
    {
        if s[i] == x {
            proof {
                assert(set_of(s@) =~= set_of(old(s)@).insert(x));
            }
            return;
        }
        i = i + 1;
    }
    s.push(x);
    proof {
        assert(set_of(s@) =~= set_of(old(s)@).insert(x)) by {
            assert forall|y: usize| s@.contains(y) <==> old(s)@.contains(y) || y == x by {
                if s@.contains(y) {
                    let k = choose|k: int| 0 <= k < s@.len() && s@[k] == y;
                    if k < old(s)@.len() {
                        assert(old(s)@[k] == y);
                    }
                }
                if old(s)@.contains(y) {
                    let k = choose|k: int| 0 <= k < old(s)@.len() && old(s)@[k] == y;
                    assert(s@[k] == y);
                }
                if y == x {
                    assert(s@[old(s)@.len() as int] == x);
                }
            }
        }
        if old(s)@.no_duplicates() {
            assert forall|a: int, b: int| 0 <= a < b < s@.len() implies s@[a] != s@[b] by {
                if b < old(s)@.len() {
                    assert(old(s)@[a] != old(s)@[b]);
                }
            }
        }
    }
}

fn set_remove(s: &mut Vec<usize>, x: usize)
    ensures
        set_of(final(s)@) == set_of(old(s)@).remove(x),
        old(s)@.no_duplicates() ==> final(s)@.no_duplicates(),
{
    let mut kept: Vec<usize> = Vec::new();
    let mut i: usize = 0;
    while i < s.len()
        invariant
            i <= s@.len(),
            s@ == old(s)@,
            kept@ == without(s@.subrange(0, i as int), x),
        decreases s@.len() - i,
    {
        let y = s[i];
        proof {
            let pre = s@.subrange(0, i + 1);
            assert(pre.drop_last() =~= s@.subrange(0, i as int));
            reveal(Seq::filter);
        }
        if y != x {
            kept.push(y);
        }
        i = i + 1;
    }
    proof {
        assert(s@.subrange(0, i as int) =~= old(s)@);
        lemma_without(old(s)@, x);
        assert(set_of(kept@) =~= set_of(old(s)@).remove(x));
    }
    *s = kept;
}

/// An epoll instance: its registrations, its ready descriptors and the
/// descriptors whose registration changed, the sets by position in a `Vfs`.
pub struct EpInst {
    pub events: EpEventMap,
    pub ready: usize,
    pub new_ctl: usize,
}

impl EpInst {
    pub open spec fn valid(&self, v: &Vfs) -> bool {
        &&& self.events.valid(v)
        &&& self.ready < v.ep_sets@.len()
        &&& self.new_ctl < v.ep_sets@.len()
        &&& self.ready != self.new_ctl
    }

    /// The ready descriptors.
    pub open spec fn ready_set(&self, v: &Vfs) -> Set<usize> {
        set_of(v.ep_sets@[self.ready as int]@)
    }

    /// The descriptors whose registration changed.
    pub open spec fn changed_set(&self, v: &Vfs) -> Set<usize> {
        set_of(v.ep_sets@[self.new_ctl as int]@)
    }

    /// A new instance with nothing registered, ready or changed.
    pub fn new(v: &mut Vfs) -> (r: Self)
        ensures
            r.valid(final(v)),
            r.events.map(final(v)) == Map::<usize, EpEvent>::empty(),
            r.ready_set(final(v)) == Set::<usize>::empty(),
            r.changed_set(final(v)) == Set::<usize>::empty(),
            final(v).ep_maps@.len() == old(v).ep_maps@.len() + 1,
            final(v).ep_sets@.len() == old(v).ep_sets@.len() + 2,
            forall|i: int| 0 <= i < old(v).ep_maps@.len() ==> #[trigger] final(v).ep_maps@[i] == old(v).ep_maps@[i],
            forall|i: int| 0 <= i < old(v).ep_sets@.len() ==> #[trigger] final(v).ep_sets@[i] == old(v).ep_sets@[i],
            final(v).files@ == old(v).files@,
            final(v).descs@ == old(v).descs@,
            final(v).pipes@ == old(v).pipes@,
    {
        let events = EpEventMap::new(v);
        let ready = v.ep_sets.len();
        v.ep_sets.push(Vec::new());
        let new_ctl = v.ep_sets.len();
        v.ep_sets.push(Vec::new());
        let r = EpInst { events, ready, new_ctl };
        proof {
            assert(r.ready_set(v) =~= Set::<usize>::empty());
            assert(r.changed_set(v) =~= Set::<usize>::empty());
        }
        r
    }

    /// Another handle on the same instance.
    pub fn share(&self) -> (r: Self)
        ensures
            r.events.inner == self.events.inner,
            r.ready == self.ready,
            r.new_ctl == self.new_ctl,
    {
        EpInst { events: EpEventMap { inner: self.events.inner }, ready: self.ready, new_ctl: self.new_ctl }
    }

    /// `ADD` registers an unregistered `fd` (`"eexist"` otherwise); `MOD`
    /// replaces a registration (`"eperm"` without one); both mark `fd`
    /// changed. `DEL` drops a registration and all its stale state
    /// (`"eperm"` without one). Any other operation is `"eperm"`.
    pub fn control(&self, v: &mut Vfs, op: i32, fd: usize, event: &EpEvent) -> (r: Result<(), &'static str>)
        requires
            self.valid(old(v)),
        ensures
            self.valid(final(v)),
            ({
                let m = self.events.map(old(v));
                let present = m.dom().contains(fd);
                if (op == EpCtlOp::ADD && !present) || (op == EpCtlOp::MOD && present) {
                    &&& r == Ok::<(), &'static str>(())
                    &&& self.events.map(final(v)) == m.insert(fd, *event)
                    &&& self.ready_set(final(v)) == self.ready_set(old(v))
                    &&& self.changed_set(final(v)) == self.changed_set(old(v)).insert(fd)
                } else if op == EpCtlOp::DEL && present {
                    &&& r == Ok::<(), &'static str>(())
                    &&& self.events.map(final(v)) == m.remove(fd)
                    &&& self.ready_set(final(v)) == self.ready_set(old(v)).remove(fd)
                    &&& self.changed_set(final(v)) == self.changed_set(old(v)).remove(fd)
                } else {
                    &&& r == Err::<(), &'static str>(if op == EpCtlOp::ADD { "eexist" } else { "eperm" })
                    &&& self.events.map(final(v)) == m
                    &&& self.ready_set(final(v)) == self.ready_set(old(v))
                    &&& self.changed_set(final(v)) == self.changed_set(old(v))
                }
            }),
            final(v).files@ == old(v).files@,
            final(v).descs@ == old(v).descs@,
            final(v).pipes@ == old(v).pipes@,
    {
        if op == EpCtlOp::ADD {
            if self.events.contains_key(v, &fd) {
                return Err("eexist");
            }
            self.events.insert(v, fd, *event);
            let mut s = swap_out(&mut v.ep_sets, self.new_ctl, Vec::new());
            set_insert(&mut s, fd);
            let _ = swap_out(&mut v.ep_sets, self.new_ctl, s);
            Ok(())
        } else if op == EpCtlOp::MOD {
            if self.events.contains_key(v, &fd) {
                self.events.insert(v, fd, *event);
                let mut s = swap_out(&mut v.ep_sets, self.new_ctl, Vec::new());
                set_insert(&mut s, fd);
                let _ = swap_out(&mut v.ep_sets, self.new_ctl, s);
                Ok(())
            } else {
                Err("eperm")
            }
        } else if op == EpCtlOp::DEL {
            if self.events.remove(v, &fd).is_some() {
                let mut s = swap_out(&mut v.ep_sets, self.ready, Vec::new());
                set_remove(&mut s, fd);
                let _ = swap_out(&mut v.ep_sets, self.ready, s);
                let mut t = swap_out(&mut v.ep_sets, self.new_ctl, Vec::new());
                set_remove(&mut t, fd);
                let _ = swap_out(&mut v.ep_sets, self.new_ctl, t);
                Ok(())
            } else {
                proof {
                    assert(self.events.map(v) =~= self.events.map(old(v)));
                }
                Err("eperm")
            }
        } else {
            Err("eperm")
        }
    }
}

/// After `ADD` succeeds, `DEL` of the same descriptor succeeds and leaves no
/// registration for it.
pub proof fn law_add_then_del(m: Map<usize, EpEvent>, fd: usize, ev: EpEvent)
    ensures
        m.insert(fd, ev).dom().contains(fd),
        !m.insert(fd, ev).remove(fd).dom().contains(fd),
        !m.dom().contains(fd) ==> m.insert(fd, ev).remove(fd) == m,
{
    if !m.dom().contains(fd) {
        assert(m.insert(fd, ev).remove(fd) =~= m);
    }
}

} // verus!

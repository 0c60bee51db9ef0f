use vstd::prelude::*;

verus! {

/// Recursive global kernel lock: `flag` says it is held, `holder` names the
/// owner and `depth` counts the owner's nested entries.
pub struct KernLock {
    pub flag: bool,
    pub holder: usize,
    pub depth: usize,
}

/// The state a lock reaches after `enter(id)`: a nonzero current holder
/// nests one level deeper; any other caller takes the free lock at depth one.
pub open spec fn enter_spec(s: KernLock, id: usize) -> KernLock {
    if s.holder == id && id != 0 {
        KernLock { depth: vstd::wrapping::usize_specs::wrapping_add(s.depth, 1), ..s }
    } else {
        KernLock { flag: true, holder: id, depth: 1 }
    }
}

/// The state after `leave()`: one nesting level is dropped, and the lock is
/// freed when at most one level remains.
pub open spec fn leave_spec(s: KernLock) -> KernLock {
    if s.depth > 1 {
        KernLock { depth: (s.depth - 1) as usize, ..s }
    } else {
        KernLock { flag: false, holder: 0, depth: 0 }
    }
}

impl KernLock {
    /// A free lock has no holder and no depth; a held lock has depth one or more.
    pub open spec fn wf(&self) -> bool {
        &&& !self.flag ==> self.holder == 0 && self.depth == 0
        &&& self.flag ==> self.depth >= 1
    }

    /// The caller can enter without waiting: it already holds the lock (and
    /// is not the anonymous id 0), or the lock is free.
    pub open spec fn can_enter(&self, id: usize) -> bool {
        (self.holder == id && id != 0) || !self.flag
    }

    pub fn new() -> (r: Self)
        ensures
            r == (KernLock { flag: false, holder: 0, depth: 0 }),
            r.wf(),
    {
        KernLock { flag: false, holder: 0, depth: 0 }
    }

    /// Takes the lock for `id`, nesting when `id` already holds it. Entering
    /// a lock held by someone else would wait for ever in a single thread,
    /// so that is left out.
    pub fn enter(&mut self, id: usize)
        requires
            old(self).can_enter(id),
        ensures
            *final(self) == enter_spec(*old(self), id),
    {
        if self.holder == id && id != 0 {
            self.depth = self.depth.wrapping_add(1);
            return;
        }
        self.flag = true;
        self.holder = id;
        self.depth = 1;
    }

    /// Drops one nesting level; the last level frees the lock.
    pub fn leave(&mut self)
        ensures
            *final(self) == leave_spec(*old(self)),
    {
        let d = self.depth;
        if d > 1 {
            self.depth = d - 1;
            return;
        }
        self.holder = 0;
        self.depth = 0;
        self.flag = false;
    }

    pub fn held(&self) -> (r: bool)
        ensures
            r == self.flag,
    {
        self.flag
    }

    pub fn owner(&self) -> (r: usize)
        ensures
            r == self.holder,
    {
        self.holder
    }

    pub fn level(&self) -> (r: usize)
        ensures
            r == self.depth,
    {
        self.depth
    }

    /// Enters without waiting when possible; reports whether it entered.
    pub fn try_enter(&mut self, id: usize) -> (r: bool)
        ensures
            r == old(self).can_enter(id),
            r ==> *final(self) == enter_spec(*old(self), id),
            !r ==> *final(self) == *old(self),
    {
        if self.holder == id && id != 0 {
            self.depth = self.depth.wrapping_add(1);
            return true;
        }
        if !self.flag {
            self.flag = true;
            self.holder = id;
            self.depth = 1;
            true
        } else {
            false
        }
    }
}

/// Entering and then leaving a lock puts it back as it was, whether the
/// caller nested into its own lock or took a free one.
pub proof fn law_enter_leave_restores(s: KernLock, id: usize)
    requires
        s.wf(),
        s.can_enter(id),
        s.depth < usize::MAX,
    ensures
        leave_spec(enter_spec(s, id)) == s,
        enter_spec(s, id).wf(),
        enter_spec(s, id).flag && enter_spec(s, id).holder == id,
{
}

/// A held lock cannot be entered by another nonzero id, and `try_enter`
/// then leaves it untouched.
pub proof fn law_exclusive(s: KernLock, owner: usize, other: usize)
    requires
        s.wf(),
        s.flag,
        s.holder == owner,
        other != owner,
    ensures
        !s.can_enter(other),
{
}

/// A one-bit spin lock.
pub struct Spin {
    pub locked: bool,
}

impl Spin {
    pub fn new() -> (r: Self)
        ensures
            !r.locked,
    {
        Spin { locked: false }
    }

    /// Takes the lock; acquiring a held lock would spin for ever in a single
    /// thread, so that is left out.
    pub fn acquire(&mut self)
        requires
            !old(self).locked,
        ensures
            final(self).locked,
    {
        self.locked = true;
    }

    pub fn try_acquire(&mut self) -> (r: bool)
        ensures
            r == !old(self).locked,
            final(self).locked,
    {
        if self.locked {
            false
        } else {
            self.locked = true;
            true
        }
    }

    pub fn release(&mut self)
        ensures
            !final(self).locked,
    {
        self.locked = false;
    }

    pub fn is_held(&self) -> (r: bool)
        ensures
            r == self.locked,
    {
        self.locked
    }
}

/// Placeholder for an interrupt-flag scope; the saved value is always zero.
pub struct FlagGuard(pub usize);

impl FlagGuard {
    pub fn enter() -> (r: Self)
        ensures
            r.0 == 0,
    {
        FlagGuard(0)
    }
}

/// Event bits used by event buses, readiness, semaphores, task exit and signals.
pub struct EventFlag;

impl EventFlag {
    pub const READABLE: u32 = 1;
    pub const WRITABLE: u32 = 2;
    pub const ERROR: u32 = 4;
    pub const CLOSED: u32 = 8;
    pub const PROC_QUIT: u32 = 0x400;
    pub const CHILD_QUIT: u32 = 0x800;
    pub const RECV_SIG: u32 = 0x1000;
    pub const SEM_RM: u32 = 0x10_0000;
    pub const SEM_ACQ: u32 = 0x20_0000;
}

/// One subscriber of an event bus: it fires, and leaves the bus, the first
/// time the event mask changes to one that meets `mask`. `waker` identifies
/// the task a waker-style subscriber wakes.
#[derive(Clone, Copy)]
pub struct Subscriber {
    pub mask: u32,
    pub waker: Option<usize>,
}

/// The current event mask and the subscribers waiting on it.
pub struct EventBus {
    pub events: u32,
    pub callbacks: Vec<Subscriber>,
}

/// The subscribers that stay after the mask becomes `ev`: those whose mask
/// does not meet it.
pub open spec fn survivors(s: Seq<Subscriber>, ev: u32) -> Seq<Subscriber>
    decreases s.len(),
{
    if s.len() == 0 {
        Seq::empty()
    } else {
        survivors(s.drop_last(), ev) + if s.last().mask & ev != 0 {
            Seq::<Subscriber>::empty()
        } else {
            seq![s.last()]
        }
    }
}

pub open spec fn change_spec(b: EventBus, clear_bits: u32, set_bits: u32) -> (u32, Seq<Subscriber>) {
    let new_ev = (b.events & !clear_bits) | set_bits;
    if new_ev != b.events {
        (new_ev, survivors(b.callbacks@, new_ev))
    } else {
        (new_ev, b.callbacks@)
    }
}

impl EventBus {
    pub fn make() -> (r: Self)
        ensures
            r.events == 0,
            r.callbacks@.len() == 0,
    {
        EventBus { events: 0, callbacks: Vec::new() }
    }

    pub fn new() -> (r: Self)
        ensures
            r.events == 0,
            r.callbacks@.len() == 0,
    {
        EventBus::make()
    }

    pub fn set(&mut self, set_bits: u32)
        ensures
            (final(self).events, final(self).callbacks@) == change_spec(*old(self), 0, set_bits),
    {
        self.change(0, set_bits);
    }

    pub fn clear(&mut self, clear_bits: u32)
        ensures
            (final(self).events, final(self).callbacks@) == change_spec(*old(self), clear_bits, 0),
    {
        self.change(clear_bits, 0);
    }

    /// Clears then sets bits; when the mask changes, every subscriber whose
    /// mask meets the new mask fires and is removed.
    pub fn change(&mut self, clear_bits: u32, set_bits: u32)
        ensures
            (final(self).events, final(self).callbacks@) == change_spec(
                *old(self),
                clear_bits,
                set_bits,
            ),
    {
        let previous_events = self.events;
        self.events = (self.events & !clear_bits) | set_bits;
        if self.events != previous_events {
            let current = self.events;
            let mut kept: Vec<Subscriber> = Vec::new();
            let mut i: usize = 0;
            while i < self.callbacks.len()
                invariant
                    i <= self.callbacks@.len(),
                    self.callbacks@ == old(self).callbacks@,
                    kept@ == survivors(self.callbacks@.subrange(0, i as int), current),
                decreases self.callbacks@.len() - i,
            {
                proof {
                    let t = self.callbacks@.subrange(0, i as int + 1);
                    assert(t.drop_last() == self.callbacks@.subrange(0, i as int));
                }
                let c = self.callbacks[i];
                if c.mask & current == 0 {
                    kept.push(c);
                }
                i = i + 1;
            }
            proof {
                assert(self.callbacks@.subrange(0, self.callbacks@.len() as int) == self.callbacks@);
            }
            self.callbacks = kept;
        }
    }

    /// Adds a subscriber interested in `mask`.
    pub fn sub(&mut self, mask: u32)
        ensures
            final(self).events == old(self).events,
            final(self).callbacks@ == old(self).callbacks@.push(
                Subscriber { mask, waker: None },
            ),
    {
        self.callbacks.push(Subscriber { mask, waker: None });
    }

    pub fn subscribe(&mut self, mask: u32)
        ensures
            final(self).events == old(self).events,
            final(self).callbacks@ == old(self).callbacks@.push(
                Subscriber { mask, waker: None },
            ),
    {
        self.sub(mask);
    }

    /// Registers waker `waker` for `mask`. When the mask already meets the
    /// current events the waker is woken at once and `true` is returned; a
    /// waker already registered for the same mask is not added twice.
    pub fn subscribe_waker(&mut self, mask: u32, waker: usize) -> (r: bool)
        ensures
            r == (old(self).events & mask != 0),
            final(self).events == old(self).events,
            r ==> final(self).callbacks@ == old(self).callbacks@,
            !r && (exists|i: int|
                0 <= i < old(self).callbacks@.len() && #[trigger] old(self).callbacks@[i] == (
                Subscriber { mask, waker: Some(waker) })) ==> final(self).callbacks@ == old(self).callbacks@,
            !r && !(exists|i: int|
                0 <= i < old(self).callbacks@.len() && #[trigger] old(self).callbacks@[i] == (
                Subscriber { mask, waker: Some(waker) })) ==> final(self).callbacks@ == old(self).callbacks@.push(Subscriber { mask, waker: Some(waker) }),
    {
        if self.events & mask != 0 {
            return true;
        }
        let mut i: usize = 0;
        while i < self.callbacks.len()
            invariant
                i <= self.callbacks@.len(),
                self.callbacks@ == old(self).callbacks@,
                self.events == old(self).events,
                self.events & mask == 0,
                forall|k: int| 0 <= k < i ==> #[trigger] self.callbacks@[k] != (Subscriber {
                    mask,
                    waker: Some(waker),
                }),
            decreases self.callbacks@.len() - i,
        {
            let c = self.callbacks[i];
            if c.mask == mask {
                match c.waker {
                    Some(w) => {
                        if w == waker {
                            assert(self.callbacks@[i as int] == (Subscriber { mask, waker: Some(waker) }));
                            return false;
                        }
                    },
                    None => {},
                }
            }
            i = i + 1;
        }
        self.callbacks.push(Subscriber { mask, waker: Some(waker) });
        false
    }

    pub fn callback_count(&self) -> (r: usize)
        ensures
            r == self.callbacks@.len(),
    {
        self.callbacks.len()
    }

    pub fn get_callback_len(&self) -> (r: usize)
        ensures
            r == self.callbacks@.len(),
    {
        self.callbacks.len()
    }
}

/// One poll of a wait for `mask`: the current events when they meet the
/// mask, otherwise `None` after registering `waker` on the bus.
pub fn wait_for_event(bus: &mut EventBus, mask: u32, waker: usize) -> (r: Option<u32>)
    ensures
        old(bus).events & mask != 0 ==> r == Some(old(bus).events) && final(bus).callbacks@ == old(bus).callbacks@,
        old(bus).events & mask == 0 ==> r is None,
        final(bus).events == old(bus).events,
{
    if bus.events & mask != 0 {
        return Some(bus.events);
    }
    bus.subscribe_waker(mask, waker);
    None
}

/// The event bits of `mask` that are set, or zero for an empty mask. A wait
/// for events that are not set yet is left to the caller.
pub fn wait_event(bus: &EventBus, mask: u32) -> (r: Option<u32>)
    ensures
        mask == 0 ==> r == Some(0u32),
        mask != 0 && bus.events & mask != 0 ==> r == Some(bus.events & mask),
        mask != 0 && bus.events & mask == 0 ==> r is None,
{
    if mask == 0 {
        return Some(0);
    }
    if bus.events & mask != 0 {
        Some(bus.events & mask)
    } else {
        None
    }
}

/// A counting semaphore: available permits, the last associated task,
/// whether it was removed, and a bus announcing acquire and removal.
pub struct Sema {
    pub permit_count: isize,
    pub pid: usize,
    pub removed: bool,
    pub bus: EventBus,
}

/// Proof of one permit taken by `Sema::access`; give it back with
/// `Sema::release`.
pub struct SemaGuard {
    pub permits: usize,
}

impl Sema {
    pub fn new(initial_count: isize) -> (r: Self)
        ensures
            r.permit_count == initial_count,
            r.pid == 0,
            !r.removed,
            r.bus.events == 0,
            r.bus.callbacks@.len() == 0,
    {
        Sema { permit_count: initial_count, pid: 0, removed: false, bus: EventBus::make() }
    }

    pub fn remove(&mut self)
        ensures
            final(self).removed,
            final(self).permit_count == old(self).permit_count,
            final(self).pid == old(self).pid,
            (final(self).bus.events, final(self).bus.callbacks@) == change_spec(
                old(self).bus,
                0,
                EventFlag::SEM_RM,
            ),
    {
        self.removed = true;
        self.bus.set(EventFlag::SEM_RM);
    }

    /// Returns one permit and announces that a permit can be taken.
    pub fn release(&mut self)
        requires
            old(self).permit_count < isize::MAX,
        ensures
            final(self).permit_count == old(self).permit_count + 1,
            final(self).removed == old(self).removed,
            final(self).pid == old(self).pid,
            old(self).permit_count + 1 >= 1 ==> (final(self).bus.events, final(self).bus.callbacks@) == change_spec(old(self).bus, 0, EventFlag::SEM_ACQ),
            old(self).permit_count + 1 < 1 ==> final(self).bus == old(self).bus,
    {
        self.permit_count = self.permit_count + 1;
        if self.permit_count >= 1 {
            self.bus.set(EventFlag::SEM_ACQ);
        }
    }

    /// Takes a permit when one is available. A removed semaphore answers
    /// "removed".
    pub fn try_acquire(&mut self) -> (r: Result<bool, &'static str>)
        ensures
            old(self).removed ==> r == Err::<bool, &'static str>("removed") && *final(self) == *old(self),
            !old(self).removed && old(self).permit_count >= 1 ==> r == Ok::<bool, &'static str>(
                true,
            ) && final(self).permit_count == old(self).permit_count - 1,
            !old(self).removed && old(self).permit_count >= 1 && old(self).permit_count - 1 < 1
                ==> (final(self).bus.events, final(self).bus.callbacks@) == change_spec(
                old(self).bus,
                EventFlag::SEM_ACQ,
                0,
            ),
            !old(self).removed && old(self).permit_count > 1 ==> final(self).bus == old(self).bus,
            !old(self).removed && old(self).permit_count < 1 ==> r == Ok::<bool, &'static str>(
                false,
            ) && *final(self) == *old(self),
            final(self).removed == old(self).removed,
            final(self).pid == old(self).pid,
    {
        if self.removed {
            return Err("removed");
        }
        if self.permit_count >= 1 {
            self.permit_count = self.permit_count - 1;
            if self.permit_count < 1 {
                self.bus.clear(EventFlag::SEM_ACQ);
            }
            Ok(true)
        } else {
            Ok(false)
        }
    }

    /// Takes a permit, or reports removal. Waiting for a permit that no
    /// other party can release is left out.
    pub fn access(&mut self) -> (r: Result<SemaGuard, &'static str>)
        requires
            old(self).removed || old(self).permit_count >= 1,
        ensures
            old(self).removed ==> r is Err && *final(self) == *old(self),
            !old(self).removed ==> r is Ok && final(self).permit_count == old(self).permit_count - 1,
    {
        match self.try_acquire() {
            Ok(_) => Ok(SemaGuard { permits: 1 }),
            Err(e) => Err(e),
        }
    }

    pub fn get_val(&self) -> (r: isize)
        ensures
            r == self.permit_count,
    {
        self.permit_count
    }

    /// Number of parties waiting on the semaphore's bus.
    pub fn get_ncnt(&self) -> (r: usize)
        ensures
            r == self.bus.callbacks@.len(),
    {
        self.bus.callback_count()
    }

    pub fn get_pid(&self) -> (r: usize)
        ensures
            r == self.pid,
    {
        self.pid
    }

    pub fn set_pid(&mut self, pid: usize)
        ensures
            final(self).pid == pid,
            final(self).permit_count == old(self).permit_count,
            final(self).removed == old(self).removed,
            final(self).bus == old(self).bus,
    {
        self.pid = pid;
    }

    /// Sets the permit count and the "can acquire" bit to match it.
    pub fn set_val(&mut self, value: isize)
        ensures
            final(self).permit_count == value,
            final(self).removed == old(self).removed,
            final(self).pid == old(self).pid,
            value >= 1 ==> (final(self).bus.events, final(self).bus.callbacks@) == change_spec(
                old(self).bus,
                0,
                EventFlag::SEM_ACQ,
            ),
            value < 1 ==> (final(self).bus.events, final(self).bus.callbacks@) == change_spec(
                old(self).bus,
                EventFlag::SEM_ACQ,
                0,
            ),
    {
        self.permit_count = value;
        if value >= 1 {
            self.bus.set(EventFlag::SEM_ACQ);
        } else {
            self.bus.clear(EventFlag::SEM_ACQ);
        }
    }
}

} // verus!

use vstd::prelude::*;
use crate::consts::{INHERITABLE_MASK, KHEAP_SZ, NSIG, SIGKILL, SIGSTOP, SIG_DFL, SIG_IGN, USR_STK_SZ};

verus! {

/// Bit `i` of a 64-bit word.
pub open spec fn bit64(x: u64, i: u32) -> bool {
    i < 64 && x & (1u64 << i) != 0
}

/// Permitted (`bits`), effective and ambient capability sets.
pub struct CapSet {
    pub bits: u64,
    pub effective: u64,
    pub ambient: u64,
}

impl CapSet {
    pub fn new() -> (r: Self)
        ensures
            r == (CapSet { bits: 0, effective: 0, ambient: 0 }),
    {
        CapSet { bits: 0, effective: 0, ambient: 0 }
    }

    pub fn full() -> (r: Self)
        ensures
            r == (CapSet { bits: !0u64, effective: !0u64, ambient: 0 }),
    {
        CapSet { bits: !0u64, effective: !0u64, ambient: 0 }
    }

    /// Whether `cap` is in the effective set; capabilities from 64 up never are.
    pub fn check(&self, cap: u32) -> (r: bool)
        ensures
            r == bit64(self.effective, cap),
    {
        if cap >= 64 {
            return false;
        }
        (self.effective & (1u64 << cap)) != 0
    }

    /// Adds `cap` to the permitted and effective sets.
    pub fn grant(&mut self, cap: u32)
        ensures
            cap < 64 ==> final(self).bits == old(self).bits | (1u64 << cap) && final(self).effective
                == old(self).effective | (1u64 << cap),
            cap >= 64 ==> final(self).bits == old(self).bits && final(self).effective == old(self).effective,
            final(self).ambient == old(self).ambient,
    {
        if cap < 64 {
            self.bits = self.bits | (1u64 << cap);
            self.effective = self.effective | (1u64 << cap);
        }
    }

    /// Removes `cap` from the permitted and effective sets.
    pub fn drop_cap(&mut self, cap: u32)
        ensures
            cap < 64 ==> final(self).bits == old(self).bits & !(1u64 << cap) && final(self).effective == old(self).effective & !(1u64 << cap),
            cap >= 64 ==> final(self).bits == old(self).bits && final(self).effective == old(self).effective,
            final(self).ambient == old(self).ambient,
    {
        if cap < 64 {
            self.bits = self.bits & !(1u64 << cap);
            self.effective = self.effective & !(1u64 << cap);
        }
    }

    /// The capabilities a child keeps: the permitted set restricted to the
    /// inheritable mask, with effective and ambient cut down to it.
    pub fn inherit(parent: &CapSet) -> (r: CapSet)
        ensures
            r.bits == parent.bits & INHERITABLE_MASK,
            r.effective == parent.effective & (parent.bits & INHERITABLE_MASK),
            r.ambient == parent.ambient & (parent.bits & INHERITABLE_MASK),
    {
        let filtered_bits = parent.bits & INHERITABLE_MASK;
        let filtered_effective = parent.effective & filtered_bits;
        CapSet {
            bits: filtered_bits,
            effective: filtered_effective,
            ambient: parent.ambient & filtered_bits,
        }
    }

    pub fn has_any(&self, mask: u64) -> (r: bool)
        ensures
            r == (self.effective & mask != 0),
    {
        (self.effective & mask) != 0
    }

    pub fn clear_ambient(&mut self)
        ensures
            final(self).ambient == 0,
            final(self).bits == old(self).bits,
            final(self).effective == old(self).effective,
    {
        self.ambient = 0;
    }

    /// Adds `cap` to the ambient set when it is permitted; reports whether it did.
    pub fn raise_ambient(&mut self, cap: u32) -> (r: bool)
        ensures
            r == bit64(old(self).bits, cap),
            r ==> final(self).ambient == old(self).ambient | (1u64 << cap),
            !r ==> final(self).ambient == old(self).ambient,
            final(self).bits == old(self).bits,
            final(self).effective == old(self).effective,
    {
        if cap >= 64 {
            return false;
        }
        let cap_bit = 1u64 << cap;
        if (self.bits & cap_bit) != 0 {
            self.ambient = self.ambient | cap_bit;
            true
        } else {
            false
        }
    }
}

/// Granting a capability makes it effective and permitted, and dropping it
/// removes it; no other capability changes either way.
pub proof fn law_grant_then_drop(e: u64, cap: u32, other: u32)
    requires
        cap < 64,
        other < 64,
        other != cap,
    ensures
        bit64(e | (1u64 << cap), cap),
        !bit64(e & !(1u64 << cap), cap),
        bit64(e | (1u64 << cap), other) == bit64(e, other),
        bit64(e & !(1u64 << cap), other) == bit64(e, other),
{
    assert((e | (1u64 << cap)) & (1u64 << cap) != 0 && (e & !(1u64 << cap)) & (1u64 << cap) == 0
        && (((e | (1u64 << cap)) & (1u64 << other) != 0) == (e & (1u64 << other) != 0)) && (((e
        & !(1u64 << cap)) & (1u64 << other) != 0) == (e & (1u64 << other) != 0))) by (bit_vector)
        requires
            cap < 64,
            other < 64,
            other != cap,
    ;
}

/// After inheritance the ambient and effective sets are within the
/// permitted set, and the permitted set is within the parent's.
pub proof fn law_inherit_subsets(pb: u64, pe: u64, pa: u64)
    ensures
        (pe & (pb & INHERITABLE_MASK)) & !(pb & INHERITABLE_MASK) == 0,
        (pa & (pb & INHERITABLE_MASK)) & !(pb & INHERITABLE_MASK) == 0,
        (pb & INHERITABLE_MASK) & !pb == 0,
{
    assert((pe & (pb & 0x0000_00FF_FFFF_FFFFu64)) & !(pb & 0x0000_00FF_FFFF_FFFFu64) == 0 && (pa
        & (pb & 0x0000_00FF_FFFF_FFFFu64)) & !(pb & 0x0000_00FF_FFFF_FFFFu64) == 0 && (pb
        & 0x0000_00FF_FFFF_FFFFu64) & !pb == 0) by (bit_vector);
}

/// How one signal is handled: handler payload, flags and handler-time mask.
pub struct SigAction {
    pub handler: usize,
    pub flags: u32,
    pub mask: u64,
}

/// Pending and blocked signal masks and one action per signal number.
pub struct SigSet {
    pub pending: u64,
    pub blocked: u64,
    pub actions: Vec<SigAction>,
}

/// The mask of the two signals that can never be blocked.
pub open spec fn unblockable() -> u64 {
    (1u64 << SIGKILL) | (1u64 << SIGSTOP)
}

impl SigSet {
    /// One action slot per signal number from 0 to `NSIG`.
    pub open spec fn wf(&self) -> bool {
        self.actions@.len() == NSIG + 1
    }

    pub fn new() -> (r: Self)
        ensures
            r.pending == 0,
            r.blocked == 0,
            r.wf(),
            forall|i: int| 0 <= i < r.actions@.len() ==> #[trigger] r.actions@[i] == (SigAction {
                handler: SIG_DFL,
                flags: 0,
                mask: 0,
            }),
    {
        let mut actions: Vec<SigAction> = Vec::new();
        let mut i: u32 = 0;
        while i <= NSIG
            invariant
                i <= NSIG + 1,
                actions@.len() == i,
                forall|k: int| 0 <= k < actions@.len() ==> #[trigger] actions@[k] == (SigAction {
                    handler: SIG_DFL,
                    flags: 0,
                    mask: 0,
                }),
            decreases NSIG + 1 - i,
        {
            actions.push(SigAction { handler: SIG_DFL, flags: 0, mask: 0 });
            i = i + 1;
        }
        SigSet { pending: 0, blocked: 0, actions }
    }

    /// Whether a deliverable signal number (1 to 63) is pending.
    pub fn sig_pending(&self, signo: u32) -> (r: bool)
        ensures
            r == (1 <= signo < NSIG && bit64(self.pending, signo)),
    {
        if signo == 0 || signo >= NSIG {
            return false;
        }
        (self.pending & (1u64 << signo)) != 0
    }

    /// Marks a deliverable signal pending; signal 0 and numbers from 64 up
    /// are ignored.
    pub fn sig_raise(&mut self, signo: u32)
        ensures
            1 <= signo < NSIG ==> final(self).pending == old(self).pending | (1u64 << signo),
            !(1 <= signo < NSIG) ==> final(self).pending == old(self).pending,
            final(self).blocked == old(self).blocked,
            final(self).actions@ == old(self).actions@,
    {
        if signo > 0 && signo < NSIG {
            self.pending = self.pending | (1u64 << signo);
        }
    }

    /// The pending, unblocked signals among numbers 1 to 63.
    pub fn coalesce_pending(&self) -> (r: u64)
        ensures
            r == self.pending & !self.blocked & !1u64,
    {
        self.pending & !self.blocked & !1u64
    }

    pub fn sig_clear(&mut self, signo: u32)
        ensures
            signo < NSIG ==> final(self).pending == old(self).pending & !(1u64 << signo),
            signo >= NSIG ==> final(self).pending == old(self).pending,
            final(self).blocked == old(self).blocked,
            final(self).actions@ == old(self).actions@,
    {
        if signo < NSIG {
            self.pending = self.pending & !(1u64 << signo);
        }
    }

    /// Adds `mask` to the blocked set, except SIGKILL and SIGSTOP.
    pub fn sig_block(&mut self, mask: u64)
        ensures
            final(self).blocked == (old(self).blocked | mask) & !unblockable(),
            final(self).pending == old(self).pending,
            final(self).actions@ == old(self).actions@,
    {
        self.blocked = self.blocked | mask;
        self.blocked = self.blocked & !((1u64 << SIGKILL) | (1u64 << SIGSTOP));
    }

    pub fn sig_unblock(&mut self, mask: u64)
        ensures
            final(self).blocked == old(self).blocked & !mask,
            final(self).pending == old(self).pending,
            final(self).actions@ == old(self).actions@,
    {
        self.blocked = self.blocked & !mask;
    }

    /// Replaces the blocked set with `mask`, except SIGKILL and SIGSTOP.
    pub fn sig_setmask(&mut self, mask: u64)
        ensures
            final(self).blocked == mask & !unblockable(),
            final(self).pending == old(self).pending,
            final(self).actions@ == old(self).actions@,
    {
        self.blocked = mask & !((1u64 << SIGKILL) | (1u64 << SIGSTOP));
    }

    /// The lowest-numbered pending signal that is not blocked, from 1 to 63.
    pub fn deliverable(&self) -> (r: Option<u32>)
        ensures
            r matches Some(i) ==> 1 <= i < NSIG && bit64(self.pending & !self.blocked, i) && forall|
                j: u32,
            |
                1 <= j < i ==> !#[trigger] bit64(self.pending & !self.blocked, j),
            r is None ==> forall|j: u32|
                1 <= j < NSIG ==> !#[trigger] bit64(self.pending & !self.blocked, j),
    {
        let actionable = self.pending & !self.blocked;
        let mut i: u32 = 1;
        while i < NSIG
            invariant
                1 <= i <= NSIG,
                actionable == self.pending & !self.blocked,
                forall|j: u32| 1 <= j < i ==> !#[trigger] bit64(actionable, j),
            decreases NSIG - i,
        {
            if (actionable & (1u64 << i)) != 0 {
                return Some(i);
            }
            i = i + 1;
        }
        None
    }

    /// Installs a custom action; signal 0, SIGKILL, SIGSTOP and numbers from
    /// 64 up keep their action.
    pub fn set_action(&mut self, signo: u32, action: SigAction)
        requires
            old(self).wf(),
        ensures
            final(self).wf(),
            final(self).pending == old(self).pending,
            final(self).blocked == old(self).blocked,
            (1 <= signo < NSIG && signo != SIGKILL && signo != SIGSTOP) ==> final(self).actions@
                == old(self).actions@.update(signo as int, action),
            !(1 <= signo < NSIG && signo != SIGKILL && signo != SIGSTOP) ==> final(self).actions@
                == old(self).actions@,
    {
        if signo > 0 && signo < NSIG && signo != SIGKILL && signo != SIGSTOP {
            self.actions.set(signo as usize, action);
        }
    }

    /// The action of `signo`, or that of signal 0 when `signo` has no slot.
    pub fn get_action(&self, signo: u32) -> (r: &SigAction)
        requires
            self.wf(),
        ensures
            (signo as int) < self.actions@.len() ==> *r == self.actions@[signo as int],
            (signo as int) >= self.actions@.len() ==> *r == self.actions@[0],
    {
        if (signo as usize) < self.actions.len() {
            &self.actions[signo as usize]
        } else {
            &self.actions[0]
        }
    }

    pub fn is_ignored(&self, signo: u32) -> (r: bool)
        ensures
            r == ((signo as int) < self.actions@.len() && self.actions@[signo as int].handler
                == SIG_IGN),
    {
        if (signo as usize) < self.actions.len() {
            self.actions[signo as usize].handler == SIG_IGN
        } else {
            false
        }
    }

    /// Resets every caught signal (handler neither default nor ignore) of
    /// numbers 1 and up to the default handler.
    pub fn clear_non_caught(&mut self)
        ensures
            final(self).pending == old(self).pending,
            final(self).blocked == old(self).blocked,
            final(self).actions@.len() == old(self).actions@.len(),
            old(self).actions@.len() > 0 ==> final(self).actions@[0] == old(self).actions@[0],
            forall|i: int|
                1 <= i < old(self).actions@.len() ==> {
                    let a = #[trigger] old(self).actions@[i];
                    let b = final(self).actions@[i];
                    &&& b.flags == a.flags
                    &&& b.mask == a.mask
                    &&& b.handler == (if a.handler != SIG_DFL && a.handler != SIG_IGN {
                        SIG_DFL
                    } else {
                        a.handler
                    })
                },
    {
        let mut i: usize = 1;
        let ghost s = self.actions@;
        while i < self.actions.len()
            invariant
                1 <= i,
                s.len() > 0 ==> i <= s.len(),
                self.actions@.len() == s.len(),
                self.pending == old(self).pending,
                self.blocked == old(self).blocked,
                s == old(self).actions@,
                s.len() > 0 ==> self.actions@[0] == s[0],
                forall|k: int| i <= k < s.len() ==> #[trigger] self.actions@[k] == s[k],
                forall|k: int|
                    1 <= k < i && k < s.len() ==> {
                        let a = #[trigger] s[k];
                        let b = self.actions@[k];
                        &&& b.flags == a.flags
                        &&& b.mask == a.mask
                        &&& b.handler == (if a.handler != SIG_DFL && a.handler != SIG_IGN {
                            SIG_DFL
                        } else {
                            a.handler
                        })
                    },
            decreases s.len() - i,
        {
            let h = self.actions[i].handler;
            if h != SIG_DFL && h != SIG_IGN {
                let flags = self.actions[i].flags;
                let mask = self.actions[i].mask;
                self.actions.set(i, SigAction { handler: SIG_DFL, flags, mask });
            }
            i = i + 1;
        }
    }
}

/// SIGKILL and SIGSTOP stay unblocked whatever mask is blocked or set.
pub proof fn law_kill_stop_never_blocked(blocked: u64, mask: u64)
    ensures
        !bit64((blocked | mask) & !unblockable(), SIGKILL),
        !bit64((blocked | mask) & !unblockable(), SIGSTOP),
        !bit64(mask & !unblockable(), SIGKILL),
        !bit64(mask & !unblockable(), SIGSTOP),
{
    assert(((blocked | mask) & !((1u64 << 9u32) | (1u64 << 19u32))) & (1u64 << 9u32) == 0 && ((
    blocked | mask) & !((1u64 << 9u32) | (1u64 << 19u32))) & (1u64 << 19u32) == 0 && (mask & !((1u64
        << 9u32) | (1u64 << 19u32))) & (1u64 << 9u32) == 0 && (mask & !((1u64 << 9u32) | (1u64
        << 19u32))) & (1u64 << 19u32) == 0) by (bit_vector);
}

/// A raised signal is pending until it is cleared.
pub proof fn law_raise_then_clear(p: u64, signo: u32)
    requires
        1 <= signo < 64,
    ensures
        bit64(p | (1u64 << signo), signo),
        !bit64((p | (1u64 << signo)) & !(1u64 << signo), signo),
{
    assert((p | (1u64 << signo)) & (1u64 << signo) != 0 && ((p | (1u64 << signo)) & !(1u64
        << signo)) & (1u64 << signo) == 0) by (bit_vector)
        requires
            1 <= signo < 64,
    ;
}

/// A subset of Unix resource ceilings for one process.
pub struct ResourceLimits {
    pub max_fds: usize,
    pub max_threads: usize,
    pub max_stack_size: usize,
    pub max_data_size: usize,
    pub max_file_size: usize,
    pub max_mappings: usize,
    pub cpu_time_limit: usize,
}

impl ResourceLimits {
    pub fn default_limits() -> (r: Self)
        ensures
            r == (ResourceLimits {
                max_fds: 1024,
                max_threads: 256,
                max_stack_size: (USR_STK_SZ * 4) as usize,
                max_data_size: KHEAP_SZ,
                max_file_size: usize::MAX,
                max_mappings: 65536,
                cpu_time_limit: 0,
            }),
    {
        ResourceLimits {
            max_fds: 1024,
            max_threads: 256,
            max_stack_size: USR_STK_SZ * 4,
            max_data_size: KHEAP_SZ,
            max_file_size: usize::MAX,
            max_mappings: 65536,
            cpu_time_limit: 0,
        }
    }

    pub fn check_fd(&self, current: usize) -> (r: bool)
        ensures
            r == (current < self.max_fds),
    {
        current < self.max_fds
    }

    pub fn check_threads(&self, current: usize) -> (r: bool)
        ensures
            r == (current < self.max_threads),
    {
        current < self.max_threads
    }

    pub fn check_stack(&self, requested: usize) -> (r: bool)
        ensures
            r == (requested <= self.max_stack_size),
    {
        requested <= self.max_stack_size
    }

    pub fn check_data(&self, requested: usize) -> (r: bool)
        ensures
            r == (requested <= self.max_data_size),
    {
        requested <= self.max_data_size
    }

    pub fn check_filesize(&self, requested: usize) -> (r: bool)
        ensures
            r == (requested <= self.max_file_size),
    {
        requested <= self.max_file_size
    }

    pub fn check_mappings(&self, current: usize) -> (r: bool)
        ensures
            r == (current < self.max_mappings),
    {
        current < self.max_mappings
    }

    /// A child's limits: an exact copy.
    pub fn inherit(&self) -> (r: Self)
        ensures
            r == *self,
    {
        ResourceLimits {
            max_fds: self.max_fds,
            max_threads: self.max_threads,
            max_stack_size: self.max_stack_size,
            max_data_size: self.max_data_size,
            max_file_size: self.max_file_size,
            max_mappings: self.max_mappings,
            cpu_time_limit: self.cpu_time_limit,
        }
    }

    /// Sets one limit by its RLIMIT number (0 CPU, 1 file size, 2 data,
    /// 3 stack, 7 open files); other numbers give "einval".
    pub fn set_limit(&mut self, resource: usize, value: usize) -> (r: Result<(), &'static str>)
        ensures
            r is Ok <==> (resource == 0 || resource == 1 || resource == 2 || resource == 3
                || resource == 7),
            r is Err ==> r == Err::<(), &'static str>("einval") && *final(self) == *old(self),
            resource == 0 ==> *final(self) == (ResourceLimits { cpu_time_limit: value, ..*old(self) }),
            resource == 1 ==> *final(self) == (ResourceLimits { max_file_size: value, ..*old(self) }),
            resource == 2 ==> *final(self) == (ResourceLimits { max_data_size: value, ..*old(self) }),
            resource == 3 ==> *final(self) == (ResourceLimits { max_stack_size: value, ..*old(self) }),
            resource == 7 ==> *final(self) == (ResourceLimits { max_fds: value, ..*old(self) }),
    {
        if resource == 0 {
            self.cpu_time_limit = value;
            Ok(())
        } else if resource == 1 {
            self.max_file_size = value;
            Ok(())
        } else if resource == 2 {
            self.max_data_size = value;
            Ok(())
        } else if resource == 3 {
            self.max_stack_size = value;
            Ok(())
        } else if resource == 7 {
            self.max_fds = value;
            Ok(())
        } else {
            Err("einval")
        }
    }

    pub fn get_limit(&self, resource: usize) -> (r: Result<usize, &'static str>)
        ensures
            resource == 0 ==> r == Ok::<usize, &'static str>(self.cpu_time_limit),
            resource == 1 ==> r == Ok::<usize, &'static str>(self.max_file_size),
            resource == 2 ==> r == Ok::<usize, &'static str>(self.max_data_size),
            resource == 3 ==> r == Ok::<usize, &'static str>(self.max_stack_size),
            resource == 7 ==> r == Ok::<usize, &'static str>(self.max_fds),
            !(resource == 0 || resource == 1 || resource == 2 || resource == 3 || resource == 7)
                ==> r == Err::<usize, &'static str>("einval"),
    {
        if resource == 0 {
            Ok(self.cpu_time_limit)
        } else if resource == 1 {
            Ok(self.max_file_size)
        } else if resource == 2 {
            Ok(self.max_data_size)
        } else if resource == 3 {
            Ok(self.max_stack_size)
        } else if resource == 7 {
            Ok(self.max_fds)
        } else {
            Err("einval")
        }
    }

    pub fn exceeds_any(&self, fds: usize, threads: usize, stack: usize) -> (r: bool)
        ensures
            r == (fds >= self.max_fds || threads >= self.max_threads || stack
                > self.max_stack_size),
    {
        let mut violations: usize = 0;
        if fds >= self.max_fds {
            violations = violations + 1;
        }
        if threads >= self.max_threads {
            violations = violations + 1;
        }
        if stack > self.max_stack_size {
            violations = violations + 1;
        }
        violations > 0
    }
}

/// A limit that was set reads back as the value it was set to.
pub proof fn law_set_then_get(before: ResourceLimits, after: ResourceLimits, resource: usize, value: usize)
    requires
        resource == 0 ==> after == (ResourceLimits { cpu_time_limit: value, ..before }),
        resource == 1 ==> after == (ResourceLimits { max_file_size: value, ..before }),
        resource == 2 ==> after == (ResourceLimits { max_data_size: value, ..before }),
        resource == 3 ==> after == (ResourceLimits { max_stack_size: value, ..before }),
        resource == 7 ==> after == (ResourceLimits { max_fds: value, ..before }),
        resource == 0 || resource == 1 || resource == 2 || resource == 3 || resource == 7,
    ensures
        resource == 0 ==> after.cpu_time_limit == value,
        resource == 1 ==> after.max_file_size == value,
        resource == 2 ==> after.max_data_size == value,
        resource == 3 ==> after.max_stack_size == value,
        resource == 7 ==> after.max_fds == value,
{
}

} // verus!

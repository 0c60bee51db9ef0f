use vstd::prelude::*;
use crate::consts::{KERN_BASE, N_REGS};

verus! {

/// Saved CPU context: general registers (the last is the stack pointer,
/// the one before it the thread pointer), instruction pointer and flags.
#[derive(Clone, Copy, PartialEq, Eq)]
pub struct Context {
    pub r: [u64; N_REGS],
    pub ip: u64,
    pub flags: u64,
}

/// FNV-1a style mixing of `regs` into `h`.
pub open spec fn fnv_regs(h: u64, regs: Seq<u64>) -> u64
    decreases regs.len(),
{
    if regs.len() == 0 {
        h
    } else {
        fnv_regs(vstd::wrapping::u64_specs::wrapping_mul(h ^ regs[0], 0x100000001b3u64), regs.drop_first())
    }
}

/// The changes from `a` to `b` among registers `from..`, as
/// `(index, old, new)` in register order.
pub open spec fn reg_changes(a: Seq<u64>, b: Seq<u64>, from: int) -> Seq<(usize, u64, u64)>
    decreases a.len() - from,
{
    if from < 0 || from >= a.len() {
        Seq::empty()
    } else if a[from] != b[from] {
        seq![(from as usize, a[from], b[from])] + reg_changes(a, b, from + 1)
    } else {
        reg_changes(a, b, from + 1)
    }
}

/// The value `reg_class` derives from a register: the low 60 bits when the
/// top nibble is below 8, the two's complement negation when it is 8 to 11,
/// the value itself otherwise.
pub open spec fn reg_class_of(v: u64) -> u64 {
    let top = v >> 60u64;
    if top <= 7 {
        v & 0x0FFF_FFFF_FFFF_FFFFu64
    } else if top <= 11 {
        vstd::wrapping::u64_specs::wrapping_sub(0, v)
    } else {
        v
    }
}

impl Context {
    /// A context with every register zero.
    pub fn new() -> (r: Self)
        ensures
            forall|i: int| 0 <= i < N_REGS ==> #[trigger] r.r@[i] == 0,
            r.ip == 0,
            r.flags == 0,
    {
        Context { r: [0u64; 16], ip: 0, flags: 0 }
    }

    /// A context holding `source_registers`, with zero instruction pointer
    /// and flags.
    pub fn capture(source_registers: &[u64; N_REGS]) -> (r: Self)
        ensures
            r.r@ == source_registers@,
            r.ip == 0,
            r.flags == 0,
    {
        Context { r: *source_registers, ip: 0, flags: 0 }
    }

    /// The registers, in captured order.
    pub fn apply(&self) -> (r: [u64; N_REGS])
        ensures
            r@ == self.r@,
    {
        self.r
    }

    pub fn set_ip(&mut self, value: u64)
        ensures
            final(self).ip == value,
            final(self).r@ == old(self).r@,
            final(self).flags == old(self).flags,
    {
        self.ip = value;
    }

    /// Sets the stack pointer, the last register.
    pub fn set_sp(&mut self, value: u64)
        ensures
            final(self).r@ == old(self).r@.update(N_REGS - 1, value),
            final(self).ip == old(self).ip,
            final(self).flags == old(self).flags,
    {
        self.r[N_REGS - 1] = value;
    }

    /// Sets the return value, register 0.
    pub fn set_ret(&mut self, value: u64)
        ensures
            final(self).r@ == old(self).r@.update(0, value),
            final(self).ip == old(self).ip,
            final(self).flags == old(self).flags,
    {
        self.r[0] = value;
    }

    /// Sets the thread pointer, the register before the stack pointer.
    pub fn set_tls(&mut self, value: u64)
        ensures
            final(self).r@ == old(self).r@.update(N_REGS - 2, value),
            final(self).ip == old(self).ip,
            final(self).flags == old(self).flags,
    {
        self.r[N_REGS - 2] = value;
    }

    /// A copy with one field replaced, selected by the low four bits of
    /// `operation`: 0 return value, 1 instruction pointer, 2 stack pointer,
    /// 3 thread pointer, 4 flags, 5 the register named by the top byte of
    /// `value` (set to its low 56 bits); anything else changes nothing.
    pub fn transform(&self, operation: u8, value: u64) -> (r: Context)
        ensures
            r.ip == (if operation & 0x0f == 1 {
                value
            } else {
                self.ip
            }),
            r.flags == (if operation & 0x0f == 4 {
                value
            } else {
                self.flags
            }),
            r.r@ == (if operation & 0x0f == 0 {
                self.r@.update(0, value)
            } else if operation & 0x0f == 2 {
                self.r@.update(15, value)
            } else if operation & 0x0f == 3 {
                self.r@.update(14, value)
            } else if operation & 0x0f == 5 && (value >> 56u64) < 16 {
                self.r@.update((value >> 56u64) as int, value & 0x00FF_FFFF_FFFF_FFFFu64)
            } else {
                self.r@
            }),
    {
        let mut output = *self;
        assert(output.r@ =~= self.r@);
        let k = operation & 0x0F;
        if k == 0 {
            output.r[0] = value;
            assert(output.r@ =~= self.r@.update(0, value));
        } else if k == 1 {
            output.ip = value;
        } else if k == 2 {
            output.r[N_REGS - 1] = value;
            assert(output.r@ =~= self.r@.update(15, value));
        } else if k == 3 {
            output.r[N_REGS - 2] = value;
            assert(output.r@ =~= self.r@.update(14, value));
        } else if k == 4 {
            output.flags = value;
        } else if k == 5 {
            assert(value >> 56u64 <= 255) by (bit_vector);
            let register_index = (value >> 56) as usize;
            if register_index < N_REGS {
                output.r[register_index] = value & 0x00FF_FFFF_FFFF_FFFF;
                assert(output.r@ =~= self.r@.update(register_index as int, value & 0x00FF_FFFF_FFFF_FFFFu64));
            }
        }
        output
    }

    /// The six syscall arguments, registers 0 to 5.
    pub fn syscall_args(&self) -> (r: (u64, u64, u64, u64, u64, u64))
        ensures
            r == (self.r@[0], self.r@[1], self.r@[2], self.r@[3], self.r@[4], self.r@[5]),
    {
        (self.r[0], self.r[1], self.r[2], self.r[3], self.r[4], self.r[5])
    }

    /// A copy with register 0 set to `return_value`.
    pub fn clone_with_ret(&self, return_value: u64) -> (r: Context)
        ensures
            r.r@ == self.r@.update(0, return_value),
            r.ip == self.ip,
            r.flags == self.flags,
    {
        let mut context = *self;
        context.r[0] = return_value;
        context
    }

    /// The fields that differ from `other`, as `(index, mine, theirs)`:
    /// registers in order, then the instruction pointer as index `N_REGS`
    /// and the flags as `N_REGS + 1`.
    pub fn diff(&self, other: &Context) -> (r: Vec<(usize, u64, u64)>)
        ensures
            r@ == reg_changes(self.r@, other.r@, 0) + (if self.ip != other.ip {
                seq![(N_REGS, self.ip, other.ip)]
            } else {
                Seq::empty()
            }) + (if self.flags != other.flags {
                seq![((N_REGS + 1) as usize, self.flags, other.flags)]
            } else {
                Seq::empty()
            }),
    {
        let mut changes: Vec<(usize, u64, u64)> = Vec::new();
        let mut i: usize = 0;
        while i < N_REGS
            invariant
                i <= N_REGS,
                self.r@.len() == N_REGS,
                other.r@.len() == N_REGS,
                changes@ + reg_changes(self.r@, other.r@, i as int) == reg_changes(self.r@, other.r@, 0),
            decreases N_REGS - i,
        {
            if self.r[i] != other.r[i] {
                proof {
                    assert(changes@.push((i, self.r@[i as int], other.r@[i as int])) + reg_changes(self.r@, other.r@, i + 1)
                        =~= changes@ + reg_changes(self.r@, other.r@, i as int));
                }
                changes.push((i, self.r[i], other.r[i]));
            }
            i = i + 1;
        }
        proof {
            assert(changes@ =~= reg_changes(self.r@, other.r@, 0));
        }
        let ghost regs = changes@;
        if self.ip != other.ip {
            changes.push((N_REGS, self.ip, other.ip));
        }
        let ghost with_ip = changes@;
        proof {
            assert(with_ip =~= regs + (if self.ip != other.ip {
                seq![(N_REGS, self.ip, other.ip)]
            } else {
                Seq::empty()
            }));
        }
        if self.flags != other.flags {
            changes.push((N_REGS + 1, self.flags, other.flags));
        }
        proof {
            assert(changes@ =~= with_ip + (if self.flags != other.flags {
                seq![((N_REGS + 1) as usize, self.flags, other.flags)]
            } else {
                Seq::empty()
            }));
        }
        changes
    }

    /// FNV-1a style hash over the registers, the instruction pointer and the
    /// flags (the flags are mixed in without a final multiply).
    pub fn hash(&self) -> (r: u64)
        ensures
            r == vstd::wrapping::u64_specs::wrapping_mul(fnv_regs(0xcbf29ce484222325u64, self.r@) ^ self.ip, 0x100000001b3u64)
                ^ self.flags,
    {
        let mut hash: u64 = 0xcbf29ce484222325;
        let mut i: usize = 0;
        assert(self.r@.subrange(0, N_REGS as int) =~= self.r@);
        while i < N_REGS
            invariant
                i <= N_REGS,
                self.r@.len() == N_REGS,
                fnv_regs(hash, self.r@.subrange(i as int, N_REGS as int)) == fnv_regs(0xcbf29ce484222325u64, self.r@),
            decreases N_REGS - i,
        {
            proof {
                assert(self.r@.subrange(i as int, N_REGS as int).drop_first() =~= self.r@.subrange(i + 1, N_REGS as int));
            }
            hash = hash ^ self.r[i];
            hash = hash.wrapping_mul(0x100000001b3);
            i = i + 1;
        }
        proof {
            assert(self.r@.subrange(i as int, N_REGS as int).len() == 0);
        }
        hash = hash ^ self.ip;
        hash = hash.wrapping_mul(0x100000001b3);
        hash = hash ^ self.flags;
        hash
    }

    /// Classifies register `register_index` by its top nibble; 0 for an
    /// index past the last register.
    pub fn reg_class(&self, register_index: usize) -> (r: u64)
        ensures
            register_index >= N_REGS ==> r == 0,
            register_index < N_REGS ==> r == reg_class_of(self.r@[register_index as int]),
    {
        if register_index >= N_REGS {
            return 0;
        }
        let register_value = self.r[register_index];
        let top = register_value >> 60;
        if top <= 7 {
            register_value & 0x0FFF_FFFF_FFFF_FFFF
        } else if top <= 11 {
            0u64.wrapping_sub(register_value)
        } else {
            register_value
        }
    }
}

/// Trap and interrupt state: whether a handler runs, the hardware and
/// software interrupt masks, the nesting depth, the last dispatched frame,
/// a stack of saved frames, and the IRQ and suppression flags.
pub struct TrapCtl {
    pub active: bool,
    pub hw_mask: u32,
    pub sw_mask: u32,
    pub nest: usize,
    pub frame: Option<Context>,
    pub stack: Vec<Context>,
    pub irq_on: bool,
    pub suppressed: bool,
}

/// Whether `dispatch_vector` dispatches `vector` under the masks: 14 (page
/// fault) always; 0 to 7 when their hardware bit is set; 8 to 13 and 15
/// when software bit `vector - 8` is set; nothing else.
pub open spec fn vector_dispatched(hw: u32, sw: u32, vector: usize) -> bool {
    if vector == 14 {
        true
    } else if vector <= 7 {
        hw & (1u32 << (vector as u32)) != 0
    } else if 8 <= vector <= 15 {
        sw & (1u32 << ((vector - 8) as u32)) != 0
    } else {
        false
    }
}

impl TrapCtl {
    /// Idle state: no handler, masks clear, IRQs on, nothing saved.
    pub fn new() -> (r: Self)
        ensures
            !r.active,
            r.hw_mask == 0,
            r.sw_mask == 0,
            r.nest == 0,
            r.frame is None,
            r.stack@.len() == 0,
            r.irq_on,
            !r.suppressed,
    {
        TrapCtl {
            active: false,
            hw_mask: 0,
            sw_mask: 0,
            nest: 0,
            frame: None,
            stack: Vec::new(),
            irq_on: true,
            suppressed: false,
        }
    }

    /// Clears `clear_bits` and sets `set_bits` in the hardware mask; the
    /// software mask becomes `set_bits`.
    pub fn configure(&mut self, clear_bits: u32, set_bits: u32)
        ensures
            final(self).hw_mask == (old(self).hw_mask & !clear_bits) | set_bits,
            final(self).sw_mask == set_bits,
            final(self).active == old(self).active,
            final(self).nest == old(self).nest,
            final(self).frame == old(self).frame,
            final(self).stack@ == old(self).stack@,
            final(self).irq_on == old(self).irq_on,
            final(self).suppressed == old(self).suppressed,
    {
        self.hw_mask = (self.hw_mask & !clear_bits) | set_bits;
        self.sw_mask = set_bits;
    }

    pub fn hw(&self) -> (r: u32)
        ensures
            r == self.hw_mask,
    {
        self.hw_mask
    }

    pub fn sw(&self) -> (r: u32)
        ensures
            r == self.sw_mask,
    {
        self.sw_mask
    }

    /// Whether a handler is running or nested.
    pub fn in_handler(&self) -> (r: bool)
        ensures
            r == (self.active || self.nest > 0),
    {
        self.active || self.nest > 0
    }

    /// Records `ctx` as the current frame and hands it back.
    pub fn dispatch(&mut self, ctx: Context) -> (r: Context)
        ensures
            r == ctx,
            final(self).frame == Some(ctx),
            final(self).active == old(self).active,
            final(self).hw_mask == old(self).hw_mask,
            final(self).sw_mask == old(self).sw_mask,
            final(self).nest == old(self).nest,
            final(self).stack@ == old(self).stack@,
            final(self).irq_on == old(self).irq_on,
            final(self).suppressed == old(self).suppressed,
    {
        self.frame = Some(ctx);
        ctx
    }

    /// The last dispatched frame.
    pub fn current(&self) -> (r: Option<Context>)
        ensures
            r == self.frame,
    {
        self.frame
    }

    /// Handles an interrupt: dispatches `ctx` inside a nested handler and
    /// then restores the handler and IRQ state it found.
    pub fn handle_irq(&mut self, ctx: Context) -> (r: Context)
        ensures
            r == ctx,
            final(self).frame == Some(ctx),
            final(self).active == old(self).active,
            final(self).hw_mask == old(self).hw_mask,
            final(self).sw_mask == old(self).sw_mask,
            final(self).nest == old(self).nest,
            final(self).stack@ == old(self).stack@,
            final(self).irq_on == old(self).irq_on,
            final(self).suppressed == old(self).suppressed,
    {
        let was_active = self.active;
        let was_irq_on = self.irq_on;
        self.active = true;
        self.irq_on = true;
        let before = self.nest;
        self.nest = self.nest.wrapping_add(1);
        let dispatched = self.dispatch(ctx);
        self.nest = self.nest.wrapping_sub(1);
        proof {
            assert(self.nest == before) by {
                assert(vstd::wrapping::usize_specs::wrapping_sub(vstd::wrapping::usize_specs::wrapping_add(before, 1), 1) == before);
            }
        }
        self.irq_on = was_irq_on;
        self.active = was_active;
        dispatched
    }

    /// A page fault at a kernel address outside any handler is an error.
    pub fn on_pgfault(&self, fault_addr: usize) -> (r: Result<(), &'static str>)
        ensures
            r == (if fault_addr >= KERN_BASE && !self.active && self.nest == 0 {
                Err("fault")
            } else {
                Ok(())
            }),
    {
        if fault_addr >= KERN_BASE && !self.active && self.nest == 0 {
            return Err("fault");
        }
        Ok(())
    }

    /// Dispatches `ctx` when `vector` is unmasked (see `vector_dispatched`);
    /// either way `ctx` comes back.
    pub fn dispatch_vector(&mut self, vector: usize, ctx: Context) -> (r: Context)
        ensures
            r == ctx,
            final(self).frame == (if vector_dispatched(old(self).hw_mask, old(self).sw_mask, vector) {
                Some(ctx)
            } else {
                old(self).frame
            }),
            final(self).active == old(self).active,
            final(self).hw_mask == old(self).hw_mask,
            final(self).sw_mask == old(self).sw_mask,
            final(self).nest == old(self).nest,
            final(self).stack@ == old(self).stack@,
            final(self).irq_on == old(self).irq_on,
            final(self).suppressed == old(self).suppressed,
    {
        let hardware_mask = self.hw_mask;
        let software_mask = self.sw_mask;
        if vector == 14 {
            let _ = self.on_pgfault(0);
            self.dispatch(ctx)
        } else if vector <= 7 {
            if hardware_mask & (1u32 << (vector as u32)) != 0 {
                return self.dispatch(ctx);
            }
            ctx
        } else if vector <= 15 {
            let software_bit = vector - 8;
            if software_mask & (1u32 << (software_bit as u32)) != 0 {
                return self.dispatch(ctx);
            }
            ctx
        } else {
            ctx
        }
    }

    /// Saves a copy of `ctx` on the frame stack.
    pub fn push_frame(&mut self, ctx: &Context)
        ensures
            final(self).stack@ == old(self).stack@.push(*ctx),
            final(self).frame == old(self).frame,
            final(self).nest == old(self).nest,
    {
        self.stack.push(*ctx);
    }

    /// Takes the most recently saved frame.
    pub fn pop_frame(&mut self) -> (r: Option<Context>)
        ensures
            old(self).stack@.len() == 0 ==> r is None && final(self).stack@ == old(self).stack@,
            old(self).stack@.len() > 0 ==> r == Some(old(self).stack@.last()) && final(self).stack@
                == old(self).stack@.drop_last(),
            final(self).frame == old(self).frame,
            final(self).nest == old(self).nest,
    {
        self.stack.pop()
    }

    pub fn nest_depth(&self) -> (r: usize)
        ensures
            r == self.nest,
    {
        self.nest
    }

    pub fn suppress(&mut self)
        ensures
            final(self).suppressed,
            final(self).frame == old(self).frame,
            final(self).nest == old(self).nest,
            final(self).active == old(self).active,
    {
        self.suppressed = true;
    }

    pub fn unsuppress(&mut self)
        ensures
            !final(self).suppressed,
            final(self).frame == old(self).frame,
            final(self).nest == old(self).nest,
            final(self).active == old(self).active,
    {
        self.suppressed = false;
    }
}

/// Pushing a frame and popping gives the frame back and the stack as it was.
pub proof fn law_push_pop_frame(stack: Seq<Context>, ctx: Context)
    ensures
        stack.push(ctx).last() == ctx,
        stack.push(ctx).drop_last() == stack,
{
    assert(stack.push(ctx).drop_last() =~= stack);
}

} // verus!

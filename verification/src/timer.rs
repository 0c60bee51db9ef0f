use vstd::prelude::*;
use crate::consts::USEC_TICK;

verus! {

/// One timer against the global tick clock. A timer with a nonzero
/// interval repeats.
pub struct TimerEntry {
    pub deadline: usize,
    pub interval: usize,
    pub callback_id: usize,
    pub active: bool,
    pub repeat: bool,
}

impl TimerEntry {
    pub fn new(deadline: usize, interval: usize, callback_id: usize) -> (r: Self)
        ensures
            r == (TimerEntry { deadline, interval, callback_id, active: true, repeat: interval > 0 }),
    {
        TimerEntry { deadline, interval, callback_id, active: true, repeat: interval > 0 }
    }

    /// Expired at the deadline tick and after it.
    pub fn expired(&self, now: usize) -> (r: bool)
        ensures
            r == (now >= self.deadline),
    {
        now >= self.deadline
    }

    /// A repeating timer moves its deadline one interval past `now`
    /// (saturating); a one-shot timer becomes inactive.
    pub fn reset(&mut self, now: usize)
        ensures
            old(self).repeat ==> final(self).deadline == (if now + old(self).interval > usize::MAX {
                usize::MAX as int
            } else {
                now + old(self).interval
            }) && final(self).active == old(self).active,
            !old(self).repeat ==> !final(self).active && final(self).deadline == old(self).deadline,
            final(self).interval == old(self).interval,
            final(self).callback_id == old(self).callback_id,
            final(self).repeat == old(self).repeat,
    {
        if self.repeat {
            self.deadline = now.saturating_add(self.interval);
        } else {
            self.active = false;
        }
    }

    /// Ticks left until the deadline, zero once it has passed.
    pub fn remaining(&self, now: usize) -> (r: usize)
        ensures
            r == (if now >= self.deadline {
                0
            } else {
                self.deadline - now
            }),
    {
        if now >= self.deadline {
            0
        } else {
            self.deadline - now
        }
    }

    pub fn cancel(&mut self)
        ensures
            !final(self).active,
            final(self).deadline == old(self).deadline,
            final(self).interval == old(self).interval,
            final(self).callback_id == old(self).callback_id,
            final(self).repeat == old(self).repeat,
    {
        self.active = false;
    }
}

/// The wall clock (ticks of CPU 0) and the tick count over all CPUs.
pub struct Clocks {
    pub wall: usize,
    pub all: usize,
}

impl Clocks {
    pub fn new() -> (r: Self)
        ensures
            r.wall == 0 && r.all == 0,
    {
        Clocks { wall: 0, all: 0 }
    }
}

pub fn wclk(clk: &Clocks) -> (r: usize)
    ensures
        r == clk.wall,
{
    clk.wall
}

pub fn cclk(clk: &Clocks) -> (r: usize)
    ensures
        r == clk.all,
{
    clk.all
}

/// One timer tick on `cpu_id`: CPU 0 also advances the wall clock. Both
/// counters wrap.
pub fn dtk(clk: &mut Clocks, cpu_id: usize)
    ensures
        final(clk).all == vstd::wrapping::usize_specs::wrapping_add(old(clk).all, 1),
        cpu_id == 0 ==> final(clk).wall == vstd::wrapping::usize_specs::wrapping_add(old(clk).wall, 1),
        cpu_id != 0 ==> final(clk).wall == old(clk).wall,
{
    if cpu_id == 0 {
        clk.wall = clk.wall.wrapping_add(1);
    }
    clk.all = clk.all.wrapping_add(1);
}

/// Milliseconds since boot from the wall clock, saturating.
pub fn up_ms(clk: &Clocks) -> (r: usize)
    ensures
        r == (if clk.wall * USEC_TICK > usize::MAX {
            usize::MAX as int
        } else {
            clk.wall * USEC_TICK
        }) / 1000,
{
    let us = match clk.wall.checked_mul(USEC_TICK) {
        Some(v) => v,
        None => usize::MAX,
    };
    us / 1000
}

pub fn tmr(clk: &mut Clocks, cpu_id: usize)
    ensures
        final(clk).all == vstd::wrapping::usize_specs::wrapping_add(old(clk).all, 1),
        cpu_id == 0 ==> final(clk).wall == vstd::wrapping::usize_specs::wrapping_add(old(clk).wall, 1),
        cpu_id != 0 ==> final(clk).wall == old(clk).wall,
{
    dtk(clk, cpu_id);
}

/// Serial input normalisation: carriage return becomes newline.
pub fn ser(byte: u8) -> (r: u8)
    ensures
        r == (if byte == 13 {
            10u8
        } else {
            byte
        }),
{
    if byte == 13 {
        10
    } else {
        byte
    }
}

} // verus!

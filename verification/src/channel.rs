use vstd::prelude::*;
use crate::circbuf::CircBuf;
use crate::sync::Spin;
use crate::syncq::SyncQueue;

verus! {

/// The largest ring a channel allocates.
pub const CHANNEL_MAX_CAPACITY: usize = 1048576;

/// Blocking byte channel used by terminal-style producers and consumers:
/// `buf` stores the bytes, `guard` serialises receivers, `wq` holds the
/// blocked receivers and `shut` marks the closed state.
pub struct Channel {
    pub buf: CircBuf,
    pub guard: Spin,
    pub wq: SyncQueue,
    pub shut: bool,
}

/// `capacity` clamped to 1 ..= `CHANNEL_MAX_CAPACITY`.
pub open spec fn clamped_capacity(capacity: usize) -> int {
    if capacity < 1 {
        1
    } else if capacity > CHANNEL_MAX_CAPACITY {
        CHANNEL_MAX_CAPACITY as int
    } else {
        capacity as int
    }
}

/// The number of bytes a batch of `n` bytes stores in a ring holding
/// `len` of `capacity` bytes.
pub open spec fn batch_room(capacity: int, len: int, n: int) -> int {
    if n <= capacity - len {
        n
    } else {
        capacity - len
    }
}

impl Channel {
    /// The ring is well formed and its capacity is in range.
    pub open spec fn wf(&self) -> bool {
        &&& self.buf.wf()
        &&& 1 <= self.buf.capacity <= CHANNEL_MAX_CAPACITY
    }

    /// The queued bytes, oldest first.
    pub open spec fn queued(&self) -> Seq<u8> {
        self.buf.contents()
    }

    pub fn new(capacity: usize) -> (r: Self)
        ensures
            r.wf(),
            r.buf.capacity == clamped_capacity(capacity),
            r.queued().len() == 0,
            r.buf.read_cursor == 0,
            r.buf.write_cursor == 0,
            !r.guard.locked,
            r.wq.waiters@.len() == 0,
            r.wq.pending_signal_tokens == 0,
            r.wq.epoll_registrations@.len() == 0,
            !r.shut,
    {
        let effective_capacity = if capacity < 1 {
            1
        } else if capacity > CHANNEL_MAX_CAPACITY {
            CHANNEL_MAX_CAPACITY
        } else {
            capacity
        };
        Channel {
            buf: CircBuf::new(effective_capacity),
            guard: Spin::new(),
            wq: SyncQueue::new(),
            shut: false,
        }
    }

    /// Takes the oldest byte under the ring's well-formedness.
    fn take_front(&mut self) -> (r: Option<u8>)
        requires
            old(self).wf(),
            old(self).buf.read_cursor < usize::MAX,
        ensures
            final(self).wf(),
            old(self).queued().len() == 0 ==> r is None && final(self).buf == old(self).buf,
            old(self).queued().len() > 0 ==> r == Some(old(self).queued()[0])
                && final(self).queued() == old(self).queued().drop_first()
                && final(self).buf.read_cursor == old(self).buf.read_cursor + 1,
            final(self).buf.write_cursor == old(self).buf.write_cursor,
            final(self).buf.capacity == old(self).buf.capacity,
            final(self).guard == old(self).guard,
            final(self).wq == old(self).wq,
            final(self).shut == old(self).shut,
    {
        let ghost before = self.buf;
        proof {
            if before.len > 0 {
                crate::circbuf::lemma_pop_front(before);
                assert(vstd::wrapping::usize_specs::wrapping_add(before.read_cursor, 1) == before.read_cursor + 1);
            }
        }
        let r = self.buf.pop();
        proof {
            if before.len > 0 {
                assert(self.buf.contents() =~= before.contents().drop_first());
            }
        }
        r
    }

    /// One attempt of a blocking receive by thread `tid`: the oldest byte
    /// (`Some(Some(..))`) when one is queued, end of stream (`Some(None)`)
    /// when the channel is closed and empty, otherwise the thread queues
    /// on `wq` and parks (`None`), trying again after it is woken.
    pub fn recv(&mut self, tid: usize) -> (r: Option<Option<u8>>)
        requires
            old(self).wf(),
            old(self).buf.read_cursor < usize::MAX,
            !old(self).guard.locked,
        ensures
            final(self).wf(),
            !final(self).guard.locked,
            final(self).shut == old(self).shut,
            old(self).queued().len() > 0 ==> r == Some(Some(old(self).queued()[0]))
                && final(self).queued() == old(self).queued().drop_first()
                && final(self).wq == old(self).wq,
            old(self).queued().len() == 0 && old(self).shut ==> r == Some(None::<u8>)
                && final(self).buf == old(self).buf && final(self).wq == old(self).wq,
            old(self).queued().len() == 0 && !old(self).shut ==> r is None && final(self).buf
                == old(self).buf && final(self).wq.waiters@ == crate::syncq::pushed_once(
                old(self).wq.waiters@,
                tid,
            ) && final(self).wq.pending_signal_tokens == old(self).wq.pending_signal_tokens
                && final(self).wq.epoll_registrations@ == old(self).wq.epoll_registrations@,
    {
        self.guard.acquire();
        let popped = self.take_front();
        if let Some(value) = popped {
            self.guard.release();
            return Some(Some(value));
        }
        if self.shut {
            self.guard.release();
            return Some(None);
        }
        let queued = self.wq.enqueue_if(tid, !self.shut);
        self.guard.release();
        if queued {
            None
        } else {
            Some(None)
        }
    }

    /// Queues `value` unless the channel is closed or full; a stored byte
    /// wakes one blocked receiver.
    pub fn send(&mut self, value: u8) -> (r: bool)
        requires
            old(self).wf(),
            old(self).buf.write_cursor < usize::MAX,
        ensures
            final(self).wf(),
            r == (!old(self).shut && old(self).queued().len() < old(self).buf.capacity),
            r ==> final(self).queued() == old(self).queued().push(value)
                && final(self).wq.waiters@ == old(self).wq.waiters@.subrange(
                if old(self).wq.waiters@.len() > 0 { 1 } else { 0 },
                old(self).wq.waiters@.len() as int,
            ),
            !r ==> final(self).buf == old(self).buf && final(self).wq == old(self).wq,
            final(self).buf.read_cursor == old(self).buf.read_cursor,
            final(self).buf.capacity == old(self).buf.capacity,
            final(self).wq.pending_signal_tokens == old(self).wq.pending_signal_tokens,
            final(self).wq.epoll_registrations@ == old(self).wq.epoll_registrations@,
            final(self).shut == old(self).shut,
            final(self).guard == old(self).guard,
    {
        if self.shut {
            return false;
        }
        let ghost before = self.buf;
        proof {
            if before.len < before.capacity {
                crate::circbuf::lemma_push_back(before, value);
                assert(vstd::wrapping::usize_specs::wrapping_add(before.write_cursor, 1) == before.write_cursor + 1);
            }
        }
        let written = self.buf.push(value);
        proof {
            if written {
                assert(self.buf.contents() =~= before.contents().push(value));
            }
        }
        if written {
            let _ = self.wq.signal_n(1);
        }
        written
    }

    /// Marks the channel closed and wakes every blocked receiver.
    pub fn close(&mut self)
        ensures
            final(self).shut,
            final(self).wq.waiters@.len() == 0,
            final(self).wq.pending_signal_tokens == old(self).wq.pending_signal_tokens,
            final(self).wq.epoll_registrations@ == old(self).wq.epoll_registrations@,
            final(self).buf == old(self).buf,
            final(self).guard == old(self).guard,
    {
        self.shut = true;
        self.wq.broadcast();
    }

    /// Takes the oldest byte without blocking; `None` when the channel is
    /// empty or another receiver holds the guard.
    pub fn try_recv(&mut self) -> (r: Option<u8>)
        requires
            old(self).wf(),
            old(self).buf.read_cursor < usize::MAX,
        ensures
            final(self).wf(),
            final(self).guard.locked == old(self).guard.locked,
            old(self).guard.locked ==> r is None && final(self).buf == old(self).buf,
            !old(self).guard.locked && old(self).queued().len() > 0 ==> r == Some(
                old(self).queued()[0],
            ) && final(self).queued() == old(self).queued().drop_first(),
            !old(self).guard.locked && old(self).queued().len() == 0 ==> r is None && final(self).buf
                == old(self).buf,
            final(self).wq == old(self).wq,
            final(self).shut == old(self).shut,
    {
        if !self.guard.try_acquire() {
            return None;
        }
        let result = self.take_front();
        self.guard.release();
        result
    }

    /// Queues the longest prefix of `data` that fits, unless the channel is
    /// closed; wakes as many blocked receivers as bytes were stored.
    pub fn send_batch(&mut self, data: &[u8]) -> (r: usize)
        requires
            old(self).wf(),
            old(self).buf.write_cursor + data@.len() <= usize::MAX,
        ensures
            final(self).wf(),
            old(self).shut ==> r == 0 && final(self).buf == old(self).buf && final(self).wq
                == old(self).wq,
            !old(self).shut ==> r == batch_room(
                old(self).buf.capacity as int,
                old(self).queued().len() as int,
                data@.len() as int,
            ),
            final(self).queued() == old(self).queued() + data@.subrange(0, r as int),
            final(self).wq.waiters@ == old(self).wq.waiters@.subrange(
                if r < old(self).wq.waiters@.len() { r as int } else { old(self).wq.waiters@.len() as int },
                old(self).wq.waiters@.len() as int,
            ),
            final(self).buf.capacity == old(self).buf.capacity,
            final(self).wq.pending_signal_tokens == old(self).wq.pending_signal_tokens,
            final(self).wq.epoll_registrations@ == old(self).wq.epoll_registrations@,
            final(self).shut == old(self).shut,
            final(self).guard == old(self).guard,
    {
        if self.shut {
            proof {
                assert(data@.subrange(0, 0) =~= Seq::<u8>::empty());
                assert(self.queued() + Seq::<u8>::empty() =~= self.queued());
                assert(self.wq.waiters@.subrange(0, self.wq.waiters@.len() as int) =~= self.wq.waiters@);
            }
            return 0;
        }
        let written = self.buf.fill_from(data);
        if written > 0 {
            let _ = self.wq.signal_n(written);
        } else {
            proof {
                assert(self.wq.waiters@.subrange(0, self.wq.waiters@.len() as int) =~= self.wq.waiters@);
            }
        }
        written
    }

    /// Number of queued bytes.
    pub fn depth(&self) -> (r: usize)
        requires
            self.wf(),
        ensures
            r == self.queued().len(),
    {
        self.buf.len()
    }

    /// Takes every queued byte, oldest first.
    pub fn drain_all(&mut self) -> (r: Vec<u8>)
        requires
            old(self).wf(),
            old(self).buf.read_cursor + old(self).buf.len <= usize::MAX,
        ensures
            final(self).wf(),
            r@ == old(self).queued(),
            final(self).queued().len() == 0,
            final(self).wq == old(self).wq,
            final(self).shut == old(self).shut,
            final(self).guard == old(self).guard,
    {
        let mut result: Vec<u8> = Vec::new();
        let _ = self.buf.drain_to(&mut result, usize::MAX);
        proof {
            assert(result@ =~= old(self).queued());
        }
        result
    }

    pub fn is_closed(&self) -> (r: bool)
        ensures
            r == self.shut,
    {
        self.shut
    }

    /// Free room in the ring.
    pub fn remaining_capacity(&self) -> (r: usize)
        requires
            self.wf(),
        ensures
            r == self.buf.capacity - self.queued().len(),
    {
        self.buf.remaining()
    }
}

/// Terminal settings in the termios layout.
#[derive(Clone, Copy)]
pub struct TrmIO {
    pub iflag: u32,
    pub oflag: u32,
    pub cflag: u32,
    pub lflag: u32,
    pub line: u8,
    pub cc: [u8; 32],
    pub ispeed: u32,
    pub ospeed: u32,
}

/// The control characters of a default terminal.
pub open spec fn default_cc() -> Seq<u8> {
    seq![
        3u8, 28, 127, 21, 4, 0, 1, 0, 17, 19, 26, 255, 18, 15, 23, 22, 255, 0, 0, 0, 0, 0, 0, 0, 0, 0, 0, 0, 0, 0, 0, 0,
    ]
}

impl Default for TrmIO {
    /// A canonical-mode terminal with echo and the usual control characters.
    fn default() -> (r: Self)
        ensures
            r.iflag == 0o66402,
            r.oflag == 0o5,
            r.cflag == 0o2277,
            r.lflag == 0o105073,
            r.line == 0,
            r.cc@ == default_cc(),
            r.ispeed == 0,
            r.ospeed == 0,
    {
        let cc: [u8; 32] = [
            3, 28, 127, 21, 4, 0, 1, 0, 17, 19, 26, 255, 18, 15, 23, 22, 255, 0, 0, 0, 0, 0, 0, 0, 0, 0, 0, 0, 0, 0, 0, 0,
        ];
        proof {
            assert(cc@ =~= default_cc());
        }
        TrmIO { iflag: 0o66402, oflag: 0o5, cflag: 0o2277, lflag: 0o105073, line: 0, cc, ispeed: 0, ospeed: 0 }
    }
}

/// Terminal window size in characters and pixels.
#[derive(Clone, Copy, Default)]
pub struct WinSz {
    pub row: u16,
    pub col: u16,
    pub xpx: u16,
    pub ypx: u16,
}

} // verus!

use vstd::prelude::*;
use std::collections::VecDeque;
use crate::file::{swap_out, PipeBuf, Vfs};
use crate::sync::{change_spec, survivors, EventBus, EventFlag, Subscriber};

verus! {

/// Direction of a pipe end.
#[derive(Clone, Copy, PartialEq, Eq, Structural)]
pub enum PipeDir {
    Rd,
    Wr,
}

/// One end of a pipe: the shared pipe (by position in a `Vfs`) and its
/// direction.
pub struct PipeNode {
    pub data: usize,
    pub dir: PipeDir,
}

/// A pipe's state as values: buffered bytes, event mask, subscribers, and
/// the counts of ends, readers and writers.
pub type PipeView = (Seq<u8>, u32, Seq<Subscriber>, i32, i32, i32);

pub open spec fn pipe_view(p: PipeBuf) -> PipeView {
    (p.buf@, p.bus.events, p.bus.callbacks@, p.ends, p.readers, p.writers)
}

/// The pipe seen through `pipe_view` after one end of direction `dir`
/// closes.
pub open spec fn close_view(p: PipeView, dir: PipeDir) -> PipeView {
    let readers: int = if dir == PipeDir::Rd {
        if p.4 > 0 {
            p.4 - 1
        } else {
            0
        }
    } else {
        p.4 as int
    };
    let writers: int = if dir == PipeDir::Wr {
        if p.5 > 0 {
            p.5 - 1
        } else {
            0
        }
    } else {
        p.5 as int
    };
    let ends: int = if p.3 > 0 {
        p.3 - 1
    } else {
        0
    };
    let new_ev = p.1 | EventFlag::CLOSED;
    let bus: (u32, Seq<Subscriber>) = if readers == 0 || writers == 0 {
        if new_ev != p.1 {
            (new_ev, survivors(p.2, new_ev))
        } else {
            (new_ev, p.2)
        }
    } else {
        (p.1, p.2)
    };
    (p.0, bus.0, bus.1, ends as i32, readers as i32, writers as i32)
}

/// A read of up to `want` bytes from pipe `p` through an end of direction
/// `dir` into `buf`: the result, the buffer and the pipe afterwards.
pub open spec fn pipe_read_spec(p: PipeBuf, dir: PipeDir, buf: Seq<u8>, want: int) -> (
    Result<usize, &'static str>,
    Seq<u8>,
    PipeView,
) {
    let n = if want < p.buf@.len() {
        want
    } else {
        p.buf@.len() as int
    };
    if want == 0 || dir != PipeDir::Rd {
        (Ok(0), buf, pipe_view(p))
    } else if p.buf@.len() == 0 && p.writers > 0 {
        (Err("again"), buf, pipe_view(p))
    } else {
        let rest = p.buf@.subrange(n, p.buf@.len() as int);
        let bus = if rest.len() == 0 {
            change_spec(p.bus, EventFlag::READABLE, 0)
        } else {
            (p.bus.events, p.bus.callbacks@)
        };
        (
            Ok(n as usize),
            p.buf@.subrange(0, n) + buf.subrange(n, buf.len() as int),
            (rest, bus.0, bus.1, p.ends, p.readers, p.writers),
        )
    }
}

/// A write of `data` to pipe `p` through an end of direction `dir`: the
/// result and the pipe afterwards.
pub open spec fn pipe_write_spec(p: PipeBuf, dir: PipeDir, data: Seq<u8>, len: usize) -> (
    Result<usize, &'static str>,
    PipeView,
) {
    if dir != PipeDir::Wr {
        (Ok(0), pipe_view(p))
    } else if p.readers == 0 {
        (Err("epipe"), pipe_view(p))
    } else {
        let bus = change_spec(p.bus, 0, EventFlag::READABLE);
        (Ok(len), (p.buf@ + data, bus.0, bus.1, p.ends, p.readers, p.writers))
    }
}

fn empty_pipe() -> (r: PipeBuf)
    ensures
        r.buf@.len() == 0,
        r.bus.events == 0,
        r.bus.callbacks@.len() == 0,
        r.ends == 0,
        r.readers == 0,
        r.writers == 0,
{
    PipeBuf { buf: VecDeque::new(), bus: EventBus::new(), ends: 0, readers: 0, writers: 0 }
}

impl PipeNode {
    pub open spec fn valid(&self, v: &Vfs) -> bool {
        self.data < v.pipes@.len()
    }

    /// The shared pipe this end belongs to.
    pub open spec fn buf(&self, v: &Vfs) -> PipeBuf {
        v.pipes@[self.data as int]
    }

    /// A new pipe: its read end and its write end.
    pub fn pair(v: &mut Vfs) -> (r: (PipeNode, PipeNode))
        ensures
            r.0.data == old(v).pipes@.len() && r.0.dir == PipeDir::Rd,
            r.1.data == old(v).pipes@.len() && r.1.dir == PipeDir::Wr,
            final(v).pipes@.len() == old(v).pipes@.len() + 1,
            forall|i: int| 0 <= i < old(v).pipes@.len() ==> #[trigger] final(v).pipes@[i] == old(v).pipes@[i],
            ({
                let p = final(v).pipes@[old(v).pipes@.len() as int];
                &&& p.buf@.len() == 0
                &&& p.bus.events == 0
                &&& p.bus.callbacks@.len() == 0
                &&& p.ends == 2
                &&& p.readers == 1
                &&& p.writers == 1
            }),
            final(v).files@ == old(v).files@,
            final(v).descs@ == old(v).descs@,
            final(v).ep_maps@ == old(v).ep_maps@,
            final(v).ep_sets@ == old(v).ep_sets@,
    {
        let idx = v.pipes.len();
        v.pipes.push(PipeBuf { buf: VecDeque::new(), bus: EventBus::new(), ends: 2, readers: 1, writers: 1 });
        (PipeNode { data: idx, dir: PipeDir::Rd }, PipeNode { data: idx, dir: PipeDir::Wr })
    }

    /// Another end on the same pipe and in the same direction; the pipe
    /// counts it.
    pub fn clone_end(&self, v: &mut Vfs) -> (r: PipeNode)
        requires
            self.valid(old(v)),
            self.buf(old(v)).ends < i32::MAX,
            self.dir == PipeDir::Rd ==> self.buf(old(v)).readers < i32::MAX,
            self.dir == PipeDir::Wr ==> self.buf(old(v)).writers < i32::MAX,
        ensures
            r.data == self.data,
            r.dir == self.dir,
            final(v).pipes@.len() == old(v).pipes@.len(),
            forall|i: int| 0 <= i < old(v).pipes@.len() && i != self.data ==> #[trigger] final(v).pipes@[i] == old(v).pipes@[i],
            ({
                let p = self.buf(old(v));
                let q = final(v).pipes@[self.data as int];
                &&& q.buf@ == p.buf@
                &&& q.bus == p.bus
                &&& q.ends == p.ends + 1
                &&& q.readers == p.readers + if self.dir == PipeDir::Rd { 1int } else { 0 }
                &&& q.writers == p.writers + if self.dir == PipeDir::Wr { 1int } else { 0 }
            }),
            final(v).files@ == old(v).files@,
            final(v).descs@ == old(v).descs@,
            final(v).ep_maps@ == old(v).ep_maps@,
            final(v).ep_sets@ == old(v).ep_sets@,
    {
        let mut p = swap_out(&mut v.pipes, self.data, empty_pipe());
        p.ends = p.ends + 1;
        match self.dir {
            PipeDir::Rd => p.readers = p.readers + 1,
            PipeDir::Wr => p.writers = p.writers + 1,
        }
        let _ = swap_out(&mut v.pipes, self.data, p);
        PipeNode { data: self.data, dir: self.dir }
    }

    /// Closes this end: the pipe counts one end (and one reader or writer)
    /// less, saturating at zero, and raises `CLOSED` once it has no
    /// readers or no writers left.
    pub fn close(self, v: &mut Vfs)
        requires
            self.valid(old(v)),
        ensures
            final(v).pipes@.len() == old(v).pipes@.len(),
            forall|i: int| 0 <= i < old(v).pipes@.len() && i != self.data ==> #[trigger] final(v).pipes@[i] == old(v).pipes@[i],
            ({
                let p = self.buf(old(v));
                let q = final(v).pipes@[self.data as int];
                let readers = if self.dir == PipeDir::Rd && p.readers > 0 { p.readers - 1 } else if self.dir == PipeDir::Rd { 0 } else { p.readers as int };
                let writers = if self.dir == PipeDir::Wr && p.writers > 0 { p.writers - 1 } else if self.dir == PipeDir::Wr { 0 } else { p.writers as int };
                &&& q.buf@ == p.buf@
                &&& q.ends == if p.ends > 0 { p.ends - 1 } else { 0 }
                &&& q.readers == readers
                &&& q.writers == writers
                &&& if readers == 0 || writers == 0 {
                    (q.bus.events, q.bus.callbacks@) == change_spec(p.bus, 0, EventFlag::CLOSED)
                } else {
                    q.bus == p.bus
                }
            }),
            pipe_view(final(v).pipes@[self.data as int]) == close_view(pipe_view(self.buf(old(v))), self.dir),
            final(v).files@ == old(v).files@,
            final(v).descs@ == old(v).descs@,
            final(v).ep_maps@ == old(v).ep_maps@,
            final(v).ep_sets@ == old(v).ep_sets@,
    {
        let mut p = swap_out(&mut v.pipes, self.data, empty_pipe());
        let ev0 = p.bus.events;
        proof {
            assert(ev0 & !0u32 == ev0) by (bit_vector);
        }
        p.ends = if p.ends > 0 {
            p.ends - 1
        } else {
            0
        };
        match self.dir {
            PipeDir::Rd => p.readers = if p.readers > 0 {
                p.readers - 1
            } else {
                0
            },
            PipeDir::Wr => p.writers = if p.writers > 0 {
                p.writers - 1
            } else {
                0
            },
        }
        if p.readers == 0 || p.writers == 0 {
            p.bus.set(EventFlag::CLOSED);
        }
        let _ = swap_out(&mut v.pipes, self.data, p);
    }

    /// A read end can be read when bytes are buffered or no writer is left.
    pub fn can_read(&self, v: &Vfs) -> (r: bool)
        requires
            self.valid(v),
        ensures
            r == (self.dir == PipeDir::Rd && (self.buf(v).buf@.len() > 0 || self.buf(v).writers == 0)),
    {
        if self.dir != PipeDir::Rd {
            return false;
        }
        let p = &v.pipes[self.data];
        p.buf.len() != 0 || p.writers == 0
    }

    /// A write end can be written while a reader is left.
    pub fn can_write(&self, v: &Vfs) -> (r: bool)
        requires
            self.valid(v),
        ensures
            r == (self.dir == PipeDir::Wr && self.buf(v).readers > 0),
    {
        if self.dir != PipeDir::Wr {
            return false;
        }
        v.pipes[self.data].readers > 0
    }

    /// Takes up to `buffer.len()` bytes from the front of the pipe. Nothing
    /// for an empty buffer or a write end; `"again"` when the pipe is empty
    /// but a writer is left. Draining the pipe clears `READABLE`.
    pub fn read_at(&self, v: &mut Vfs, buffer: &mut [u8]) -> (r: Result<usize, &'static str>)
        requires
            self.valid(old(v)),
        ensures
            final(v).pipes@.len() == old(v).pipes@.len(),
            forall|i: int| 0 <= i < old(v).pipes@.len() && i != self.data ==> #[trigger] final(v).pipes@[i] == old(v).pipes@[i],
            (r, final(buffer)@, pipe_view(final(v).pipes@[self.data as int])) == pipe_read_spec(
                self.buf(old(v)),
                self.dir,
                old(buffer)@,
                old(buffer).len() as int,
            ),
            final(v).files@ == old(v).files@,
            final(v).descs@ == old(v).descs@,
            final(v).ep_maps@ == old(v).ep_maps@,
            final(v).ep_sets@ == old(v).ep_sets@,
    {
        if buffer.len() == 0 {
            return Ok(0);
        }
        if self.dir != PipeDir::Rd {
            return Ok(0);
        }
        if v.pipes[self.data].buf.len() == 0 && v.pipes[self.data].writers > 0 {
            return Err("again");
        }
        let mut p = swap_out(&mut v.pipes, self.data, empty_pipe());
        let ghost b0 = p.buf@;
        let ghost p0 = p;
        let n = if buffer.len() < p.buf.len() {
            buffer.len()
        } else {
            p.buf.len()
        };
        let mut k: usize = 0;
        while k < n
            invariant
                k <= n,
                n <= b0.len(),
                n <= buffer@.len(),
                buffer@.len() == old(buffer)@.len(),
                p.buf@ == b0.subrange(k as int, b0.len() as int),
                p.bus == p0.bus,
                p.ends == p0.ends,
                p.readers == p0.readers,
                p.writers == p0.writers,
                forall|j: int| 0 <= j < k ==> buffer@[j] == b0[j],
                forall|j: int| k <= j < buffer@.len() ==> buffer@[j] == old(buffer)@[j],
            decreases n - k,
        {
            let byte = p.buf.pop_front().unwrap();
            buffer[k] = byte;
            k = k + 1;
            proof {
                assert(p.buf@ =~= b0.subrange(k as int, b0.len() as int));
            }
        }
        proof {
            assert(buffer@ =~= b0.subrange(0, n as int) + old(buffer)@.subrange(n as int, old(buffer)@.len() as int));
            assert(old(buffer)@.len() == old(buffer).len());
        }
        if p.buf.len() == 0 {
            p.bus.clear(EventFlag::READABLE);
        }
        let _ = swap_out(&mut v.pipes, self.data, p);
        Ok(n)
    }

    /// Appends `buffer` to the pipe and raises `READABLE`. Nothing for a
    /// read end; `"epipe"` when no reader is left.
    pub fn write_at(&self, v: &mut Vfs, buffer: &[u8]) -> (r: Result<usize, &'static str>)
        requires
            self.valid(old(v)),
        ensures
            final(v).pipes@.len() == old(v).pipes@.len(),
            forall|i: int| 0 <= i < old(v).pipes@.len() && i != self.data ==> #[trigger] final(v).pipes@[i] == old(v).pipes@[i],
            (r, pipe_view(final(v).pipes@[self.data as int])) == pipe_write_spec(
                self.buf(old(v)),
                self.dir,
                buffer@,
                buffer.len(),
            ),
            final(v).files@ == old(v).files@,
            final(v).descs@ == old(v).descs@,
            final(v).ep_maps@ == old(v).ep_maps@,
            final(v).ep_sets@ == old(v).ep_sets@,
    {
        if self.dir != PipeDir::Wr {
            return Ok(0);
        }
        if v.pipes[self.data].readers == 0 {
            return Err("epipe");
        }
        let mut p = swap_out(&mut v.pipes, self.data, empty_pipe());
        let ghost b0 = p.buf@;
        let ghost pw = p;
        let mut k: usize = 0;
        while k < buffer.len()
            invariant
                k <= buffer@.len(),
                p.buf@ == b0 + buffer@.subrange(0, k as int),
                p.bus == pw.bus,
                p.ends == pw.ends,
                p.readers == pw.readers,
                p.writers == pw.writers,
            decreases buffer@.len() - k,
        {
            p.buf.push_back(buffer[k]);
            k = k + 1;
            proof {
                assert(p.buf@ =~= b0 + buffer@.subrange(0, k as int));
            }
        }
        proof {
            assert(buffer@.subrange(0, k as int) =~= buffer@);
        }
        p.bus.set(EventFlag::READABLE);
        let _ = swap_out(&mut v.pipes, self.data, p);
        Ok(buffer.len())
    }

    /// Readable, writable, error.
    pub fn poll(&self, v: &Vfs) -> (r: (bool, bool, bool))
        requires
            self.valid(v),
        ensures
            r == (
                self.dir == PipeDir::Rd && (self.buf(v).buf@.len() > 0 || self.buf(v).writers == 0),
                self.dir == PipeDir::Wr && self.buf(v).readers > 0,
                false,
            ),
    {
        (self.can_read(v), self.can_write(v), false)
    }
}

/// Bytes come out of a pipe in the order they went in: what a write
/// appends is what reads then take from the front.
pub proof fn law_pipe_fifo(before: Seq<u8>, written: Seq<u8>, n: int)
    requires
        0 <= n <= before.len() + written.len(),
    ensures
        (before + written).subrange(0, n) == if n <= before.len() {
            before.subrange(0, n)
        } else {
            before + written.subrange(0, n - before.len())
        },
{
    if n <= before.len() {
        assert((before + written).subrange(0, n) =~= before.subrange(0, n));
    } else {
        assert((before + written).subrange(0, n) =~= before + written.subrange(0, n - before.len()));
    }
}

/// Writing `data` through the write end of a pipe that still has a reader
/// succeeds with all of it, and the pipe then holds the bytes that were
/// waiting followed by `data`; a read through the read end that follows
/// returns the oldest of those bytes first, as many as fit in its buffer.
pub proof fn law_pipe_write_then_read(p: PipeBuf, data: Seq<u8>, q: PipeBuf, buf: Seq<u8>)
    requires
        p.readers > 0,
        data.len() <= usize::MAX,
        pipe_view(q) == pipe_write_spec(p, PipeDir::Wr, data, data.len() as usize).1,
        buf.len() > 0,
    ensures
        pipe_write_spec(p, PipeDir::Wr, data, data.len() as usize).0 == Ok::<usize, &'static str>(
            data.len() as usize,
        ),
        q.buf@ == p.buf@ + data,
        ({
            let all = p.buf@ + data;
            let n = if buf.len() < all.len() {
                buf.len() as int
            } else {
                all.len() as int
            };
            all.len() > 0 ==> {
                &&& pipe_read_spec(q, PipeDir::Rd, buf, buf.len() as int).0 == Ok::<usize, &'static str>(n as usize)
                &&& pipe_read_spec(q, PipeDir::Rd, buf, buf.len() as int).1.subrange(0, n) == all.subrange(0, n)
                &&& pipe_read_spec(q, PipeDir::Rd, buf, buf.len() as int).2.0 == all.subrange(n, all.len() as int)
            }
        }),
{
    let all = p.buf@ + data;
    let n = if buf.len() < all.len() {
        buf.len() as int
    } else {
        all.len() as int
    };
    if all.len() > 0 {
        let out = pipe_read_spec(q, PipeDir::Rd, buf, buf.len() as int);
        assert(out.1.subrange(0, n) =~= all.subrange(0, n));
    }
}

} // verus!

use vstd::prelude::*;
use std::collections::VecDeque;
use crate::sync::{change_spec, EventBus, EventFlag};

verus! {

/// Which end of a pipe a handle is.
#[derive(Clone, Copy, PartialEq, Eq, Structural)]
pub enum PipeEnd {
    Read,
    Write,
}

/// The state both ends of a pipe share: the bytes in flight, the event bus
/// that announces readability and closing, and how many ends (of each
/// kind) are open.
pub struct PipeData {
    pub buf: VecDeque<u8>,
    pub eventbus: EventBus,
    pub end_cnt: i32,
    pub readers: i32,
    pub writers: i32,
}

/// One end of a pipe: the shared state it names (by position in the
/// caller's table of pipes) and its direction. Operations take that shared
/// state as an argument.
#[derive(Clone, Copy)]
pub struct Pipe {
    pub data: usize,
    pub direction: PipeEnd,
}

impl Pipe {
    /// A fresh pipe at position `data`: a read end and a write end over an
    /// empty buffer with one reader and one writer.
    pub fn create_pair(data: usize) -> (r: (Pipe, Pipe, PipeData))
        ensures
            r.0 == (Pipe { data, direction: PipeEnd::Read }),
            r.1 == (Pipe { data, direction: PipeEnd::Write }),
            r.2.buf@.len() == 0,
            r.2.eventbus.events == 0,
            r.2.eventbus.callbacks@.len() == 0,
            r.2.end_cnt == 2,
            r.2.readers == 1,
            r.2.writers == 1,
    {
        let inner = PipeData { buf: VecDeque::new(), eventbus: EventBus::make(), end_cnt: 2, readers: 1, writers: 1 };
        (Pipe { data, direction: PipeEnd::Read }, Pipe { data, direction: PipeEnd::Write }, inner)
    }

    /// Another handle on the same end: the shared counts grow by one.
    pub fn clone_end(&self, d: &mut PipeData) -> (r: Pipe)
        requires
            old(d).end_cnt < i32::MAX,
            self.direction == PipeEnd::Read ==> old(d).readers < i32::MAX,
            self.direction == PipeEnd::Write ==> old(d).writers < i32::MAX,
        ensures
            r == *self,
            final(d).end_cnt == old(d).end_cnt + 1,
            final(d).readers == old(d).readers + if self.direction == PipeEnd::Read {
                1int
            } else {
                0
            },
            final(d).writers == old(d).writers + if self.direction == PipeEnd::Write {
                1int
            } else {
                0
            },
            final(d).buf@ == old(d).buf@,
            final(d).eventbus == old(d).eventbus,
    {
        d.end_cnt = d.end_cnt + 1;
        match self.direction {
            PipeEnd::Read => d.readers = d.readers + 1,
            PipeEnd::Write => d.writers = d.writers + 1,
        }
        *self
    }

    /// Closes this handle: the shared counts drop by one (not below zero),
    /// and once no reader or no writer is left the pipe announces that it
    /// is closed.
    pub fn close_end(&self, d: &mut PipeData)
        requires
            old(d).end_cnt >= 0,
            old(d).readers >= 0,
            old(d).writers >= 0,
        ensures
            final(d).end_cnt == if old(d).end_cnt > 0 {
                old(d).end_cnt - 1
            } else {
                0
            },
            final(d).readers == if self.direction == PipeEnd::Read && old(d).readers > 0 {
                old(d).readers - 1
            } else {
                old(d).readers as int
            },
            final(d).writers == if self.direction == PipeEnd::Write && old(d).writers > 0 {
                old(d).writers - 1
            } else {
                old(d).writers as int
            },
            final(d).buf@ == old(d).buf@,
            (final(d).readers == 0 || final(d).writers == 0) ==> (final(d).eventbus.events, final(d).eventbus.callbacks@)
                == change_spec(old(d).eventbus, 0, EventFlag::CLOSED),
            !(final(d).readers == 0 || final(d).writers == 0) ==> final(d).eventbus == old(d).eventbus,
    {
        d.end_cnt = if d.end_cnt > 0 {
            d.end_cnt - 1
        } else {
            0
        };
        match self.direction {
            PipeEnd::Read => if d.readers > 0 {
                d.readers = d.readers - 1;
            },
            PipeEnd::Write => if d.writers > 0 {
                d.writers = d.writers - 1;
            },
        }
        if d.readers == 0 || d.writers == 0 {
            d.eventbus.set(EventFlag::CLOSED);
        }
    }

    /// A read end can read when bytes wait or no writer is left.
    pub fn can_read(&self, d: &PipeData) -> (r: bool)
        ensures
            r == (self.direction == PipeEnd::Read && (d.buf@.len() > 0 || d.writers == 0)),
    {
        match self.direction {
            PipeEnd::Read => d.buf.len() > 0 || d.writers == 0,
            PipeEnd::Write => false,
        }
    }

    /// A write end can write while some reader is left.
    pub fn can_write(&self, d: &PipeData) -> (r: bool)
        ensures
            r == (self.direction == PipeEnd::Write && d.readers > 0),
    {
        match self.direction {
            PipeEnd::Write => d.readers > 0,
            PipeEnd::Read => false,
        }
    }

    /// A write end whose readers are all gone.
    pub fn is_write_closed(&self, d: &PipeData) -> (r: bool)
        ensures
            r == (self.direction == PipeEnd::Write && d.readers == 0),
    {
        match self.direction {
            PipeEnd::Write => d.readers == 0,
            PipeEnd::Read => false,
        }
    }

    /// Readiness as (readable, writable, error).
    pub fn poll(&self, d: &PipeData) -> (r: (bool, bool, bool))
        ensures
            r == (
                self.direction == PipeEnd::Read && (d.buf@.len() > 0 || d.writers == 0),
                self.direction == PipeEnd::Write && d.readers > 0,
                self.direction == PipeEnd::Write && d.readers == 0,
            ),
    {
        (self.can_read(d), self.can_write(d), self.is_write_closed(d))
    }

    /// Reads into `buf`: nothing for an empty `buf` or a write end; "again"
    /// when no byte waits but a writer is left; otherwise the oldest
    /// `min(buf.len(), waiting)` bytes, in order, and the pipe stops being
    /// readable once it is empty.
    pub fn read_at(&self, d: &mut PipeData, buf: &mut [u8]) -> (r: Result<usize, &'static str>)
        ensures
            final(buf)@.len() == old(buf)@.len(),
            old(buf)@.len() == 0 || self.direction == PipeEnd::Write ==> r == Ok::<usize, &'static str>(0)
                && final(d).buf@ == old(d).buf@ && final(d).eventbus == old(d).eventbus && final(buf)@ == old(buf)@,
            old(buf)@.len() > 0 && self.direction == PipeEnd::Read && old(d).buf@.len() == 0 && old(d).writers > 0
                ==> r == Err::<usize, &'static str>("again") && final(d).buf@ == old(d).buf@ && final(d).eventbus
                == old(d).eventbus && final(buf)@ == old(buf)@,
            old(buf)@.len() > 0 && self.direction == PipeEnd::Read && !(old(d).buf@.len() == 0 && old(d).writers > 0)
                ==> {
                let n = if old(buf)@.len() < old(d).buf@.len() {
                    old(buf)@.len() as int
                } else {
                    old(d).buf@.len() as int
                };
                &&& r == Ok::<usize, &'static str>(n as usize)
                &&& final(buf)@.subrange(0, n) == old(d).buf@.subrange(0, n)
                &&& final(buf)@.subrange(n, old(buf)@.len() as int) == old(buf)@.subrange(n, old(buf)@.len() as int)
                &&& final(d).buf@ == old(d).buf@.subrange(n, old(d).buf@.len() as int)
                &&& final(d).buf@.len() == 0 ==> (final(d).eventbus.events, final(d).eventbus.callbacks@) == change_spec(
                    old(d).eventbus,
                    EventFlag::READABLE,
                    0,
                )
                &&& final(d).buf@.len() > 0 ==> final(d).eventbus == old(d).eventbus
            },
            final(d).readers == old(d).readers,
            final(d).writers == old(d).writers,
            final(d).end_cnt == old(d).end_cnt,
    {
        if buf.len() == 0 {
            return Ok(0);
        }
        match self.direction {
            PipeEnd::Write => Ok(0),
            PipeEnd::Read => {
                if d.buf.len() == 0 && d.writers > 0 {
                    return Err("again");
                }
                let len = if buf.len() < d.buf.len() {
                    buf.len()
                } else {
                    d.buf.len()
                };
                let ghost b0 = buf@;
                let ghost q0 = d.buf@;
                let mut i: usize = 0;
                while i < len
                    invariant
                        i <= len,
                        len <= b0.len(),
                        len <= q0.len(),
                        buf@.len() == b0.len(),
                        d.buf@ == q0.subrange(i as int, q0.len() as int),
                        buf@.subrange(0, i as int) == q0.subrange(0, i as int),
                        buf@.subrange(i as int, b0.len() as int) == b0.subrange(i as int, b0.len() as int),
                        d.eventbus == old(d).eventbus,
                        d.readers == old(d).readers,
                        d.writers == old(d).writers,
                        d.end_cnt == old(d).end_cnt,
                    decreases len - i,
                {
                    let ghost bb = buf@;
                    let c = d.buf.pop_front().unwrap();
                    buf[i] = c;
                    proof {
                        assert(c == q0[i as int]);
                        assert(d.buf@ =~= q0.subrange(i + 1, q0.len() as int));
                        assert(buf@ == bb.update(i as int, c));
                        assert(buf@.subrange(0, i + 1) =~= q0.subrange(0, i + 1)) by {
                            assert(bb.subrange(0, i as int) == q0.subrange(0, i as int));
                            assert forall|k: int| 0 <= k < i implies buf@[k] == q0[k] by {
                                assert(buf@[k] == bb[k]);
                                assert(bb.subrange(0, i as int)[k] == bb[k]);
                            }
                        }
                        assert(buf@.subrange(i + 1, b0.len() as int) =~= b0.subrange(i + 1, b0.len() as int)) by {
                            assert forall|k: int| i + 1 <= k < b0.len() implies buf@[k] == b0[k] by {
                                assert(buf@[k] == bb[k]);
                                assert(bb.subrange(i as int, b0.len() as int)[k - i] == bb[k]);
                            }
                        }
                    }
                    i = i + 1;
                }
                if d.buf.len() == 0 {
                    d.eventbus.clear(EventFlag::READABLE);
                }
                Ok(len)
            },
        }
    }

    /// Writes all of `buf`: refused ("invalid param") when no reader is
    /// left; a read end writes nothing. The pipe becomes readable when
    /// bytes were added.
    pub fn write_at(&self, d: &mut PipeData, buf: &[u8]) -> (r: Result<usize, &'static str>)
        ensures
            self.direction == PipeEnd::Read ==> r == Ok::<usize, &'static str>(0) && final(d).buf@ == old(d).buf@
                && final(d).eventbus == old(d).eventbus,
            self.direction == PipeEnd::Write && old(d).readers == 0 ==> r == Err::<usize, &'static str>("invalid param")
                && final(d).buf@ == old(d).buf@ && final(d).eventbus == old(d).eventbus,
            self.direction == PipeEnd::Write && old(d).readers != 0 ==> {
                &&& r == Ok::<usize, &'static str>(buf@.len() as usize)
                &&& final(d).buf@ == old(d).buf@ + buf@
                &&& buf@.len() > 0 ==> (final(d).eventbus.events, final(d).eventbus.callbacks@) == change_spec(
                    old(d).eventbus,
                    0,
                    EventFlag::READABLE,
                )
                &&& buf@.len() == 0 ==> final(d).eventbus == old(d).eventbus
            },
            final(d).readers == old(d).readers,
            final(d).writers == old(d).writers,
            final(d).end_cnt == old(d).end_cnt,
    {
        match self.direction {
            PipeEnd::Read => Ok(0),
            PipeEnd::Write => {
                if d.readers == 0 {
                    return Err("invalid param");
                }
                let ghost q0 = d.buf@;
                let mut i: usize = 0;
                while i < buf.len()
                    invariant
                        i <= buf@.len(),
                        d.buf@ == q0 + buf@.subrange(0, i as int),
                        d.eventbus == old(d).eventbus,
                        d.readers == old(d).readers,
                        d.writers == old(d).writers,
                        d.end_cnt == old(d).end_cnt,
                    decreases buf@.len() - i,
                {
                    d.buf.push_back(buf[i]);
                    i = i + 1;
                    proof {
                        assert(d.buf@ =~= q0 + buf@.subrange(0, i as int));
                    }
                }
                proof {
                    assert(buf@.subrange(0, i as int) =~= buf@);
                }
                if buf.len() > 0 {
                    d.eventbus.set(EventFlag::READABLE);
                }
                Ok(buf.len())
            },
        }
    }
}

} // verus!

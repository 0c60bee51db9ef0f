use vstd::prelude::*;
use crate::consts::{FIONBIO, PAGE_SZ};
use crate::epoll::{set_of, EpInst};
use crate::file::{file_read_spec, write_spec, FHandle, Vfs};
use crate::pipe::{pipe_read_spec, pipe_view, pipe_write_spec, PipeDir, PipeNode};

verus! {

/// A file descriptor's object: a regular file, a pipe end or an epoll
/// instance.
pub enum FLike {
    File(FHandle),
    Pipe(PipeNode),
    Ep(EpInst),
}

impl FLike {
    pub open spec fn valid(&self, v: &Vfs) -> bool {
        match self {
            FLike::File(f) => f.valid(v),
            FLike::Pipe(p) => p.valid(v),
            FLike::Ep(e) => e.valid(v),
        }
    }

    /// A duplicate: a file handle with its own close-on-exec flag, another
    /// end on the same pipe (counted by the pipe), or a handle on the same
    /// epoll instance.
    pub fn dup(&self, v: &mut Vfs, cloexec: bool) -> (r: FLike)
        requires
            self.valid(old(v)),
            self matches FLike::Pipe(p) ==> {
                &&& p.buf(old(v)).ends < i32::MAX
                &&& p.dir == PipeDir::Rd ==> p.buf(old(v)).readers < i32::MAX
                &&& p.dir == PipeDir::Wr ==> p.buf(old(v)).writers < i32::MAX
            },
        ensures
            r.valid(final(v)),
            match (self, r) {
                (FLike::File(f), FLike::File(g)) => g.data == f.data && g.desc == f.desc && g.cloexec == cloexec
                    && final(v).descs@ == old(v).descs@ && final(v).files@ == old(v).files@ && final(v).pipes@ == old(v).pipes@,
                (FLike::Pipe(p), FLike::Pipe(q)) => q.data == p.data && q.dir == p.dir && final(v).pipes@.len()
                    == old(v).pipes@.len() && pipe_view(final(v).pipes@[p.data as int]) == (
                    p.buf(old(v)).buf@,
                    p.buf(old(v)).bus.events,
                    p.buf(old(v)).bus.callbacks@,
                    (p.buf(old(v)).ends + 1) as i32,
                    (p.buf(old(v)).readers + if p.dir == PipeDir::Rd { 1int } else { 0 }) as i32,
                    (p.buf(old(v)).writers + if p.dir == PipeDir::Wr { 1int } else { 0 }) as i32,
                ),
                (FLike::Ep(e), FLike::Ep(f)) => f.events.inner == e.events.inner && f.ready == e.ready && f.new_ctl
                    == e.new_ctl && final(v).pipes@ == old(v).pipes@,
                _ => false,
            },
            final(v).ep_maps@ == old(v).ep_maps@,
            final(v).ep_sets@ == old(v).ep_sets@,
            final(v).files@ == old(v).files@,
            final(v).descs@ == old(v).descs@,
            final(v).pipes@.len() == old(v).pipes@.len(),
            forall|i: int|
                0 <= i < old(v).pipes@.len() && !(self matches FLike::Pipe(p) && i == p.data) ==> #[trigger] final(v).pipes@[i] == old(v).pipes@[i],
            (match self {
                FLike::File(f) => r matches FLike::File(g) && g.path@ == f.path@ && g.pipe == f.pipe,
                _ => true,
            }),
    {
        match self {
            FLike::File(file) => FLike::File(file.dup(cloexec)),
            FLike::Pipe(pipe) => FLike::Pipe(pipe.clone_end(v)),
            FLike::Ep(epoll) => FLike::Ep(epoll.share()),
        }
    }

    /// Reads into `buffer`: nothing for an empty buffer; a file reads at its
    /// offset, a pipe from its front; an epoll instance is `"enosys"`.
    pub fn read(&self, v: &mut Vfs, buffer: &mut [u8]) -> (r: Result<usize, &'static str>)
        requires
            self.valid(old(v)),
            self is File && self->File_0.state(old(v)).opt.rd ==> self->File_0.state(old(v)).off
                + crate::file::read_count(
                self->File_0.bytes(old(v)),
                (self->File_0.state(old(v)).off as usize) as int,
                old(buffer).len() as int,
            ) <= u64::MAX,
        ensures
            old(buffer)@.len() == 0 ==> r == Ok::<usize, &'static str>(0) && final(buffer)@ == old(buffer)@,
            old(buffer)@.len() > 0 ==> match self {
                FLike::File(f) => (r, final(buffer)@, final(v).descs@) == file_read_spec(
                    old(v).contents(),
                    old(v).descs@,
                    *f,
                    old(buffer)@,
                    old(buffer).len() as int,
                ),
                FLike::Pipe(p) => (r, final(buffer)@, pipe_view(final(v).pipes@[p.data as int])) == pipe_read_spec(
                    p.buf(old(v)),
                    p.dir,
                    old(buffer)@,
                    old(buffer).len() as int,
                ),
                FLike::Ep(_) => r == Err::<usize, &'static str>("enosys"),
            },
            final(v).files@ == old(v).files@,
            final(v).files@.len() == old(v).files@.len(),
            final(v).descs@.len() == old(v).descs@.len(),
            final(v).pipes@.len() == old(v).pipes@.len(),
            final(v).ep_maps@ == old(v).ep_maps@,
            final(v).ep_sets@ == old(v).ep_sets@,
            !(self is Pipe) ==> final(v).pipes@ == old(v).pipes@,
            self is Ep ==> *final(v) == *old(v),
    {
        if buffer.len() == 0 {
            return Ok(0);
        }
        match self {
            FLike::File(file) => file.read(v, buffer),
            FLike::Pipe(pipe) => pipe.read_at(v, buffer),
            FLike::Ep(_) => Err("enosys"),
        }
    }

    /// Writes `buffer`: nothing for an empty buffer; a file writes at its
    /// offset (or end in append mode), a pipe at its back; an epoll
    /// instance is `"enosys"`.
    pub fn write(&self, v: &mut Vfs, buffer: &[u8]) -> (r: Result<usize, &'static str>)
        requires
            self.valid(old(v)),
        ensures
            buffer@.len() == 0 ==> r == Ok::<usize, &'static str>(0),
            buffer@.len() > 0 ==> match self {
                FLike::File(f) => (r, final(v).contents(), final(v).descs@) == write_spec(
                    old(v).contents(),
                    old(v).descs@,
                    *f,
                    buffer@,
                ),
                FLike::Pipe(p) => (r, pipe_view(final(v).pipes@[p.data as int])) == pipe_write_spec(
                    p.buf(old(v)),
                    p.dir,
                    buffer@,
                    buffer.len(),
                ),
                FLike::Ep(_) => r == Err::<usize, &'static str>("enosys"),
            },
            final(v).files@.len() == old(v).files@.len(),
            final(v).descs@.len() == old(v).descs@.len(),
            final(v).pipes@.len() == old(v).pipes@.len(),
            final(v).ep_maps@ == old(v).ep_maps@,
            final(v).ep_sets@ == old(v).ep_sets@,
            !(self is Pipe) ==> final(v).pipes@ == old(v).pipes@,
            self is Ep ==> *final(v) == *old(v),
    {
        if buffer.len() == 0 {
            return Ok(0);
        }
        match self {
            FLike::File(file) => file.write(v, buffer),
            FLike::Pipe(pipe) => pipe.write_at(v, buffer),
            FLike::Ep(_) => Err("enosys"),
        }
    }

    /// Device control: files accept everything; pipes accept `FIONBIO`
    /// only (`"enotty"` otherwise); epoll instances none (`"enosys"`).
    pub fn io_ctl(&self, request: usize, arg: usize) -> (r: Result<usize, &'static str>)
        ensures
            r == match self {
                FLike::File(_) => Ok::<usize, &'static str>(0),
                FLike::Pipe(_) => if request == FIONBIO {
                    Ok(0)
                } else {
                    Err("enotty")
                },
                FLike::Ep(_) => Err("enosys"),
            },
    {
        match self {
            FLike::File(file) => {
                if (request as u32) <= 0xFF {
                    Ok(0)
                } else {
                    file.io_ctl(request as u32, arg)
                }
            },
            FLike::Pipe(_) => {
                if request == FIONBIO {
                    Ok(0)
                } else {
                    Err("enotty")
                }
            },
            FLike::Ep(_) => Err("enosys"),
        }
    }

    /// Maps `[start, end)`: an empty or inverted range, or one whose page
    /// count would wrap, is `"einval"`; only files can be mapped
    /// (`"enosys"` otherwise).
    pub fn mmap_fl(&self, start: usize, end: usize, offset: usize) -> (r: Result<(), &'static str>)
        ensures
            r == (if start >= end || (end - start) + (PAGE_SZ - 1) > usize::MAX {
                Err::<(), &'static str>("einval")
            } else if self is File {
                Ok(())
            } else {
                Err("enosys")
            }),
    {
        if start >= end {
            return Err("einval");
        }
        let len = end - start;
        if len.checked_add(PAGE_SZ - 1).is_none() {
            return Err("einval");
        }
        match self {
            FLike::File(file) => file.mmap(start, end, offset),
            _ => Err("enosys"),
        }
    }

    /// Readable, writable, error: a file by its options (an error when it
    /// has no path and no contents), a pipe by its ends and buffer, an epoll
    /// instance readable when something is ready.
    pub fn poll(&self, v: &Vfs) -> (r: (bool, bool, bool))
        requires
            self.valid(v),
        ensures
            r == match self {
                FLike::File(f) => (
                    f.state(v).opt.rd,
                    f.state(v).opt.wr,
                    f.path@.len() == 0 && f.bytes(v).len() == 0,
                ),
                FLike::Pipe(p) => (
                    p.dir == PipeDir::Rd && (p.buf(v).buf@.len() > 0 || p.buf(v).writers == 0),
                    p.dir == PipeDir::Wr && p.buf(v).readers > 0,
                    false,
                ),
                FLike::Ep(e) => (e.ready_set(v).len() > 0, false, false),
            },
    {
        match self {
            FLike::File(file) => {
                let options = file.get_opt(v);
                let error = file.path.as_str().unicode_len() == 0 && file.metadata_sz(v) == 0;
                (options.rd, options.wr, error)
            },
            FLike::Pipe(pipe) => pipe.poll(v),
            FLike::Ep(epoll) => {
                let has_ready = v.ep_sets[epoll.ready].len() > 0;
                proof {
                    lemma_set_of_len(v.ep_sets@[epoll.ready as int]@);
                }
                (has_ready, false, false)
            },
        }
    }
}

proof fn lemma_set_of_len(s: Seq<usize>)
    ensures
        set_of(s).len() > 0 <==> s.len() > 0,
        set_of(s).finite(),
{
    let st = set_of(s);
    assert(st =~= s.to_set());
    vstd::seq_lib::seq_to_set_is_finite(s);
    if s.len() > 0 {
        assert(st.contains(s[0]));
        vstd::set_lib::lemma_set_empty_equivalency_len(st);
    } else {
        assert(st =~= Set::<usize>::empty());
    }
}

} // verus!

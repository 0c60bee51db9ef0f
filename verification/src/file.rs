use vstd::prelude::*;
use vstd::string::{StrSliceExecFns, StringExecFns};
use std::collections::VecDeque;
use crate::consts::{O_APPEND, O_NONBLOCK};
use crate::sync::EventBus;
use crate::epoll::EpEvent;

verus! {

/// Access options of an open file description: read, write, append,
/// nonblocking.
#[derive(Clone, Copy, Debug, PartialEq, Eq, Structural)]
pub struct FdOpt {
    pub rd: bool,
    pub wr: bool,
    pub ap: bool,
    pub nb: bool,
}

impl Default for FdOpt {
    /// Read-only, blocking, not appending.
    fn default() -> (r: Self)
        ensures
            r == (FdOpt { rd: true, wr: false, ap: false, nb: false }),
    {
        FdOpt { rd: true, wr: false, ap: false, nb: false }
    }
}

/// An open file description: offset, options and a lock byte.
#[derive(Clone, Copy, PartialEq, Eq, Structural)]
pub struct FdState {
    pub off: u64,
    pub opt: FdOpt,
    pub flk: u8,
}

/// Shared state of a pipe: buffered bytes, its event bus, and the counts of
/// open ends, readers and writers.
pub struct PipeBuf {
    pub buf: VecDeque<u8>,
    pub bus: EventBus,
    pub ends: i32,
    pub readers: i32,
    pub writers: i32,
}

/// The objects that file handles, pipe ends and epoll instances share:
/// file contents, open file descriptions, pipe buffers, epoll registration
/// maps and epoll fd sets. Handles name them by position, so duplicates of
/// a handle see each other's changes.
pub struct Vfs {
    pub files: Vec<Vec<u8>>,
    pub descs: Vec<FdState>,
    pub pipes: Vec<PipeBuf>,
    pub ep_maps: Vec<Vec<(usize, EpEvent)>>,
    pub ep_sets: Vec<Vec<usize>>,
}

impl Vfs {
    /// Nothing shared yet.
    pub fn new() -> (r: Self)
        ensures
            r.files@.len() == 0,
            r.descs@.len() == 0,
            r.pipes@.len() == 0,
            r.ep_maps@.len() == 0,
            r.ep_sets@.len() == 0,
    {
        Vfs { files: Vec::new(), descs: Vec::new(), pipes: Vec::new(), ep_maps: Vec::new(), ep_sets: Vec::new() }
    }

    /// The contents of every file.
    pub open spec fn contents(&self) -> Seq<Seq<u8>> {
        self.files@.map_values(|f: Vec<u8>| f@)
    }
}

/// Replaces element `i` of `v` with `x` and returns the old element.
pub fn swap_out<T>(v: &mut Vec<T>, i: usize, x: T) -> (r: T)
    requires
        i < old(v)@.len(),
    ensures
        r == old(v)@[i as int],
        final(v)@ == old(v)@.update(i as int, x),
{
    let r = v.remove(i);
    v.insert(i, x);
    assert(v@ =~= old(v)@.update(i as int, x));
    r
}

/// An open file: its path, the file contents and the open file description
/// it uses (both by position in a `Vfs`), and its pipe and close-on-exec
/// flags. Duplicates share contents and description.
#[derive(Debug)]
pub struct FHandle {
    pub path: String,
    pub data: usize,
    pub desc: usize,
    pub pipe: bool,
    pub cloexec: bool,
}

/// Origin of a seek.
#[derive(Debug)]
pub enum FSeek {
    Start(u64),
    End(i64),
    Cur(i64),
}

/// `data` with `buf` written at `offset`, zero-filled up to `offset` when
/// the file was shorter.
pub open spec fn written(data: Seq<u8>, offset: int, buf: Seq<u8>) -> Seq<u8> {
    let end = offset + buf.len();
    let base = if end > data.len() {
        data + Seq::new((end - data.len()) as nat, |i: int| 0u8)
    } else {
        data
    };
    base.subrange(0, offset) + buf + base.subrange(end, base.len() as int)
}

/// `data` cut or zero-extended to `n` bytes.
pub open spec fn resized(data: Seq<u8>, n: int) -> Seq<u8> {
    if n <= data.len() {
        data.subrange(0, n)
    } else {
        data + Seq::new((n - data.len()) as nat, |i: int| 0u8)
    }
}

/// Bytes a read of `want` bytes at `offset` gets from `data`.
pub open spec fn read_count(data: Seq<u8>, offset: int, want: int) -> int {
    if offset >= data.len() {
        0
    } else if want < data.len() - offset {
        want
    } else {
        data.len() - offset
    }
}

/// Decimal digits of `n`.
pub open spec fn decimal(n: nat) -> Seq<char>
    decreases n,
{
    if n < 10 {
        seq![((48 + n) as u32) as char]
    } else {
        decimal(n / 10).push(((48 + n % 10) as u32) as char)
    }
}

/// The outcome of `write(buf)` on handle `h`: where it writes (end of file
/// when appending, the offset otherwise), whether it may, and the new
/// contents and description.
pub open spec fn write_spec(files: Seq<Seq<u8>>, descs: Seq<FdState>, h: FHandle, buf: Seq<u8>) -> (
    Result<usize, &'static str>,
    Seq<Seq<u8>>,
    Seq<FdState>,
) {
    let st = descs[h.desc as int];
    let data = files[h.data as int];
    let wo = (if st.opt.ap {
        data.len() as u64
    } else {
        st.off
    }) as usize;
    if !st.opt.wr {
        (Err("ebadf"), files, descs)
    } else if wo + buf.len() > usize::MAX {
        (Err("einval"), files, descs)
    } else {
        (
            Ok(buf.len() as usize),
            files.update(h.data as int, written(data, wo as int, buf)),
            descs.update(h.desc as int, FdState { off: (wo + buf.len()) as u64, ..st }),
        )
    }
}

/// A read through handle `h` at its offset of up to `want` bytes into
/// `buf`: the result, the buffer and the descriptions afterwards.
pub open spec fn file_read_spec(files: Seq<Seq<u8>>, descs: Seq<FdState>, h: FHandle, buf: Seq<u8>, want: int) -> (
    Result<usize, &'static str>,
    Seq<u8>,
    Seq<FdState>,
) {
    let st = descs[h.desc as int];
    let data = files[h.data as int];
    let o = (st.off as usize) as int;
    let n = read_count(data, o, want);
    if !st.opt.rd {
        (Err("ebadf"), buf, descs)
    } else if o >= data.len() {
        (Ok(0), buf, descs.update(h.desc as int, st))
    } else {
        (
            Ok(n as usize),
            data.subrange(o, o + n) + buf.subrange(n, buf.len() as int),
            descs.update(h.desc as int, FdState { off: (st.off + n) as u64, ..st }),
        )
    }
}

fn copy_out(data: &Vec<u8>, offset: usize, buffer: &mut [u8], n: usize)
    requires
        offset + n <= data.len(),
        n <= old(buffer)@.len(),
    ensures
        final(buffer)@ == data@.subrange(offset as int, offset + n) + old(buffer)@.subrange(
            n as int,
            old(buffer)@.len() as int,
        ),
{
    let mut k: usize = 0;
    while k < n
        invariant
            offset + n <= data.len(),
            n <= buffer@.len(),
            buffer@.len() == old(buffer)@.len(),
            k <= n,
            forall|j: int| 0 <= j < k ==> buffer@[j] == data@[offset + j],
            forall|j: int| k <= j < buffer@.len() ==> buffer@[j] == old(buffer)@[j],
        decreases n - k,
    {
        buffer[k] = data[offset + k];
        k = k + 1;
    }
    assert(buffer@ =~= data@.subrange(offset as int, offset + n) + old(buffer)@.subrange(
        n as int,
        old(buffer)@.len() as int,
    ));
}

fn write_into(data: &mut Vec<u8>, offset: usize, buffer: &[u8])
    requires
        offset + buffer@.len() <= usize::MAX,
    ensures
        final(data)@ == written(old(data)@, offset as int, buffer@),
{
    let end = offset + buffer.len();
    if end > data.len() {
        data.resize(end, 0);
        assert(data@ =~= old(data)@ + Seq::new((end - old(data)@.len()) as nat, |i: int| 0u8));
    }
    let ghost base = data@;
    let mut k: usize = 0;
    while k < buffer.len()
        invariant
            end == offset + buffer@.len(),
            end <= data@.len(),
            data@.len() == base.len(),
            k <= buffer@.len(),
            forall|j: int| 0 <= j < offset ==> data@[j] == base[j],
            forall|j: int| 0 <= j < k ==> data@[offset + j] == buffer@[j],
            forall|j: int| offset + k <= j < base.len() ==> data@[j] == base[j],
        decreases buffer@.len() - k,
    {
        data.set(offset + k, buffer[k]);
        k = k + 1;
    }
    assert(data@ =~= base.subrange(0, offset as int) + buffer@ + base.subrange(end as int, base.len() as int));
}

fn digits_of(n: u64) -> (r: String)
    ensures
        r@ == decimal(n as nat),
    decreases n,
{
    let digits = "0123456789";
    proof {
        reveal_strlit("0123456789");
    }
    if n < 10 {
        let d = n as usize;
        let s = digits.substring_char(d, d + 1);
        let r = s.to_owned();
        proof {
            assert(s@ =~= seq![((48 + n) as u32) as char]);
        }
        r
    } else {
        let mut r = digits_of(n / 10);
        let d = (n % 10) as usize;
        let s = digits.substring_char(d, d + 1);
        proof {
            assert(s@ =~= seq![((48 + n % 10) as u32) as char]);
        }
        r.append(s);
        r
    }
}

impl FHandle {
    /// Whether the handle names existing contents and description in `v`.
    pub open spec fn valid(&self, v: &Vfs) -> bool {
        self.data < v.files@.len() && self.desc < v.descs@.len()
    }

    /// The handle's file contents.
    pub open spec fn bytes(&self, v: &Vfs) -> Seq<u8> {
        v.files@[self.data as int]@
    }

    /// The handle's open file description.
    pub open spec fn state(&self, v: &Vfs) -> FdState {
        v.descs@[self.desc as int]
    }

    /// Opens an empty file at `path` with options `opt`.
    pub fn new(path: &str, opt: FdOpt, pipe: bool, cloexec: bool, v: &mut Vfs) -> (r: Self)
        ensures
            r.path@ == path@,
            r.pipe == pipe,
            r.cloexec == cloexec,
            r.data == old(v).files@.len(),
            r.desc == old(v).descs@.len(),
            final(v).files@.len() == old(v).files@.len() + 1,
            final(v).files@.subrange(0, old(v).files@.len() as int) == old(v).files@,
            r.bytes(final(v)).len() == 0,
            final(v).descs@ == old(v).descs@.push(FdState { off: 0, opt, flk: 0 }),
            final(v).pipes@ == old(v).pipes@,
            final(v).ep_maps@ == old(v).ep_maps@,
            final(v).ep_sets@ == old(v).ep_sets@,
    {
        let data = v.files.len();
        v.files.push(Vec::new());
        let desc = v.descs.len();
        v.descs.push(FdState { off: 0, opt, flk: 0 });
        proof {
            assert(v.files@.subrange(0, old(v).files@.len() as int) =~= old(v).files@);
        }
        FHandle { path: path.to_owned(), data, desc, pipe, cloexec }
    }

    /// Opens a file at `path` holding `initial_data`.
    pub fn with_data(path: &str, opt: FdOpt, initial_data: Vec<u8>, v: &mut Vfs) -> (r: Self)
        ensures
            r.path@ == path@,
            !r.pipe,
            !r.cloexec,
            r.data == old(v).files@.len(),
            r.desc == old(v).descs@.len(),
            final(v).files@ == old(v).files@.push(initial_data),
            final(v).descs@ == old(v).descs@.push(FdState { off: 0, opt, flk: 0 }),
            final(v).pipes@ == old(v).pipes@,
            final(v).ep_maps@ == old(v).ep_maps@,
            final(v).ep_sets@ == old(v).ep_sets@,
    {
        let data = v.files.len();
        v.files.push(initial_data);
        let desc = v.descs.len();
        v.descs.push(FdState { off: 0, opt, flk: 0 });
        FHandle { path: path.to_owned(), data, desc, pipe: false, cloexec: false }
    }

    /// A handle sharing this one's contents and description, with its own
    /// close-on-exec flag.
    pub fn dup(&self, cloexec: bool) -> (r: Self)
        ensures
            r.path@ == self.path@,
            r.data == self.data,
            r.desc == self.desc,
            r.pipe == self.pipe,
            r.cloexec == cloexec,
    {
        FHandle { path: self.path.as_str().to_owned(), data: self.data, desc: self.desc, pipe: self.pipe, cloexec }
    }

    /// Sets the nonblocking and append options from the `O_NONBLOCK` and
    /// `O_APPEND` bits of `arg`.
    pub fn set_opt(&self, v: &mut Vfs, arg: usize)
        requires
            self.valid(old(v)),
        ensures
            final(v).descs@ == old(v).descs@.update(
                self.desc as int,
                FdState {
                    opt: FdOpt {
                        nb: arg & O_NONBLOCK != 0,
                        ap: arg & O_APPEND != 0,
                        ..self.state(old(v)).opt
                    },
                    ..self.state(old(v))
                },
            ),
            final(v).files@ == old(v).files@,
            final(v).pipes@ == old(v).pipes@,
            final(v).ep_maps@ == old(v).ep_maps@,
            final(v).ep_sets@ == old(v).ep_sets@,
    {
        let mut st = v.descs[self.desc];
        st.opt.nb = (arg & O_NONBLOCK) != 0;
        st.opt.ap = (arg & O_APPEND) != 0;
        v.descs.set(self.desc, st);
    }

    /// The description's options.
    pub fn get_opt(&self, v: &Vfs) -> (r: FdOpt)
        requires
            self.valid(v),
        ensures
            r == self.state(v).opt,
    {
        v.descs[self.desc].opt
    }

    /// Reads at the description's offset (taken as a word) and advances it
    /// by the bytes read.
    pub fn read(&self, v: &mut Vfs, buffer: &mut [u8]) -> (r: Result<usize, &'static str>)
        requires
            self.valid(old(v)),
            self.state(old(v)).opt.rd ==> self.state(old(v)).off + read_count(
                self.bytes(old(v)),
                (self.state(old(v)).off as usize) as int,
                old(buffer)@.len() as int,
            ) <= u64::MAX,
        ensures
            (r, final(buffer)@, final(v).descs@) == file_read_spec(
                old(v).contents(),
                old(v).descs@,
                *self,
                old(buffer)@,
                old(buffer).len() as int,
            ),
            final(v).files@ == old(v).files@,
            final(v).descs@.len() == old(v).descs@.len(),
            final(v).pipes@ == old(v).pipes@,
            final(v).ep_maps@ == old(v).ep_maps@,
            final(v).ep_sets@ == old(v).ep_sets@,
    {
        let offset = v.descs[self.desc].off as usize;
        let bytes_read = match self.read_at(v, offset, buffer) {
            Ok(n) => n,
            Err(e) => return Err(e),
        };
        let ghost st0 = self.state(old(v));
        let ghost n = read_count(self.bytes(old(v)), offset as int, old(buffer).len() as int);
        assert(bytes_read == n);
        assert(st0.opt.rd);
        let mut st = v.descs[self.desc];
        assert(st == st0);
        st.off = st.off + bytes_read as u64;
        v.descs.set(self.desc, st);
        assert(st == FdState { off: (st0.off + n) as u64, ..st0 });
        Ok(bytes_read)
    }

    /// Reads up to `buffer.len()` bytes at `offset` without moving the
    /// offset; 0 at or past the end.
    pub fn read_at(&self, v: &Vfs, offset: usize, buffer: &mut [u8]) -> (r: Result<usize, &'static str>)
        requires
            self.valid(v),
        ensures
            ({
                let data = self.bytes(v);
                let n = read_count(data, offset as int, old(buffer).len() as int);
                if !self.state(v).opt.rd {
                    r == Err::<usize, &'static str>("ebadf") && final(buffer)@ == old(buffer)@
                } else if offset >= data.len() {
                    r == Ok::<usize, &'static str>(0) && final(buffer)@ == old(buffer)@
                } else {
                    &&& r == Ok::<usize, &'static str>(n as usize)
                    &&& final(buffer)@ == data.subrange(offset as int, offset + n) + old(buffer)@.subrange(
                        n,
                        old(buffer)@.len() as int,
                    )
                }
            }),
    {
        if !v.descs[self.desc].opt.rd {
            return Err("ebadf");
        }
        let contents = &v.files[self.data];
        if offset >= contents.len() {
            return Ok(0);
        }
        let avail = contents.len() - offset;
        let n = if buffer.len() < avail {
            buffer.len()
        } else {
            avail
        };
        copy_out(contents, offset, buffer, n);
        Ok(n)
    }

    /// Writes `buffer` at the description's offset, or at the end of the
    /// file in append mode, and moves the offset past the written bytes.
    pub fn write(&self, v: &mut Vfs, buffer: &[u8]) -> (r: Result<usize, &'static str>)
        requires
            self.valid(old(v)),
        ensures
            (r, final(v).contents(), final(v).descs@) == write_spec(old(v).contents(), old(v).descs@, *self, buffer@),
            final(v).files@.len() == old(v).files@.len(),
            final(v).descs@.len() == old(v).descs@.len(),
            final(v).pipes@ == old(v).pipes@,
            final(v).ep_maps@ == old(v).ep_maps@,
            final(v).ep_sets@ == old(v).ep_sets@,
    {
        let st = v.descs[self.desc];
        let write_offset = (if st.opt.ap {
            v.files[self.data].len() as u64
        } else {
            st.off
        }) as usize;
        let bytes_written = match self.write_at(v, write_offset, buffer) {
            Ok(n) => n,
            Err(e) => {
                proof {
                    assert(v.contents() =~= old(v).contents());
                }
                return Err(e);
            },
        };
        let new_offset = match write_offset.checked_add(bytes_written) {
            Some(o) => o,
            None => return Err("eoverflow"),
        };
        let mut st2 = v.descs[self.desc];
        st2.off = new_offset as u64;
        v.descs.set(self.desc, st2);
        Ok(bytes_written)
    }

    /// Writes `buffer` at `offset`, zero-filling a gap past the end,
    /// without moving the offset.
    pub fn write_at(&self, v: &mut Vfs, offset: usize, buffer: &[u8]) -> (r: Result<usize, &'static str>)
        requires
            self.valid(old(v)),
        ensures
            !self.state(old(v)).opt.wr ==> r == Err::<usize, &'static str>("ebadf") && final(v).contents()
                == old(v).contents(),
            self.state(old(v)).opt.wr && offset + buffer@.len() > usize::MAX ==> r == Err::<
                usize,
                &'static str,
            >("einval") && final(v).contents() == old(v).contents(),
            self.state(old(v)).opt.wr && offset + buffer@.len() <= usize::MAX ==> r == Ok::<
                usize,
                &'static str,
            >(buffer@.len() as usize) && final(v).contents() == old(v).contents().update(
                self.data as int,
                written(self.bytes(old(v)), offset as int, buffer@),
            ),
            final(v).files@.len() == old(v).files@.len(),
            final(v).descs@ == old(v).descs@,
            final(v).pipes@ == old(v).pipes@,
            final(v).ep_maps@ == old(v).ep_maps@,
            final(v).ep_sets@ == old(v).ep_sets@,
    {
        if !v.descs[self.desc].opt.wr {
            return Err("ebadf");
        }
        if buffer.len() > usize::MAX - offset {
            return Err("einval");
        }
        let mut contents = swap_out(&mut v.files, self.data, Vec::new());
        write_into(&mut contents, offset, buffer);
        let _ = swap_out(&mut v.files, self.data, contents);
        proof {
            assert(v.contents() =~= old(v).contents().update(
                self.data as int,
                written(self.bytes(old(v)), offset as int, buffer@),
            ));
        }
        Ok(buffer.len())
    }

    /// Moves the offset to `pos`; a target below zero or past `u64::MAX` is
    /// `"einval"` and leaves it.
    pub fn seek(&self, v: &mut Vfs, pos: FSeek) -> (r: Result<u64, &'static str>)
        requires
            self.valid(old(v)),
        ensures
            ({
                let st = self.state(old(v));
                let target: int = match pos {
                    FSeek::Start(o) => o as int,
                    FSeek::End(d) => self.bytes(old(v)).len() + d,
                    FSeek::Cur(d) => st.off + d,
                };
                if target < 0 || target > u64::MAX {
                    r == Err::<u64, &'static str>("einval") && final(v).descs@ == old(v).descs@
                } else {
                    r == Ok::<u64, &'static str>(target as u64) && final(v).descs@ == old(v).descs@.update(
                        self.desc as int,
                        FdState { off: target as u64, ..st },
                    )
                }
            }),
            final(v).files@ == old(v).files@,
            final(v).pipes@ == old(v).pipes@,
            final(v).ep_maps@ == old(v).ep_maps@,
            final(v).ep_sets@ == old(v).ep_sets@,
    {
        let st = v.descs[self.desc];
        let next: i128 = match pos {
            FSeek::Start(offset) => offset as i128,
            FSeek::End(delta) => v.files[self.data].len() as i128 + delta as i128,
            FSeek::Cur(delta) => st.off as i128 + delta as i128,
        };
        if next < 0 || next > u64::MAX as i128 {
            return Err("einval");
        }
        let mut st2 = st;
        st2.off = next as u64;
        v.descs.set(self.desc, st2);
        Ok(st2.off)
    }

    /// Reads (odd `direction`) or writes (even), at `offset` when given and
    /// at the description's offset otherwise; `"einval"` without the
    /// buffer that the direction needs.
    pub fn transfer(
        &self,
        v: &mut Vfs,
        direction: u8,
        offset: Option<usize>,
        read_buffer: Option<&mut [u8]>,
        write_buffer: Option<&[u8]>,
    ) -> (r: Result<usize, &'static str>)
        requires
            self.valid(old(v)),
            direction & 1 != 0 && offset is None && read_buffer is Some && self.state(old(v)).opt.rd
                ==> self.state(old(v)).off + read_count(
                self.bytes(old(v)),
                (self.state(old(v)).off as usize) as int,
                read_buffer->0.len() as int,
            ) <= u64::MAX,
        ensures
            direction & 1 != 0 && read_buffer is None ==> r == Err::<usize, &'static str>("einval"),
            direction & 1 == 0 && write_buffer is None ==> r == Err::<usize, &'static str>("einval"),
            direction & 1 == 0 && write_buffer is Some && offset is None ==> (
            r,
            final(v).contents(),
            final(v).descs@,
            ) == write_spec(old(v).contents(), old(v).descs@, *self, write_buffer->0@),
            direction & 1 != 0 && read_buffer is Some && offset is Some ==> r == (if self.state(
                old(v),
            ).opt.rd {
                Ok::<usize, &'static str>(
                    read_count(self.bytes(old(v)), offset->0 as int, read_buffer->0.len() as int) as usize,
                )
            } else {
                Err("ebadf")
            }),
            direction & 1 != 0 && read_buffer is Some && offset is None ==> r == (if self.state(
                old(v),
            ).opt.rd {
                Ok::<usize, &'static str>(
                    read_count(
                        self.bytes(old(v)),
                        (self.state(old(v)).off as usize) as int,
                        read_buffer->0.len() as int,
                    ) as usize,
                )
            } else {
                Err("ebadf")
            }),
            final(v).pipes@ == old(v).pipes@,
            final(v).ep_maps@ == old(v).ep_maps@,
            final(v).ep_sets@ == old(v).ep_sets@,
    {
        if direction & 1 != 0 {
            match (offset, read_buffer) {
                (Some(read_offset), Some(buffer)) => self.read_at(v, read_offset, buffer),
                (None, Some(buffer)) => self.read(v, buffer),
                _ => Err("einval"),
            }
        } else {
            match (offset, write_buffer) {
                (Some(write_offset), Some(buffer)) => self.write_at(v, write_offset, buffer),
                (None, Some(buffer)) => self.write(v, buffer),
                _ => Err("einval"),
            }
        }
    }

    /// Cuts or zero-extends the file to `new_len` bytes (taken as a word).
    pub fn set_len(&self, v: &mut Vfs, new_len: u64) -> (r: Result<(), &'static str>)
        requires
            self.valid(old(v)),
        ensures
            !self.state(old(v)).opt.wr ==> r == Err::<(), &'static str>("ebadf") && final(v).contents()
                == old(v).contents(),
            self.state(old(v)).opt.wr ==> r == Ok::<(), &'static str>(()) && final(v).contents() == old(v).contents().update(self.data as int, resized(self.bytes(old(v)), (new_len as usize) as int)),
            final(v).files@.len() == old(v).files@.len(),
            final(v).descs@ == old(v).descs@,
            final(v).pipes@ == old(v).pipes@,
            final(v).ep_maps@ == old(v).ep_maps@,
            final(v).ep_sets@ == old(v).ep_sets@,
    {
        if !v.descs[self.desc].opt.wr {
            return Err("ebadf");
        }
        let mut contents = swap_out(&mut v.files, self.data, Vec::new());
        let n = new_len as usize;
        contents.resize(n, 0);
        proof {
            assert(contents@ =~= resized(self.bytes(old(v)), n as int));
        }
        let _ = swap_out(&mut v.files, self.data, contents);
        proof {
            assert(v.contents() =~= old(v).contents().update(
                self.data as int,
                resized(self.bytes(old(v)), n as int),
            ));
        }
        Ok(())
    }

    /// Flushing is immediate in memory.
    pub fn sync_all(&self) -> (r: Result<(), &'static str>)
        ensures
            r == Ok::<(), &'static str>(()),
    {
        Ok(())
    }

    /// Flushing is immediate in memory.
    pub fn sync_data(&self) -> (r: Result<(), &'static str>)
        ensures
            r == Ok::<(), &'static str>(()),
    {
        Ok(())
    }

    /// The file size.
    pub fn metadata_sz(&self, v: &Vfs) -> (r: usize)
        requires
            self.valid(v),
        ensures
            r == self.bytes(v).len(),
    {
        v.files[self.data].len()
    }

    /// Path lookups below a plain file find nothing to refuse.
    pub fn lookup(&self, path: &str, depth: usize) -> (r: Result<(), &'static str>)
        ensures
            r == Ok::<(), &'static str>(()),
    {
        Ok(())
    }

    /// The next directory entry name, `entry_<offset>`, advancing the
    /// offset by one.
    pub fn read_entry(&self, v: &mut Vfs) -> (r: Result<String, &'static str>)
        requires
            self.valid(old(v)),
            self.state(old(v)).opt.rd ==> self.state(old(v)).off < u64::MAX,
        ensures
            !self.state(old(v)).opt.rd ==> r == Err::<String, &'static str>("ebadf") && final(v).descs@
                == old(v).descs@,
            self.state(old(v)).opt.rd ==> {
                &&& r matches Ok(s) && s@ == seq!['e', 'n', 't', 'r', 'y', '_'] + decimal(self.state(old(v)).off as nat)
                &&& final(v).descs@ == old(v).descs@.update(
                    self.desc as int,
                    FdState { off: (self.state(old(v)).off + 1) as u64, ..self.state(old(v)) },
                )
            },
            final(v).files@ == old(v).files@,
            final(v).pipes@ == old(v).pipes@,
            final(v).ep_maps@ == old(v).ep_maps@,
            final(v).ep_sets@ == old(v).ep_sets@,
    {
        let st = v.descs[self.desc];
        if !st.opt.rd {
            return Err("ebadf");
        }
        let entry_offset = st.off;
        let mut st2 = st;
        st2.off = st.off + 1;
        v.descs.set(self.desc, st2);
        let mut name = "entry_".to_owned();
        proof {
            reveal_strlit("entry_");
        }
        let digits = digits_of(entry_offset);
        name.append(digits.as_str());
        Ok(name)
    }

    /// Readable, writable, no error.
    pub fn poll_status(&self) -> (r: (bool, bool, bool))
        ensures
            r == (true, true, false),
    {
        (true, true, false)
    }

    /// Device controls on a plain file succeed with 0.
    pub fn io_ctl(&self, cmd: u32, arg: usize) -> (r: Result<usize, &'static str>)
        ensures
            r == Ok::<usize, &'static str>(0),
    {
        Ok(0)
    }

    /// Mapping a plain file always succeeds.
    pub fn mmap(&self, start: usize, end: usize, off: usize) -> (r: Result<(), &'static str>)
        ensures
            r == Ok::<(), &'static str>(()),
    {
        Ok(())
    }

    /// Which contents the handle uses.
    pub fn inode_ref(&self) -> (r: usize)
        ensures
            r == self.data,
    {
        self.data
    }

    /// Readahead advice: only a range that wraps is refused.
    pub fn advise_readahead(&self, offset: usize, length: usize) -> (r: Result<(), &'static str>)
        ensures
            r == (if length != 0 && offset + length > usize::MAX {
                Err::<(), &'static str>("einval")
            } else {
                Ok(())
            }),
    {
        if length == 0 {
            return Ok(());
        }
        if offset.checked_add(length).is_none() {
            return Err("einval");
        }
        Ok(())
    }

    /// Makes the file at least `offset + length` bytes long, zero-filled.
    pub fn fallocate(&self, v: &mut Vfs, offset: usize, length: usize) -> (r: Result<(), &'static str>)
        requires
            self.valid(old(v)),
        ensures
            !self.state(old(v)).opt.wr ==> r == Err::<(), &'static str>("ebadf") && final(v).contents()
                == old(v).contents(),
            self.state(old(v)).opt.wr && offset + length > usize::MAX ==> r == Err::<(), &'static str>(
                "einval",
            ) && final(v).contents() == old(v).contents(),
            self.state(old(v)).opt.wr && offset + length <= usize::MAX ==> r == Ok::<(), &'static str>(())
                && final(v).contents() == old(v).contents().update(
                self.data as int,
                if offset + length > self.bytes(old(v)).len() {
                    resized(self.bytes(old(v)), offset + length)
                } else {
                    self.bytes(old(v))
                },
            ),
            final(v).files@.len() == old(v).files@.len(),
            final(v).descs@ == old(v).descs@,
            final(v).pipes@ == old(v).pipes@,
            final(v).ep_maps@ == old(v).ep_maps@,
            final(v).ep_sets@ == old(v).ep_sets@,
    {
        if !v.descs[self.desc].opt.wr {
            return Err("ebadf");
        }
        let required = match offset.checked_add(length) {
            Some(n) => n,
            None => return Err("einval"),
        };
        if required > v.files[self.data].len() {
            let mut contents = swap_out(&mut v.files, self.data, Vec::new());
            contents.resize(required, 0);
            proof {
                assert(contents@ =~= resized(self.bytes(old(v)), required as int));
            }
            let _ = swap_out(&mut v.files, self.data, contents);
            proof {
                assert(v.contents() =~= old(v).contents().update(
                    self.data as int,
                    resized(self.bytes(old(v)), required as int),
                ));
            }
        } else {
            proof {
                assert(v.contents() =~= old(v).contents().update(self.data as int, self.bytes(old(v))));
            }
        }
        Ok(())
    }

    /// Moves up to `count` bytes from this handle's offset to `dst` (written
    /// as `dst.write` does) and advances this offset by the bytes taken.
    pub fn splice_to(&self, v: &mut Vfs, dst: &FHandle, count: usize) -> (r: Result<usize, &'static str>)
        requires
            self.valid(old(v)),
            dst.valid(old(v)),
            ({
                let st = self.state(old(v));
                let o = (st.off as usize) as int;
                o < self.bytes(old(v)).len() ==> st.off + read_count(self.bytes(old(v)), o, count as int)
                    <= u64::MAX
            }),
        ensures
            ({
                let st = self.state(old(v));
                let data = self.bytes(old(v));
                let o = (st.off as usize) as int;
                if o >= data.len() {
                    &&& r == Ok::<usize, &'static str>(0)
                    &&& final(v).contents() == old(v).contents()
                    &&& final(v).descs@ == old(v).descs@
                } else {
                    let n = read_count(data, o, count as int);
                    let descs1 = old(v).descs@.update(self.desc as int, FdState { off: (st.off + n) as u64, ..st });
                    (r, final(v).contents(), final(v).descs@) == write_spec(
                        old(v).contents(),
                        descs1,
                        *dst,
                        data.subrange(o, o + n),
                    )
                }
            }),
            final(v).files@.len() == old(v).files@.len(),
            final(v).pipes@ == old(v).pipes@,
            final(v).ep_maps@ == old(v).ep_maps@,
            final(v).ep_sets@ == old(v).ep_sets@,
    {
        let st = v.descs[self.desc];
        let o = st.off as usize;
        let len = v.files[self.data].len();
        if o >= len {
            return Ok(0);
        }
        let available = len - o;
        let n = if count < available {
            count
        } else {
            available
        };
        let mut chunk: Vec<u8> = Vec::new();
        let mut k: usize = 0;
        while k < n
            invariant
                o + n <= v.files@[self.data as int].len(),
                self.data < v.files@.len(),
                k <= n,
                chunk@ == v.files@[self.data as int]@.subrange(o as int, o + k),
            decreases n - k,
        {
            chunk.push(v.files[self.data][o + k]);
            k = k + 1;
            proof {
                assert(chunk@ =~= v.files@[self.data as int]@.subrange(o as int, o + k));
            }
        }
        let mut st2 = st;
        st2.off = st.off + n as u64;
        v.descs.set(self.desc, st2);
        dst.write(v, chunk.as_slice())
    }
}

/// A duplicate shares the offset: what one handle's write moves, the other
/// handle sees.
pub proof fn law_dup_shares_offset(
    files: Seq<Seq<u8>>,
    descs: Seq<FdState>,
    h: FHandle,
    d: FHandle,
    buf: Seq<u8>,
)
    requires
        d.data == h.data,
        d.desc == h.desc,
        h.desc < descs.len(),
        h.data < files.len(),
        write_spec(files, descs, h, buf).0 is Ok,
    ensures
        write_spec(files, descs, h, buf).2[d.desc as int].off == write_spec(files, descs, h, buf).2[h.desc as int].off,
        write_spec(files, descs, h, buf).1[d.data as int] == write_spec(files, descs, h, buf).1[h.data as int],
{
}

/// A successful write followed by a read of as many bytes at the place it
/// wrote gives the written bytes back.
pub proof fn law_write_then_read(data: Seq<u8>, offset: int, buf: Seq<u8>)
    requires
        0 <= offset,
    ensures
        written(data, offset, buf).subrange(offset, offset + buf.len()) == buf,
        read_count(written(data, offset, buf), offset, buf.len() as int) == buf.len(),
{
    let w = written(data, offset, buf);
    assert(w.subrange(offset, offset + buf.len()) =~= buf);
}

} // verus!

use vstd::prelude::*;
use crate::consts::PAGE_SZ;

verus! {

/// A page-table entry as the memory handlers see it: the frame it maps and
/// its present, writable, executable and user bits.
#[derive(Clone, Copy, Debug, PartialEq, Eq, Structural)]
pub struct PageEntry {
    pub target: usize,
    pub present: bool,
    pub writable: bool,
    pub execute: bool,
    pub user: bool,
}

/// The attributes a handler maps pages with.
#[derive(Clone, Copy, PartialEq, Eq, Structural)]
pub struct MemoryAttr {
    pub user: bool,
    pub readonly: bool,
    pub execute: bool,
}

impl MemoryAttr {
    /// Marks the entry present and sets its user, writable and executable
    /// bits from the attributes; the target is kept.
    pub fn apply(&self, entry: &mut PageEntry)
        ensures
            *final(entry) == (PageEntry {
                target: old(entry).target,
                present: true,
                writable: !self.readonly,
                execute: self.execute,
                user: self.user,
            }),
    {
        entry.present = true;
        entry.user = self.user;
        entry.writable = !self.readonly;
        entry.execute = self.execute;
    }
}

/// The kind of access that faulted.
#[derive(Clone, Copy, PartialEq, Eq, Structural)]
pub struct AccessType {
    pub write: bool,
    pub execute: bool,
    pub user: bool,
}

impl AccessType {
    /// Whether the entry's bits allow the access.
    pub fn check_access(&self, entry: &PageEntry) -> (r: bool)
        ensures
            r == self.check_access_spec(*entry),
    {
        (!self.write || entry.writable) && (!self.execute || entry.execute) && (!self.user || entry.user)
    }
}

/// A readable backing store for file-mapped memory: fills `buf` from
/// `offset` and returns how many bytes it read. Each store says, by
/// `read_spec`, which contents a read may leave in a buffer and what count
/// it reports.
pub trait Read {
    /// A read from `offset` may turn a buffer holding `before` into one
    /// holding `after` and report `count`.
    spec fn read_spec(&self, offset: usize, before: Seq<u8>, after: Seq<u8>, count: usize) -> bool;

    fn read_at(&self, offset: usize, buf: &mut [u8]) -> (r: usize)
        ensures
            final(buf)@.len() == old(buf)@.len(),
            self.read_spec(offset, old(buf)@, final(buf)@, r),
    ;
}

/// A store whose contents are the bytes it holds.
pub struct ByteFile(pub Vec<u8>);

impl Read for ByteFile {
    /// A read copies the stored bytes from `offset` on into the front of the
    /// buffer, as many as fit and are there, and leaves the rest as it was.
    open spec fn read_spec(&self, offset: usize, before: Seq<u8>, after: Seq<u8>, count: usize) -> bool {
        let avail: int = if offset < self.0@.len() {
            self.0@.len() - offset
        } else {
            0
        };
        &&& count == (if before.len() < avail {
            before.len() as int
        } else {
            avail
        })
        &&& after.len() == before.len()
        &&& forall|i: int| 0 <= i < count ==> after[i] == self.0@[offset + i]
        &&& forall|i: int| count <= i < before.len() ==> after[i] == before[i]
    }

    fn read_at(&self, offset: usize, buf: &mut [u8]) -> (r: usize) {
        let mut n: usize = 0;
        proof {
            assert(self.0@.len() == self.0.len());
        }
        let avail: usize = if offset < self.0.len() {
            self.0.len() - offset
        } else {
            0
        };
        while n < buf.len() && n < avail
            invariant
                n <= buf@.len(),
                n <= avail,
                avail == (if offset < self.0@.len() {
                    self.0@.len() - offset
                } else {
                    0
                }),
                buf@.len() == old(buf)@.len(),
                self.0@.len() <= usize::MAX,
                forall|i: int| 0 <= i < n ==> buf@[i] == self.0@[offset + i],
                forall|i: int| n <= i < buf@.len() ==> buf@[i] == old(buf)@[i],
            decreases buf@.len() - n,
        {
            buf[n] = self.0[offset + n];
            n = n + 1;
        }
        n
    }
}

/// The start of the page holding `addr`.
pub open spec fn page_base(addr: usize) -> int {
    addr - (addr % PAGE_SZ) as int
}

/// Where a file-backed mapping meets the page at `addr`: the offset in the
/// page, the offset in the file and the length of the overlap. `None` when
/// they do not overlap or when an address would not fit in a word.
pub open spec fn fill_window(addr: int, mem_start: int, file_start: int, file_end: int) -> Option<(int, int, int)> {
    if addr + PAGE_SZ > usize::MAX || file_end < file_start || mem_start + (file_end - file_start)
        > usize::MAX {
        None
    } else {
        let cs = if addr >= mem_start {
            addr
        } else {
            mem_start
        };
        let page_end = addr + PAGE_SZ;
        let mem_file_end = mem_start + (file_end - file_start);
        let ce = if page_end <= mem_file_end {
            page_end
        } else {
            mem_file_end
        };
        if cs >= ce || file_start + (cs - mem_start) > usize::MAX {
            None
        } else {
            Some((cs - addr, file_start + (cs - mem_start), ce - cs))
        }
    }
}

/// `n` zero bytes.
pub open spec fn zero_bytes(n: int) -> Seq<u8> {
    Seq::new(n as nat, |i: int| 0u8)
}

/// A page of zeros with `bytes` written at `at`.
pub open spec fn placed(at: int, bytes: Seq<u8>) -> Seq<u8> {
    Seq::new(PAGE_SZ as nat, |i: int| if at <= i < at + bytes.len() { bytes[i - at] } else { 0u8 })
}

/// Zeroes the page and writes the first `count` bytes of `bytes` at
/// `at`.
pub fn place_read(page: &mut Vec<u8>, at: usize, bytes: &[u8], count: usize)
    requires
        old(page)@.len() == PAGE_SZ,
        count <= bytes@.len(),
        at + count <= PAGE_SZ,
    ensures
        final(page)@ == placed(at as int, bytes@.subrange(0, count as int)),
{
    let mut i: usize = 0;
    while i < page.len()
        invariant
            page@.len() == PAGE_SZ,
            i <= PAGE_SZ,
            forall|j: int| 0 <= j < i ==> page@[j] == 0u8,
        decreases PAGE_SZ - i,
    {
        page.set(i, 0);
        i = i + 1;
    }
    let mut k: usize = 0;
    while k < count
        invariant
            page@.len() == PAGE_SZ,
            k <= count,
            count <= bytes@.len(),
            at + count <= PAGE_SZ,
            forall|j: int|
                0 <= j < PAGE_SZ ==> #[trigger] page@[j] == (if at <= j < at + k {
                    bytes@[j - at]
                } else {
                    0u8
                }),
        decreases count - k,
    {
        page.set(at + k, bytes[k]);
        k = k + 1;
    }
    proof {
        assert(page@ =~= placed(at as int, bytes@.subrange(0, count as int)));
    }
}

/// A handler that maps a file lazily: the bytes `[file_start, file_end)`
/// of `file` appear at `mem_start`, and the rest of the mapping is zero.
pub struct File<F> {
    pub file: F,
    pub mem_start: usize,
    pub file_start: usize,
    pub file_end: usize,
}

impl<F: Read> File<F> {
    /// The overlap of the page at `addr` with the file's bytes.
    pub fn window(&self, addr: usize) -> (r: Option<(usize, usize, usize)>)
        ensures
            match fill_window(addr as int, self.mem_start as int, self.file_start as int, self.file_end as int) {
                None => r is None,
                Some((po, fo, n)) => r == Some((po as usize, fo as usize, n as usize)),
            },
    {
        let page_end = match addr.checked_add(PAGE_SZ) {
            Some(end) => end,
            None => return None,
        };
        let file_len = match self.file_end.checked_sub(self.file_start) {
            Some(len) => len,
            None => return None,
        };
        let mem_file_end = match self.mem_start.checked_add(file_len) {
            Some(end) => end,
            None => return None,
        };
        let copy_start = if addr >= self.mem_start {
            addr
        } else {
            self.mem_start
        };
        let copy_end = if page_end <= mem_file_end {
            page_end
        } else {
            mem_file_end
        };
        if copy_start >= copy_end {
            return None;
        }
        let page_offset = copy_start - addr;
        let file_offset = match self.file_start.checked_add(copy_start - self.mem_start) {
            Some(offset) => offset,
            None => return None,
        };
        Some((page_offset, file_offset, copy_end - copy_start))
    }

    /// Fills the page at `addr`: zeros, with the overlapping file bytes read
    /// in at their place. Returns what the read reported, 0 without overlap.
    pub fn fill_data(&self, page: &mut Vec<u8>, addr: usize) -> (r: usize)
        requires
            old(page)@.len() == PAGE_SZ,
        ensures
            match fill_window(addr as int, self.mem_start as int, self.file_start as int, self.file_end as int) {
                None => r == 0 && final(page)@ == placed(0, Seq::empty()),
                Some((po, fo, n)) => exists|b: Seq<u8>|
                    #![trigger placed(po, b)]
                    b.len() == n && self.file.read_spec(fo as usize, zero_bytes(n), b, r)
                        && final(page)@ == placed(po, b),
            },
    {
        match self.window(addr) {
            None => {
                place_read(page, 0, &[], 0);
                proof {
                    assert(Seq::<u8>::empty().subrange(0, 0) =~= Seq::<u8>::empty());
                }
                0
            },
            Some((page_offset, file_offset, read_size)) => {
                let mut buf: Vec<u8> = vec![0u8; read_size];
                proof {
                    assert(buf@ =~= zero_bytes(read_size as int));
                }
                let count = self.file.read_at(file_offset, buf.as_mut_slice());
                let n = if buf.len() < read_size {
                    buf.len()
                } else {
                    read_size
                };
                place_read(page, page_offset, buf.as_slice(), n);
                proof {
                    assert(buf@.subrange(0, n as int) =~= buf@);
                }
                count
            },
        }
    }

    /// Handles a fault at `addr` in this mapping. A present entry decides by
    /// its access bits. Otherwise `frame` is the allocator's answer: none
    /// fails; a frame becomes the entry's target, the entry is marked
    /// present, and `page` (that frame's bytes) is filled for the page
    /// holding `addr`.
    pub fn handle_page_fault_ext(
        &self,
        entry: &mut PageEntry,
        page: &mut Vec<u8>,
        addr: usize,
        access: AccessType,
        frame: Option<usize>,
    ) -> (r: bool)
        requires
            old(page)@.len() == PAGE_SZ,
        ensures
            old(entry).present ==> r == access.check_access_spec(*old(entry)) && *final(entry)
                == *old(entry) && final(page)@ == old(page)@,
            !old(entry).present && frame is None ==> !r && *final(entry) == *old(entry) && final(page)@
                == old(page)@,
            !old(entry).present && frame is Some ==> {
                &&& r
                &&& *final(entry) == (PageEntry { target: frame.unwrap(), present: true, ..*old(entry) })
                &&& match fill_window(page_base(addr), self.mem_start as int, self.file_start as int, self.file_end as int) {
                    None => final(page)@ == placed(0, Seq::empty()),
                    Some((po, fo, n)) => exists|b: Seq<u8>, c: usize|
                        #![trigger self.file.read_spec(fo as usize, zero_bytes(n), b, c)]
                        b.len() == n && self.file.read_spec(fo as usize, zero_bytes(n), b, c)
                            && final(page)@ == placed(po, b),
                }
            },
    {
        let base = addr & !(PAGE_SZ - 1);
        proof {
            assert(addr & !4095usize == addr - addr % 4096) by (bit_vector);
        }
        if entry.present {
            return access.check_access(entry);
        }
        let f = match frame {
            Some(f) => f,
            None => return false,
        };
        entry.target = f;
        entry.present = true;
        let _read = self.fill_data(page, base);
        true
    }
}

impl AccessType {
    pub open spec fn check_access_spec(&self, entry: PageEntry) -> bool {
        (!self.write || entry.writable) && (!self.execute || entry.execute) && (!self.user || entry.user)
    }
}

/// A handler that backs every page with its own frame from `allocator`.
pub struct ByFrame<T> {
    pub allocator: T,
}

impl<T> ByFrame<T> {
    pub fn new(allocator: T) -> (r: Self)
        ensures
            r.allocator == allocator,
    {
        ByFrame { allocator }
    }

    /// Maps a page to the allocated `frame` with the given attributes.
    pub fn map(&self, entry: &mut PageEntry, frame: usize, attr: &MemoryAttr)
        ensures
            *final(entry) == (PageEntry {
                target: frame,
                present: true,
                writable: !attr.readonly,
                execute: attr.execute,
                user: attr.user,
            }),
    {
        entry.target = frame;
        attr.apply(entry);
    }

    /// A fault on an eagerly mapped page is handled only when the page is
    /// present and its bits allow the access.
    pub fn handle_page_fault_ext(&self, entry: &PageEntry, access: AccessType) -> (r: bool)
        ensures
            r == (entry.present && access.check_access_spec(*entry)),
    {
        entry.present && access.check_access(entry)
    }
}

} // verus!

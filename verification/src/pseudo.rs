use vstd::prelude::*;
use crate::file::read_count;
use vstd::string::StringSliceAdditionalSpecFns;

verus! {

/// A read-only in-memory node: fixed contents and a file type byte.
pub struct PseudoNode {
    pub content: Vec<u8>,
    pub ftype: u8,
}

impl PseudoNode {
    /// A node holding the bytes of `content`.
    pub fn new(content: &str, file_type: u8) -> (r: Self)
        ensures
            r.content@ == content.spec_bytes(),
            r.ftype == file_type,
    {
        let bytes = content.as_bytes();
        let mut data: Vec<u8> = Vec::new();
        let mut i: usize = 0;
        while i < bytes.len()
            invariant
                i <= bytes@.len(),
                data@ == bytes@.subrange(0, i as int),
            decreases bytes@.len() - i,
        {
            data.push(bytes[i]);
            i = i + 1;
            proof {
                assert(data@ =~= bytes@.subrange(0, i as int));
            }
        }
        proof {
            assert(data@ =~= bytes@);
        }
        PseudoNode { content: data, ftype: file_type }
    }

    /// Copies up to `buffer.len()` bytes from `offset`; 0 at or past the
    /// end.
    pub fn read_at(&self, offset: usize, buffer: &mut [u8]) -> (r: usize)
        ensures
            r == read_count(self.content@, offset as int, old(buffer).len() as int),
            offset >= self.content@.len() ==> final(buffer)@ == old(buffer)@,
            offset < self.content@.len() ==> final(buffer)@ == self.content@.subrange(offset as int, offset + r)
                + old(buffer)@.subrange(r as int, old(buffer)@.len() as int),
    {
        if offset >= self.content.len() {
            return 0;
        }
        let avail = self.content.len() - offset;
        let n = if avail < buffer.len() {
            avail
        } else {
            buffer.len()
        };
        let mut k: usize = 0;
        while k < n
            invariant
                offset + n <= self.content.len(),
                n <= buffer@.len(),
                buffer@.len() == old(buffer)@.len(),
                k <= n,
                forall|j: int| 0 <= j < k ==> buffer@[j] == self.content@[offset + j],
                forall|j: int| k <= j < buffer@.len() ==> buffer@[j] == old(buffer)@[j],
            decreases n - k,
        {
            buffer[k] = self.content[offset + k];
            k = k + 1;
        }
        proof {
            assert(buffer@ =~= self.content@.subrange(offset as int, offset + n) + old(buffer)@.subrange(
                n as int,
                old(buffer)@.len() as int,
            ));
        }
        n
    }

    /// Pseudo nodes cannot be written.
    pub fn write_at(&self, offset: usize, buffer: &[u8]) -> (r: Result<usize, &'static str>)
        ensures
            r == Err::<usize, &'static str>("nosup"),
    {
        Err("nosup")
    }

    /// Size of the contents.
    pub fn metadata_sz(&self) -> (r: usize)
        ensures
            r == self.content@.len(),
    {
        self.content.len()
    }
}

} // verus!

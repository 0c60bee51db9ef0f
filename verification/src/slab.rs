use vstd::prelude::*;
use std::collections::VecDeque;
use crate::consts::SLAB_ALIGN;

verus! {

/// One slab of fixed-size objects: the object bytes, the aligned slot size,
/// the slot count, the free slot offsets and the number of slots in use.
pub struct SlabEntry {
    pub data: Vec<u8>,
    pub obj_size: usize,
    pub capacity: usize,
    pub free_list: VecDeque<usize>,
    pub allocated: usize,
    pub tag: u32,
}

/// The byte range of the slot at `offset`, when it lies inside the slab.
pub open spec fn slot_end(obj_size: usize, data_len: int, offset: usize) -> Option<int> {
    if obj_size == 0 || offset + obj_size > usize::MAX || offset + obj_size > data_len {
        None
    } else {
        Some(offset + obj_size)
    }
}

/// `obj_size` rounded up to the slab alignment, unless that overflows.
pub open spec fn aligned_size(obj_size: usize) -> Option<int> {
    if obj_size + (SLAB_ALIGN - 1) > usize::MAX {
        None
    } else {
        Some((obj_size + 7) - (obj_size + 7) % 8)
    }
}

impl SlabEntry {
    fn empty() -> (r: Self)
        ensures
            r.data@.len() == 0,
            r.obj_size == 0,
            r.capacity == 0,
            r.free_list@.len() == 0,
            r.allocated == 0,
            r.tag == 0,
    {
        SlabEntry {
            data: Vec::new(),
            obj_size: 0,
            capacity: 0,
            free_list: VecDeque::new(),
            allocated: 0,
            tag: 0,
        }
    }

    fn aligned_object_size(obj_size: usize) -> (r: Option<usize>)
        ensures
            r == match aligned_size(obj_size) {
                Some(v) => Some(v as usize),
                None => None::<usize>,
            },
    {
        match obj_size.checked_add(SLAB_ALIGN - 1) {
            Some(size) => {
                proof {
                    assert(8usize & 7usize == 0) by (bit_vector);
                    crate::util::lemma_mask_split(size, 8);
                    vstd::bits::lemma_usize_low_bits_mask_is_mod(size, 3);
                    vstd::arithmetic::power2::lemma2_to64();
                }
                Some(size & !(SLAB_ALIGN - 1))
            },
            None => None,
        }
    }

    fn slot_range(&self, offset: usize) -> (r: Option<usize>)
        ensures
            r == match slot_end(self.obj_size, self.data@.len() as int, offset) {
                Some(e) => Some(e as usize),
                None => None::<usize>,
            },
    {
        if self.obj_size == 0 {
            return None;
        }
        let end = match offset.checked_add(self.obj_size) {
            Some(e) => e,
            None => return None,
        };
        if end <= self.data.len() {
            Some(end)
        } else {
            None
        }
    }

    fn is_valid_slot_offset(&self, offset: usize) -> (r: bool)
        ensures
            r == (self.obj_size != 0 && offset % self.obj_size == 0 && slot_end(
                self.obj_size,
                self.data@.len() as int,
                offset,
            ) is Some),
    {
        if self.obj_size == 0 {
            return false;
        }
        offset % self.obj_size == 0 && self.slot_range(offset).is_some()
    }

    fn is_free_slot(&self, offset: usize) -> (r: bool)
        ensures
            r == self.free_list@.contains(offset),
    {
        let mut i: usize = 0;
        while i < self.free_list.len()
            invariant
                i <= self.free_list@.len(),
                forall|k: int| 0 <= k < i ==> self.free_list@[k] != offset,
            decreases self.free_list@.len() - i,
        {
            if self.free_list[i] == offset {
                return true;
            }
            i = i + 1;
        }
        false
    }

    /// A slab of `capacity` slots of `obj_size` rounded up to 8 bytes, all
    /// free, in increasing offset order. When the sizes overflow the slab is
    /// empty.
    pub fn new(obj_size: usize, capacity: usize) -> (r: Self)
        ensures
            (aligned_size(obj_size) is None || aligned_size(obj_size).unwrap() * capacity
                > usize::MAX) ==> r.data@.len() == 0 && r.obj_size == 0 && r.capacity == 0
                && r.free_list@.len() == 0 && r.allocated == 0,
            aligned_size(obj_size) is Some && aligned_size(obj_size).unwrap() * capacity
                <= usize::MAX ==> r.obj_size == aligned_size(obj_size).unwrap() && r.capacity
                == capacity && r.data@ == Seq::new(
                (r.obj_size * capacity) as nat,
                |i: int| 0u8,
            ) && r.free_list@ == Seq::new(capacity as nat, |i: int| (i * r.obj_size) as usize)
                && r.allocated == 0,
            r.tag == 0,
    {
        let aligned = match Self::aligned_object_size(obj_size) {
            Some(a) => a,
            None => return Self::empty(),
        };
        let total = match aligned.checked_mul(capacity) {
            Some(t) => t,
            None => return Self::empty(),
        };
        let mut free_offsets: VecDeque<usize> = VecDeque::new();
        let mut i: usize = 0;
        while i < capacity
            invariant
                i <= capacity,
                aligned * capacity <= usize::MAX,
                free_offsets@ == Seq::new(i as nat, |k: int| (k * aligned) as usize),
            decreases capacity - i,
        {
            proof {
                vstd::arithmetic::mul::lemma_mul_inequality(i as int, capacity as int, aligned as int);
                vstd::arithmetic::mul::lemma_mul_is_commutative(i as int, aligned as int);
                vstd::arithmetic::mul::lemma_mul_is_commutative(capacity as int, aligned as int);
            }
            free_offsets.push_back(i * aligned);
            i = i + 1;
        }
        let data = crate::circbuf::zeroed_bytes(total);
        SlabEntry {
            data,
            obj_size: aligned,
            capacity,
            free_list: free_offsets,
            allocated: 0,
            tag: 0,
        }
    }

    /// Takes the first free slot. A slot whose range does not fit the slab
    /// is dropped from the free list and `None` is returned. A zeroed
    /// allocation clears the slot's bytes.
    pub fn slab_alloc(&mut self, zeroed: bool) -> (r: Option<usize>)
        requires
            old(self).allocated < usize::MAX,
        ensures
            old(self).free_list@.len() == 0 ==> r is None && final(self).data@ == old(self).data@
                && final(self).free_list@ == old(self).free_list@ && final(self).allocated == old(self).allocated,
            old(self).free_list@.len() > 0 ==> final(self).free_list@ == old(self).free_list@.drop_first(),
            old(self).free_list@.len() > 0 && slot_end(
                old(self).obj_size,
                old(self).data@.len() as int,
                old(self).free_list@[0],
            ) is None ==> r is None && final(self).data@ == old(self).data@ && final(self).allocated == old(self).allocated,
            old(self).free_list@.len() > 0 && slot_end(
                old(self).obj_size,
                old(self).data@.len() as int,
                old(self).free_list@[0],
            ) is Some ==> r == Some(old(self).free_list@[0]),
            r matches Some(slot) ==> slot == old(self).free_list@[0] && slot_end(
                old(self).obj_size,
                old(self).data@.len() as int,
                slot,
            ) is Some && final(self).allocated == old(self).allocated + 1 && final(self).data@
                == (if zeroed {
                Seq::new(
                    old(self).data@.len(),
                    |k: int|
                        if slot <= k < slot + old(self).obj_size {
                            0u8
                        } else {
                            old(self).data@[k]
                        },
                )
            } else {
                old(self).data@
            }),
            old(self).free_list@.len() > 0 && slot_end(
                old(self).obj_size,
                old(self).data@.len() as int,
                old(self).free_list@[0],
            ) is Some ==> r is Some,
            final(self).obj_size == old(self).obj_size,
            final(self).capacity == old(self).capacity,
            final(self).tag == old(self).tag,
    {
        let slot = match self.free_list.pop_front() {
            Some(s) => s,
            None => return None,
        };
        let end = match self.slot_range(slot) {
            Some(e) => e,
            None => return None,
        };
        if zeroed {
            let ghost before = self.data@;
            let mut k: usize = slot;
            while k < end
                invariant
                    slot <= k <= end,
                    end <= self.data@.len(),
                    end == slot + self.obj_size,
                    self.obj_size == old(self).obj_size,
                    self.capacity == old(self).capacity,
                    self.tag == old(self).tag,
                    self.allocated == old(self).allocated,
                    self.free_list@ == old(self).free_list@.drop_first(),
                    self.data@.len() == before.len(),
                    forall|q: int|
                        0 <= q < before.len() ==> #[trigger] self.data@[q] == if slot <= q < k {
                            0u8
                        } else {
                            before[q]
                        },
                decreases end - k,
            {
                self.data.set(k, 0);
                k = k + 1;
            }
            proof {
                assert(self.data@ =~= Seq::new(
                    before.len(),
                    |q: int|
                        if slot <= q < slot + self.obj_size {
                            0u8
                        } else {
                            before[q]
                        },
                ));
            }
        }
        self.allocated = self.allocated + 1;
        Some(slot)
    }

    /// Returns a slot to the free list. Offsets that are not slot starts
    /// inside the slab, and slots already free, are ignored.
    pub fn slab_free(&mut self, offset: usize)
        ensures
            (old(self).obj_size == 0 || offset % old(self).obj_size != 0 || slot_end(
                old(self).obj_size,
                old(self).data@.len() as int,
                offset,
            ) is None || old(self).free_list@.contains(offset)) ==> *final(self) == *old(self),
            !(old(self).obj_size == 0 || offset % old(self).obj_size != 0 || slot_end(
                old(self).obj_size,
                old(self).data@.len() as int,
                offset,
            ) is None || old(self).free_list@.contains(offset)) ==> final(self).free_list@ == old(self).free_list@.push(offset) && final(self).allocated == (if old(self).allocated > 0 {
                old(self).allocated - 1
            } else {
                0
            }) && final(self).data@ == old(self).data@ && final(self).obj_size == old(self).obj_size && final(self).capacity == old(self).capacity && final(self).tag == old(self).tag,
    {
        if !self.is_valid_slot_offset(offset) {
            return;
        }
        if self.is_free_slot(offset) {
            return;
        }
        self.free_list.push_back(offset);
        if self.allocated > 0 {
            self.allocated = self.allocated - 1;
        }
    }

    pub fn slab_used(&self) -> (r: usize)
        ensures
            r == self.allocated,
    {
        self.allocated
    }

    pub fn slab_avail(&self) -> (r: usize)
        ensures
            r == self.free_list@.len(),
    {
        self.free_list.len()
    }

    /// Releases the slab's memory when no slot is in use; returns the bytes freed.
    pub fn shrink(&mut self) -> (r: usize)
        ensures
            old(self).allocated == 0 ==> final(self).data@.len() == 0 && final(self).free_list@.len()
                == 0 && r == old(self).data@.len(),
            old(self).allocated != 0 ==> *final(self) == *old(self) && r == 0,
            final(self).allocated == old(self).allocated,
            final(self).obj_size == old(self).obj_size,
    {
        let before = self.data.len();
        if self.allocated == 0 {
            self.data.clear();
            self.free_list.clear();
        }
        before - self.data.len()
    }

    /// The bytes of the slot at `offset`, when it lies inside the slab.
    pub fn obj_at(&self, offset: usize) -> (r: Option<&[u8]>)
        ensures
            slot_end(self.obj_size, self.data@.len() as int, offset) is None ==> r is None,
            slot_end(self.obj_size, self.data@.len() as int, offset) matches Some(e) ==> r is Some
                && r.unwrap()@ == self.data@.subrange(offset as int, e),
    {
        let end = match self.slot_range(offset) {
            Some(e) => e,
            None => return None,
        };
        Some(vstd::slice::slice_subrange(self.data.as_slice(), offset, end))
    }

    /// The bytes of the slot at `offset`, to change in place, when it lies
    /// inside the slab; what is written there ends up in the slab's data.
    pub fn obj_at_mut(&mut self, offset: usize) -> (r: Option<&mut [u8]>)
        ensures
            slot_end(old(self).obj_size, old(self).data@.len() as int, offset) is None ==> r is None
                && final(self).data@ == old(self).data@,
            slot_end(old(self).obj_size, old(self).data@.len() as int, offset) matches Some(e) ==> r matches Some(m) && m@
                == old(self).data@.subrange(offset as int, e) && final(self).data@ == old(self).data@.subrange(
                0,
                offset as int,
            ) + final(m)@ + old(self).data@.subrange(e, old(self).data@.len() as int),
            final(self).free_list@ == old(self).free_list@,
            final(self).allocated == old(self).allocated,
            final(self).obj_size == old(self).obj_size,
            final(self).capacity == old(self).capacity,
            final(self).tag == old(self).tag,
    {
        let end = match self.slot_range(offset) {
            Some(e) => e,
            None => return None,
        };
        let whole = self.data.as_mut_slice();
        let (_front, rest) = whole.split_at_mut(offset);
        let (mid, _back) = rest.split_at_mut(end - offset);
        Some(mid)
    }

    /// Sets every byte of the slot at `offset` to `value`; reports whether
    /// the slot lies inside the slab.
    pub fn fill_obj(&mut self, offset: usize, value: u8) -> (r: bool)
        ensures
            r == slot_end(old(self).obj_size, old(self).data@.len() as int, offset) is Some,
            r ==> final(self).data@ == Seq::new(
                old(self).data@.len(),
                |k: int|
                    if offset <= k < offset + old(self).obj_size {
                        value
                    } else {
                        old(self).data@[k]
                    },
            ),
            !r ==> final(self).data@ == old(self).data@,
            final(self).free_list@ == old(self).free_list@,
            final(self).allocated == old(self).allocated,
            final(self).obj_size == old(self).obj_size,
    {
        let end = match self.slot_range(offset) {
            Some(e) => e,
            None => return false,
        };
        let ghost before = self.data@;
        let mut k: usize = offset;
        while k < end
            invariant
                offset <= k <= end,
                end <= self.data@.len(),
                end == offset + self.obj_size,
                self.obj_size == old(self).obj_size,
                self.allocated == old(self).allocated,
                self.free_list@ == old(self).free_list@,
                self.data@.len() == before.len(),
                forall|q: int|
                    0 <= q < before.len() ==> #[trigger] self.data@[q] == if offset <= q < k {
                        value
                    } else {
                        before[q]
                    },
            decreases end - k,
        {
            self.data.set(k, value);
            k = k + 1;
        }
        proof {
            assert(self.data@ =~= Seq::new(
                before.len(),
                |q: int|
                    if offset <= q < offset + self.obj_size {
                        value
                    } else {
                        before[q]
                    },
            ));
        }
        true
    }
}

/// Freeing never puts an offset on the free list twice: a free list without
/// repeats keeps none after `slab_free`.
pub proof fn law_free_list_no_repeats(before: Seq<usize>, offset: usize, after: Seq<usize>)
    requires
        before.no_duplicates(),
        before.contains(offset) ==> after == before,
        !before.contains(offset) ==> after == before.push(offset) || after == before,
    ensures
        after.no_duplicates(),
{
    if after != before {
        assert forall|i: int, j: int| 0 <= i < j < after.len() implies after[i] != after[j] by {
            if j == before.len() {
                assert(after[i] == before[i]);
                if after[i] == offset {
                    assert(before.contains(offset));
                }
            }
        }
    }
}

/// The slots of a new slab are distinct when objects have nonzero size.
pub proof fn law_new_slots_distinct(n: nat, size: int)
    requires
        size > 0,
    ensures
        Seq::new(n, |i: int| i * size).no_duplicates(),
{
    let q = Seq::new(n, |k: int| k * size);
    assert forall|i: int, j: int| 0 <= i < j < n implies #[trigger] q[i] != #[trigger] q[j] by {
        vstd::arithmetic::mul::lemma_mul_strict_inequality(i, j, size);
    }
    assert forall|i: int, j: int| 0 <= i < q.len() && 0 <= j < q.len() && i != j implies #[trigger] q[i]
        != #[trigger] q[j] by {
        if i < j {
            vstd::arithmetic::mul::lemma_mul_strict_inequality(i, j, size);
        } else {
            vstd::arithmetic::mul::lemma_mul_strict_inequality(j, i, size);
        }
    }
}

} // verus!

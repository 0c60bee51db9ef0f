use vstd::prelude::*;
use crate::consts::{MEM_OFF, PAGE_SZ, PHYS_OFF};
use crate::memory::count_true;
use vstd::arithmetic::power2::pow2;

verus! {

/// One physical-memory zone: a PFN range and its free-page watermarks.
pub struct ZoneInfo {
    pub zone_id: usize,
    pub base_pfn: usize,
    pub page_count: usize,
    pub free_count: usize,
    pub low_watermark: usize,
    pub high_watermark: usize,
    pub managed: bool,
}

impl ZoneInfo {
    pub fn new(id: usize, base: usize, count: usize, low: usize, high: usize) -> (r: Self)
        ensures
            r == (ZoneInfo {
                zone_id: id,
                base_pfn: base,
                page_count: count,
                free_count: count,
                low_watermark: low,
                high_watermark: high,
                managed: true,
            }),
    {
        ZoneInfo {
            zone_id: id,
            base_pfn: base,
            page_count: count,
            free_count: count,
            low_watermark: low,
            high_watermark: high,
            managed: true,
        }
    }

    /// The zone may hand out a page while it is above its low watermark.
    pub fn zone_can_alloc(&self) -> (r: bool)
        ensures
            r == (self.free_count > self.low_watermark),
    {
        self.free_count > self.low_watermark
    }

    /// Reclaim pressure in percent: 0 at or above the high watermark, 100 at
    /// or below the low one, linear in between.
    pub fn zone_pressure(&self) -> (r: usize)
        requires
            self.low_watermark < self.free_count < self.high_watermark ==> (self.high_watermark
                - self.free_count) * 100 <= usize::MAX,
        ensures
            self.free_count >= self.high_watermark ==> r == 0,
            self.free_count < self.high_watermark && self.free_count <= self.low_watermark ==> r
                == 100,
            self.low_watermark < self.free_count < self.high_watermark ==> r == ((
            self.high_watermark - self.free_count) * 100) / ((self.high_watermark
                - self.low_watermark) as int),
    {
        let free = self.free_count;
        if free >= self.high_watermark {
            return 0;
        }
        if free <= self.low_watermark {
            return 100;
        }
        let range = self.high_watermark - self.low_watermark;
        let deficit = self.high_watermark - free;
        (deficit * 100) / range
    }

    pub fn reclaim_target(&self) -> (r: usize)
        ensures
            r == (if self.free_count >= self.high_watermark {
                0
            } else {
                self.high_watermark - self.free_count
            }),
    {
        let free = self.free_count;
        if free >= self.high_watermark {
            return 0;
        }
        self.high_watermark - free
    }

    pub fn contains_pfn(&self, pfn: usize) -> (r: bool)
        requires
            pfn >= self.base_pfn ==> self.base_pfn + self.page_count <= usize::MAX,
        ensures
            r == (pfn >= self.base_pfn && pfn < self.base_pfn + self.page_count),
    {
        pfn >= self.base_pfn && pfn < self.base_pfn + self.page_count
    }
}

/// Reference counter for one physical page frame.
pub struct PgFrame {
    pub ref_count: usize,
}

impl PgFrame {
    pub fn new() -> (r: Self)
        ensures
            r.ref_count == 0,
    {
        PgFrame { ref_count: 0 }
    }

    pub fn with_rc(initial_count: usize) -> (r: Self)
        ensures
            r.ref_count == initial_count,
    {
        PgFrame { ref_count: initial_count }
    }

    /// Adds a reference (wrapping) and returns the previous count.
    pub fn up(&mut self) -> (r: usize)
        ensures
            r == old(self).ref_count,
            final(self).ref_count == vstd::wrapping::usize_specs::wrapping_add(old(self).ref_count, 1),
    {
        let prev = self.ref_count;
        self.ref_count = self.ref_count.wrapping_add(1);
        prev
    }

    /// Drops a reference unless the count is already zero; returns the
    /// previous count.
    pub fn down(&mut self) -> (r: usize)
        ensures
            r == old(self).ref_count,
            old(self).ref_count == 0 ==> final(self).ref_count == 0,
            old(self).ref_count > 0 ==> final(self).ref_count == old(self).ref_count - 1,
    {
        let current = self.ref_count;
        if current == 0 {
            return 0;
        }
        self.ref_count = current - 1;
        current
    }

    pub fn count(&self) -> (r: usize)
        ensures
            r == self.ref_count,
    {
        self.ref_count
    }

    pub fn set(&mut self, count: usize)
        ensures
            final(self).ref_count == count,
    {
        self.ref_count = count;
    }

    /// Replaces the count with `desired` when it equals `expected`.
    pub fn cas(&mut self, expected: usize, desired: usize) -> (r: bool)
        ensures
            r == (old(self).ref_count == expected),
            r ==> final(self).ref_count == desired,
            !r ==> final(self).ref_count == old(self).ref_count,
    {
        if self.ref_count == expected {
            self.ref_count = desired;
            true
        } else {
            false
        }
    }

    /// Adds a reference only to a frame that already has one.
    pub fn inc_if_nonzero(&mut self) -> (r: bool)
        requires
            old(self).ref_count < usize::MAX,
        ensures
            r == (old(self).ref_count != 0),
            r ==> final(self).ref_count == old(self).ref_count + 1,
            !r ==> final(self).ref_count == 0,
    {
        if self.ref_count == 0 {
            return false;
        }
        self.ref_count = self.ref_count + 1;
        true
    }
}

/// A reference count never drops below zero: taking one from zero leaves zero.
pub proof fn law_down_saturates(before: usize, after: usize)
    requires
        before == 0 ==> after == 0,
        before > 0 ==> after == before - 1,
    ensures
        after <= before,
        before > 0 ==> after + 1 == before,
{
}

/// Index of the first `true` slot.
pub open spec fn first_free(s: Seq<bool>) -> Option<int> {
    if exists|i: int| 0 <= i < s.len() && s[i] {
        Some(choose|i: int| 0 <= i < s.len() && s[i] && forall|j: int| 0 <= j < i ==> !s[j])
    } else {
        None
    }
}

/// `i` is the first free slot of `s`.
pub open spec fn is_first_free(s: Seq<bool>, i: int) -> bool {
    0 <= i < s.len() && s[i] && forall|j: int| 0 <= j < i ==> !#[trigger] s[j]
}

/// The indices of the free slots of `s`, in increasing order.
pub open spec fn free_indices(s: Seq<bool>) -> Seq<usize>
    decreases s.len(),
{
    if s.len() == 0 {
        Seq::empty()
    } else {
        free_indices(s.drop_last()) + if s.last() {
            seq![(s.len() - 1) as usize]
        } else {
            Seq::<usize>::empty()
        }
    }
}

/// `start` is a multiple of `align`, the run `[start, start + size)` lies
/// inside the bitmap and every slot in it is free.
pub open spec fn run_free(s: Seq<bool>, start: int, size: int, align: int) -> bool {
    &&& 0 <= start < s.len()
    &&& start % align == 0
    &&& start + size <= s.len()
    &&& forall|k: int| start <= k < start + size ==> #[trigger] s[k]
}

/// Bitmap frame pool: `true` marks a free frame.
pub struct FramePool {
    pub slots: Vec<bool>,
    pub capacity: usize,
}

impl FramePool {
    pub fn new(frame_count: usize) -> (r: Self)
        ensures
            r.slots@ == Seq::new(frame_count as nat, |i: int| true),
            r.capacity == frame_count,
    {
        let mut slots: Vec<bool> = Vec::new();
        let mut i: usize = 0;
        while i < frame_count
            invariant
                i <= frame_count,
                slots@ == Seq::new(i as nat, |k: int| true),
            decreases frame_count - i,
        {
            slots.push(true);
            i = i + 1;
        }
        FramePool { slots, capacity: frame_count }
    }

    /// Allocates the lowest free frame. The caller's lock id plays no part
    /// in which frame is chosen.
    pub fn get(&mut self, id: usize) -> (r: Option<usize>)
        ensures
            r matches Some(i) ==> is_first_free(old(self).slots@, i as int) && final(self).slots@
                == old(self).slots@.update(i as int, false),
            r is None ==> (forall|j: int| 0 <= j < old(self).slots@.len() ==> !old(self).slots@[j])
                && final(self).slots@ == old(self).slots@,
            final(self).capacity == old(self).capacity,
    {
        self.get_inner()
    }

    /// Allocates the lowest free frame.
    pub fn get_inner(&mut self) -> (r: Option<usize>)
        ensures
            r matches Some(i) ==> is_first_free(old(self).slots@, i as int) && final(self).slots@
                == old(self).slots@.update(i as int, false),
            r is None ==> (forall|j: int| 0 <= j < old(self).slots@.len() ==> !old(self).slots@[j])
                && final(self).slots@ == old(self).slots@,
            final(self).capacity == old(self).capacity,
    {
        let mut i: usize = 0;
        while i < self.slots.len()
            invariant
                i <= self.slots@.len(),
                self.slots@ == old(self).slots@,
                self.capacity == old(self).capacity,
                forall|j: int| 0 <= j < i ==> !self.slots@[j],
            decreases self.slots@.len() - i,
        {
            if self.slots[i] {
                self.slots.set(i, false);
                return Some(i);
            }
            i = i + 1;
        }
        None
    }

    /// Allocates `size` contiguous frames starting at the lowest multiple of
    /// `2^align_log2` where they are all free.
    pub fn get_contig(&mut self, size: usize, align_log2: usize) -> (r: Option<usize>)
        ensures
            (size == 0 || align_log2 >= usize::BITS) ==> r is None && final(self).slots@ == old(self).slots@,
            r matches Some(start) ==> size != 0 && align_log2 < usize::BITS && run_free(
                old(self).slots@,
                start as int,
                size as int,
                pow2(align_log2 as nat) as int,
            ) && (forall|t: int|
                0 <= t < start ==> !#[trigger] run_free(
                    old(self).slots@,
                    t,
                    size as int,
                    pow2(align_log2 as nat) as int,
                )) && final(self).slots@ == Seq::new(
                old(self).slots@.len(),
                |k: int|
                    if start <= k < start + size {
                        false
                    } else {
                        old(self).slots@[k]
                    },
            ),
            r is None && size != 0 && align_log2 < usize::BITS ==> (forall|t: int|
                !#[trigger] run_free(
                    old(self).slots@,
                    t,
                    size as int,
                    pow2(align_log2 as nat) as int,
                )) && final(self).slots@ == old(self).slots@,
            final(self).capacity == old(self).capacity,
    {
        if size == 0 || align_log2 >= usize::BITS as usize {
            return None;
        }
        proof {
            vstd::bits::lemma_usize_pow2_no_overflow(align_log2 as nat);
            vstd::bits::lemma_usize_shl_is_mul(1, align_log2);
            vstd::arithmetic::power2::lemma_pow2_pos(align_log2 as nat);
        }
        let alignment = 1usize << align_log2;
        let ghost a = alignment as int;
        let n = self.slots.len();
        let mut start: usize = 0;
        while start < n
            invariant
                n == self.slots@.len(),
                self.slots@ == old(self).slots@,
                self.capacity == old(self).capacity,
                a == pow2(align_log2 as nat),
                size != 0,
                align_log2 < usize::BITS,
                alignment == a,
                a >= 1,
                (start as int) % a == 0,
                forall|t: int| 0 <= t < start ==> !#[trigger] run_free(self.slots@, t, size as int, a),
            decreases n - start,
        {
            let end = match start.checked_add(size) {
                Some(e) => e,
                None => {
                    proof {
                        assert forall|t: int| !#[trigger] run_free(self.slots@, t, size as int, a) by {
                            if t >= start && run_free(self.slots@, t, size as int, a) {
                                assert(t + size <= n);
                            }
                        }
                    }
                    return None;
                },
            };
            if end > n {
                proof {
                    assert forall|t: int| !#[trigger] run_free(self.slots@, t, size as int, a) by {
                        if t >= start && run_free(self.slots@, t, size as int, a) {
                            assert(t + size <= n);
                        }
                    }
                }
                return None;
            }
            let mut k: usize = start;
            let mut all_free = true;
            while k < end
                invariant
                    start <= k <= end,
                    end <= n,
                    n == self.slots@.len(),
                    all_free == forall|q: int| start <= q < k ==> #[trigger] self.slots@[q],
                decreases end - k,
            {
                if !self.slots[k] {
                    all_free = false;
                }
                k = k + 1;
            }
            if all_free {
                let ghost before = self.slots@;
                let mut m: usize = start;
                while m < end
                    invariant
                        start <= m <= end,
                        end <= n,
                        self.slots@.len() == n,
                        before.len() == n,
                        self.capacity == old(self).capacity,
                        forall|q: int|
                            0 <= q < n ==> #[trigger] self.slots@[q] == if start <= q < m {
                                false
                            } else {
                                before[q]
                            },
                    decreases end - m,
                {
                    self.slots.set(m, false);
                    m = m + 1;
                }
                proof {
                    assert(self.slots@ =~= Seq::new(
                        before.len(),
                        |q: int|
                            if start <= q < start + size {
                                false
                            } else {
                                before[q]
                            },
                    ));
                }
                return Some(start);
            }
            proof {
                assert forall|t: int| 0 <= t < start + a implies !#[trigger] run_free(
                    self.slots@,
                    t,
                    size as int,
                    a,
                ) by {
                    if t > start && t < start + a && t % a == 0 {
                        vstd::arithmetic::div_mod::lemma_mod_equivalence(t, start as int, a);
                        vstd::arithmetic::div_mod::lemma_small_mod((t - start) as nat, a as nat);
                    }
                }
                vstd::arithmetic::div_mod::lemma_mod_add_multiples_vanish(start as int, a);
            }
            if alignment > n - start {
                proof {
                    assert forall|t: int| !#[trigger] run_free(self.slots@, t, size as int, a) by {
                        if t >= start + a {
                        }
                    }
                }
                return None;
            }
            start = start + alignment;
        }
        None
    }

    /// Marks a frame free; out-of-range indices are ignored.
    pub fn put(&mut self, frame_index: usize)
        ensures
            frame_index < old(self).slots@.len() ==> final(self).slots@ == old(self).slots@.update(
                frame_index as int,
                true,
            ),
            frame_index >= old(self).slots@.len() ==> final(self).slots@ == old(self).slots@,
            final(self).capacity == old(self).capacity,
    {
        if frame_index < self.slots.len() {
            self.slots.set(frame_index, true);
        }
    }

    pub fn avail(&self, frame_index: usize) -> (r: bool)
        ensures
            r == (frame_index < self.slots@.len() && self.slots@[frame_index as int]),
    {
        frame_index < self.slots.len() && self.slots[frame_index]
    }

    pub fn free_count(&self) -> (r: usize)
        ensures
            r == count_true(self.slots@),
    {
        crate::memory::count_free_slots(&self.slots)
    }

    /// Allocates the lowest free frame inside the zone's PFN range when the
    /// zone is above its low watermark, and takes one page off the zone's
    /// free count (wrapping).
    pub fn get_zone_aware(&mut self, zone: &mut ZoneInfo) -> (r: Option<usize>)
        requires
            old(zone).free_count > old(zone).low_watermark ==> old(zone).base_pfn + old(zone).page_count <= usize::MAX,
        ensures
            old(zone).free_count <= old(zone).low_watermark ==> r is None && final(self).slots@
                == old(self).slots@ && *final(zone) == *old(zone),
            r matches Some(i) ==> old(zone).base_pfn <= i < old(zone).base_pfn + old(zone).page_count
                && old(self).slots@[i as int] && (forall|j: int|
                old(zone).base_pfn <= j < i ==> !#[trigger] old(self).slots@[j]) && final(self).slots@ == old(self).slots@.update(i as int, false) && *final(zone) == (ZoneInfo {
                free_count: vstd::wrapping::usize_specs::wrapping_sub(old(zone).free_count, 1),
                ..*old(zone)
            }),
            r is None ==> (forall|j: int|
                old(zone).base_pfn <= j < old(zone).base_pfn + old(zone).page_count && j < old(self).slots@.len() ==> !#[trigger] old(self).slots@[j]) || old(zone).free_count <= old(zone).low_watermark,
            r is None ==> final(self).slots@ == old(self).slots@ && *final(zone) == *old(zone),
            final(self).capacity == old(self).capacity,
    {
        if !zone.zone_can_alloc() {
            return None;
        }
        let base = zone.base_pfn;
        let limit = base + zone.page_count;
        let stop = if limit < self.slots.len() {
            limit
        } else {
            self.slots.len()
        };
        let mut i: usize = base;
        while i < stop
            invariant
                base <= i,
                base == old(zone).base_pfn,
                stop <= self.slots@.len(),
                stop <= old(zone).base_pfn + old(zone).page_count,
                stop == if old(zone).base_pfn + old(zone).page_count < self.slots@.len() {
                    old(zone).base_pfn + old(zone).page_count
                } else {
                    self.slots@.len() as int
                },
                self.slots@ == old(self).slots@,
                *zone == *old(zone),
                old(zone).free_count > old(zone).low_watermark,
                self.capacity == old(self).capacity,
                forall|j: int| base <= j < i ==> !#[trigger] self.slots@[j],
            decreases stop - i,
        {
            if self.slots[i] {
                self.slots.set(i, false);
                zone.free_count = zone.free_count.wrapping_sub(1);
                return Some(i);
            }
            i = i + 1;
        }
        None
    }

    /// Marks a frame free and gives the page back to the zone's free count
    /// (wrapping); out-of-range indices change nothing.
    pub fn put_zone_aware(&mut self, frame_index: usize, zone: &mut ZoneInfo)
        ensures
            frame_index < old(self).slots@.len() ==> final(self).slots@ == old(self).slots@.update(
                frame_index as int,
                true,
            ) && *final(zone) == (ZoneInfo {
                free_count: vstd::wrapping::usize_specs::wrapping_add(old(zone).free_count, 1),
                ..*old(zone)
            }),
            frame_index >= old(self).slots@.len() ==> final(self).slots@ == old(self).slots@ && *final(zone) == *old(zone),
            final(self).capacity == old(self).capacity,
    {
        if frame_index < self.slots.len() {
            self.slots.set(frame_index, true);
            zone.free_count = zone.free_count.wrapping_add(1);
        }
    }

    /// Allocates up to `count` frames, lowest first.
    pub fn batch_alloc(&mut self, count: usize) -> (r: Vec<usize>)
        ensures
            r@ == free_indices(old(self).slots@).take(
                if count < free_indices(old(self).slots@).len() {
                    count as int
                } else {
                    free_indices(old(self).slots@).len() as int
                },
            ),
            final(self).slots@ == Seq::new(
                old(self).slots@.len(),
                |k: int|
                    if r@.contains(k as usize) {
                        false
                    } else {
                        old(self).slots@[k]
                    },
            ),
            final(self).capacity == old(self).capacity,
    {
        let ghost s = self.slots@;
        let mut out: Vec<usize> = Vec::new();
        let mut i: usize = 0;
        while i < self.slots.len()
            invariant
                i <= s.len(),
                self.slots@.len() == s.len(),
                self.capacity == old(self).capacity,
                s == old(self).slots@,
                out@ == free_indices(s.subrange(0, i as int)),
                out@.len() <= count,
                forall|k: int| 0 <= k < out@.len() ==> #[trigger] out@[k] < i,
                forall|k: int|
                    0 <= k < s.len() ==> #[trigger] self.slots@[k] == if out@.contains(k as usize) {
                        false
                    } else {
                        s[k]
                    },
            ensures
                i <= s.len(),
                self.slots@.len() == s.len(),
                self.capacity == old(self).capacity,
                out@ == free_indices(s.subrange(0, i as int)),
                out@.len() <= count,
                out@.len() < count ==> i == s.len(),
                forall|k: int|
                    0 <= k < s.len() ==> #[trigger] self.slots@[k] == if out@.contains(k as usize) {
                        false
                    } else {
                        s[k]
                    },
            decreases s.len() - i,
        {
            if out.len() >= count {
                break;
            }
            proof {
                assert(s.subrange(0, i as int + 1).drop_last() == s.subrange(0, i as int));
            }
            if self.slots[i] {
                let ghost before = out@;
                out.push(i);
                self.slots.set(i, false);
                proof {
                    assert forall|k: int| 0 <= k < s.len() implies #[trigger] self.slots@[k] == if out@.contains(k as usize) {
                        false
                    } else {
                        s[k]
                    } by {
                        if k == i {
                            assert(out@[out@.len() - 1] == i);
                        } else {
                            if out@.contains(k as usize) {
                                let w = choose|w: int| 0 <= w < out@.len() && out@[w] == k as usize;
                                assert(w < before.len());
                                assert(before.contains(k as usize));
                            }
                            if before.contains(k as usize) {
                                let w = choose|w: int| 0 <= w < before.len() && before[w] == k as usize;
                                assert(out@[w] == k as usize);
                            }
                        }
                    }
                }
            } else {
                proof {
                    assert(!out@.contains(i));
                }
            }
            i = i + 1;
        }
        proof {
            lemma_free_indices_prefix(s, i as int);
            if out@.len() < count {
                assert(s.subrange(0, s.len() as int) == s);
            }
        }
        out
    }
}

/// The free indices of a prefix are a prefix of the free indices.
proof fn lemma_free_indices_prefix(s: Seq<bool>, i: int)
    requires
        0 <= i <= s.len(),
    ensures
        free_indices(s.subrange(0, i)).len() <= free_indices(s).len(),
        free_indices(s.subrange(0, i)) == free_indices(s).take(
            free_indices(s.subrange(0, i)).len() as int,
        ),
    decreases s.len() - i,
{
    if i < s.len() {
        lemma_free_indices_prefix(s, i + 1);
        assert(s.subrange(0, i + 1).drop_last() == s.subrange(0, i));
        let a = free_indices(s.subrange(0, i));
        let b = free_indices(s.subrange(0, i + 1));
        assert(b.take(a.len() as int) == a);
        assert(free_indices(s).take(b.len() as int).take(a.len() as int) == free_indices(s).take(
            a.len() as int,
        ));
    } else {
        assert(s.subrange(0, i) == s);
        assert(free_indices(s).take(free_indices(s).len() as int) == free_indices(s));
    }
}

} // verus!

verus! {

/// Slot index reached `off` steps after `start`, going round a bitmap of
/// `len` slots.
pub open spec fn ring_slot(start: int, off: int, len: int) -> int {
    (start + off) % len
}

/// `off` is the first step round the ring from `start` that meets a free slot.
pub open spec fn first_ring_free(s: Seq<bool>, start: int, off: int) -> bool {
    &&& 0 <= off < s.len()
    &&& s[ring_slot(start, off, s.len() as int)]
    &&& forall|o: int| 0 <= o < off ==> !#[trigger] s[ring_slot(start, o, s.len() as int)]
}

/// Physical address of frame `idx`, when it is representable.
pub open spec fn frame_addr(idx: int) -> Option<usize> {
    if idx * PAGE_SZ <= usize::MAX && MEM_OFF + idx * PAGE_SZ <= usize::MAX {
        Some((MEM_OFF + idx * PAGE_SZ) as usize)
    } else {
        None
    }
}

/// Freeing the address that allocating frame `idx` gave back marks exactly
/// that frame free again: the pool is as before the allocation.
pub proof fn law_alloc_then_dealloc_restores(s: Seq<bool>, idx: int, pa: usize)
    requires
        0 <= idx < s.len(),
        s[idx],
        frame_addr(idx) == Some(pa),
    ensures
        pa >= MEM_OFF,
        (pa - MEM_OFF) % (PAGE_SZ as int) == 0,
        (pa - MEM_OFF) / (PAGE_SZ as int) == idx,
        s.update(idx, false).update((pa - MEM_OFF) / (PAGE_SZ as int), true) == s,
{
    assert((idx * PAGE_SZ) % (PAGE_SZ as int) == 0 && (idx * PAGE_SZ) / (PAGE_SZ as int) == idx) by (nonlinear_arith)
        requires
            idx >= 0,
    ;
    assert(s.update(idx, false).update(idx, true) =~= s);
}

/// Allocates one frame, scanning round the pool from the slot selected by
/// the clock, and returns its physical address. The frame stays allocated
/// even when its address cannot be represented.
pub fn frame_alloc(pool: &mut FramePool, now: usize) -> (r: Option<usize>)
    ensures
        final(pool).capacity == old(pool).capacity,
        (forall|j: int| 0 <= j < old(pool).slots@.len() ==> !old(pool).slots@[j]) ==> r is None
            && final(pool).slots@ == old(pool).slots@,
        (exists|j: int| 0 <= j < old(pool).slots@.len() && old(pool).slots@[j]) ==> exists|off: int|
            #[trigger] first_ring_free(
                old(pool).slots@,
                (now as int) % (old(pool).slots@.len() as int),
                off,
            ) && final(pool).slots@ == old(pool).slots@.update(
                ring_slot(
                    (now as int) % (old(pool).slots@.len() as int),
                    off,
                    old(pool).slots@.len() as int,
                ),
                false,
            ) && r == frame_addr(
                ring_slot(
                    (now as int) % (old(pool).slots@.len() as int),
                    off,
                    old(pool).slots@.len() as int,
                ),
            ),
{
    let n = pool.slots.len();
    let m = if n > 1 {
        n
    } else {
        1
    };
    let scan_start = now % m;
    let mut offset: usize = 0;
    let mut found: Option<usize> = None;
    let ghost s = pool.slots@;
    let ghost mut hit: int = 0;
    while offset < n
        invariant_except_break
            pool.slots@ == s,
            found is None,
        invariant
            n == s.len(),
            pool.capacity == old(pool).capacity,
            s == old(pool).slots@,
            n > 0 ==> scan_start == (now as int) % (n as int),
            scan_start < m,
            offset <= n,
            forall|o: int| 0 <= o < offset ==> !#[trigger] s[ring_slot(scan_start as int, o, n as int)],
        ensures
            n == s.len(),
            found is None ==> pool.slots@ == s && forall|o: int|
                0 <= o < n ==> !#[trigger] s[ring_slot(scan_start as int, o, n as int)],
            found matches Some(idx) ==> first_ring_free(s, scan_start as int, hit) && idx
                == ring_slot(scan_start as int, hit, n as int) && pool.slots@ == s.update(
                idx as int,
                false,
            ),
            pool.capacity == old(pool).capacity,
        decreases n - offset,
    {
        let idx = if offset < n - scan_start {
            scan_start + offset
        } else {
            offset - (n - scan_start)
        };
        proof {
            if offset < n - scan_start {
                vstd::arithmetic::div_mod::lemma_small_mod((scan_start + offset) as nat, n as nat);
            } else {
                vstd::arithmetic::div_mod::lemma_small_mod((offset - (n - scan_start)) as nat, n as nat);
                vstd::arithmetic::div_mod::lemma_mod_add_multiples_vanish(
                    (offset - (n - scan_start)) as int,
                    n as int,
                );
            }
            assert(idx == ring_slot(scan_start as int, offset as int, n as int));
        }
        if pool.slots[idx] {
            pool.slots.set(idx, false);
            found = Some(idx);
            proof {
                hit = offset as int;
            }
            break;
        }
        offset = offset + 1;
    }
    match found {
        Some(idx) => {
            let a = match idx.checked_mul(PAGE_SZ) {
                Some(v) => v,
                None => return None,
            };
            MEM_OFF.checked_add(a)
        },
        None => {
            proof {
                if exists|j: int| 0 <= j < s.len() && s[j] {
                    let j = choose|j: int| 0 <= j < s.len() && s[j];
                    let o = if j >= scan_start {
                        j - scan_start
                    } else {
                        j + n - scan_start
                    };
                    vstd::arithmetic::div_mod::lemma_small_mod(j as nat, n as nat);
                    vstd::arithmetic::div_mod::lemma_mod_add_multiples_vanish(j, n as int);
                    assert(ring_slot(scan_start as int, o, n as int) == j);
                    assert(!s[ring_slot(scan_start as int, o, n as int)]);
                }
            }
            None
        },
    }
}

/// Frees the frame at a physical address returned by `frame_alloc`;
/// addresses below the memory base or not page aligned are ignored.
pub fn frame_dealloc(pool: &mut FramePool, physical_addr: usize)
    ensures
        (physical_addr < MEM_OFF || (physical_addr - MEM_OFF) % (PAGE_SZ as int) != 0)
            ==> final(pool).slots@ == old(pool).slots@,
        physical_addr >= MEM_OFF && (physical_addr - MEM_OFF) % (PAGE_SZ as int) == 0 && (
        physical_addr - MEM_OFF) / (PAGE_SZ as int) < old(pool).slots@.len() ==> final(pool).slots@
            == old(pool).slots@.update((physical_addr - MEM_OFF) / (PAGE_SZ as int), true),
        physical_addr >= MEM_OFF && (physical_addr - MEM_OFF) / (PAGE_SZ as int) >= old(pool).slots@.len() ==> final(pool).slots@ == old(pool).slots@,
        final(pool).capacity == old(pool).capacity,
{
    if physical_addr < MEM_OFF {
        return;
    }
    let offset = physical_addr - MEM_OFF;
    if offset % PAGE_SZ != 0 {
        return;
    }
    let frame_index = offset / PAGE_SZ;
    pool.put(frame_index);
}

/// Allocates `frame_count` contiguous frames aligned to `2^align_log2`
/// frames and returns the physical address of the first.
pub fn frame_alloc_contig(pool: &mut FramePool, frame_count: usize, align_log2: usize) -> (r: Option<usize>)
    ensures
        (frame_count == 0 || align_log2 >= usize::BITS) ==> r is None && final(pool).slots@ == old(pool).slots@,
        frame_count != 0 && align_log2 < usize::BITS && (forall|t: int|
            !#[trigger] run_free(
                old(pool).slots@,
                t,
                frame_count as int,
                pow2(align_log2 as nat) as int,
            )) ==> r is None && final(pool).slots@ == old(pool).slots@,
        frame_count != 0 && align_log2 < usize::BITS && (exists|t: int|
            #[trigger] run_free(
                old(pool).slots@,
                t,
                frame_count as int,
                pow2(align_log2 as nat) as int,
            )) ==> exists|start: int|
            #[trigger] run_free(old(pool).slots@, start, frame_count as int, pow2(align_log2 as nat) as int)
                && (forall|t: int|
                0 <= t < start ==> !#[trigger] run_free(
                    old(pool).slots@,
                    t,
                    frame_count as int,
                    pow2(align_log2 as nat) as int,
                )) && r == frame_addr(start) && final(pool).slots@ == Seq::new(
                old(pool).slots@.len(),
                |k: int|
                    if start <= k < start + frame_count {
                        false
                    } else {
                        old(pool).slots@[k]
                    },
            ),
        final(pool).capacity == old(pool).capacity,
{
    let start = match pool.get_contig(frame_count, align_log2) {
        Some(s) => s,
        None => return None,
    };
    let a = match start.checked_mul(PAGE_SZ) {
        Some(v) => v,
        None => return None,
    };
    MEM_OFF.checked_add(a)
}

/// Direct-map virtual address of frame `idx`, when representable.
pub open spec fn heap_addr(idx: int) -> Option<int> {
    if idx * PAGE_SZ <= usize::MAX && PHYS_OFF + idx * PAGE_SZ <= usize::MAX {
        Some(PHYS_OFF + idx * PAGE_SZ)
    } else {
        None
    }
}

/// Groups the frames' direct-map addresses into spans, extending the last
/// span when the next address follows it and starting a new span otherwise.
/// Frames without a representable address are skipped.
pub open spec fn heap_spans(fs: Seq<usize>) -> Seq<(usize, usize)>
    decreases fs.len(),
{
    if fs.len() == 0 {
        Seq::empty()
    } else {
        let prev = heap_spans(fs.drop_last());
        match heap_addr(fs.last() as int) {
            None => prev,
            Some(addr) => if prev.len() > 0 && prev.last().0 + prev.last().1 == addr {
                prev.update(prev.len() - 1, (prev.last().0, (prev.last().1 + PAGE_SZ) as usize))
            } else {
                prev.push((addr as usize, PAGE_SZ))
            },
        }
    }
}

/// When every frame's address is at least a page below `bound`, every span
/// ends at or below `bound`.
proof fn lemma_heap_spans_bounded(fs: Seq<usize>, bound: int)
    requires
        forall|k: int| 0 <= k < fs.len() ==> PHYS_OFF + (#[trigger] fs[k] + 1) * PAGE_SZ <= bound,
    ensures
        forall|k: int|
            0 <= k < heap_spans(fs).len() ==> #[trigger] heap_spans(fs)[k].0 + heap_spans(fs)[k].1
                <= bound,
    decreases fs.len(),
{
    if fs.len() > 0 {
        let prev = heap_spans(fs.drop_last());
        lemma_heap_spans_bounded(fs.drop_last(), bound);
        let f = fs.last() as int;
        assert(PHYS_OFF + (f + 1) * PAGE_SZ <= bound);
        assert((f + 1) * PAGE_SZ == f * PAGE_SZ + PAGE_SZ) by (nonlinear_arith);
        match heap_addr(f) {
            None => {},
            Some(addr) => {
                let cur = heap_spans(fs);
                if prev.len() > 0 && prev.last().0 + prev.last().1 == addr {
                    assert forall|k: int| 0 <= k < cur.len() implies #[trigger] cur[k].0 + cur[k].1
                        <= bound by {
                        if k < prev.len() - 1 {
                            assert(cur[k] == prev[k]);
                        }
                    }
                } else {
                    assert forall|k: int| 0 <= k < cur.len() implies #[trigger] cur[k].0 + cur[k].1
                        <= bound by {
                        if k < prev.len() {
                            assert(cur[k] == prev[k]);
                        }
                    }
                }
            },
        }
    }
}

/// Every free index is an index of the bitmap.
pub proof fn lemma_free_indices_lt(s: Seq<bool>)
    ensures
        forall|k: int| 0 <= k < free_indices(s).len() ==> #[trigger] free_indices(s)[k] < s.len(),
    decreases s.len(),
{
    if s.len() > 0 {
        let prev = free_indices(s.drop_last());
        lemma_free_indices_lt(s.drop_last());
        assert forall|k: int| 0 <= k < free_indices(s).len() implies #[trigger] free_indices(s)[k]
            < s.len() by {
            if k < prev.len() {
                assert(free_indices(s)[k] == prev[k]);
            }
        }
    }
}

/// Grows the heap by up to `page_count` frames from the pool and returns the
/// direct-map spans they make up.
pub fn heap_grow(pool: &mut FramePool, page_count: usize) -> (r: Vec<(usize, usize)>)
    requires
        PHYS_OFF + old(pool).slots@.len() * PAGE_SZ <= usize::MAX,
    ensures
        final(pool).capacity == old(pool).capacity,
        ({
            let want = if page_count < old(pool).capacity {
                page_count
            } else {
                old(pool).capacity
            };
            let frames = free_indices(old(pool).slots@).take(
                if want < free_indices(old(pool).slots@).len() {
                    want as int
                } else {
                    free_indices(old(pool).slots@).len() as int
                },
            );
            &&& r@ == heap_spans(frames)
            &&& final(pool).slots@ == Seq::new(
                old(pool).slots@.len(),
                |k: int|
                    if frames.contains(k as usize) {
                        false
                    } else {
                        old(pool).slots@[k]
                    },
            )
        }),
{
    let want = if page_count < pool.capacity {
        page_count
    } else {
        pool.capacity
    };
    let ghost s0 = pool.slots@;
    let frames = pool.batch_alloc(want);
    proof {
        lemma_free_indices_lt(s0);
        assert forall|k: int| 0 <= k < frames@.len() implies PHYS_OFF + (#[trigger] frames@[k] + 1)
            * PAGE_SZ <= PHYS_OFF + s0.len() * PAGE_SZ by {
            assert(frames@[k] == free_indices(s0)[k]);
            vstd::arithmetic::mul::lemma_mul_inequality((frames@[k] + 1) as int, s0.len() as int, PAGE_SZ as int);
        }
    }
    let mut spans: Vec<(usize, usize)> = Vec::new();
    let mut i: usize = 0;
    while i < frames.len()
        invariant
            i <= frames@.len(),
            spans@ == heap_spans(frames@.subrange(0, i as int)),
            PHYS_OFF + s0.len() * PAGE_SZ <= usize::MAX,
            forall|k: int| 0 <= k < frames@.len() ==> PHYS_OFF + (#[trigger] frames@[k] + 1)
                * PAGE_SZ <= PHYS_OFF + s0.len() * PAGE_SZ,
        decreases frames@.len() - i,
    {
        proof {
            assert(frames@.subrange(0, i as int + 1).drop_last() == frames@.subrange(0, i as int));
            lemma_heap_spans_bounded(frames@.subrange(0, i as int), PHYS_OFF + s0.len() * PAGE_SZ);
            assert(PHYS_OFF + (frames@[i as int] + 1) * PAGE_SZ <= PHYS_OFF + s0.len() * PAGE_SZ);
        }
        let fi = frames[i];
        let va = match fi.checked_mul(PAGE_SZ) {
            Some(off) => PHYS_OFF.checked_add(off),
            None => None,
        };
        match va {
            None => {},
            Some(virtual_addr) => {
                let n = spans.len();
                if n > 0 {
                    let (s0, s1) = spans[n - 1];
                    if s0.checked_add(s1) == Some(virtual_addr) {
                        spans.set(n - 1, (s0, s1 + PAGE_SZ));
                    } else {
                        spans.push((virtual_addr, PAGE_SZ));
                    }
                } else {
                    spans.push((virtual_addr, PAGE_SZ));
                }
            },
        }
        i = i + 1;
    }
    proof {
        assert(frames@.subrange(0, frames@.len() as int) == frames@);
    }
    spans
}

/// Copy-on-write state of one shared page: the current frame, whether the
/// mapping became writable, and whether a private copy is still pending.
pub struct SharedPage {
    pub frame: usize,
    pub writable: bool,
    pub pending: bool,
}

impl SharedPage {
    pub fn new(frame_id: usize) -> (r: Self)
        ensures
            r == (SharedPage { frame: frame_id, writable: false, pending: true }),
    {
        SharedPage { frame: frame_id, writable: false, pending: true }
    }

    /// Resolves a write fault: a pending page takes the lowest free frame of
    /// the pool, drops one reference from the source frame and becomes
    /// writable. A resolved page just reports its frame; an empty pool gives
    /// "oom".
    pub fn fault(&mut self, pool: &mut FramePool, source_frame: &mut PgFrame) -> (r: Result<usize, &'static str>)
        ensures
            !old(self).pending ==> r == Ok::<usize, &'static str>(old(self).frame) && *final(self)
                == *old(self) && final(pool).slots@ == old(pool).slots@ && *final(source_frame)
                == *old(source_frame),
            old(self).pending && (forall|j: int|
                0 <= j < old(pool).slots@.len() ==> !old(pool).slots@[j]) ==> r == Err::<
                usize,
                &'static str,
            >("oom") && *final(self) == *old(self) && final(pool).slots@ == old(pool).slots@
                && *final(source_frame) == *old(source_frame),
            old(self).pending && (exists|j: int| 0 <= j < old(pool).slots@.len() && old(pool).slots@[j]) ==> r is Ok,
            old(self).pending && r is Ok ==> is_first_free(old(pool).slots@, r->Ok_0 as int)
                && final(pool).slots@ == old(pool).slots@.update(r->Ok_0 as int, false) && *final(self) == (SharedPage { frame: r->Ok_0, writable: true, pending: false }) && (if old(source_frame).ref_count == 0 {
                final(source_frame).ref_count == 0
            } else {
                final(source_frame).ref_count == old(source_frame).ref_count - 1
            }),
            final(pool).capacity == old(pool).capacity,
    {
        if !self.pending {
            return Ok(self.frame);
        }
        let new_frame = match pool.get_inner() {
            Some(f) => f,
            None => return Err("oom"),
        };
        self.frame = new_frame;
        source_frame.down();
        self.writable = true;
        self.pending = false;
        Ok(new_frame)
    }

    pub fn is_cow_resolved(&self) -> (r: bool)
        ensures
            r == (!self.pending && self.writable),
    {
        !self.pending && self.writable
    }

    pub fn frame_id(&self) -> (r: usize)
        ensures
            r == self.frame,
    {
        self.frame
    }
}

} // verus!

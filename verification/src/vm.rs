use vstd::prelude::*;
use crate::consts::{KERN_BASE, PAGE_SZ, VM_EXEC, VM_GROWSDOWN, VM_SHARED, VM_WRITE};

verus! {

/// One virtual-memory area: the half-open range `[base, base + len)` with
/// its VM_* flags, the file offset of its backing data and a reference count.
pub struct VmRegion {
    pub base: usize,
    pub len: usize,
    pub flags: u32,
    pub offset: usize,
    pub tag: u16,
    pub ref_count: usize,
}

/// The end of a region, or `None` when `base + len` does not fit in a word.
pub open spec fn region_end(r: VmRegion) -> Option<int> {
    if r.base + r.len <= usize::MAX {
        Some(r.base + r.len)
    } else {
        None
    }
}

/// Two regions with representable ends share at least one address.
pub open spec fn regions_overlap(a: VmRegion, b: VmRegion) -> bool {
    &&& a.base + a.len <= usize::MAX
    &&& b.base + b.len <= usize::MAX
    &&& a.base < b.base + b.len
    &&& b.base < a.base + a.len
}

impl VmRegion {
    pub fn new(base: usize, len: usize, flags: u32) -> (r: Self)
        ensures
            r == (VmRegion { base, len, flags, offset: 0, tag: 0, ref_count: 1 }),
    {
        VmRegion { base, len, flags, offset: 0, tag: 0, ref_count: 1 }
    }

    pub fn with_offset(base: usize, len: usize, flags: u32, file_offset: usize) -> (r: Self)
        ensures
            r == (VmRegion { base, len, flags, offset: file_offset, tag: 0, ref_count: 1 }),
    {
        VmRegion { base, len, flags, offset: file_offset, tag: 0, ref_count: 1 }
    }

    /// The end address, saturated at the largest word.
    pub fn end(&self) -> (r: usize)
        ensures
            r == if self.base + self.len > usize::MAX {
                usize::MAX as int
            } else {
                self.base + self.len
            },
    {
        self.base.saturating_add(self.len)
    }

    pub fn contains(&self, addr: usize) -> (r: bool)
        ensures
            r == (self.base + self.len <= usize::MAX && self.base <= addr && addr < self.base
                + self.len),
    {
        match self.base.checked_add(self.len) {
            Some(end) => addr >= self.base && addr < end,
            None => false,
        }
    }

    /// Half-open overlap: adjacent regions do not overlap.
    pub fn overlaps(&self, other: &VmRegion) -> (r: bool)
        ensures
            r == regions_overlap(*self, *other),
    {
        let self_end = match self.base.checked_add(self.len) {
            Some(e) => e,
            None => return false,
        };
        let other_end = match other.base.checked_add(other.len) {
            Some(e) => e,
            None => return false,
        };
        self.base < other_end && other.base < self_end
    }

    /// Splits a region at an address strictly inside it. The left part loses
    /// `VM_GROWSDOWN`; the right part keeps all flags and starts at the file
    /// offset advanced by the left length.
    pub fn split_at(&self, addr: usize) -> (r: Option<(VmRegion, VmRegion)>)
        ensures
            r is None <==> (self.base + self.len > usize::MAX || addr <= self.base || addr
                >= self.base + self.len),
            r matches Some((left, right)) ==> {
                &&& left.base == self.base
                &&& left.len == addr - self.base
                &&& left.flags == (if self.flags & VM_GROWSDOWN != 0 {
                    self.flags & !VM_GROWSDOWN
                } else {
                    self.flags
                })
                &&& left.offset == self.offset
                &&& left.tag == self.tag
                &&& left.ref_count == self.ref_count
                &&& right.base == addr
                &&& right.len == self.base + self.len - addr
                &&& right.flags == self.flags
                &&& right.offset == vstd::wrapping::usize_specs::wrapping_add(
                    self.offset,
                    (addr - self.base) as usize,
                )
                &&& right.tag == self.tag
                &&& right.ref_count == self.ref_count
            },
    {
        let self_end = match self.base.checked_add(self.len) {
            Some(e) => e,
            None => return None,
        };
        if addr <= self.base || addr >= self_end {
            return None;
        }
        let left_len = addr - self.base;
        let right_len = self.len - left_len;
        let left_offset = self.offset;
        let right_offset = self.offset.wrapping_add(left_len);
        let mut left_flags = self.flags;
        let right_flags = self.flags;
        if self.flags & VM_GROWSDOWN != 0 {
            left_flags = left_flags & !VM_GROWSDOWN;
        }
        let left_region = VmRegion {
            base: self.base,
            len: left_len,
            flags: left_flags,
            offset: left_offset,
            tag: self.tag,
            ref_count: self.ref_count,
        };
        let right_region = VmRegion {
            base: addr,
            len: right_len,
            flags: right_flags,
            offset: right_offset,
            tag: self.tag,
            ref_count: self.ref_count,
        };
        Some((left_region, right_region))
    }

    /// Joins a region with the one that starts where it ends, when flags and
    /// tags agree. The joined reference count is the larger of the two.
    pub fn merge_with(&self, other: &VmRegion) -> (r: Option<VmRegion>)
        requires
            self.base + self.len <= usize::MAX && self.base + self.len == other.base ==> self.len
                + other.len <= usize::MAX,
        ensures
            r is None <==> (self.base + self.len > usize::MAX || self.base + self.len != other.base
                || self.flags != other.flags || self.tag != other.tag),
            r matches Some(m) ==> m == (VmRegion {
                base: self.base,
                len: (self.len + other.len) as usize,
                flags: self.flags,
                offset: self.offset,
                tag: self.tag,
                ref_count: if self.ref_count >= other.ref_count {
                    self.ref_count
                } else {
                    other.ref_count
                },
            }),
    {
        let self_end = match self.base.checked_add(self.len) {
            Some(e) => e,
            None => return None,
        };
        if self_end != other.base || self.flags != other.flags || self.tag != other.tag {
            return None;
        }
        let rc = if self.ref_count >= other.ref_count {
            self.ref_count
        } else {
            other.ref_count
        };
        Some(
            VmRegion {
                base: self.base,
                len: self.len + other.len,
                flags: self.flags,
                offset: self.offset,
                tag: self.tag,
                ref_count: rc,
            },
        )
    }

    /// Increments the reference count (wrapping) and returns the previous value.
    pub fn ref_up(&mut self) -> (r: usize)
        ensures
            r == old(self).ref_count,
            final(self).ref_count == vstd::wrapping::usize_specs::wrapping_add(
                old(self).ref_count,
                1,
            ),
            final(self).base == old(self).base,
            final(self).len == old(self).len,
            final(self).flags == old(self).flags,
            final(self).offset == old(self).offset,
            final(self).tag == old(self).tag,
    {
        let prev = self.ref_count;
        self.ref_count = self.ref_count.wrapping_add(1);
        prev
    }

    /// Decrements the reference count (wrapping) and returns the previous value.
    pub fn ref_down(&mut self) -> (r: usize)
        ensures
            r == old(self).ref_count,
            final(self).ref_count == vstd::wrapping::usize_specs::wrapping_sub(
                old(self).ref_count,
                1,
            ),
            final(self).base == old(self).base,
            final(self).len == old(self).len,
            final(self).flags == old(self).flags,
            final(self).offset == old(self).offset,
            final(self).tag == old(self).tag,
    {
        let prev = self.ref_count;
        self.ref_count = self.ref_count.wrapping_sub(1);
        prev
    }

    pub fn ref_get(&self) -> (r: usize)
        ensures
            r == self.ref_count,
    {
        self.ref_count
    }

    /// A field-for-field copy of the region.
    pub fn duplicate(&self) -> (r: VmRegion)
        ensures
            r == *self,
    {
        VmRegion {
            base: self.base,
            len: self.len,
            flags: self.flags,
            offset: self.offset,
            tag: self.tag,
            ref_count: self.ref_count,
        }
    }
}

/// Weight of one region for the resident-set estimate: its page count times a
/// permission weight (3 executable, 2 writable, 1 otherwise) times a sharing
/// weight (1 shared, 2 private). The page count saturates when rounding up
/// overflows.
pub open spec fn region_weight(r: VmRegion) -> int {
    let pages: int = if r.len + (PAGE_SZ - 1) <= usize::MAX {
        (r.len + (PAGE_SZ - 1)) / (PAGE_SZ as int)
    } else {
        usize::MAX as int / (PAGE_SZ as int)
    };
    let perm: int = if r.flags & VM_EXEC != 0 {
        3
    } else if r.flags & VM_WRITE != 0 {
        2
    } else {
        1
    };
    let share: int = if r.flags & VM_SHARED != 0 {
        1
    } else {
        2
    };
    pages * perm * share
}

pub open spec fn sat_u64(x: int) -> int {
    if x > u64::MAX {
        u64::MAX as int
    } else {
        x
    }
}

/// Saturating sum of the region weights of the first `n` regions.
pub open spec fn weight_sum(regions: Seq<VmRegion>, n: int) -> int
    decreases n,
{
    if n <= 0 {
        0
    } else {
        sat_u64(weight_sum(regions, n - 1) + sat_u64(sat_u64(
            (if regions[n - 1].len + (PAGE_SZ - 1) <= usize::MAX {
                (regions[n - 1].len + (PAGE_SZ - 1)) / (PAGE_SZ as int)
            } else {
                usize::MAX as int / (PAGE_SZ as int)
            }) * (if regions[n - 1].flags & VM_EXEC != 0 {
                3int
            } else if regions[n - 1].flags & VM_WRITE != 0 {
                2int
            } else {
                1int
            }),
        ) * (if regions[n - 1].flags & VM_SHARED != 0 {
            1int
        } else {
            2int
        })))
    }
}

pub open spec fn rss_watermark_spec(regions: Seq<VmRegion>, pool_capacity: usize) -> int {
    if regions.len() == 0 || pool_capacity == 0 {
        0
    } else {
        let raw = sat_u64(weight_sum(regions, regions.len() as int) * 100) / (pool_capacity as int);
        let half = (pool_capacity as int) / 2;
        if raw <= half {
            raw
        } else {
            half
        }
    }
}

fn sat_mul_u64(a: u64, b: u64) -> (r: u64)
    ensures
        r == sat_u64(a * b),
{
    match a.checked_mul(b) {
        Some(v) => v,
        None => u64::MAX,
    }
}

/// A rough resident-set watermark from region sizes and permissions, capped
/// at half of the pool capacity.
pub fn compute_rss_watermark(regions: &[VmRegion], pool_capacity: usize) -> (r: usize)
    ensures
        r == rss_watermark_spec(regions@, pool_capacity),
{
    if regions.len() == 0 || pool_capacity == 0 {
        return 0;
    }
    let mut total_weight: u64 = 0;
    let mut i: usize = 0;
    while i < regions.len()
        invariant
            i <= regions@.len(),
            total_weight == weight_sum(regions@, i as int),
        decreases regions@.len() - i,
    {
        let region = &regions[i];
        let pages: usize = match region.len.checked_add(PAGE_SZ - 1) {
            Some(rounded) => rounded / PAGE_SZ,
            None => usize::MAX / PAGE_SZ,
        };
        let permission_weight: u64 = if region.flags & VM_EXEC != 0 {
            3
        } else if region.flags & VM_WRITE != 0 {
            2
        } else {
            1
        };
        let sharing_weight: u64 = if region.flags & VM_SHARED != 0 {
            1
        } else {
            2
        };
        let w = sat_mul_u64(sat_mul_u64(pages as u64, permission_weight), sharing_weight);
        total_weight = total_weight.saturating_add(w);
        i = i + 1;
    }
    let capacity = pool_capacity as u64;
    let raw = sat_mul_u64(total_weight, 100) / capacity;
    let half = capacity / 2;
    if raw <= half {
        raw as usize
    } else {
        half as usize
    }
}

} // verus!

verus! {

/// Sorted, non-overlapping list of regions for one address space, with the
/// heap break and the start of the mmap search area.
pub struct VmMap {
    pub regions: Vec<VmRegion>,
    pub brk: usize,
    pub mmap_base: usize,
}

/// Every region ends at a representable address and each ends no later than
/// the next one begins.
pub open spec fn sorted_disjoint(s: Seq<VmRegion>) -> bool {
    &&& forall|i: int| 0 <= i < s.len() ==> #[trigger] s[i].base + s[i].len <= usize::MAX
    &&& forall|i: int, j: int| 0 <= i < j < s.len() ==> #[trigger] s[i].base + s[i].len
        <= #[trigger] s[j].base
}

impl VmMap {
    pub open spec fn wf(&self) -> bool {
        sorted_disjoint(self.regions@)
    }

    pub fn new() -> (r: Self)
        ensures
            r.regions@.len() == 0,
            r.brk == 0x0040_0000,
            r.mmap_base == 0x7000_0000,
            r.wf(),
    {
        VmMap { regions: Vec::new(), brk: 0x0040_0000, mmap_base: 0x7000_0000 }
    }

    /// Inserts a region at its sorted position. A region whose end overflows
    /// is refused with "overflow"; an empty region or one that reaches the
    /// kernel half with "einval"; one that meets an existing region with
    /// "overlap".
    pub fn insert(&mut self, region: VmRegion) -> (r: Result<(), &'static str>)
        requires
            old(self).wf(),
        ensures
            final(self).wf(),
            final(self).brk == old(self).brk,
            final(self).mmap_base == old(self).mmap_base,
            region.base + region.len > usize::MAX ==> r == Err::<(), &'static str>("overflow")
                && final(self).regions@ == old(self).regions@,
            region.base + region.len <= usize::MAX && (region.len == 0 || region.base >= KERN_BASE
                || region.base + region.len > KERN_BASE) ==> r == Err::<(), &'static str>("einval")
                && final(self).regions@ == old(self).regions@,
            region.base + region.len <= usize::MAX && region.len != 0 && region.base < KERN_BASE
                && region.base + region.len <= KERN_BASE && (exists|i: int|
                0 <= i < old(self).regions@.len() && regions_overlap(
                    #[trigger] old(self).regions@[i],
                    region,
                )) ==> r == Err::<(), &'static str>("overlap") && final(self).regions@ == old(self).regions@,
            r is Ok <==> (region.base + region.len <= usize::MAX && region.len != 0 && region.base
                < KERN_BASE && region.base + region.len <= KERN_BASE && forall|i: int|
                0 <= i < old(self).regions@.len() ==> !regions_overlap(
                    #[trigger] old(self).regions@[i],
                    region,
                )),
            r is Ok ==> exists|k: int|
                0 <= k <= old(self).regions@.len() && final(self).regions@ == old(self).regions@.insert(k, region),
    {
        let region_base = region.base;
        let region_end = match region_base.checked_add(region.len) {
            Some(e) => e,
            None => return Err("overflow"),
        };
        if region.len == 0 || region_base >= KERN_BASE || region_end > KERN_BASE || region_end
            <= region_base {
            return Err("einval");
        }
        let mut insert_index: usize = 0;
        let ghost s = self.regions@;
        while insert_index < self.regions.len()
            invariant_except_break
                self.regions@ == s,
                sorted_disjoint(s),
                insert_index <= s.len(),
                region_base + region.len <= usize::MAX,
                region.len > 0,
                region_base == region.base,
                region.base < KERN_BASE,
                region.base + region.len <= KERN_BASE,
                forall|i: int| 0 <= i < insert_index ==> !regions_overlap(#[trigger] s[i], region),
                forall|i: int| 0 <= i < insert_index ==> #[trigger] s[i].base <= region_base,
            ensures
                self.regions@ == s,
                insert_index <= s.len(),
                forall|i: int| 0 <= i < insert_index ==> !regions_overlap(#[trigger] s[i], region),
                forall|i: int| 0 <= i < insert_index ==> #[trigger] s[i].base <= region_base,
                insert_index < s.len() ==> s[insert_index as int].base > region_base
                    && !regions_overlap(s[insert_index as int], region),
            decreases s.len() - insert_index,
        {
            let existing = &self.regions[insert_index];
            if existing.overlaps(&region) {
                return Err("overlap");
            }
            if existing.base > region_base {
                break;
            }
            insert_index = insert_index + 1;
        }
        proof {
            // Regions after the insertion point start beyond the new region.
            assert forall|j: int| insert_index < j < s.len() implies !regions_overlap(
                #[trigger] s[j],
                region,
            ) by {
                assert(s[insert_index as int].base + s[insert_index as int].len <= s[j].base);
            }
            assert forall|j: int| 0 <= j < s.len() implies !regions_overlap(
                #[trigger] s[j],
                region,
            ) by {
                if j < insert_index {
                } else if j == insert_index {
                } else {
                }
            }
            // A region sorted before the insertion point ends before the new one starts.
            assert forall|j: int| 0 <= j < insert_index implies #[trigger] s[j].base + s[j].len
                <= region.base by {
                assert(!regions_overlap(s[j], region));
            }
        }
        self.regions.insert(insert_index, region);
        proof {
            let t = self.regions@;
            assert(t == s.insert(insert_index as int, region));
            assert forall|i: int, j: int| 0 <= i < j < t.len() implies #[trigger] t[i].base
                + t[i].len <= #[trigger] t[j].base by {
                let k = insert_index as int;
                if j < k {
                } else if j == k {
                    assert(t[i] == s[i]);
                } else if i < k {
                    assert(t[j] == s[j - 1]);
                    if j - 1 == k {
                    } else {
                        assert(s[i].base + s[i].len <= s[k].base);
                        assert(s[k].base <= s[k].base + s[k].len);
                        assert(s[k].base + s[k].len <= s[j - 1].base);
                    }
                } else if i == k {
                    assert(t[j] == s[j - 1]);
                    assert(!regions_overlap(s[j - 1], region));
                    if j - 1 == k {
                    } else {
                        assert(s[k].base + s[k].len <= s[j - 1].base);
                    }
                } else {
                    assert(t[i] == s[i - 1]);
                    assert(t[j] == s[j - 1]);
                }
            }
        }
        Ok(())
    }
}

} // verus!

verus! {

/// The regions of `s` that do not overlap `target`, in their order.
pub open spec fn kept_regions(s: Seq<VmRegion>, target: VmRegion) -> Seq<VmRegion>
    decreases s.len(),
{
    if s.len() == 0 {
        Seq::empty()
    } else {
        kept_regions(s.drop_last(), target) + if regions_overlap(s.last(), target) {
            Seq::empty()
        } else {
            seq![s.last()]
        }
    }
}

/// Word-wrapping sum of the lengths of the first `n` regions.
pub open spec fn wrapping_len_sum(s: Seq<VmRegion>, n: int) -> usize
    decreases n,
{
    if n <= 0 {
        0
    } else {
        vstd::wrapping::usize_specs::wrapping_add(wrapping_len_sum(s, n - 1), s[n - 1].len)
    }
}

pub open spec fn sat_end(r: VmRegion) -> int {
    if r.base + r.len > usize::MAX {
        usize::MAX as int
    } else {
        r.base + r.len
    }
}

/// Rounds up with an arbitrary mask, as the mmap search does.
pub open spec fn round_with_mask(x: int, mask: usize) -> int {
    ((x + mask) as usize & !mask) as int
}

/// The first-fit search of `find_free`, starting at region `i` with the
/// current candidate address. `None` means no fit below the kernel base.
pub open spec fn first_fit(s: Seq<VmRegion>, i: int, candidate: int, len: int, mask: usize) -> Option<
    int,
>
    decreases s.len() - i,
{
    if candidate + len > usize::MAX || candidate + len > KERN_BASE {
        None
    } else if i >= s.len() || i < 0 {
        Some(candidate)
    } else if sat_end(s[i]) <= candidate {
        first_fit(s, i + 1, candidate, len, mask)
    } else if candidate + len <= s[i].base {
        Some(candidate)
    } else {
        first_fit(s, i + 1, round_with_mask(sat_end(s[i]), mask), len, mask)
    }
}

/// The first-fit search never has to round an address past the largest word.
pub open spec fn first_fit_safe(s: Seq<VmRegion>, i: int, candidate: int, len: int, mask: usize) -> bool
    decreases s.len() - i,
{
    if candidate + len > usize::MAX || candidate + len > KERN_BASE {
        true
    } else if i >= s.len() || i < 0 {
        true
    } else if sat_end(s[i]) <= candidate {
        first_fit_safe(s, i + 1, candidate, len, mask)
    } else if candidate + len <= s[i].base {
        true
    } else {
        sat_end(s[i]) + mask <= usize::MAX && first_fit_safe(
            s,
            i + 1,
            round_with_mask(sat_end(s[i]), mask),
            len,
            mask,
        )
    }
}

pub open spec fn search_mask(align: usize) -> usize {
    if align > 1 {
        (align - 1) as usize
    } else {
        (PAGE_SZ - 1) as usize
    }
}

/// Rounding with a mask lands on an address whose mask bits are clear, at
/// most `mask` above the rounded value.
proof fn lemma_round_with_mask(x: usize, mask: usize)
    requires
        x + mask <= usize::MAX,
    ensures
        x <= round_with_mask(x as int, mask),
        round_with_mask(x as int, mask) <= x + mask,
        (round_with_mask(x as int, mask) as usize) & mask == 0,
{
    let y = (x + mask) as usize;
    assert((y & !mask) & mask == 0 && (y & !mask) <= y && y - (y & !mask) <= mask) by (bit_vector);
}

proof fn lemma_first_fit_free(s: Seq<VmRegion>, i: int, cand: int, len: int, mask: usize)
    requires
        sorted_disjoint(s),
        0 <= i <= s.len(),
        len > 0,
        0 <= cand <= usize::MAX,
        (cand as usize) & mask == 0,
        forall|j: int| 0 <= j < i ==> #[trigger] s[j].base + s[j].len <= cand,
        first_fit_safe(s, i, cand, len, mask),
    ensures
        first_fit(s, i, cand, len, mask) matches Some(a) ==> {
            &&& cand <= a
            &&& a + len <= KERN_BASE
            &&& (a as usize) & mask == 0
            &&& forall|j: int| 0 <= j < s.len() ==> #[trigger] s[j].base + s[j].len <= a || a + len <= s[j].base
        },
    decreases s.len() - i,
{
    if cand + len > usize::MAX || cand + len > KERN_BASE {
    } else if i >= s.len() {
    } else if sat_end(s[i]) <= cand {
        lemma_first_fit_free(s, i + 1, cand, len, mask);
    } else if cand + len <= s[i].base {
        assert forall|j: int| 0 <= j < s.len() implies #[trigger] s[j].base + s[j].len <= cand || cand + len <= s[j].base by {
            if j > i {
                assert(s[i].base + s[i].len <= s[j].base);
            }
        }
    } else {
        let e = sat_end(s[i]);
        assert(e == s[i].base + s[i].len);
        lemma_round_with_mask(e as usize, mask);
        let nc = round_with_mask(e, mask);
        assert forall|j: int| 0 <= j < i + 1 implies #[trigger] s[j].base + s[j].len <= nc by {
            if j < i {
                assert(s[j].base + s[j].len <= s[i].base);
            }
        }
        lemma_first_fit_free(s, i + 1, nc, len, mask);
    }
}

proof fn lemma_first_fit_takes_free_start(s: Seq<VmRegion>, i: int, cand: int, len: int, mask: usize)
    requires
        sorted_disjoint(s),
        0 <= i <= s.len(),
        len > 0,
        0 <= cand,
        cand + len <= KERN_BASE,
        forall|j: int| 0 <= j < s.len() ==> #[trigger] s[j].base + s[j].len <= cand || cand + len <= s[j].base,
    ensures
        first_fit(s, i, cand, len, mask) == Some(cand),
    decreases s.len() - i,
{
    if i < s.len() {
        if sat_end(s[i]) <= cand {
            lemma_first_fit_takes_free_start(s, i + 1, cand, len, mask);
        }
    }
}

/// What `find_free` finds is free: for a well-formed map and a nonempty
/// request, the range `[a, a + len)` it answers starts at or above
/// `mmap_base`, is aligned to the search mask, ends at or below `KERN_BASE`,
/// and meets no region of the map. When the aligned start itself is free,
/// that is the answer.
pub proof fn law_find_free_is_free(m: VmMap, len: usize, align: usize)
    requires
        m.wf(),
        len > 0,
        m.mmap_base + search_mask(align) <= usize::MAX,
        first_fit_safe(
            m.regions@,
            0,
            round_with_mask(m.mmap_base as int, search_mask(align)),
            len as int,
            search_mask(align),
        ),
    ensures
        first_fit(
            m.regions@,
            0,
            round_with_mask(m.mmap_base as int, search_mask(align)),
            len as int,
            search_mask(align),
        ) matches Some(a) ==> {
            &&& m.mmap_base <= a
            &&& a + len <= KERN_BASE
            &&& (a as usize) & search_mask(align) == 0
            &&& forall|j: int|
                0 <= j < m.regions@.len() ==> #[trigger] m.regions@[j].base + m.regions@[j].len <= a || a + len
                    <= m.regions@[j].base
        },
        ({
            let c = round_with_mask(m.mmap_base as int, search_mask(align));
            (c + len <= KERN_BASE && forall|j: int|
                0 <= j < m.regions@.len() ==> #[trigger] m.regions@[j].base + m.regions@[j].len <= c || c + len
                    <= m.regions@[j].base) ==> first_fit(m.regions@, 0, c, len as int, search_mask(align)) == Some(c)
        }),
{
    let c = round_with_mask(m.mmap_base as int, search_mask(align));
    lemma_round_with_mask(m.mmap_base, search_mask(align));
    if c + len <= KERN_BASE && forall|j: int|
        0 <= j < m.regions@.len() ==> #[trigger] m.regions@[j].base + m.regions@[j].len <= c || c + len
            <= m.regions@[j].base {
        lemma_first_fit_takes_free_start(m.regions@, 0, c, len as int, search_mask(align));
    }
    lemma_first_fit_free(m.regions@, 0, round_with_mask(m.mmap_base as int, search_mask(align)), len as int, search_mask(align));
}

impl VmMap {
    /// The region containing `addr`, found by binary search over the sorted
    /// regions.
    pub fn find(&self, addr: usize) -> (r: Option<&VmRegion>)
        requires
            self.wf(),
        ensures
            r matches Some(x) ==> exists|i: int|
                0 <= i < self.regions@.len() && self.regions@[i] == *x && x.base <= addr < x.base
                    + x.len,
            r is None ==> forall|i: int|
                0 <= i < self.regions@.len() ==> !(#[trigger] self.regions@[i].base <= addr
                    < self.regions@[i].base + self.regions@[i].len),
    {
        let region_count = self.regions.len();
        if region_count == 0 {
            return None;
        }
        let mut low: usize = 0;
        let mut high: usize = region_count;
        while low < high
            invariant
                self.wf(),
                region_count == self.regions@.len(),
                low <= high <= region_count,
                forall|i: int| 0 <= i < low ==> #[trigger] self.regions@[i].base
                    + self.regions@[i].len <= addr,
                forall|i: int| high <= i < region_count ==> addr < #[trigger] self.regions@[i].base,
            decreases high - low,
        {
            let mid = low + (high - low) / 2;
            let region = &self.regions[mid];
            if addr < region.base {
                proof {
                    assert forall|i: int| mid <= i < region_count implies addr
                        < #[trigger] self.regions@[i].base by {
                        if i > mid {
                            assert(self.regions@[mid as int].base + self.regions@[mid as int].len
                                <= self.regions@[i].base);
                        }
                    }
                }
                high = mid;
            } else if addr >= region.end() {
                proof {
                    assert forall|i: int| 0 <= i <= mid implies #[trigger] self.regions@[i].base
                        + self.regions@[i].len <= addr by {
                        if i < mid {
                            assert(self.regions@[i].base + self.regions@[i].len
                                <= self.regions@[mid as int].base);
                        }
                    }
                }
                low = mid + 1;
            } else {
                return Some(region);
            }
        }
        None
    }

    /// Removes every region that overlaps `[base, base + len)` and returns how
    /// many were removed. An empty or overflowing range removes nothing.
    pub fn remove_range(&mut self, base: usize, len: usize) -> (r: usize)
        requires
            old(self).wf(),
        ensures
            final(self).wf(),
            final(self).brk == old(self).brk,
            final(self).mmap_base == old(self).mmap_base,
            len == 0 ==> final(self).regions@ == old(self).regions@,
            len != 0 ==> final(self).regions@ == kept_regions(
                old(self).regions@,
                VmRegion { base, len, flags: 0, offset: 0, tag: 0, ref_count: 1 },
            ),
            r == old(self).regions@.len() - final(self).regions@.len(),
    {
        let ghost s = self.regions@;
        let ghost target = VmRegion { base, len, flags: 0, offset: 0, tag: 0, ref_count: 1 };
        if len == 0 {
            return 0;
        }
        let before = self.regions.len();
        let mut index: usize = 0;
        let target_region = VmRegion::new(base, len, 0);
        let ghost mut k: int = 0;
        while index < self.regions.len()
            invariant
                sorted_disjoint(s),
                0 <= k <= s.len(),
                before == s.len(),
                target_region == target,
                index == kept_regions(s.subrange(0, k), target).len(),
                self.regions@ == kept_regions(s.subrange(0, k), target) + s.subrange(k, s.len() as int),
                sorted_disjoint(self.regions@),
                self.brk == old(self).brk,
                self.mmap_base == old(self).mmap_base,
            decreases s.len() - k,
        {
            proof {
                assert(s.subrange(0, k + 1).drop_last() == s.subrange(0, k));
                assert(s.subrange(0, k + 1).last() == s[k]);
                assert(self.regions@[index as int] == s[k]);
            }
            if self.regions[index].overlaps(&target_region) {
                let ghost prev = self.regions@;
                self.regions.remove(index);
                proof {
                    lemma_remove_keeps_sorted(prev, index as int);
                    assert(self.regions@ == kept_regions(s.subrange(0, k + 1), target)
                        + s.subrange(k + 1, s.len() as int));
                    k = k + 1;
                }
            } else {
                index = index + 1;
                proof {
                    assert(self.regions@ == kept_regions(s.subrange(0, k + 1), target)
                        + s.subrange(k + 1, s.len() as int));
                    k = k + 1;
                }
            }
        }
        proof {
            assert(s.subrange(0, k) == s);
            assert(self.regions@ == kept_regions(s, target));
            lemma_kept_len(s, target);
        }
        before - self.regions.len()
    }

    /// First-fit search for a free range of `len` bytes at or above
    /// `mmap_base`, aligned with the mask `align - 1` (a page when `align`
    /// is at most one). An empty request is placed at `mmap_base`.
    pub fn find_free(&self, len: usize, align: usize) -> (r: Option<usize>)
        requires
            len != 0 ==> self.mmap_base + search_mask(align) <= usize::MAX,
            len != 0 ==> first_fit_safe(
                self.regions@,
                0,
                round_with_mask(self.mmap_base as int, search_mask(align)),
                len as int,
                search_mask(align),
            ),
        ensures
            len == 0 ==> r == Some(self.mmap_base),
            len != 0 ==> r == match first_fit(
                self.regions@,
                0,
                round_with_mask(self.mmap_base as int, search_mask(align)),
                len as int,
                search_mask(align),
            ) {
                Some(c) => Some(c as usize),
                None => None::<usize>,
            },
    {
        if len == 0 {
            return Some(self.mmap_base);
        }
        let alignment = if align > 1 {
            align
        } else {
            PAGE_SZ
        };
        let alignment_mask = alignment - 1;
        let mut candidate = (self.mmap_base + alignment_mask) & !alignment_mask;
        let mut i: usize = 0;
        while i < self.regions.len()
            invariant
                len != 0,
                alignment_mask == search_mask(align),
                i <= self.regions@.len(),
                first_fit(self.regions@, i as int, candidate as int, len as int, alignment_mask)
                    == first_fit(
                    self.regions@,
                    0,
                    round_with_mask(self.mmap_base as int, search_mask(align)),
                    len as int,
                    search_mask(align),
                ),
                first_fit_safe(self.regions@, i as int, candidate as int, len as int, alignment_mask),
            decreases self.regions@.len() - i,
        {
            let candidate_end = match candidate.checked_add(len) {
                Some(e) => e,
                None => return None,
            };
            if candidate_end > KERN_BASE {
                return None;
            }
            let region = &self.regions[i];
            let region_end = region.end();
            if region_end <= candidate {
                i = i + 1;
                continue;
            }
            if candidate_end <= region.base {
                return Some(candidate);
            }
            candidate = (region_end + alignment_mask) & !alignment_mask;
            i = i + 1;
        }
        let candidate_end = match candidate.checked_add(len) {
            Some(e) => e,
            None => return None,
        };
        if candidate_end <= KERN_BASE {
            Some(candidate)
        } else {
            None
        }
    }

    /// Sum of all region lengths, wrapping at the word size.
    pub fn total_mapped(&self) -> (r: usize)
        ensures
            r == wrapping_len_sum(self.regions@, self.regions@.len() as int),
    {
        let mut total: usize = 0;
        let mut i: usize = 0;
        while i < self.regions.len()
            invariant
                i <= self.regions@.len(),
                total == wrapping_len_sum(self.regions@, i as int),
            decreases self.regions@.len() - i,
        {
            total = total.wrapping_add(self.regions[i].len);
            i = i + 1;
        }
        total
    }

    pub fn clone_regions(&self) -> (r: Vec<VmRegion>)
        ensures
            r@ == self.regions@,
    {
        let mut out: Vec<VmRegion> = Vec::new();
        let mut i: usize = 0;
        while i < self.regions.len()
            invariant
                i <= self.regions@.len(),
                out@ == self.regions@.subrange(0, i as int),
            decreases self.regions@.len() - i,
        {
            out.push(self.regions[i].duplicate());
            i = i + 1;
        }
        assert(self.regions@.subrange(0, self.regions@.len() as int) == self.regions@);
        out
    }

    /// Unmapped space after region `idx`: up to the next region, or up to the
    /// kernel base after the last one; zero for an index out of range.
    pub fn gap_after(&self, idx: usize) -> (r: usize)
        ensures
            idx >= self.regions@.len() ==> r == 0,
            idx + 1 < self.regions@.len() ==> r == (if self.regions@[idx + 1].base >= sat_end(
                self.regions@[idx as int],
            ) {
                self.regions@[idx + 1].base - sat_end(self.regions@[idx as int])
            } else {
                0
            }),
            idx + 1 == self.regions@.len() ==> r == (if KERN_BASE >= sat_end(
                self.regions@[idx as int],
            ) {
                KERN_BASE - sat_end(self.regions@[idx as int])
            } else {
                0
            }),
    {
        if idx >= self.regions.len() {
            return 0;
        }
        if idx + 1 < self.regions.len() {
            self.regions[idx + 1].base.saturating_sub(self.regions[idx].end())
        } else {
            KERN_BASE.saturating_sub(self.regions[idx].end())
        }
    }
}

proof fn lemma_kept_len(s: Seq<VmRegion>, target: VmRegion)
    ensures
        kept_regions(s, target).len() <= s.len(),
    decreases s.len(),
{
    if s.len() > 0 {
        lemma_kept_len(s.drop_last(), target);
    }
}

proof fn lemma_remove_keeps_sorted(s: Seq<VmRegion>, idx: int)
    requires
        sorted_disjoint(s),
        0 <= idx < s.len(),
    ensures
        sorted_disjoint(s.remove(idx)),
{
    let t = s.remove(idx);
    assert forall|i: int| 0 <= i < t.len() implies #[trigger] t[i].base + t[i].len <= usize::MAX by {
        if i < idx {
            assert(t[i] == s[i]);
        } else {
            assert(t[i] == s[i + 1]);
        }
    }
    assert forall|i: int, j: int| 0 <= i < j < t.len() implies #[trigger] t[i].base + t[i].len
        <= #[trigger] t[j].base by {
        let ii = if i < idx {
            i
        } else {
            i + 1
        };
        let jj = if j < idx {
            j
        } else {
            j + 1
        };
        assert(t[i] == s[ii]);
        assert(t[j] == s[jj]);
    }
}

} // verus!

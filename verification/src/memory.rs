use vstd::prelude::*;
use crate::consts::{KERN_BASE, KSTK_SZ, PAGE_SZ, PHYS_OFF};
use vstd::arithmetic::power2::pow2;

verus! {

/// A task's kernel stack: `KSTK_SZ` bytes from its base address, growing
/// down from the top.
pub struct KStk(pub usize);

impl KStk {
    /// The stack whose bytes start at `base` (the address its memory was
    /// given at).
    pub fn new(base: usize) -> (r: Self)
        requires
            base + KSTK_SZ <= usize::MAX,
        ensures
            r.0 == base,
    {
        KStk(base)
    }

    /// The address just past the stack's last byte.
    pub fn top(&self) -> (r: usize)
        requires
            self.0 + KSTK_SZ <= usize::MAX,
        ensures
            r == self.0 + KSTK_SZ,
    {
        self.0 + KSTK_SZ
    }
}

/// Converts a physical address to the kernel's direct-map virtual address.
///
/// Only the fixed offset is applied, modulo the word size.
pub fn p2v(physical_addr: usize) -> (r: usize)
    ensures
        r == vstd::wrapping::usize_specs::wrapping_add(PHYS_OFF, physical_addr),
{
    PHYS_OFF.wrapping_add(physical_addr)
}

/// Converts a direct-map kernel virtual address back to a physical address.
pub fn v2p(virtual_addr: usize) -> (r: usize)
    ensures
        r == vstd::wrapping::usize_specs::wrapping_sub(virtual_addr, PHYS_OFF),
{
    virtual_addr.wrapping_sub(PHYS_OFF)
}

/// Byte offset of a kernel virtual address from `KERN_BASE`.
pub fn k_off(virtual_addr: usize) -> (r: usize)
    ensures
        r == vstd::wrapping::usize_specs::wrapping_sub(virtual_addr, KERN_BASE),
{
    virtual_addr.wrapping_sub(KERN_BASE)
}

/// The half-open range `[addr, addr + len)` lies entirely below the kernel base.
pub open spec fn user_range(addr: usize, len: usize) -> bool {
    len == 0 || (addr + len <= usize::MAX && addr < KERN_BASE && addr + len <= KERN_BASE)
}

/// Checks whether the half-open user range `[addr, addr + len)` stays below
/// the kernel base; an empty range is always accepted.
pub fn check_access(addr: usize, len: usize) -> (r: bool)
    ensures
        r == user_range(addr, len),
{
    if len == 0 {
        return true;
    }
    match addr.checked_add(len) {
        Some(end) => addr < KERN_BASE && end <= KERN_BASE,
        None => false,
    }
}

/// Range check for a user buffer that is read or written; the direction is
/// not yet taken into account.
pub fn check_access_rw(addr: usize, len: usize, writable: bool) -> (r: bool)
    ensures
        r == user_range(addr, len),
{
    check_access(addr, len)
}

/// The length a user copy checks: `len`, or the size of one `T` for 0.
pub open spec fn copy_len<T>(len: usize) -> nat {
    if len == 0 {
        vstd::layout::size_of::<T>()
    } else {
        len as nat
    }
}

/// Copy from user memory, simulated: user memory cannot be read here, so
/// a valid source range gives `T::default()`.
pub fn cfu<T: Copy + Default>(addr: usize, len: usize) -> (r: Option<T>)
    ensures
        r is Some <==> user_range(addr, copy_len::<T>(len) as usize),
{
    let effective_len = if len == 0 {
        core::mem::size_of::<T>()
    } else {
        len
    };
    if check_access(addr, effective_len) {
        Some(T::default())
    } else {
        None
    }
}

/// Copy to user memory, simulated: only the destination range is checked.
pub fn ctu<T: Copy>(addr: usize, len: usize, value: &T) -> (r: bool)
    ensures
        r == user_range(addr, copy_len::<T>(len) as usize),
{
    let effective_len = if len == 0 {
        core::mem::size_of::<T>()
    } else {
        len
    };
    check_access_rw(addr, effective_len, true)
}

/// Marker value returned by the read-user fault fixup path.
pub fn rdu_fixup() -> (r: usize)
    ensures
        r == 1,
{
    1
}

/// Exclusive end of the usable heap: the base rounded up to a page and the
/// size rounded down to a page. Zero when either step overflows.
pub open spec fn heap_init_spec(base: usize, size: usize) -> usize {
    if base + (PAGE_SZ - 1) > usize::MAX {
        0
    } else {
        let aligned_base = (base + (PAGE_SZ - 1)) - (base + (PAGE_SZ - 1)) % (PAGE_SZ as int);
        let aligned_size = size - (size as int) % (PAGE_SZ as int);
        if aligned_base + aligned_size > usize::MAX {
            0
        } else {
            (aligned_base + aligned_size) as usize
        }
    }
}

pub proof fn lemma_page_mask(x: usize)
    ensures
        x & !0xfffusize == x - x % 4096,
{
    assert(x & !0xfffusize == x - x % 4096) by (bit_vector);
}

pub fn heap_init(base: usize, size: usize) -> (r: usize)
    ensures
        r == heap_init_spec(base, size),
{
    let aligned_base = match base.checked_add(PAGE_SZ - 1) {
        Some(value) => {
            proof {
                lemma_page_mask(value);
            }
            value & !(PAGE_SZ - 1)
        },
        None => return 0,
    };
    proof {
        lemma_page_mask(size);
    }
    let aligned_size = size & !(PAGE_SZ - 1);
    match aligned_base.checked_add(aligned_size) {
        Some(v) => v,
        None => 0,
    }
}

/// `addr` is a user address aligned to `PAGE_SZ << order`, for orders below 12.
pub open spec fn page_aligned_spec(addr: usize, order: usize) -> bool {
    order < 12 && addr < KERN_BASE && (addr as int) % (PAGE_SZ as int * pow2(order as nat) as int) == 0 && addr + PAGE_SZ * pow2(order as nat) <= usize::MAX
}

proof fn lemma_shift_page(order: usize)
    requires
        order < 12,
    ensures
        (4096usize << order) as int == 4096 * pow2(order as nat),
        4096 * pow2(order as nat) == pow2(12 + order as nat),
        4096 * pow2(order as nat) <= 0x100_0000,
        pow2(order as nat) >= 1,
{
    vstd::arithmetic::power2::lemma2_to64();
    vstd::arithmetic::power2::lemma_pow2_pos(order as nat);
    if order < 11 {
        vstd::arithmetic::power2::lemma_pow2_strictly_increases(order as nat, 11);
    }
    vstd::arithmetic::power2::lemma_pow2_adds(12, order as nat);
    vstd::bits::lemma_usize_shl_is_mul(4096, order);
}

/// Checks whether `addr` is a user address aligned to `PAGE_SZ << order`.
pub fn verify_page_alignment(addr: usize, order: usize) -> (r: bool)
    ensures
        r == page_aligned_spec(addr, order),
{
    if order >= 12 || addr >= KERN_BASE {
        return false;
    }
    proof {
        lemma_shift_page(order);
    }
    let alignment = PAGE_SZ << order;
    let mask = alignment - 1;
    proof {
        vstd::arithmetic::power2::lemma2_to64();
        vstd::bits::lemma_usize_low_bits_mask_is_mod(addr, 12 + order as nat);
        vstd::bits::lemma_low_bits_mask_unfold(12 + order as nat);
    }
    (addr & mask) == 0 && addr.checked_add(alignment).is_some()
}

/// Number of `true` entries in a slot bitmap.
pub open spec fn count_true(s: Seq<bool>) -> nat
    decreases s.len(),
{
    if s.len() == 0 {
        0
    } else {
        count_true(s.drop_last()) + if s.last() {
            1nat
        } else {
            0nat
        }
    }
}

pub proof fn lemma_count_true_bound(s: Seq<bool>)
    ensures
        count_true(s) <= s.len(),
    decreases s.len(),
{
    if s.len() > 0 {
        lemma_count_true_bound(s.drop_last());
    }
}

/// Counts the free entries of a frame bitmap.
pub fn defragment_frame_pool(slots: &mut Vec<bool>) -> (r: usize)
    ensures
        final(slots)@ == old(slots)@,
        r == count_true(old(slots)@),
{
    count_free_slots(slots)
}

pub fn count_free_slots(slots: &Vec<bool>) -> (r: usize)
    ensures
        r == count_true(slots@),
{
    let mut n: usize = 0;
    let mut i: usize = 0;
    while i < slots.len()
        invariant
            i <= slots.len(),
            n == count_true(slots@.subrange(0, i as int)),
            n <= i,
        decreases slots.len() - i,
    {
        assert(slots@.subrange(0, i as int + 1).drop_last() == slots@.subrange(0, i as int));
        if slots[i] {
            n = n + 1;
        }
        i = i + 1;
    }
    assert(slots@.subrange(0, slots.len() as int) == slots@);
    n
}

} // verus!

verus! {

/// Little-endian 16-bit value at byte `o`.
pub open spec fn le16(d: Seq<u8>, o: int) -> int {
    d[o] as int + d[o + 1] as int * 0x100
}

/// Little-endian 32-bit value at byte `o`.
pub open spec fn le32(d: Seq<u8>, o: int) -> int {
    le16(d, o) + le16(d, o + 2) * 0x10000
}

/// Little-endian 64-bit value at byte `o`.
pub open spec fn le64(d: Seq<u8>, o: int) -> int {
    le32(d, o) + le32(d, o + 4) * 0x1_0000_0000
}

/// Some program header among the first `count` at `off`, `size` bytes apart,
/// has type 1 (loadable).
pub open spec fn has_load_segment(d: Seq<u8>, off: int, size: int, count: int) -> bool {
    exists|i: int| 0 <= i < count && #[trigger] le32(d, off + i * size) == 1
}

/// What `validate_elf_header` decides about `d`: the checks run in order
/// (length, magic, class, byte order, version, file type, entry point,
/// program header table) and the first that fails names the error; a valid
/// header gives the entry point.
pub open spec fn elf_check(d: Seq<u8>) -> Result<usize, &'static str> {
    if d.len() < 64 {
        Err("too_short")
    } else if d[0] != 0x7f || d[1] != 0x45 || d[2] != 0x4c || d[3] != 0x46 {
        Err("bad_magic")
    } else if d[4] != 2 {
        Err("not_64bit")
    } else if d[5] != 1 {
        Err("not_le")
    } else if d[6] != 1 {
        Err("bad_version")
    } else if le16(d, 16) != 2 && le16(d, 16) != 3 {
        Err("not_exec")
    } else if le64(d, 24) > usize::MAX {
        Err("entry_overflow")
    } else if le64(d, 32) > usize::MAX {
        Err("ph_overflow")
    } else if le16(d, 56) == 0 {
        Err("no_phdrs")
    } else if le64(d, 32) + le16(d, 54) * le16(d, 56) > usize::MAX || le64(d, 32) + le16(d, 54)
        * le16(d, 56) > d.len() {
        Err("ph_overflow")
    } else if le16(d, 54) < 4 {
        Err("ph_overflow")
    } else if !has_load_segment(d, le64(d, 32), le16(d, 54), le16(d, 56)) {
        Err("no_load")
    } else {
        Ok(le64(d, 24) as usize)
    }
}

fn read_le16(d: &[u8], o: usize) -> (r: u16)
    requires
        o + 2 <= d@.len(),
    ensures
        r == le16(d@, o as int),
{
    (d[o] as u16) + (d[o + 1] as u16) * 0x100
}

fn read_le32(d: &[u8], o: usize) -> (r: u32)
    requires
        o + 4 <= d.len(),
    ensures
        r == le32(d@, o as int),
{
    (read_le16(d, o) as u32) + (read_le16(d, o + 2) as u32) * 0x10000
}

fn read_le64(d: &[u8], o: usize) -> (r: u64)
    requires
        o + 8 <= d.len(),
    ensures
        r == le64(d@, o as int),
{
    (read_le32(d, o) as u64) + (read_le32(d, o + 4) as u64) * 0x1_0000_0000
}

/// Checks an ELF64 little-endian executable header and returns its entry
/// point.
pub fn validate_elf_header(data: &[u8]) -> (r: Result<usize, &'static str>)
    ensures
        r == elf_check(data@),
{
    if data.len() < 64 {
        return Err("too_short");
    }
    if data[0] != 0x7f || data[1] != 0x45 || data[2] != 0x4c || data[3] != 0x46 {
        return Err("bad_magic");
    }
    if data[4] != 2 {
        return Err("not_64bit");
    }
    if data[5] != 1 {
        return Err("not_le");
    }
    if data[6] != 1 {
        return Err("bad_version");
    }
    let elf_type = read_le16(data, 16);
    if elf_type != 2 && elf_type != 3 {
        return Err("not_exec");
    }
    let entry64 = read_le64(data, 24);
    if entry64 > usize::MAX as u64 {
        return Err("entry_overflow");
    }
    let entry = entry64 as usize;
    let ph64 = read_le64(data, 32);
    if ph64 > usize::MAX as u64 {
        return Err("ph_overflow");
    }
    let ph_offset = ph64 as usize;
    let ph_entry_size = read_le16(data, 54) as usize;
    let ph_count = read_le16(data, 56) as usize;
    if ph_count == 0 {
        return Err("no_phdrs");
    }
    let ph_span = match ph_entry_size.checked_mul(ph_count) {
        Some(v) => v,
        None => return Err("ph_overflow"),
    };
    let ph_end = match ph_offset.checked_add(ph_span) {
        Some(v) => v,
        None => return Err("ph_overflow"),
    };
    if ph_end > data.len() {
        return Err("ph_overflow");
    }
    if ph_entry_size < 4 {
        return Err("ph_overflow");
    }
    let mut load_count: usize = 0;
    let mut index: usize = 0;
    while index < ph_count
        invariant
            index <= ph_count,
            load_count <= index,
            ph_count <= 0xffff,
            ph_entry_size >= 4,
            ph_span == ph_entry_size * ph_count,
            ph_offset + ph_span <= data.len(),
            load_count > 0 <==> has_load_segment(data@, ph_offset as int, ph_entry_size as int, index as int),
        decreases ph_count - index,
    {
        proof {
            vstd::arithmetic::mul::lemma_mul_inequality((index + 1) as int, ph_count as int, ph_entry_size as int);
            assert((index + 1) * ph_entry_size == index * ph_entry_size + ph_entry_size) by (nonlinear_arith);
            assert(ph_entry_size * ph_count == ph_count * ph_entry_size) by (nonlinear_arith);
            assert(index * ph_entry_size + ph_entry_size <= ph_span);
        }
        let entry_offset = index * ph_entry_size;
        let base = ph_offset + entry_offset;
        let program_type = read_le32(data, base);
        if program_type == 1 {
            load_count = load_count + 1;
        }
        proof {
            if load_count == 0 {
                assert forall|i: int| 0 <= i < index + 1 implies #[trigger] le32(data@, ph_offset + i * ph_entry_size) != 1 by {
                    if i < index {
                        assert(!has_load_segment(data@, ph_offset as int, ph_entry_size as int, index as int));
                    }
                }
            }
        }
        index = index + 1;
    }
    if load_count == 0 {
        return Err("no_load");
    }
    Ok(entry)
}

/// The score of a CPU: 100 per queued task off, 10 per priority point on,
/// 500 off when blocked on I/O, 50 back when it has any task, and 10 on in
/// the lower half of the CPUs (10 off in the upper half).
pub open spec fn cpu_score(tasks: int, priority: int, blocked: bool, cpu: int, count: int) -> int {
    -tasks * 100 + priority * 10 + (if blocked {
        -500int
    } else {
        0
    }) + (if tasks > 0 {
        50int
    } else {
        0
    }) + (if cpu < count / 2 {
        10int
    } else {
        -10int
    })
}

/// The score of CPU `i`, a missing priority counting as 0 and a missing I/O
/// flag as not blocked.
pub open spec fn score_at(tasks: Seq<usize>, prios: Seq<i32>, blocked: Seq<bool>, i: int) -> int {
    cpu_score(
        tasks[i] as int,
        if i < prios.len() {
            prios[i] as int
        } else {
            0
        },
        i < blocked.len() && blocked[i],
        i,
        tasks.len() as int,
    )
}

/// The first CPU with the highest score, or 0 when there are none. Each
/// queue length must leave room for the score in 64 bits.
pub fn compute_load_balance(task_counts: &[usize], priorities: &[i32], io_blocked: &[bool]) -> (r: usize)
    requires
        forall|i: int| 0 <= i < task_counts@.len() ==> #[trigger] task_counts@[i] * 100 + 0x6_0000_0000 <= i64::MAX,
    ensures
        task_counts@.len() == 0 ==> r == 0,
        task_counts@.len() > 0 ==> {
            &&& r < task_counts@.len()
            &&& forall|i: int| 0 <= i < task_counts@.len() ==> score_at(task_counts@, priorities@, io_blocked@, i)
                <= score_at(task_counts@, priorities@, io_blocked@, r as int)
            &&& forall|i: int| 0 <= i < r ==> score_at(task_counts@, priorities@, io_blocked@, i)
                < score_at(task_counts@, priorities@, io_blocked@, r as int)
        },
{
    let cpu_count = task_counts.len();
    if cpu_count == 0 {
        return 0;
    }
    let mut best_cpu: usize = 0;
    let mut best_score: i64 = i64::MIN;
    let mut cpu_id: usize = 0;
    while cpu_id < cpu_count
        invariant
            cpu_count == task_counts@.len(),
            cpu_count > 0,
            cpu_id <= cpu_count,
            forall|i: int| 0 <= i < task_counts@.len() ==> #[trigger] task_counts@[i] * 100 + 0x6_0000_0000 <= i64::MAX,
            best_cpu < cpu_count,
            cpu_id > 0 ==> best_cpu < cpu_id && best_score == score_at(task_counts@, priorities@, io_blocked@, best_cpu as int),
            cpu_id == 0 ==> best_score == i64::MIN && best_cpu == 0,
            forall|i: int| 0 <= i < cpu_id ==> score_at(task_counts@, priorities@, io_blocked@, i) <= best_score,
            forall|i: int| 0 <= i < best_cpu ==> score_at(task_counts@, priorities@, io_blocked@, i) < best_score,
        decreases cpu_count - cpu_id,
    {
        let task_count = task_counts[cpu_id];
        let priority: i64 = if cpu_id < priorities.len() {
            priorities[cpu_id] as i64
        } else {
            0
        };
        let is_io_blocked = if cpu_id < io_blocked.len() {
            io_blocked[cpu_id]
        } else {
            false
        };
        let mut score: i64 = -(task_count as i64) * 100;
        score = score + priority * 10;
        if is_io_blocked {
            score = score - 500;
        }
        score = score + if task_count > 0 {
            50
        } else {
            0
        };
        score = score + if cpu_id < cpu_count / 2 {
            10
        } else {
            -10
        };
        proof {
            assert(score == score_at(task_counts@, priorities@, io_blocked@, cpu_id as int));
            assert(score > i64::MIN);
        }
        if score > best_score {
            best_score = score;
            best_cpu = cpu_id;
        }
        cpu_id = cpu_id + 1;
    }
    best_cpu
}

} // verus!

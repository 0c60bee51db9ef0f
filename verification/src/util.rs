use vstd::prelude::*;
use crate::consts::{KHEAP_SZ, PAGE_SZ};
use crate::memory::{check_access, lemma_page_mask, user_range};

verus! {

/// A nonzero value with a single bit set.
pub open spec fn is_pow2_spec(v: usize) -> bool {
    v != 0 && v & ((v - 1) as usize) == 0
}

/// Splitting a word at a power of two: the part above and the part below the
/// power add back up to the word, and the part below is less than the power.
pub proof fn lemma_mask_split(x: usize, a: usize)
    requires
        a != 0,
        a & ((a - 1) as usize) == 0,
    ensures
        (x & !((a - 1) as usize)) + (x & ((a - 1) as usize)) == x,
        (x & !((a - 1) as usize)) & ((a - 1) as usize) == 0,
        x & ((a - 1) as usize) < a,
{
    assert((x & !((a - 1) as usize)) + (x & ((a - 1) as usize)) == x
        && (x & !((a - 1) as usize)) & ((a - 1) as usize) == 0
        && x & ((a - 1) as usize) < a) by (bit_vector)
        requires
            a != 0,
            a & ((a - 1) as usize) == 0,
    ;
}

/// Takes the bits of `b` where `mask` is set and the bits of `a` elsewhere.
pub fn bitwise_merge(a: u64, b: u64, mask: u64) -> (r: u64)
    ensures
        r == (a & !mask) | (b & mask),
{
    (a & !mask) | (b & mask)
}

/// The low `width` bits of a 64-bit word.
pub open spec fn width_mask(width: u32) -> u64 {
    if width == 64 {
        !0u64
    } else {
        (((1u64 << width) - 1u64) as u64)
    }
}

/// Rotation of the low `width` bits of `value` to the left by
/// `amount % width`; other widths leave `value` unchanged.
pub open spec fn rotate_bits_spec(value: u64, amount: u32, width: u32) -> u64 {
    if width == 0 || width > 64 {
        value
    } else if amount % width == 0 {
        value
    } else {
        let actual = amount % width;
        let v = value & width_mask(width);
        ((v << actual) | (v >> ((width - actual) as u32))) & width_mask(width)
    }
}

pub fn rotate_bits(value: u64, amount: u32, width: u32) -> (r: u64)
    ensures
        r == rotate_bits_spec(value, amount, width),
{
    if width == 0 || width > 64 {
        return value;
    }
    let actual = amount % width;
    if actual == 0 {
        return value;
    }
    let mask = if width == 64 {
        !0u64
    } else {
        assert(1u64 << width >= 1) by (bit_vector)
            requires
                width < 64,
        ;
        (1u64 << width) - 1
    };
    let v = value & mask;
    ((v << actual) | (v >> (width - actual))) & mask
}

/// Number of one bits among the 64 bits of `v`.
pub open spec fn popcount_spec(v: u64) -> nat
    decreases v,
{
    if v == 0 {
        0
    } else {
        (v % 2) as nat + popcount_spec(v / 2)
    }
}

pub fn popcount64(v: u64) -> (r: u32)
    ensures
        r == popcount_spec(v),
{
    proof {
        lemma_log_bound_le(v);
    }
    let mut count: u32 = 0;
    let mut x: u64 = v;
    while x != 0
        invariant
            count + popcount_spec(x) == popcount_spec(v),
            count <= 64 - log_bound(x),
        decreases x,
    {
        proof {
            lemma_log_bound_halves(x);
        }
        count = count + (x % 2) as u32;
        x = x / 2;
    }
    count
}

/// Number of halvings that bring `v` to zero.
pub open spec fn log_bound(v: u64) -> nat
    decreases v,
{
    if v == 0 {
        0
    } else {
        1 + log_bound(v / 2)
    }
}

proof fn lemma_log_bound_le(v: u64)
    ensures
        log_bound(v) <= 64,
{
    vstd::arithmetic::power2::lemma2_to64();
    lemma_log_bound_small(v, 64);
}

/// A value below `2^k` is brought to zero by at most `k` halvings.
proof fn lemma_log_bound_small(v: u64, k: nat)
    requires
        v < vstd::arithmetic::power2::pow2(k),
    ensures
        log_bound(v) <= k,
    decreases v,
{
    if v != 0 {
        if k == 0 {
            vstd::arithmetic::power2::lemma2_to64();
        } else {
            vstd::arithmetic::power2::lemma_pow2_unfold(k);
            lemma_log_bound_small(v / 2, (k - 1) as nat);
        }
    }
}

proof fn lemma_log_bound_halves(x: u64)
    requires
        x != 0,
    ensures
        log_bound(x) == 1 + log_bound(x / 2),
        log_bound(x) <= 64,
{
    lemma_log_bound_le(x);
}

/// Number of leading zero bits of a 64-bit word; 64 for zero.
pub open spec fn clz_spec(v: u64) -> nat {
    (64 - log_bound(v)) as nat
}

pub fn clz64(v: u64) -> (r: u32)
    ensures
        r == clz_spec(v),
        r <= 64,
        v == 0 <==> r == 64,
{
    proof {
        lemma_log_bound_le(v);
    }
    if v == 0 {
        return 64;
    }
    let mut bits: u32 = 0;
    let mut x: u64 = v;
    while x != 0
        invariant
            bits + log_bound(x) == log_bound(v),
            log_bound(v) <= 64,
        decreases x,
    {
        proof {
            lemma_log_bound_halves(x);
        }
        bits = bits + 1;
        x = x / 2;
    }
    64 - bits
}

/// Index of the lowest set bit of a nonzero word.
pub open spec fn tz_spec(v: u64) -> nat
    decreases v,
{
    if v == 0 || v % 2 == 1 {
        0
    } else {
        1 + tz_spec(v / 2)
    }
}

pub fn ffs64(v: u64) -> (r: Option<u32>)
    ensures
        v == 0 ==> r is None,
        v != 0 ==> r == Some(tz_spec(v) as u32),
{
    if v == 0 {
        return None;
    }
    proof {
        lemma_log_bound_le(v);
    }
    let mut idx: u32 = 0;
    let mut x: u64 = v;
    while x % 2 == 0
        invariant
            x != 0,
            idx + tz_spec(x) == tz_spec(v),
            idx + log_bound(x) == log_bound(v),
            log_bound(v) <= 64,
        decreases x,
    {
        proof {
            lemma_log_bound_halves(x);
            lemma_log_bound_le(v);
        }
        idx = idx + 1;
        x = x / 2;
    }
    proof {
        lemma_log_bound_le(v);
    }
    Some(idx)
}

/// Rounds `addr` up to a multiple of `align` when `align` is a power of two
/// and the rounding does not overflow; otherwise returns `addr` unchanged.
pub fn align_up(addr: usize, align: usize) -> (r: usize)
    ensures
        !is_pow2_spec(align) ==> r == addr,
        is_pow2_spec(align) && addr + align - 1 > usize::MAX ==> r == addr,
        is_pow2_spec(align) && addr + align - 1 <= usize::MAX ==> r >= addr && r < addr + align
            && r & ((align - 1) as usize) == 0,
{
    if align == 0 || (align & (align - 1)) != 0 {
        return addr;
    }
    match addr.checked_add(align - 1) {
        Some(v) => {
            proof {
                lemma_mask_split(v, align);
            }
            v & !(align - 1)
        },
        None => addr,
    }
}

/// Rounds `addr` down to a multiple of `align` when `align` is a power of
/// two; otherwise returns `addr` unchanged.
pub fn align_down(addr: usize, align: usize) -> (r: usize)
    ensures
        !is_pow2_spec(align) ==> r == addr,
        is_pow2_spec(align) ==> r <= addr && addr - r < align && r & ((align - 1) as usize) == 0,
{
    if align == 0 || (align & (align - 1)) != 0 {
        return addr;
    }
    proof {
        lemma_mask_split(addr, align);
    }
    addr & !(align - 1)
}

pub fn is_power_of_two(v: usize) -> (r: bool)
    ensures
        r == is_pow2_spec(v),
{
    v != 0 && (v & (v - 1)) == 0
}

/// Position of the highest set bit; zero for zero.
pub open spec fn log2_floor_spec(v: nat) -> nat
    decreases v,
{
    if v <= 1 {
        0
    } else {
        1 + log2_floor_spec(v / 2)
    }
}

pub fn log2_floor(v: usize) -> (r: usize)
    ensures
        r == log2_floor_spec(v as nat),
{
    let mut r: usize = 0;
    let mut x: usize = v;
    while x > 1
        invariant
            r + log2_floor_spec(x as nat) == log2_floor_spec(v as nat),
            r <= v - x,
        decreases x,
    {
        r = r + 1;
        x = x / 2;
    }
    r
}

pub open spec fn hash_combine_spec(seed: u64, value: u64) -> u64 {
    seed ^ vstd::wrapping::u64_specs::wrapping_add(
        vstd::wrapping::u64_specs::wrapping_add(
            vstd::wrapping::u64_specs::wrapping_mul(value, 0x9e3779b97f4a7c15u64),
            seed << 6u64,
        ),
        seed >> 2u64,
    )
}

pub fn hash_combine(seed: u64, value: u64) -> (r: u64)
    ensures
        r == hash_combine_spec(seed, value),
{
    seed ^ (value.wrapping_mul(0x9e3779b97f4a7c15).wrapping_add(seed << 6).wrapping_add(seed >> 2))
}

pub open spec fn murmur_spec(h0: u64) -> u64 {
    let h1 = h0 ^ (h0 >> 33u64);
    let h2 = vstd::wrapping::u64_specs::wrapping_mul(h1, 0xff51afd7ed558ccdu64);
    let h3 = h2 ^ (h2 >> 33u64);
    let h4 = vstd::wrapping::u64_specs::wrapping_mul(h3, 0xc4ceb9fe1a85ec53u64);
    h4 ^ (h4 >> 33u64)
}

pub fn murmurhash3_finalize(h: u64) -> (r: u64)
    ensures
        r == murmur_spec(h),
{
    let mut h = h;
    h ^= h >> 33;
    h = h.wrapping_mul(0xff51afd7ed558ccd);
    h ^= h >> 33;
    h = h.wrapping_mul(0xc4ceb9fe1a85ec53);
    h ^= h >> 33;
    h
}

} // verus!

verus! {

/// Outcome of `validate_access`: an empty range is always accepted; a range
/// that wraps is `"eoverflow"`; one outside user space is `"efault"`; modes
/// 0 and 1 then pass; mode 2 also needs the page-rounded span to fit the
/// kernel heap (`"eoverflow"` if rounding the end up wraps, `"efault"` if the
/// span is too large); any other mode is `"einval"`.
pub open spec fn validate_access_spec(mode: u8, addr: usize, len: usize) -> Result<(), &'static str> {
    if len == 0 {
        Ok(())
    } else if addr + len > usize::MAX {
        Err("eoverflow")
    } else if !user_range(addr, len) {
        Err("efault")
    } else if mode == 0 || mode == 1 {
        Ok(())
    } else if mode == 2 {
        let end = addr + len;
        if end + (PAGE_SZ - 1) > usize::MAX {
            Err("eoverflow")
        } else {
            let aligned_end = end + (PAGE_SZ - 1) - (end + (PAGE_SZ - 1)) % (PAGE_SZ as int);
            let aligned_addr = addr - addr % PAGE_SZ;
            if aligned_end - aligned_addr > KHEAP_SZ {
                Err("efault")
            } else {
                Ok(())
            }
        }
    } else {
        Err("einval")
    }
}

/// Checks a user memory range for an access of kind `mode`. The process id
/// takes no part in the decision.
pub fn validate_access(mode: u8, addr: usize, len: usize, pid: usize) -> (r: Result<(), &'static str>)
    ensures
        r == validate_access_spec(mode, addr, len),
{
    if len == 0 {
        return Ok(());
    }
    let end = match addr.checked_add(len) {
        Some(e) => e,
        None => return Err("eoverflow"),
    };
    if !check_access(addr, len) {
        return Err("efault");
    }
    match mode {
        0 | 1 => Ok(()),
        2 => {
            proof {
                lemma_page_mask(addr);
            }
            let aligned_addr = addr & !(PAGE_SZ - 1);
            let aligned_end = match end.checked_add(PAGE_SZ - 1) {
                Some(v) => {
                    proof {
                        lemma_page_mask(v);
                    }
                    v & !(PAGE_SZ - 1)
                },
                None => return Err("eoverflow"),
            };
            let span = aligned_end - aligned_addr;
            if span > KHEAP_SZ {
                return Err("efault");
            }
            Ok(())
        },
        _ => Err("einval"),
    }
}

/// `pattern` occurs in `data` at position `p`.
pub open spec fn matches_at(data: Seq<u8>, pattern: Seq<u8>, p: int) -> bool {
    0 <= p && p + pattern.len() <= data.len() && data.subrange(p, p + pattern.len()) == pattern
}

/// The positions below `upto` at which `pattern` occurs in `data`, in
/// increasing order, overlapping occurrences included.
pub open spec fn match_positions(data: Seq<u8>, pattern: Seq<u8>, upto: int) -> Seq<usize>
    decreases upto,
{
    if upto <= 0 {
        Seq::empty()
    } else if matches_at(data, pattern, upto - 1) {
        match_positions(data, pattern, upto - 1).push((upto - 1) as usize)
    } else {
        match_positions(data, pattern, upto - 1)
    }
}

/// What `mem_scan_pattern` returns: the first `max_matches` occurrences, or
/// none at all when the limit is zero, the pattern is empty or longer than
/// the data.
pub open spec fn scan_spec(data: Seq<u8>, pattern: Seq<u8>, max_matches: usize) -> Seq<usize> {
    if max_matches == 0 || pattern.len() == 0 || data.len() < pattern.len() {
        Seq::empty()
    } else {
        let all = match_positions(data, pattern, data.len() as int);
        if all.len() <= max_matches {
            all
        } else {
            all.take(max_matches as int)
        }
    }
}

proof fn lemma_match_positions_prefix(data: Seq<u8>, pattern: Seq<u8>, a: int, b: int)
    requires
        0 <= a <= b,
    ensures
        match_positions(data, pattern, a).len() <= match_positions(data, pattern, b).len(),
        match_positions(data, pattern, b).take(match_positions(data, pattern, a).len() as int)
            == match_positions(data, pattern, a),
    decreases b - a,
{
    if a < b {
        lemma_match_positions_prefix(data, pattern, a, b - 1);
        let sa = match_positions(data, pattern, a);
        let sb1 = match_positions(data, pattern, b - 1);
        let sb = match_positions(data, pattern, b);
        assert(sb.take(sa.len() as int) =~= sb1.take(sa.len() as int));
    } else {
        assert(match_positions(data, pattern, a).take(match_positions(data, pattern, a).len() as int)
            =~= match_positions(data, pattern, a));
    }
}

fn pattern_at(data: &[u8], pattern: &[u8], p: usize) -> (r: bool)
    requires
        p + pattern.len() <= data.len(),
    ensures
        r == matches_at(data@, pattern@, p as int),
{
    let mut j: usize = 0;
    while j < pattern.len()
        invariant
            p + pattern.len() <= data.len(),
            j <= pattern@.len(),
            forall|k: int| 0 <= k < j ==> data@[p + k] == pattern@[k],
        decreases pattern@.len() - j,
    {
        if data[p + j] != pattern[j] {
            proof {
                assert(data@.subrange(p as int, p + pattern@.len())[j as int] != pattern@[j as int]);
            }
            return false;
        }
        j = j + 1;
    }
    proof {
        assert(data@.subrange(p as int, p + pattern@.len()) =~= pattern@);
    }
    true
}

/// Positions at which `pattern` occurs in `data`, overlapping occurrences
/// included, in increasing order and at most `max_matches` of them.
pub fn mem_scan_pattern(data: &[u8], pattern: &[u8], max_matches: usize) -> (r: Vec<usize>)
    ensures
        r@ == scan_spec(data@, pattern@, max_matches),
{
    let mut results: Vec<usize> = Vec::new();
    if max_matches == 0 || pattern.len() == 0 || data.len() < pattern.len() {
        return results;
    }
    let plen = pattern.len();
    let mut i: usize = 0;
    while i < data.len()
        invariant_except_break
            results@ == match_positions(data@, pattern@, i as int),
            results@.len() < max_matches,
        invariant
            i <= data@.len(),
            plen == pattern@.len(),
            plen > 0,
            plen <= data@.len(),
            max_matches > 0,
        ensures
            results@ == scan_spec(data@, pattern@, max_matches),
        decreases data@.len() - i,
    {
        if plen <= data.len() - i && pattern_at(data, pattern, i) {
            results.push(i);
        }
        proof {
            if !(i + plen <= data@.len()) {
                assert(!matches_at(data@, pattern@, i as int));
            }
            assert(results@ == match_positions(data@, pattern@, i + 1));
        }
        if results.len() >= max_matches {
            proof {
                lemma_match_positions_prefix(data@, pattern@, i + 1, data@.len() as int);
                let all = match_positions(data@, pattern@, data@.len() as int);
                if all.len() <= max_matches {
                    assert(all =~= all.take(max_matches as int));
                }
            }
            break;
        }
        i = i + 1;
    }
    results
}

/// One step of the reflected CRC-32 register: shift right, folding in the
/// polynomial when the low bit was set.
pub open spec fn crc_bit(c: u32) -> u32 {
    if c & 1 != 0 {
        (c >> 1u32) ^ 0xEDB8_8320u32
    } else {
        c >> 1u32
    }
}

pub open spec fn crc_bits(c: u32, n: nat) -> u32
    decreases n,
{
    if n == 0 {
        c
    } else {
        crc_bits(crc_bit(c), (n - 1) as nat)
    }
}

/// The CRC-32 register after the first `n` bytes of `data`.
pub open spec fn crc_state(data: Seq<u8>, n: int) -> u32
    decreases n,
{
    if n <= 0 {
        0xFFFF_FFFFu32
    } else {
        crc_bits(crc_state(data, n - 1) ^ (data[n - 1] as u32), 8)
    }
}

/// CRC-32 (IEEE, reflected) of `data`.
pub fn compute_crc32(data: &[u8]) -> (r: u32)
    ensures
        r == !crc_state(data@, data@.len() as int),
{
    let mut crc: u32 = 0xFFFF_FFFF;
    let mut i: usize = 0;
    while i < data.len()
        invariant
            i <= data@.len(),
            crc == crc_state(data@, i as int),
        decreases data@.len() - i,
    {
        crc = crc ^ (data[i] as u32);
        let ghost start = crc;
        let mut b: u32 = 0;
        while b < 8
            invariant
                b <= 8,
                crc_bits(start, 8) == crc_bits(crc, (8 - b) as nat),
            decreases 8 - b,
        {
            if crc & 1 != 0 {
                crc = (crc >> 1) ^ 0xEDB8_8320;
            } else {
                crc = crc >> 1;
            }
            b = b + 1;
        }
        i = i + 1;
    }
    !crc
}

/// LEB128 encoding of `v`: seven bits per byte, low bits first, the high
/// bit set on every byte but the last.
pub open spec fn varint_bytes(v: u64) -> Seq<u8>
    decreases v,
{
    let b = (v & 0x7f) as u8;
    let rest = v >> 7u64;
    if rest == 0 {
        seq![b]
    } else {
        proof {
            assert(rest != 0 ==> rest < v) by (bit_vector)
                requires
                    rest == v >> 7u64,
            ;
        }
        seq![b | 0x80u8] + varint_bytes(rest)
    }
}

/// Appends the LEB128 encoding of `value` to `out` and returns its length.
pub fn encode_varint(value: u64, out: &mut Vec<u8>) -> (r: usize)
    ensures
        final(out)@ == old(out)@ + varint_bytes(value),
        r == varint_bytes(value).len(),
{
    let mut v = value;
    let mut count: usize = 0;
    loop
        invariant_except_break
            old(out)@ + varint_bytes(value) == out@ + varint_bytes(v),
        invariant
            count == out.len() - old(out).len(),
        ensures
            out@ == old(out)@ + varint_bytes(value),
        decreases v,
    {
        proof {
            assert(v & 0x7f <= 0x7f) by (bit_vector);
        }
        let mut byte = (v & 0x7F) as u8;
        let next = v >> 7;
        proof {
            assert(next != 0 ==> next < v) by (bit_vector)
                requires
                    next == v >> 7u64,
            ;
        }
        if next != 0 {
            byte = byte | 0x80;
        }
        out.push(byte);
        proof {
            assert(varint_bytes(v) =~= seq![byte] + (if next == 0 {
                Seq::<u8>::empty()
            } else {
                varint_bytes(next)
            }));
            assert(out@.len() == out.len());
            assert(old(out)@ + varint_bytes(value) =~= out@ + (if next == 0 {
                Seq::<u8>::empty()
            } else {
                varint_bytes(next)
            }));
        }
        count = count + 1;
        v = next;
        if v == 0 {
            proof {
                assert(out@ =~= old(out)@ + varint_bytes(value));
            }
            break;
        }
    }
    count
}

} // verus!

verus! {

/// Decoding LEB128 from byte `i` of `data` on, with the bits gathered so far
/// in `acc`: `None` when the data ends first, when the tenth byte holds more
/// than the one bit left, or when ten bytes pass without a last byte;
/// otherwise the value and the number of bytes read.
pub open spec fn decode_from(data: Seq<u8>, i: int, acc: u64) -> Option<(u64, usize)>
    decreases data.len() - i,
{
    if i < 0 || i >= data.len() {
        None
    } else {
        let byte = data[i];
        let shift = (7 * i) as u32;
        if shift >= 63 && byte > 1 {
            None
        } else {
            let acc2 = acc | (((byte & 0x7f) as u64) << shift);
            if byte & 0x80 == 0 {
                Some((acc2, (i + 1) as usize))
            } else if i >= 9 {
                None
            } else {
                decode_from(data, i + 1, acc2)
            }
        }
    }
}

/// Decodes a LEB128 value from the start of `data`, giving the value and the
/// number of bytes it took.
pub fn decode_varint(data: &[u8]) -> (r: Option<(u64, usize)>)
    ensures
        r == decode_from(data@, 0, 0),
{
    let mut result: u64 = 0;
    let mut shift: u32 = 0;
    let mut i: usize = 0;
    while i < data.len()
        invariant
            i <= data@.len(),
            i <= 9,
            shift == 7 * i,
            decode_from(data@, i as int, result) == decode_from(data@, 0, 0),
        decreases data@.len() - i,
    {
        let byte = data[i];
        if shift >= 63 && byte > 1 {
            return None;
        }
        proof {
            assert(byte & 0x7f <= 0x7f) by (bit_vector);
        }
        result = result | (((byte & 0x7F) as u64) << shift);
        if byte & 0x80 == 0 {
            return Some((result, i + 1));
        }
        shift = shift + 7;
        if i >= 9 {
            return None;
        }
        i = i + 1;
    }
    None
}


/// The low bits facts one decoding step relies on: the next seven bits of
/// `v` from `sh` on join the `sh` low bits gathered so far.
proof fn lemma_varint_bits(v: u64, acc: u64, sh: u32)
    by (bit_vector)
    requires
        sh <= 63,
        acc == v & (((1u64 << sh) as u64) - 1) as u64,
    ensures
        sh + 7 < 64 ==> (acc | (((v >> sh) & 0x7f) << sh)) == v & (((1u64 << (sh + 7)) as u64) - 1) as u64,
        sh + 7 < 64 ==> (v >> sh) >> 7u64 == v >> (sh + 7),
        (v >> sh) >> 7u64 == 0 ==> (acc | (((v >> sh) & 0x7f) << sh)) == v,
        sh == 63 ==> (v >> sh) <= 1,
        sh == 63 ==> (v >> sh) >> 7u64 == 0,
{
}

/// The byte an encoding step writes tells its seven bits and whether more
/// follow.
proof fn lemma_varint_byte(w: u64)
    by (bit_vector)
    ensures
        ((w & 0x7f) as u8) & 0x80u8 == 0,
        (((w & 0x7f) as u8) | 0x80u8) & 0x80u8 != 0,
        ((((w & 0x7f) as u8) & 0x7fu8) as u64) == w & 0x7f,
        (((((w & 0x7f) as u8) | 0x80u8) & 0x7fu8) as u64) == w & 0x7f,
        w <= 1 ==> (w & 0x7f) as u8 <= 1,
{
}

proof fn lemma_varint_decode_from(v: u64, j: int, data: Seq<u8>, acc: u64)
    requires
        0 <= j <= 9,
        j + varint_bytes(v >> ((7 * j) as u32)).len() <= data.len(),
        data.subrange(j, j + varint_bytes(v >> ((7 * j) as u32)).len()) == varint_bytes(v >> ((7 * j) as u32)),
        acc == v & (((1u64 << ((7 * j) as u32)) as u64) - 1) as u64,
    ensures
        decode_from(data, j, acc) == Some((v, (j + varint_bytes(v >> ((7 * j) as u32)).len()) as usize)),
    decreases 9 - j,
{
    let sh = (7 * j) as u32;
    let w = v >> sh;
    lemma_varint_bits(v, acc, sh);
    lemma_varint_byte(w);
    let bytes = varint_bytes(w);
    assert(data[j] == bytes[0]) by {
        assert(data.subrange(j, j + bytes.len())[0] == data[j]);
    }
    let next = w >> 7u64;
    if next == 0 {
        assert(bytes =~= seq![(w & 0x7f) as u8]);
    } else {
        assert(j < 9) by {
            if j == 9 {
                assert(sh == 63);
            }
        }
        let sh2 = (7 * (j + 1)) as u32;
        assert(sh2 == sh + 7);
        assert(bytes =~= seq![((w & 0x7f) as u8) | 0x80u8] + varint_bytes(next));
        assert(next == v >> sh2);
        let acc2 = acc | (((w & 0x7f) as u64) << sh);
        assert(data.subrange(j + 1, j + 1 + varint_bytes(next).len()) =~= bytes.subrange(1, bytes.len() as int)) by {
            assert forall|k: int| 0 <= k < varint_bytes(next).len() implies data.subrange(j + 1, j + 1 + varint_bytes(next).len())[k]
                == bytes.subrange(1, bytes.len() as int)[k] by {
                assert(data.subrange(j, j + bytes.len())[k + 1] == data[j + 1 + k]);
            }
        }
        assert(bytes.subrange(1, bytes.len() as int) =~= varint_bytes(next));
        lemma_varint_decode_from(v, j + 1, data, acc2);
    }
}

/// Decoding what `encode_varint` writes gives the value back and the
/// number of bytes it wrote, whatever bytes follow.
pub proof fn law_varint_roundtrip(v: u64, rest: Seq<u8>)
    ensures
        decode_from(varint_bytes(v) + rest, 0, 0) == Some((v, varint_bytes(v).len() as usize)),
{
    let data = varint_bytes(v) + rest;
    assert(v >> 0u32 == v) by (bit_vector);
    assert(v & (((1u64 << 0u32) as u64) - 1) as u64 == 0) by (bit_vector);
    assert(data.subrange(0, varint_bytes(v).len() as int) =~= varint_bytes(v));
    lemma_varint_decode_from(v, 0, data, 0);
}

} // verus!

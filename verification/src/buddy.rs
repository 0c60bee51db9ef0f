use vstd::prelude::*;
use crate::consts::PAGE_SZ;
use crate::util::{log2_floor, log2_floor_spec};
use vstd::arithmetic::power2::pow2;

verus! {

/// Buddy allocator over page-sized blocks. `free_lists[n]` holds the base
/// addresses of the free blocks of `2^n` pages; `allocated` counts pages
/// handed out. Only metadata is kept, no memory.
pub struct BuddyAllocator {
    pub free_lists: Vec<Vec<usize>>,
    pub max_order: usize,
    pub base_addr: usize,
    pub total_pages: usize,
    pub allocated: usize,
}

/// Pages held by the free lists of orders below `n`.
pub open spec fn pages_below(lists: Seq<Seq<usize>>, n: int) -> int
    decreases n,
{
    if n <= 0 {
        0
    } else {
        pages_below(lists, n - 1) + lists[n - 1].len() * pow2((n - 1) as nat)
    }
}

/// Pages held by all free lists.
pub open spec fn free_pages(lists: Seq<Seq<usize>>) -> int {
    pages_below(lists, lists.len() as int)
}

/// Bytes in a block of order `o`.
pub open spec fn block_bytes(o: int) -> int {
    pow2(o as nat) * PAGE_SZ
}

/// `[addr, addr + 2^order pages)` lies inside some free block.
pub open spec fn range_in_free_block(lists: Seq<Seq<usize>>, addr: usize, order: usize) -> bool {
    exists|o: int, k: int|
        0 <= o < lists.len() && 0 <= k < lists[o].len() && #[trigger] lists[o][k] <= addr && addr
            + block_bytes(order as int) <= usize::MAX && lists[o][k] + block_bytes(o) <= usize::MAX
            && addr + block_bytes(order as int) <= lists[o][k] + block_bytes(o)
}

proof fn lemma_pages_below_update(lists: Seq<Seq<usize>>, o: int, l: Seq<usize>, n: int)
    requires
        0 <= o < lists.len(),
        0 <= n <= lists.len(),
    ensures
        pages_below(lists.update(o, l), n) == pages_below(lists, n) + if o < n {
            (l.len() - lists[o].len()) * pow2(o as nat)
        } else {
            0
        },
    decreases n,
{
    if n > 0 {
        lemma_pages_below_update(lists, o, l, n - 1);
        if n - 1 == o {
            vstd::arithmetic::mul::lemma_mul_is_distributive_sub_other_way(
                pow2(o as nat) as int,
                l.len() as int,
                lists[o].len() as int,
            );
        }
    }
}

proof fn lemma_pages_below_nonneg(lists: Seq<Seq<usize>>, n: int)
    ensures
        pages_below(lists, n) >= 0,
    decreases n,
{
    if n > 0 {
        lemma_pages_below_nonneg(lists, n - 1);
        vstd::arithmetic::power2::lemma_pow2_pos((n - 1) as nat);
        vstd::arithmetic::mul::lemma_mul_nonnegative(lists[n - 1].len() as int, pow2((n - 1) as nat) as int);
    }
}

proof fn lemma_pages_below_mono(lists: Seq<Seq<usize>>, m: int, n: int)
    requires
        0 <= m <= n,
    ensures
        pages_below(lists, m) <= pages_below(lists, n),
    decreases n,
{
    if n > m {
        lemma_pages_below_mono(lists, m, n - 1);
        vstd::arithmetic::power2::lemma_pow2_pos((n - 1) as nat);
        vstd::arithmetic::mul::lemma_mul_nonnegative(lists[n - 1].len() as int, pow2((n - 1) as nat) as int);
    }
}

proof fn lemma_shl_pow2(o: usize)
    requires
        o < usize::BITS,
    ensures
        (1usize << o) == pow2(o as nat),
        pow2(o as nat) <= usize::MAX,
        pow2(o as nat) >= 1,
{
    vstd::bits::lemma_usize_pow2_no_overflow(o as nat);
    vstd::bits::lemma_usize_shl_is_mul(1, o);
    vstd::arithmetic::power2::lemma_pow2_pos(o as nat);
}

/// Takes list `i` out of `lists`, leaving an empty list in its place.
fn take_list(lists: &mut Vec<Vec<usize>>, i: usize) -> (r: Vec<usize>)
    requires
        i < old(lists)@.len(),
    ensures
        r@ == old(lists)@[i as int]@,
        final(lists)@.len() == old(lists)@.len(),
        final(lists)@[i as int]@.len() == 0,
        forall|k: int| 0 <= k < old(lists)@.len() && k != i ==> #[trigger] final(lists)@[k] == old(lists)@[k],
{
    let l = lists.remove(i);
    lists.insert(i, Vec::new());
    l
}

/// Puts list `l` back at position `i`.
fn put_list(lists: &mut Vec<Vec<usize>>, i: usize, l: Vec<usize>)
    requires
        i < old(lists)@.len(),
    ensures
        final(lists)@ == old(lists)@.update(i as int, l),
{
    let _ = lists.remove(i);
    lists.insert(i, l);
    assert(lists@ =~= old(lists)@.update(i as int, l));
}

impl BuddyAllocator {
    /// The free lists as sequences of block addresses.
    pub open spec fn lists(&self) -> Seq<Seq<usize>> {
        Seq::new(self.free_lists@.len(), |i: int| self.free_lists@[i]@)
    }

    /// One free list per order up to `max_order`, orders small enough that a
    /// block's page count fits in a word, and a page total that fits too.
    pub open spec fn wf(&self) -> bool {
        &&& self.free_lists@.len() == self.max_order + 1
        &&& self.max_order < usize::BITS
        &&& free_pages(self.lists()) <= usize::MAX
    }

    /// Allocates a block of `2^order` pages from the smallest order that has
    /// a free block, splitting the block and keeping the upper halves free.
    pub fn alloc_order(&mut self, order: usize) -> (r: Option<usize>)
        requires
            old(self).wf(),
            forall|o: int, k: int|
                0 <= o < old(self).lists().len() && 0 <= k < old(self).lists()[o].len() ==> #[trigger] old(self).lists()[o][k] + block_bytes(o) <= usize::MAX,
        ensures
            final(self).wf(),
            final(self).max_order == old(self).max_order,
            final(self).base_addr == old(self).base_addr,
            final(self).total_pages == old(self).total_pages,
            order > old(self).max_order ==> r is None && *final(self) == *old(self),
            order <= old(self).max_order && (forall|o: int|
                order <= o <= old(self).max_order ==> #[trigger] old(self).lists()[o].len() == 0)
                ==> r is None && final(self).lists() == old(self).lists() && final(self).allocated
                == old(self).allocated,
            order <= old(self).max_order && (exists|o: int|
                order <= o <= old(self).max_order && #[trigger] old(self).lists()[o].len() > 0) ==> r is Some,
            r is Some ==> free_pages(final(self).lists()) == free_pages(old(self).lists()) - pow2(
                order as nat,
            ) && final(self).allocated == vstd::wrapping::usize_specs::wrapping_add(
                old(self).allocated,
                pow2(order as nat) as usize,
            ),
            r matches Some(addr) ==> exists|src: int|
                order <= src <= old(self).max_order && #[trigger] old(self).lists()[src].len() > 0
                    && (forall|o: int| order <= o < src ==> #[trigger] old(self).lists()[o].len() == 0)
                    && addr == old(self).lists()[src].last() && final(self).lists()[src] == old(self).lists()[src].drop_last() && (forall|c: int|
                    order <= c < src ==> #[trigger] final(self).lists()[c] == old(self).lists()[c].push(
                        (addr + block_bytes(c)) as usize,
                    )) && (forall|c: int|
                    0 <= c <= old(self).max_order && !(order <= c <= src) ==> #[trigger] final(self).lists()[c] == old(self).lists()[c]),
    {
        if order > self.max_order {
            return None;
        }
        let ghost l0 = self.lists();
        let mut source_order: usize = order;
        while source_order <= self.max_order
            invariant
                order <= source_order <= self.max_order + 1,
                self.wf(),
                self.lists() == l0,
                l0 == old(self).lists(),
                *self == *old(self),
                forall|o: int, k: int|
                    0 <= o < l0.len() && 0 <= k < l0[o].len() ==> #[trigger] l0[o][k]
                        + block_bytes(o) <= usize::MAX,
                forall|o: int| order <= o < source_order ==> #[trigger] l0[o].len() == 0,
            decreases self.max_order + 1 - source_order,
        {
            if self.free_lists[source_order].len() > 0 {
                let mut src_list = take_list(&mut self.free_lists, source_order);
                let addr = src_list.pop().unwrap();
                put_list(&mut self.free_lists, source_order, src_list);
                proof {
                    assert(self.lists() =~= l0.update(source_order as int, l0[source_order as int].drop_last()));
                    lemma_pages_below_update(l0, source_order as int, l0[source_order as int].drop_last(), l0.len() as int);
                    vstd::arithmetic::power2::lemma_pow2_pos(source_order as nat);
                    let x = l0[source_order as int].len() as int;
                    let p = pow2(source_order as nat) as int;
                    assert((x - 1 - x) * p == -p) by (nonlinear_arith);
                }
                let ghost l1 = self.lists();
                let mut current_order: usize = source_order;
                while current_order > order
                    invariant
                        order <= current_order <= source_order,
                        source_order <= self.max_order,
                        self.max_order == old(self).max_order,
                        self.max_order < usize::BITS,
                        self.free_lists@.len() == self.max_order + 1,
                        self.base_addr == old(self).base_addr,
                        self.total_pages == old(self).total_pages,
                        self.allocated == old(self).allocated,
                        addr == l0[source_order as int].last(),
                        l0[source_order as int].len() > 0,
                        forall|o: int, k: int|
                            0 <= o < l0.len() && 0 <= k < l0[o].len() ==> #[trigger] l0[o][k]
                                + block_bytes(o) <= usize::MAX,
                        l0.len() == self.max_order + 1,
                        free_pages(self.lists()) + pow2(current_order as nat) == free_pages(l0),
                        free_pages(l0) <= usize::MAX,
                        self.lists()[source_order as int] == l0[source_order as int].drop_last(),
                        forall|c: int|
                            current_order <= c < source_order ==> #[trigger] self.lists()[c] == l0[c].push(
                                (addr + block_bytes(c)) as usize,
                            ),
                        forall|c: int|
                            0 <= c <= self.max_order && !(current_order <= c <= source_order)
                                ==> #[trigger] self.lists()[c] == l0[c],
                    decreases current_order,
                {
                    current_order = current_order - 1;
                    proof {
                        lemma_shl_pow2(current_order);
                        assert(l0[source_order as int][l0[source_order as int].len() - 1] + block_bytes(
                            source_order as int,
                        ) <= usize::MAX);
                        vstd::arithmetic::power2::lemma_pow2_strictly_increases(
                            current_order as nat,
                            source_order as nat,
                        );
                        vstd::arithmetic::mul::lemma_mul_inequality(
                            pow2(current_order as nat) as int,
                            pow2(source_order as nat) as int,
                            PAGE_SZ as int,
                        );
                    }
                    let buddy = addr + (1usize << current_order) * PAGE_SZ;
                    let ghost lb = self.lists();
                    let mut lst = take_list(&mut self.free_lists, current_order);
                    lst.push(buddy);
                    put_list(&mut self.free_lists, current_order, lst);
                    proof {
                        assert(self.lists() =~= lb.update(current_order as int, lb[current_order as int].push(buddy)));
                        lemma_pages_below_update(lb, current_order as int, lb[current_order as int].push(buddy), lb.len() as int);
                        vstd::arithmetic::power2::lemma_pow2_unfold((current_order + 1) as nat);
                        let x = lb[current_order as int].len() as int;
                        let p = pow2(current_order as nat) as int;
                        assert((x + 1 - x) * p == p) by (nonlinear_arith);
                    }
                }
                proof {
                    lemma_shl_pow2(order);
                }
                self.allocated = self.allocated.wrapping_add(1usize << order);
                return Some(addr);
            }
            source_order = source_order + 1;
        }
        None
    }
}

} // verus!

verus! {

/// `i` is the first position of `x` in `s`.
pub open spec fn is_first_pos(s: Seq<usize>, x: usize, i: int) -> bool {
    0 <= i < s.len() && s[i] == x && forall|j: int| 0 <= j < i ==> #[trigger] s[j] != x
}

pub open spec fn first_pos(s: Seq<usize>, x: usize) -> int {
    choose|i: int| is_first_pos(s, x, i)
}

/// The buddy of the block at `a` of order `c`: the block whose offset from
/// `base` differs in the bit of the block size.
pub open spec fn buddy_of(a: usize, c: int, base: usize) -> Option<usize> {
    if a < base {
        None
    } else if base + (((a - base) as usize) ^ (block_bytes(c) as usize)) > usize::MAX {
        None
    } else {
        Some((base + (((a - base) as usize) ^ (block_bytes(c) as usize))) as usize)
    }
}

/// Merges a freed block at `a` of order `c` with its free buddies, order by
/// order, up to `max`: each buddy found is removed from its list and the
/// merged block starts at the lower of the two addresses. Returns the lists,
/// the address and the order of the merged block.
pub open spec fn coalesce(lists: Seq<Seq<usize>>, a: usize, c: int, max: int, base: usize) -> (
    Seq<Seq<usize>>,
    usize,
    int,
)
    decreases max - c,
{
    if c >= max || c < 0 {
        (lists, a, c)
    } else {
        match buddy_of(a, c, base) {
            None => (lists, a, c),
            Some(b) => if lists[c].contains(b) {
                coalesce(
                    lists.update(c, lists[c].remove(first_pos(lists[c], b))),
                    if a <= b {
                        a
                    } else {
                        b
                    },
                    c + 1,
                    max,
                    base,
                )
            } else {
                (lists, a, c)
            },
        }
    }
}

/// Flipping one bit of an offset moves it by exactly that bit's value.
proof fn lemma_xor_bit(x: usize, k: usize)
    by (bit_vector)
    requires
        k < usize::BITS,
    ensures
        (x ^ (1usize << k)) == x + (1usize << k) || (x ^ (1usize << k)) + (1usize << k) == x,
{
}

/// A block of order `c` whose size fits in a word has a one-bit size.
proof fn lemma_block_bytes_bit(c: int)
    requires
        0 <= c,
        block_bytes(c) <= usize::MAX,
    ensures
        c + 12 < usize::BITS,
        block_bytes(c) == (1usize << ((c + 12) as usize)),
        block_bytes(c + 1) == 2 * block_bytes(c),
{
    vstd::arithmetic::power2::lemma_pow2_adds(c as nat, 12);
    vstd::arithmetic::power2::lemma2_to64();
    vstd::arithmetic::power2::lemma_pow2_unfold((c + 1) as nat);
    let k = c + 12;
    if k >= usize::BITS {
        if k > usize::BITS {
            vstd::arithmetic::power2::lemma_pow2_strictly_increases(usize::BITS as nat, k as nat);
        }
        assert(false);
    }
    lemma_shl_pow2(k as usize);
    assert(pow2((c + 1) as nat) * PAGE_SZ == 2 * (pow2(c as nat) * PAGE_SZ)) by (nonlinear_arith)
        requires
            pow2((c + 1) as nat) == 2 * pow2(c as nat),
    ;
}

/// The buddy of a block of order `c` is exactly one block size away.
proof fn lemma_buddy_distance(a: usize, c: int, base: usize, b: usize)
    requires
        0 <= c,
        block_bytes(c) <= usize::MAX,
        buddy_of(a, c, base) == Some(b),
    ensures
        b == a + block_bytes(c) || b + block_bytes(c) == a,
{
    lemma_block_bytes_bit(c);
    lemma_xor_bit((a - base) as usize, (c + 12) as usize);
}

/// Freeing merges into one block that covers the freed block: the block
/// `free_order` adds starts at or below the freed address and ends at or
/// past the freed block's end. When the freed block's buddy is free, the
/// two do merge (the block is of a higher order) and the merged block
/// covers the buddy too, so it starts at the lower of the two.
pub proof fn law_coalesce_covers(lists: Seq<Seq<usize>>, a: usize, c: int, max: int, base: usize)
    requires
        0 <= c <= max,
        block_bytes(max) <= usize::MAX,
    ensures
        ({
            let (l, r, rc) = coalesce(lists, a, c, max, base);
            &&& c <= rc <= max
            &&& r <= a
            &&& a + block_bytes(c) <= r + block_bytes(rc)
            &&& c < max ==> (buddy_of(a, c, base) matches Some(b) ==> (lists[c].contains(b) ==> {
                &&& c < rc
                &&& r <= b
                &&& b + block_bytes(c) <= r + block_bytes(rc)
            }))
        }),
    decreases max - c,
{
    if c < max {
        if c < max {
            vstd::arithmetic::power2::lemma_pow2_strictly_increases(c as nat, max as nat);
        }
        assert(block_bytes(c) <= block_bytes(max)) by (nonlinear_arith)
            requires
                pow2(c as nat) < pow2(max as nat),
                block_bytes(c) == pow2(c as nat) * PAGE_SZ,
                block_bytes(max) == pow2(max as nat) * PAGE_SZ,
        ;
        match buddy_of(a, c, base) {
            None => {},
            Some(b) => {
                if lists[c].contains(b) {
                    lemma_buddy_distance(a, c, base, b);
                    lemma_block_bytes_bit(c);
                    let m = if a <= b {
                        a
                    } else {
                        b
                    };
                    law_coalesce_covers(lists.update(c, lists[c].remove(first_pos(lists[c], b))), m, c + 1, max, base);
                }
            },
        }
    }
}

/// The pages of the lists plus those of the pending merged block are kept
/// while merging.
proof fn lemma_coalesce_pages(lists: Seq<Seq<usize>>, a: usize, c: int, max: int, base: usize)
    requires
        0 <= c <= max,
        max < lists.len(),
    ensures
        ({
            let (l, a2, c2) = coalesce(lists, a, c, max, base);
            &&& free_pages(l) + pow2(c2 as nat) == free_pages(lists) + pow2(c as nat)
            &&& c <= c2 <= max
            &&& l.len() == lists.len()
        }),
    decreases max - c,
{
    if c < max {
        match buddy_of(a, c, base) {
            None => {},
            Some(b) => {
                if lists[c].contains(b) {
                    let i = choose|i: int| 0 <= i < lists[c].len() && lists[c][i] == b;
                    lemma_first_pos_exists(lists[c], b, i);
                    let p = first_pos(lists[c], b);
                    let nl = lists.update(c, lists[c].remove(p));
                    lemma_pages_below_update(lists, c, lists[c].remove(p), lists.len() as int);
                    let x = lists[c].len() as int;
                    let q = pow2(c as nat) as int;
                    assert((x - 1 - x) * q == -q) by (nonlinear_arith);
                    vstd::arithmetic::power2::lemma_pow2_unfold((c + 1) as nat);
                    lemma_coalesce_pages(
                        nl,
                        if a <= b {
                            a
                        } else {
                            b
                        },
                        c + 1,
                        max,
                        base,
                    );
                }
            },
        }
    }
}

proof fn lemma_first_pos_exists(s: Seq<usize>, x: usize, i: int)
    requires
        0 <= i < s.len(),
        s[i] == x,
    ensures
        is_first_pos(s, x, first_pos(s, x)),
    decreases i,
{
    if exists|j: int| 0 <= j < i && s[j] == x {
        let j = choose|j: int| 0 <= j < i && s[j] == x;
        lemma_first_pos_exists(s, x, j);
    } else {
        assert(is_first_pos(s, x, i));
    }
}

impl BuddyAllocator {
    /// Whether `[addr, addr + 2^order pages)` lies inside a free block.
    fn range_is_free(&self, addr: usize, order: usize) -> (r: bool)
        requires
            self.wf(),
            order < usize::BITS,
            pow2(order as nat) * PAGE_SZ <= usize::MAX,
            forall|o: int| 0 <= o < self.free_lists@.len() ==> #[trigger] block_bytes(o) <= usize::MAX,
        ensures
            r == range_in_free_block(self.lists(), addr, order),
    {
        proof {
            lemma_shl_pow2(order);
        }
        let size = (1usize << order) * PAGE_SZ;
        let end = match addr.checked_add(size) {
            Some(e) => e,
            None => return false,
        };
        let mut o: usize = 0;
        while o < self.free_lists.len()
            invariant
                self.wf(),
                o <= self.free_lists@.len(),
                size == block_bytes(order as int),
                end == addr + size,
                forall|q: int| 0 <= q < self.free_lists@.len() ==> #[trigger] block_bytes(q) <= usize::MAX,
                forall|q: int, k: int|
                    0 <= q < o && 0 <= k < self.lists()[q].len() ==> !(#[trigger] self.lists()[q][k]
                        <= addr && addr + block_bytes(order as int) <= usize::MAX && self.lists()[q][k]
                        + block_bytes(q) <= usize::MAX && addr + block_bytes(order as int)
                        <= self.lists()[q][k] + block_bytes(q)),
            decreases self.free_lists@.len() - o,
        {
            proof {
                assert(block_bytes(o as int) <= usize::MAX);
                lemma_shl_pow2(o);
            }
            let free_size = (1usize << o) * PAGE_SZ;
            let list = &self.free_lists[o];
            let mut k: usize = 0;
            while k < list.len()
                invariant
                    k <= list@.len(),
                    list@ == self.lists()[o as int],
                    o < self.free_lists@.len(),
                    free_size == block_bytes(o as int),
                    size == block_bytes(order as int),
                    end == addr + size,
                    forall|j: int|
                        0 <= j < k ==> !(#[trigger] list@[j] <= addr && list@[j] + block_bytes(o as int)
                            <= usize::MAX && addr + block_bytes(order as int) <= list@[j]
                            + block_bytes(o as int)),
                decreases list@.len() - k,
            {
                let block = list[k];
                match block.checked_add(free_size) {
                    Some(block_end) => {
                        if addr >= block && end <= block_end {
                            proof {
                                assert(self.lists()[o as int][k as int] == block);
                            }
                            return true;
                        }
                    },
                    None => {},
                }
                k = k + 1;
            }
            o = o + 1;
        }
        false
    }

    /// Frees a block of `2^order` pages at `addr` and merges it with free
    /// buddies. Orders above the maximum, and ranges already inside a free
    /// block, are ignored. The allocated count drops by the block's pages,
    /// saturating at zero.
    pub fn free_order(&mut self, addr: usize, order: usize)
        requires
            old(self).wf(),
            pow2(old(self).max_order as nat) * PAGE_SZ <= usize::MAX,
            order <= old(self).max_order ==> free_pages(old(self).lists()) + pow2(order as nat)
                <= usize::MAX,
        ensures
            final(self).wf(),
            final(self).max_order == old(self).max_order,
            final(self).base_addr == old(self).base_addr,
            final(self).total_pages == old(self).total_pages,
            (order > old(self).max_order || range_in_free_block(old(self).lists(), addr, order))
                ==> *final(self) == *old(self),
            order <= old(self).max_order && !range_in_free_block(old(self).lists(), addr, order)
                ==> {
                let (l, a, c) = coalesce(
                    old(self).lists(),
                    addr,
                    order as int,
                    old(self).max_order as int,
                    old(self).base_addr,
                );
                &&& final(self).lists() == l.update(c, l[c].push(a))
                &&& free_pages(final(self).lists()) == free_pages(old(self).lists()) + pow2(
                    order as nat,
                )
                &&& final(self).allocated == (if old(self).allocated >= pow2(order as nat) {
                    (old(self).allocated - pow2(order as nat)) as usize
                } else {
                    0usize
                })
            },
    {
        if order > self.max_order {
            return;
        }
        proof {
            assert forall|o: int| 0 <= o < self.free_lists@.len() implies #[trigger] block_bytes(o) <= usize::MAX by {
                if o < self.max_order {
                    vstd::arithmetic::power2::lemma_pow2_strictly_increases(o as nat, self.max_order as nat);
                }
                vstd::arithmetic::mul::lemma_mul_inequality(
                    pow2(o as nat) as int,
                    pow2(self.max_order as nat) as int,
                    PAGE_SZ as int,
                );
            }
            assert(block_bytes(order as int) <= usize::MAX);
        }
        if self.range_is_free(addr, order) {
            return;
        }
        let ghost l0 = self.lists();
        let max = self.max_order;
        let base = self.base_addr;
        let mut current_addr = addr;
        let mut current_order = order;
        proof {
            lemma_coalesce_pages(l0, addr, order as int, max as int, base);
        }
        while current_order < max
            invariant
                order <= current_order <= max,
                max == self.max_order,
                base == self.base_addr,
                max == old(self).max_order,
                self.max_order < usize::BITS,
                self.free_lists@.len() == max + 1,
                self.base_addr == old(self).base_addr,
                self.total_pages == old(self).total_pages,
                self.allocated == old(self).allocated,
                forall|o: int| 0 <= o < self.free_lists@.len() ==> #[trigger] block_bytes(o) <= usize::MAX,
                coalesce(self.lists(), current_addr, current_order as int, max as int, base) == coalesce(
                    l0,
                    addr,
                    order as int,
                    max as int,
                    base,
                ),
            ensures
                order <= current_order <= max,
                self.max_order == max,
                self.free_lists@.len() == max + 1,
                self.base_addr == old(self).base_addr,
                self.total_pages == old(self).total_pages,
                self.allocated == old(self).allocated,
                coalesce(self.lists(), current_addr, current_order as int, max as int, base) == (
                    self.lists(),
                    current_addr,
                    current_order as int,
                ),
                coalesce(self.lists(), current_addr, current_order as int, max as int, base) == coalesce(
                    l0,
                    addr,
                    order as int,
                    max as int,
                    base,
                ),
            decreases max - current_order,
        {
            proof {
                lemma_shl_pow2(current_order);
                assert(block_bytes(current_order as int) <= usize::MAX);
            }
            let block_size = (1usize << current_order) * PAGE_SZ;
            let relative = match current_addr.checked_sub(base) {
                Some(v) => v,
                None => {
                    proof {
                        assert(buddy_of(current_addr, current_order as int, base) is None);
                    }
                    break;
                },
            };
            let buddy_addr = match base.checked_add(relative ^ block_size) {
                Some(v) => v,
                None => {
                    proof {
                        assert(buddy_of(current_addr, current_order as int, base) is None);
                    }
                    break;
                },
            };
            proof {
                assert(buddy_of(current_addr, current_order as int, base) == Some(buddy_addr));
            }
            let list = &self.free_lists[current_order];
            let mut k: usize = 0;
            let mut pos: Option<usize> = None;
            while k < list.len()
                invariant_except_break
                    pos is None,
                invariant
                    k <= list@.len(),
                    forall|j: int| 0 <= j < k ==> list@[j] != buddy_addr,
                ensures
                    pos matches Some(p) ==> p < list@.len() && list@[p as int] == buddy_addr && (forall|j: int|
                        0 <= j < p ==> list@[j] != buddy_addr),
                    pos is None ==> forall|j: int| 0 <= j < list@.len() ==> list@[j] != buddy_addr,
                decreases list@.len() - k,
            {
                if list[k] == buddy_addr {
                    pos = Some(k);
                    break;
                }
                k = k + 1;
            }
            proof {
                assert(list@ == self.lists()[current_order as int]);
            }
            match pos {
                Some(p) => {
                    let ghost lb = self.lists();
                    proof {
                        assert(is_first_pos(lb[current_order as int], buddy_addr, p as int));
                        lemma_first_pos_exists(lb[current_order as int], buddy_addr, p as int);
                        assert(first_pos(lb[current_order as int], buddy_addr) == p);
                        assert(lb[current_order as int].contains(buddy_addr));
                    }
                    let mut lst = take_list(&mut self.free_lists, current_order);
                    lst.remove(p);
                    put_list(&mut self.free_lists, current_order, lst);
                    proof {
                        assert(self.lists() =~= lb.update(
                            current_order as int,
                            lb[current_order as int].remove(p as int),
                        ));
                    }
                    current_addr = if current_addr <= buddy_addr {
                        current_addr
                    } else {
                        buddy_addr
                    };
                    current_order = current_order + 1;
                },
                None => {
                    proof {
                        assert(!self.lists()[current_order as int].contains(buddy_addr));
                    }
                    break;
                },
            }
        }
        let ghost lf = self.lists();
        let mut lst = take_list(&mut self.free_lists, current_order);
        lst.push(current_addr);
        put_list(&mut self.free_lists, current_order, lst);
        proof {
            lemma_coalesce_pages(l0, addr, order as int, max as int, base);
            assert(self.lists() =~= lf.update(current_order as int, lf[current_order as int].push(current_addr)));
            lemma_pages_below_update(lf, current_order as int, lf[current_order as int].push(current_addr), lf.len() as int);
            let x = lf[current_order as int].len() as int;
            let q = pow2(current_order as nat) as int;
            assert((x + 1 - x) * q == q) by (nonlinear_arith);
            lemma_shl_pow2(order);
        }
        let pages = 1usize << order;
        self.allocated = self.allocated.saturating_sub(pages);
    }
}

} // verus!

verus! {

/// The order of the largest blocks that `new` lays down: the floor of the
/// base-2 logarithm of the page count, capped at the maximum order.
pub open spec fn initial_order(total: usize, max_order: usize) -> int {
    let l = log2_floor_spec(total as nat);
    if l <= max_order {
        l as int
    } else {
        max_order as int
    }
}

/// The free list of order `o` that `new(base, total, ..)` builds when its
/// largest order is `u`: `total / 2^u` blocks of order `u` from `base` up,
/// then one block of each smaller order whose bit is set in the remainder,
/// larger blocks at lower addresses.
pub open spec fn initial_list(base: usize, total: usize, u: int, o: int) -> Seq<usize> {
    if o == u {
        Seq::new(
            total as nat / pow2(u as nat),
            |i: int| (base + i * block_bytes(u)) as usize,
        )
    } else if 0 <= o < u && total as nat % pow2((o + 1) as nat) >= pow2(o as nat) {
        seq![(base + (total - total as nat % pow2((o + 1) as nat)) * PAGE_SZ) as usize]
    } else {
        Seq::empty()
    }
}

proof fn lemma_pages_below_empty(lists: Seq<Seq<usize>>, n: int)
    requires
        n <= lists.len(),
        forall|k: int| 0 <= k < n ==> #[trigger] lists[k].len() == 0,
    ensures
        pages_below(lists, n) == 0,
    decreases n,
{
    if n > 0 {
        lemma_pages_below_empty(lists, n - 1);
    }
}

proof fn lemma_log2_bounds(t: usize)
    ensures
        log2_floor_spec(t as nat) < usize::BITS,
        t >= 1 ==> pow2(log2_floor_spec(t as nat)) <= t,
{
    lemma_log2_pow(t as nat);
    let l = log2_floor_spec(t as nat);
    if t >= 1 && l >= usize::BITS {
        vstd::arithmetic::power2::lemma2_to64();
        if l > usize::BITS {
            vstd::arithmetic::power2::lemma_pow2_strictly_increases(usize::BITS as nat, l);
        }
        assert(false);
    }
}

proof fn lemma_log2_pow(v: nat)
    ensures
        v >= 1 ==> pow2(log2_floor_spec(v)) <= v,
    decreases v,
{
    if v > 1 {
        lemma_log2_pow(v / 2);
        vstd::arithmetic::power2::lemma_pow2_unfold(1 + log2_floor_spec(v / 2));
    } else {
        vstd::arithmetic::power2::lemma2_to64();
    }
}

/// Taking the next lower bit off a remainder.
proof fn lemma_mod_step(t: nat, o: nat)
    ensures
        ({
            let r = t % pow2(o + 1);
            &&& r >= pow2(o) ==> r - pow2(o) == t % pow2(o)
            &&& r < pow2(o) ==> r == t % pow2(o)
            &&& r < 2 * pow2(o)
        }),
{
    let p = pow2(o) as int;
    vstd::arithmetic::power2::lemma_pow2_pos(o);
    vstd::arithmetic::power2::lemma_pow2_unfold(o + 1);
    assert(pow2(o + 1) == p * 2);
    vstd::arithmetic::div_mod::lemma_mod_mod(t as int, p, 2);
    let r = t as int % (p * 2);
    vstd::arithmetic::div_mod::lemma_mod_pos_bound(t as int, p * 2);
    if r >= p {
        vstd::arithmetic::div_mod::lemma_fundamental_div_mod_converse(r, p, 1, r - p);
    } else {
        vstd::arithmetic::div_mod::lemma_small_mod(r as nat, p as nat);
    }
}

/// The free lists held in `fl`, as sequences of addresses.
pub open spec fn lists_view(fl: Seq<Vec<usize>>) -> Seq<Seq<usize>> {
    Seq::new(fl.len(), |k: int| fl[k]@)
}

fn push_to(lists: &mut Vec<Vec<usize>>, i: usize, v: usize)
    requires
        i < old(lists)@.len(),
    ensures
        final(lists)@.len() == old(lists)@.len(),
        lists_view(final(lists)@) == lists_view(old(lists)@).update(i as int, old(lists)@[i as int]@.push(v)),
        final(lists)@[i as int]@ == old(lists)@[i as int]@.push(v),
        forall|k: int| 0 <= k < old(lists)@.len() && k != i ==> #[trigger] final(lists)@[k] == old(lists)@[k],
{
    let mut l = take_list(lists, i);
    l.push(v);
    put_list(lists, i, l);
    assert(lists_view(lists@) =~= lists_view(old(lists)@).update(i as int, old(lists)@[i as int]@.push(v)));
}

impl BuddyAllocator {
    /// Lays out `total_pages` pages from `base` as free blocks: as many
    /// blocks of the largest usable order as fit, then the rest in blocks of
    /// decreasing order.
    pub fn new(base: usize, total_pages: usize, max_order: usize) -> (r: Self)
        requires
            max_order < usize::MAX,
            base + total_pages * PAGE_SZ <= usize::MAX,
        ensures
            r.max_order == max_order,
            r.base_addr == base,
            r.total_pages == total_pages,
            r.allocated == 0,
            r.free_lists@.len() == max_order + 1,
            forall|o: int|
                0 <= o <= max_order ==> #[trigger] r.lists()[o] == initial_list(
                    base,
                    total_pages,
                    initial_order(total_pages, max_order),
                    o,
                ),
            free_pages(r.lists()) == total_pages,
            max_order < usize::BITS ==> r.wf(),
    {
        let mut free_lists: Vec<Vec<usize>> = Vec::new();
        let mut i: usize = 0;
        while i <= max_order
            invariant
                max_order < usize::MAX,
                i <= max_order + 1,
                free_lists@.len() == i,
                forall|k: int| 0 <= k < i ==> #[trigger] free_lists@[k]@.len() == 0,
            decreases max_order + 1 - i,
        {
            free_lists.push(Vec::new());
            i = i + 1;
        }
        let order = log2_floor(total_pages);
        let usable_order = if order < max_order {
            order
        } else {
            max_order
        };
        let ghost u = usable_order as int;
        proof {
            lemma_log2_bounds(total_pages);
            lemma_shl_pow2(usable_order);
            vstd::arithmetic::power2::lemma_pow2_pos(u as nat);
            lemma_pages_below_empty(lists_view(free_lists@), (max_order + 1) as int);
            assert(u == initial_order(total_pages, max_order));
        }
        let block_pages: usize = 1usize << usable_order;
        let mut addr = base;
        let mut remaining = total_pages;
        let ghost mut n: int = 0;
        while remaining >= block_pages
            invariant
                free_lists@.len() == max_order + 1,
                usable_order <= max_order,
                usable_order < usize::BITS,
                block_pages == pow2(u as nat),
                block_pages >= 1,
                u == usable_order,
                base + total_pages * PAGE_SZ <= usize::MAX,
                0 <= n,
                remaining == total_pages - n * block_pages,
                addr == base + n * block_pages * PAGE_SZ,
                forall|k: int|
                    0 <= k <= max_order && k != u ==> #[trigger] free_lists@[k]@.len() == 0,
                free_lists@[u]@ == Seq::new(n as nat, |j: int| (base + j * block_bytes(u)) as usize),
                free_pages(lists_view(free_lists@)) == n * block_pages,
            decreases remaining,
        {
            let ghost before = lists_view(free_lists@);
            proof {
                assert(block_bytes(u) == block_pages * PAGE_SZ);
                assert(n * block_bytes(u) == n * block_pages * PAGE_SZ) by (nonlinear_arith)
                    requires block_bytes(u) == block_pages * PAGE_SZ;
                assert(n * block_pages <= total_pages);
                assert(n * block_pages * PAGE_SZ <= total_pages * PAGE_SZ) by (nonlinear_arith)
                    requires n * block_pages <= total_pages;
                assert(addr == (base + n * block_bytes(u)) as usize);
            }
            push_to(&mut free_lists, usable_order, addr);
            proof {
                assert(lists_view(free_lists@) == before.update(u, before[u].push(addr)));
                lemma_pages_below_update(before, u, before[u].push(addr), before.len() as int);
                let x = before[u].len() as int;
                assert((x + 1 - x) * pow2(u as nat) == pow2(u as nat)) by (nonlinear_arith);
                assert(before[u] == Seq::new(n as nat, |j: int| (base + j * block_bytes(u)) as usize));
                assert(lists_view(free_lists@).len() == free_lists@.len());
                assert(lists_view(free_lists@)[u] == before[u].push(addr));
                assert(lists_view(free_lists@)[u] == free_lists@[u]@);
                assert(free_lists@[u]@ == before[u].push(addr));
                assert(free_lists@[u]@ =~= Seq::new((n + 1) as nat, |j: int| (base + j * block_bytes(u)) as usize));
                assert((n + 1) * block_pages == n * block_pages + block_pages) by (nonlinear_arith);
                assert((n + 1) * block_pages <= total_pages);
                assert((n + 1) * block_pages * PAGE_SZ <= total_pages * PAGE_SZ) by (nonlinear_arith)
                    requires (n + 1) * block_pages <= total_pages;
                assert((n + 1) * block_pages == n * block_pages + block_pages) by (nonlinear_arith);
                assert((n + 1) * block_pages * PAGE_SZ == n * block_pages * PAGE_SZ + block_pages * PAGE_SZ) by (nonlinear_arith);
            }
            addr = addr + block_pages * PAGE_SZ;
            remaining = remaining - block_pages;
            proof {
                n = n + 1;
            }
        }
        proof {
            vstd::arithmetic::div_mod::lemma_fundamental_div_mod_converse(
                total_pages as int,
                block_pages as int,
                n,
                remaining as int,
            );
            assert(n * block_pages == block_pages * n) by (nonlinear_arith);
            vstd::arithmetic::div_mod::lemma_div_multiples_vanish_fancy(n, remaining as int, block_pages as int);
            assert(free_lists@[u]@ =~= initial_list(base, total_pages, u, u));
        }
        let mut s: usize = usable_order;
        while s > 0
            invariant
                free_lists@.len() == max_order + 1,
                usable_order <= max_order,
                usable_order < usize::BITS,
                u == usable_order,
                s <= usable_order,
                base + total_pages * PAGE_SZ <= usize::MAX,
                remaining == total_pages as nat % pow2(s as nat),
                addr == base + (total_pages - remaining) * PAGE_SZ,
                forall|k: int| s <= k <= u ==> #[trigger] free_lists@[k]@ == initial_list(base, total_pages, u, k),
                forall|k: int|
                    (0 <= k < s || u < k <= max_order) ==> #[trigger] free_lists@[k]@.len() == 0,
                free_pages(lists_view(free_lists@)) + remaining == total_pages,
            decreases s,
        {
            s = s - 1;
            proof {
                lemma_shl_pow2(s);
                lemma_mod_step(total_pages as nat, s as nat);
                vstd::arithmetic::power2::lemma_pow2_pos((s + 1) as nat);
                vstd::arithmetic::div_mod::lemma_mod_pos_bound(total_pages as int, pow2((s + 1) as nat) as int);
            }
            let pages: usize = 1usize << s;
            if remaining >= pages {
                let ghost before = lists_view(free_lists@);
                push_to(&mut free_lists, s, addr);
                proof {
                    assert(lists_view(free_lists@) == before.update(s as int, before[s as int].push(addr)));
                    lemma_pages_below_update(before, s as int, before[s as int].push(addr), before.len() as int);
                    let x = before[s as int].len() as int;
                    assert((x + 1 - x) * pow2(s as nat) == pow2(s as nat)) by (nonlinear_arith);
                    assert(before[s as int].len() == 0);
                    assert(free_lists@[s as int]@ == before[s as int].push(addr));
                    assert(free_lists@[s as int]@ =~= seq![addr]);
                    assert(total_pages as nat % pow2((s as int + 1) as nat) >= pow2(s as nat));
                    assert(free_lists@[s as int]@ =~= initial_list(base, total_pages, u, s as int));
                }
                addr = addr + pages * PAGE_SZ;
                remaining = remaining - pages;
            } else {
                proof {
                    assert(free_lists@[s as int]@ =~= initial_list(base, total_pages, u, s as int));
                }
            }
        }
        proof {
            vstd::arithmetic::power2::lemma2_to64();
            assert(remaining == 0);
            assert forall|o: int| 0 <= o <= max_order implies #[trigger] lists_view(free_lists@)[o] == initial_list(
                base,
                total_pages,
                u,
                o,
            ) by {
                if o > u || o < 0 {
                    assert(free_lists@[o]@ =~= initial_list(base, total_pages, u, o));
                }
            }
        }
        BuddyAllocator {
            free_lists,
            max_order,
            base_addr: base,
            total_pages,
            allocated: 0,
        }
    }
}

} // verus!

verus! {

/// The highest order up to `o` whose free list is not empty, or 0.
pub open spec fn top_nonempty(lists: Seq<Seq<usize>>, o: int) -> int
    decreases o,
{
    if o <= 0 {
        0
    } else if lists[o].len() > 0 {
        o
    } else {
        top_nonempty(lists, o - 1)
    }
}

/// Share, in percent rounded down, of the free pages outside one block of
/// the largest free order; 0 when nothing or at most that block is free.
pub open spec fn fragmentation(lists: Seq<Seq<usize>>, max_order: int) -> int {
    let total = free_pages(lists);
    let largest = pow2(top_nonempty(lists, max_order) as nat) as int;
    if total == 0 || total <= largest {
        0
    } else {
        (total - largest) * 100 / total
    }
}

impl BuddyAllocator {
    /// Number of free pages over all orders.
    pub fn free_pages_count(&self) -> (r: usize)
        requires
            self.wf(),
        ensures
            r == free_pages(self.lists()),
    {
        let mut count: usize = 0;
        let mut o: usize = 0;
        while o < self.free_lists.len()
            invariant
                self.wf(),
                o <= self.free_lists@.len(),
                count == pages_below(self.lists(), o as int),
            decreases self.free_lists@.len() - o,
        {
            proof {
                lemma_shl_pow2(o);
                lemma_pages_below_mono(self.lists(), (o + 1) as int, self.lists().len() as int);
                lemma_pages_below_nonneg(self.lists(), o as int);
                assert(self.lists()[o as int] == self.free_lists@[o as int]@);
            }
            count = count + self.free_lists[o].len() * (1usize << o);
            o = o + 1;
        }
        count
    }

    /// The highest order with a free block, or 0 when there is none (which
    /// reads the same as a free block of order 0).
    pub fn largest_free_order(&self) -> (r: usize)
        requires
            self.free_lists@.len() == self.max_order + 1,
        ensures
            r == top_nonempty(self.lists(), self.max_order as int),
    {
        let mut c: usize = self.max_order;
        loop
            invariant
                c <= self.max_order,
                self.free_lists@.len() == self.max_order + 1,
                top_nonempty(self.lists(), self.max_order as int) == top_nonempty(self.lists(), c as int),
            decreases c,
        {
            proof {
                assert(self.lists()[c as int] == self.free_lists@[c as int]@);
            }
            if !self.free_lists[c].is_empty() {
                return c;
            }
            if c == 0 {
                return 0;
            }
            c = c - 1;
        }
    }

    /// Fragmentation in percent: the share of free pages that lie outside a
    /// single block of the largest free order.
    pub fn fragmentation_score(&self) -> (r: usize)
        requires
            self.wf(),
            free_pages(self.lists()) > pow2(top_nonempty(self.lists(), self.max_order as int) as nat)
                ==> (free_pages(self.lists()) - pow2(
                top_nonempty(self.lists(), self.max_order as int) as nat,
            )) * 100 <= usize::MAX,
        ensures
            r == fragmentation(self.lists(), self.max_order as int),
    {
        let total_free = self.free_pages_count();
        if total_free == 0 {
            return 0;
        }
        let largest = self.largest_free_order();
        proof {
            lemma_top_nonempty_bound(self.lists(), self.max_order as int);
            lemma_shl_pow2(largest);
        }
        let largest_block: usize = 1usize << largest;
        if total_free <= largest_block {
            return 0;
        }
        ((total_free - largest_block) * 100) / total_free
    }

    /// A copy of the allocator's state.
    pub fn snapshot(&self) -> (r: BuddyAllocator)
        ensures
            r.lists() == self.lists(),
            r.max_order == self.max_order,
            r.base_addr == self.base_addr,
            r.total_pages == self.total_pages,
            r.allocated == self.allocated,
    {
        let mut lists: Vec<Vec<usize>> = Vec::new();
        let mut o: usize = 0;
        while o < self.free_lists.len()
            invariant
                o <= self.free_lists@.len(),
                lists@.len() == o,
                forall|k: int| 0 <= k < o ==> #[trigger] lists@[k]@ == self.free_lists@[k]@,
            decreases self.free_lists@.len() - o,
        {
            let src = &self.free_lists[o];
            let mut copy: Vec<usize> = Vec::new();
            let mut k: usize = 0;
            while k < src.len()
                invariant
                    k <= src@.len(),
                    copy@ == src@.subrange(0, k as int),
                decreases src@.len() - k,
            {
                copy.push(src[k]);
                k = k + 1;
                proof {
                    assert(copy@ =~= src@.subrange(0, k as int));
                }
            }
            proof {
                assert(copy@ =~= src@);
            }
            lists.push(copy);
            o = o + 1;
        }
        let r = BuddyAllocator {
            free_lists: lists,
            max_order: self.max_order,
            base_addr: self.base_addr,
            total_pages: self.total_pages,
            allocated: self.allocated,
        };
        proof {
            assert(r.lists() =~= self.lists());
        }
        r
    }
}

proof fn lemma_top_nonempty_bound(lists: Seq<Seq<usize>>, o: int)
    requires
        0 <= o,
    ensures
        0 <= top_nonempty(lists, o) <= o,
    decreases o,
{
    if o > 0 {
        lemma_top_nonempty_bound(lists, o - 1);
    }
}

} // verus!

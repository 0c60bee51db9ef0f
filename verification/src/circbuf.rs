use vstd::prelude::*;
use vstd::wrapping::usize_specs::{wrapping_add, wrapping_sub};

verus! {

/// Fixed-size circular byte buffer. The cursors count pushes and pops
/// (wrapping); the byte written by a push goes to the slot after the write
/// cursor, so an empty buffer first writes slot 1.
pub struct CircBuf {
    pub data: Vec<u8>,
    pub read_cursor: usize,
    pub write_cursor: usize,
    pub capacity: usize,
    pub len: usize,
}

impl CircBuf {
    /// The backing vector has one slot per unit of capacity, at most
    /// `capacity` bytes are stored, and the write cursor is `len` slots past
    /// the read cursor.
    pub open spec fn wf(&self) -> bool {
        &&& self.data@.len() == self.capacity
        &&& self.len <= self.capacity
        &&& self.capacity > 0 ==> (self.write_cursor as int) % (self.capacity as int) == ((
        self.read_cursor + self.len) as int) % (self.capacity as int)
    }

    /// The stored bytes from oldest to newest.
    pub open spec fn contents(&self) -> Seq<u8> {
        Seq::new(
            self.len as nat,
            |k: int| self.data@[((self.read_cursor + 1 + k) % (self.capacity as int))],
        )
    }

    pub fn new(capacity: usize) -> (r: Self)
        ensures
            r.data@ == Seq::new(capacity as nat, |i: int| 0u8),
            r.read_cursor == 0,
            r.write_cursor == 0,
            r.capacity == capacity,
            r.len == 0,
            r.wf(),
    {
        let data = zeroed_bytes(capacity);
        CircBuf { data, read_cursor: 0, write_cursor: 0, capacity, len: 0 }
    }

    /// A buffer whose cursors start at given counts; the stored length is
    /// the distance from the read slot to the write slot.
    pub fn with_pos(capacity: usize, read_cursor: usize, write_cursor: usize) -> (r: Self)
        ensures
            r.data@ == Seq::new(capacity as nat, |i: int| 0u8),
            r.read_cursor == read_cursor,
            r.write_cursor == write_cursor,
            r.capacity == capacity,
            capacity == 0 ==> r.len == 0,
            capacity > 0 ==> r.len == (if write_cursor % capacity >= read_cursor % capacity {
                write_cursor % capacity - read_cursor % capacity
            } else {
                capacity - read_cursor % capacity + write_cursor % capacity
            }),
            r.wf(),
    {
        let len = if capacity == 0 {
            0
        } else {
            let read_index = read_cursor % capacity;
            let write_index = write_cursor % capacity;
            if write_index >= read_index {
                write_index - read_index
            } else {
                capacity - read_index + write_index
            }
        };
        proof {
            if capacity > 0 {
                lemma_cursor_distance(read_cursor as int, write_cursor as int, capacity as int, len as int);
            }
        }
        let data = zeroed_bytes(capacity);
        CircBuf { data, read_cursor, write_cursor, capacity, len }
    }

    /// Stores `v` in the slot after the write cursor when there is room.
    pub fn push(&mut self, v: u8) -> (r: bool)
        ensures
            (old(self).capacity == 0 || old(self).len >= old(self).capacity) ==> !r && *final(self)
                == *old(self),
            old(self).capacity > 0 && old(self).len < old(self).capacity && (wrapping_add(
                old(self).write_cursor,
                1,
            ) % old(self).capacity) >= old(self).data@.len() ==> !r && final(self).data@ == old(self).data@ && final(self).read_cursor == old(self).read_cursor && final(self).write_cursor
                == old(self).write_cursor && final(self).capacity == old(self).capacity && final(self).len == old(self).len,
            r <==> (old(self).capacity > 0 && old(self).len < old(self).capacity && (wrapping_add(
                old(self).write_cursor,
                1,
            ) % old(self).capacity) < old(self).data@.len()),
            r ==> final(self).write_cursor == wrapping_add(old(self).write_cursor, 1)
                && final(self).data@ == old(self).data@.update(
                (wrapping_add(old(self).write_cursor, 1) % old(self).capacity) as int,
                v,
            ) && final(self).len == old(self).len + 1 && final(self).read_cursor == old(self).read_cursor && final(self).capacity == old(self).capacity,
    {
        if self.capacity == 0 || self.len >= self.capacity {
            return false;
        }
        self.write_cursor = self.write_cursor.wrapping_add(1);
        let write_index = self.write_cursor % self.capacity;
        if write_index >= self.data.len() {
            self.write_cursor = self.write_cursor.wrapping_sub(1);
            return false;
        }
        self.data.set(write_index, v);
        self.len = self.len + 1;
        true
    }

    /// Takes the byte in the slot after the read cursor when one is stored.
    pub fn pop(&mut self) -> (r: Option<u8>)
        ensures
            (old(self).capacity == 0 || old(self).len == 0) ==> r is None && *final(self) == *old(self),
            old(self).capacity > 0 && old(self).len > 0 && (wrapping_add(old(self).read_cursor, 1)
                % old(self).capacity) >= old(self).data@.len() ==> r is None && final(self).data@
                == old(self).data@ && final(self).read_cursor == old(self).read_cursor && final(self).write_cursor == old(self).write_cursor && final(self).capacity == old(self).capacity
                && final(self).len == old(self).len,
            old(self).capacity > 0 && old(self).len > 0 && (wrapping_add(old(self).read_cursor, 1)
                % old(self).capacity) < old(self).data@.len() ==> r == Some(
                old(self).data@[(wrapping_add(old(self).read_cursor, 1) % old(self).capacity) as int],
            ) && final(self).read_cursor == wrapping_add(old(self).read_cursor, 1) && final(self).len == old(self).len - 1 && final(self).data@ == old(self).data@ && final(self).write_cursor == old(self).write_cursor && final(self).capacity == old(self).capacity,
    {
        if self.capacity == 0 || self.len == 0 {
            return None;
        }
        self.read_cursor = self.read_cursor.wrapping_add(1);
        let read_index = self.read_cursor % self.capacity;
        if read_index >= self.data.len() {
            self.read_cursor = self.read_cursor.wrapping_sub(1);
            return None;
        }
        self.len = self.len - 1;
        Some(self.data[read_index])
    }

    pub fn len(&self) -> (r: usize)
        ensures
            r == self.len,
    {
        self.len
    }

    pub fn empty(&self) -> (r: bool)
        ensures
            r == (self.len == 0),
    {
        self.len == 0
    }

    pub fn full(&self) -> (r: bool)
        ensures
            r == (self.len >= self.capacity),
    {
        self.len >= self.capacity
    }

    /// The byte the next pop would return, without removing it.
    pub fn peek(&self) -> (r: Option<u8>)
        ensures
            (self.capacity == 0 || self.len == 0) ==> r is None,
            self.capacity > 0 && self.len > 0 ==> r == (if (wrapping_add(self.read_cursor, 1)
                % self.capacity) < self.data@.len() {
                Some(self.data@[(wrapping_add(self.read_cursor, 1) % self.capacity) as int])
            } else {
                None
            }),
    {
        if self.capacity == 0 || self.len == 0 {
            return None;
        }
        let read_index = self.read_cursor.wrapping_add(1) % self.capacity;
        if read_index >= self.data.len() {
            return None;
        }
        Some(self.data[read_index])
    }

    /// The backing vector has one slot per unit of capacity and at most
    /// `capacity` bytes are stored (the cursors may be anywhere).
    pub open spec fn shaped(&self) -> bool {
        &&& self.data@.len() == self.capacity
        &&& self.len <= self.capacity
    }

    /// The bytes that the next `n` pops return: the slots after the read
    /// cursor, counted with a wrapping cursor, modulo the capacity.
    pub open spec fn popped(&self, n: int) -> Seq<u8> {
        Seq::new(n as nat, |i: int| self.data@[slot_after(self.read_cursor, i + 1, self.capacity)])
    }

    /// Pops up to `max` bytes (never more than are stored) onto `dst`: the
    /// slots after the read cursor, in order, counting with a wrapping
    /// cursor modulo the capacity. When the read cursor does not pass the
    /// largest word, these are the oldest stored bytes.
    pub fn drain_to(&mut self, dst: &mut Vec<u8>, max: usize) -> (r: usize)
        requires
            old(self).shaped(),
        ensures
            r == (if max < old(self).len {
                max
            } else {
                old(self).len
            }),
            final(dst)@ == old(dst)@ + old(self).popped(r as int),
            final(self).shaped(),
            final(self).data@ == old(self).data@,
            final(self).capacity == old(self).capacity,
            final(self).len == old(self).len - r,
            final(self).read_cursor == wrapping_add(old(self).read_cursor, r),
            final(self).write_cursor == old(self).write_cursor,
            old(self).wf() && old(self).read_cursor + old(self).len <= usize::MAX ==> {
                &&& final(self).wf()
                &&& final(self).read_cursor == old(self).read_cursor + r
                &&& old(self).popped(r as int) == old(self).contents().subrange(0, r as int)
                &&& final(self).contents() == old(self).contents().subrange(r as int, old(self).len as int)
            },
    {
        let n = if max < self.len {
            max
        } else {
            self.len
        };
        let ghost ok = old(self).wf() && old(self).read_cursor + old(self).len <= usize::MAX;
        let mut drained: usize = 0;
        while drained < n
            invariant
                self.shaped(),
                drained <= n,
                n <= old(self).len,
                old(self).shaped(),
                self.len == old(self).len - drained,
                self.read_cursor == wrapping_add(old(self).read_cursor, drained),
                self.write_cursor == old(self).write_cursor,
                self.data@ == old(self).data@,
                self.capacity == old(self).capacity,
                dst@ == old(dst)@ + old(self).popped(drained as int),
                ok == (old(self).wf() && old(self).read_cursor + old(self).len <= usize::MAX),
                ok ==> self.wf() && self.read_cursor == old(self).read_cursor + drained && self.contents()
                    == old(self).contents().subrange(drained as int, old(self).len as int) && old(self).popped(
                    drained as int,
                ) == old(self).contents().subrange(0, drained as int),
            decreases n - drained,
        {
            let ghost before = *self;
            proof {
                lemma_wrap_step(old(self).read_cursor, drained as int);
                if ok {
                    lemma_pop_front(before);
                }
            }
            let b = self.pop();
            let byte = match b {
                Some(byte) => byte,
                None => 0,
            };
            dst.push(byte);
            proof {
                assert(b is Some);
                assert(old(self).popped(drained + 1) =~= old(self).popped(drained as int).push(byte));
                if ok {
                    assert(old(self).contents().subrange(0, drained as int + 1) =~= old(self).contents().subrange(
                        0,
                        drained as int,
                    ).push(byte_of(b)));
                    assert(old(self).popped(drained + 1) =~= old(self).contents().subrange(0, drained + 1));
                }
            }
            drained = drained + 1;
        }
        drained
    }

    /// Pushes bytes of `src` in order until the buffer refuses one (it is
    /// full); returns how many were stored. Byte `i` goes to the `i + 1`-th
    /// slot after the write cursor, counting with a wrapping cursor modulo
    /// the capacity. When the write cursor does not pass the largest word,
    /// the bytes join the stored ones, newest last.
    pub fn fill_from(&mut self, src: &[u8]) -> (r: usize)
        requires
            old(self).shaped(),
        ensures
            r == (if old(self).capacity == 0 {
                0
            } else if src@.len() <= old(self).capacity - old(self).len {
                src@.len() as int
            } else {
                old(self).capacity - old(self).len
            }),
            final(self).shaped(),
            final(self).data@ == pushed_data(old(self).data@, old(self).write_cursor, old(self).capacity, src@, r as nat),
            final(self).capacity == old(self).capacity,
            final(self).len == old(self).len + r,
            final(self).read_cursor == old(self).read_cursor,
            final(self).write_cursor == wrapping_add(old(self).write_cursor, r),
            old(self).wf() && old(self).write_cursor + src@.len() <= usize::MAX ==> {
                &&& final(self).wf()
                &&& final(self).write_cursor == old(self).write_cursor + r
                &&& final(self).contents() == old(self).contents() + src@.subrange(0, r as int)
            },
    {
        let ghost ok = old(self).wf() && old(self).write_cursor + src@.len() <= usize::MAX;
        let mut written: usize = 0;
        while written < src.len()
            invariant
                self.shaped(),
                written <= src@.len(),
                self.write_cursor == wrapping_add(old(self).write_cursor, written),
                self.read_cursor == old(self).read_cursor,
                self.capacity == old(self).capacity,
                self.len == old(self).len + written,
                self.data@ == pushed_data(old(self).data@, old(self).write_cursor, old(self).capacity, src@, written as nat),
                ok == (old(self).wf() && old(self).write_cursor + src@.len() <= usize::MAX),
                ok ==> self.wf() && self.write_cursor == old(self).write_cursor + written && self.contents()
                    == old(self).contents() + src@.subrange(0, written as int),
            ensures
                self.shaped(),
                written <= src@.len(),
                self.write_cursor == wrapping_add(old(self).write_cursor, written),
                self.read_cursor == old(self).read_cursor,
                self.capacity == old(self).capacity,
                self.len == old(self).len + written,
                self.data@ == pushed_data(old(self).data@, old(self).write_cursor, old(self).capacity, src@, written as nat),
                ok ==> self.wf() && self.write_cursor == old(self).write_cursor + written && self.contents()
                    == old(self).contents() + src@.subrange(0, written as int),
                written == src@.len() || self.capacity == 0 || self.len >= self.capacity,
            decreases src@.len() - written,
        {
            let ghost before = *self;
            proof {
                lemma_wrap_step(old(self).write_cursor, written as int);
                if ok && before.capacity > 0 && before.len < before.capacity {
                    lemma_push_back(before, src@[written as int]);
                }
            }
            if !self.push(src[written]) {
                break;
            }
            proof {
                assert(src@.subrange(0, written as int + 1) == src@.subrange(0, written as int).push(
                    src@[written as int],
                ));
            }
            written = written + 1;
        }
        written
    }

    /// Free slots, zero when over capacity.
    pub fn remaining(&self) -> (r: usize)
        ensures
            r == (if self.capacity >= self.len {
                self.capacity - self.len
            } else {
                0
            }),
    {
        self.capacity.saturating_sub(self.len)
    }
}

/// The slot of the `i`-th position after cursor `c`, the cursor counting
/// with wrapping.
pub open spec fn slot_after(c: usize, i: int, cap: usize) -> int {
    (wrapping_add(c, i as usize) % cap) as int
}

/// `data` after bytes `src[0..n]` are written, in order, at the slots after
/// the write cursor `w`.
pub open spec fn pushed_data(data: Seq<u8>, w: usize, cap: usize, src: Seq<u8>, n: nat) -> Seq<u8>
    decreases n,
{
    if n == 0 {
        data
    } else {
        pushed_data(data, w, cap, src, (n - 1) as nat).update(slot_after(w, n as int, cap), src[n - 1])
    }
}

/// One more wrapping step from `c + i` is `c + (i + 1)`.
proof fn lemma_wrap_step(c: usize, i: int)
    requires
        0 <= i < usize::MAX,
    ensures
        wrapping_add(wrapping_add(c, i as usize), 1) == wrapping_add(c, (i + 1) as usize),
{
}

pub open spec fn byte_of(b: Option<u8>) -> u8 {
    match b {
        Some(x) => x,
        None => 0,
    }
}

pub fn zeroed_bytes(n: usize) -> (r: Vec<u8>)
    ensures
        r@ == Seq::new(n as nat, |i: int| 0u8),
{
    let mut v: Vec<u8> = Vec::new();
    let mut i: usize = 0;
    while i < n
        invariant
            i <= n,
            v@ == Seq::new(i as nat, |k: int| 0u8),
        decreases n - i,
    {
        v.push(0);
        i = i + 1;
    }
    v
}

proof fn lemma_cursor_distance(r: int, w: int, cap: int, len: int)
    requires
        cap > 0,
        r >= 0,
        w >= 0,
        len == (if w % cap >= r % cap {
            w % cap - r % cap
        } else {
            cap - r % cap + w % cap
        }),
    ensures
        len <= cap,
        w % cap == (r + len) % cap,
{
    vstd::arithmetic::div_mod::lemma_mod_bound(r, cap);
    vstd::arithmetic::div_mod::lemma_mod_bound(w, cap);
    vstd::arithmetic::div_mod::lemma_add_mod_noop(r, len, cap);
    vstd::arithmetic::div_mod::lemma_mod_bound(len, cap);
    if w % cap >= r % cap {
        vstd::arithmetic::div_mod::lemma_small_mod(len as nat, cap as nat);
        vstd::arithmetic::div_mod::lemma_small_mod((w % cap) as nat, cap as nat);
    } else {
        vstd::arithmetic::div_mod::lemma_small_mod(len as nat, cap as nat);
        vstd::arithmetic::div_mod::lemma_mod_self_0(cap);
        vstd::arithmetic::div_mod::lemma_add_mod_noop(cap, w % cap, cap);
        vstd::arithmetic::div_mod::lemma_mod_twice(w, cap);
        vstd::arithmetic::div_mod::lemma_small_mod((w % cap) as nat, cap as nat);
    }
}

/// Two positions fewer than `cap` apart land in different slots.
proof fn lemma_distinct_slots(x: int, k: int, len: int, cap: int)
    requires
        cap > 0,
        x >= 0,
        0 <= k < len,
        len < cap,
    ensures
        (x + k) % cap != (x + len) % cap,
{
    vstd::arithmetic::div_mod::lemma_mod_equivalence(x + len, x + k, cap);
    vstd::arithmetic::div_mod::lemma_small_mod((len - k) as nat, cap as nat);
}

/// Pushing onto a well-formed buffer with room, away from cursor
/// wrap-around, appends the byte to the contents.
pub proof fn lemma_push_back(b: CircBuf, v: u8)
    requires
        b.wf(),
        b.capacity > 0,
        b.len < b.capacity,
        b.write_cursor < usize::MAX,
    ensures
        ((b.write_cursor + 1) % (b.capacity as int)) < b.data@.len(),
        Seq::new(
            (b.len + 1) as nat,
            |k: int|
                b.data@.update((b.write_cursor + 1) % (b.capacity as int), v)[((b.read_cursor + 1
                    + k) % (b.capacity as int))],
        ) == b.contents().push(v),
        ((b.write_cursor + 1) as int) % (b.capacity as int) == ((b.read_cursor + b.len + 1) as int)
            % (b.capacity as int),
{
    let cap = b.capacity as int;
    let idx = (b.write_cursor + 1) % cap;
    let d = b.data@.update(idx, v);
    vstd::arithmetic::div_mod::lemma_mod_bound(b.write_cursor + 1, cap);
    vstd::arithmetic::div_mod::lemma_add_mod_noop(b.write_cursor as int, 1, cap);
    vstd::arithmetic::div_mod::lemma_add_mod_noop(b.read_cursor + b.len, 1, cap);
    let lhs = Seq::new((b.len + 1) as nat, |k: int| d[((b.read_cursor + 1 + k) % cap)]);
    assert forall|k: int| 0 <= k < b.len + 1 implies lhs[k] == b.contents().push(v)[k] by {
        vstd::arithmetic::div_mod::lemma_mod_bound(b.read_cursor + 1 + k, cap);
        if k < b.len {
            lemma_distinct_slots(b.read_cursor + 1, k, b.len as int, cap);
        }
    }
    assert(lhs =~= b.contents().push(v));
}

/// Popping from a well-formed nonempty buffer, away from cursor
/// wrap-around, returns the oldest byte and drops it from the contents.
pub proof fn lemma_pop_front(b: CircBuf)
    requires
        b.wf(),
        b.capacity > 0,
        b.len > 0,
        b.read_cursor < usize::MAX,
    ensures
        ((b.read_cursor + 1) % (b.capacity as int)) < b.data@.len(),
        b.data@[(b.read_cursor + 1) % (b.capacity as int)] == b.contents()[0],
        Seq::new(
            (b.len - 1) as nat,
            |k: int| b.data@[((b.read_cursor + 1 + 1 + k) % (b.capacity as int))],
        ) == b.contents().drop_first(),
        (b.write_cursor as int) % (b.capacity as int) == ((b.read_cursor + 1 + b.len - 1) as int) % (
        b.capacity as int),
{
    let cap = b.capacity as int;
    vstd::arithmetic::div_mod::lemma_mod_bound(b.read_cursor + 1, cap);
    let lhs = Seq::new((b.len - 1) as nat, |k: int| b.data@[((b.read_cursor + 1 + 1 + k) % cap)]);
    assert(lhs =~= b.contents().drop_first());
}

/// Bytes come out of a ring buffer in the order they went in: a push
/// appends to the contents and a pop returns the first byte of the contents.
pub proof fn law_fifo(b: CircBuf, v: u8)
    requires
        b.wf(),
        b.capacity > 0,
        b.write_cursor < usize::MAX,
        b.read_cursor < usize::MAX,
    ensures
        b.len < b.capacity ==> ((b.write_cursor + 1) % (b.capacity as int)) < b.data@.len(),
        b.len > 0 ==> b.data@[(b.read_cursor + 1) % (b.capacity as int)] == b.contents()[0],
{
    if b.len < b.capacity {
        lemma_push_back(b, v);
    }
    if b.len > 0 {
        lemma_pop_front(b);
    }
}

} // verus!

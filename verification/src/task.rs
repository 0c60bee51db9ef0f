use vstd::prelude::*;
use std::collections::BTreeMap;
use crate::trap::Context;

verus! {

/// Process identifier.
#[derive(Clone, Copy, Debug, PartialEq, Eq, PartialOrd, Ord, Structural)]
pub struct Pid(pub usize);

impl Pid {
    /// The id of the init process.
    pub const INIT: usize = 1;

    /// The null process id.
    pub fn new() -> (r: Self)
        ensures
            r.0 == 0,
    {
        Pid(0)
    }

    pub fn get(&self) -> (r: usize)
        ensures
            r == self.0,
    {
        self.0
    }

    pub fn is_init(&self) -> (r: bool)
        ensures
            r == (self.0 == 1),
    {
        self.0 == Self::INIT
    }
}

/// Task snapshot used by inspection and status interfaces.
#[derive(Clone, Debug)]
pub struct TaskInfo {
    /// Stable task id used by task-table lookups.
    pub id: usize,
    /// Human-readable task name or label.
    pub tag: String,
    /// Exit status when the task has finished.
    pub status: Option<i32>,
    /// Names of the open file descriptors.
    pub fds: Vec<String>,
}

/// Per-thread context: saved user registers, the address to clear on exit
/// and the saved signal mask.
pub struct ThdCtx {
    pub uctx: Context,
    pub clear_tid: usize,
    pub smask: u64,
}

impl Default for ThdCtx {
    fn default() -> (r: Self)
        ensures
            forall|i: int| 0 <= i < 16 ==> #[trigger] r.uctx.r@[i] == 0,
            r.uctx.ip == 0,
            r.uctx.flags == 0,
            r.clear_tid == 0,
            r.smask == 0,
    {
        ThdCtx { uctx: Context::new(), clear_tid: 0, smask: 0 }
    }
}

/// A process group: its id, leader, members, session and whether it holds
/// the terminal's foreground.
pub struct ProcessGroup {
    pub pgid: i32,
    pub leader: usize,
    pub members: Vec<usize>,
    pub session_id: usize,
    pub foreground: bool,
}

impl ProcessGroup {
    /// A background group whose only member is its leader.
    pub fn new(pgid: i32, leader: usize, session: usize) -> (r: Self)
        ensures
            r.pgid == pgid,
            r.leader == leader,
            r.members@ == seq![leader],
            r.session_id == session,
            !r.foreground,
    {
        ProcessGroup { pgid, leader, members: vec![leader], session_id: session, foreground: false }
    }

    /// Adds `pid` unless it is a member already.
    pub fn add_member(&mut self, pid: usize)
        ensures
            old(self).members@.contains(pid) ==> final(self).members@ == old(self).members@,
            !old(self).members@.contains(pid) ==> final(self).members@ == old(self).members@.push(pid),
            final(self).leader == old(self).leader,
            final(self).pgid == old(self).pgid,
            final(self).session_id == old(self).session_id,
            final(self).foreground == old(self).foreground,
    {
        let mut i: usize = 0;
        while i < self.members.len()
            invariant
                i <= self.members@.len(),
                forall|j: int| 0 <= j < i ==> self.members@[j] != pid,
            decreases self.members@.len() - i,
        {
            if self.members[i] == pid {
                return;
            }
            i = i + 1;
        }
        self.members.push(pid);
    }

    /// Removes every occurrence of `pid`; tells whether there was one.
    pub fn remove_member(&mut self, pid: usize) -> (r: bool)
        ensures
            final(self).members@ == old(self).members@.filter(|m: usize| m != pid),
            r == old(self).members@.contains(pid),
            final(self).leader == old(self).leader,
            final(self).pgid == old(self).pgid,
            final(self).session_id == old(self).session_id,
            final(self).foreground == old(self).foreground,
    {
        let mut kept: Vec<usize> = Vec::new();
        let mut found = false;
        let mut i: usize = 0;
        while i < self.members.len()
            invariant
                i <= self.members@.len(),
                self.members@ == old(self).members@,
                kept@ == self.members@.subrange(0, i as int).filter(|m: usize| m != pid),
                found == self.members@.subrange(0, i as int).contains(pid),
            decreases self.members@.len() - i,
        {
            let m = self.members[i];
            proof {
                let pre = self.members@.subrange(0, i + 1);
                assert(pre.drop_last() =~= self.members@.subrange(0, i as int));
                reveal(Seq::filter);
                if found {
                    let j = choose|j: int| 0 <= j < i && self.members@.subrange(0, i as int)[j] == pid;
                    assert(pre[j] == pid);
                }
                if m == pid {
                    assert(pre[i as int] == pid);
                }
                if pre.contains(pid) && m != pid {
                    let j = choose|j: int| 0 <= j < i + 1 && pre[j] == pid;
                    assert(self.members@.subrange(0, i as int)[j] == pid);
                }
            }
            if m != pid {
                kept.push(m);
            } else {
                found = true;
            }
            i = i + 1;
        }
        proof {
            assert(self.members@.subrange(0, i as int) =~= old(self).members@);
        }
        self.members = kept;
        found
    }

    pub fn is_empty(&self) -> (r: bool)
        ensures
            r == (self.members@.len() == 0),
    {
        self.members.len() == 0
    }

    pub fn member_count(&self) -> (r: usize)
        ensures
            r == self.members@.len(),
    {
        self.members.len()
    }

    pub fn is_leader(&self, pid: usize) -> (r: bool)
        ensures
            r == (self.leader == pid),
    {
        self.leader == pid
    }

    pub fn set_foreground(&mut self, fg: bool)
        ensures
            final(self).foreground == fg,
            final(self).members@ == old(self).members@,
            final(self).leader == old(self).leader,
            final(self).pgid == old(self).pgid,
            final(self).session_id == old(self).session_id,
    {
        self.foreground = fg;
    }

    pub fn is_foreground(&self) -> (r: bool)
        ensures
            r == self.foreground,
    {
        self.foreground
    }
}

/// The strings and auxiliary vector a new process finds on its stack.
pub struct ProcInit {
    pub args: Vec<String>,
    pub envs: Vec<String>,
    pub auxv: BTreeMap<u8, usize>,
}

/// Bytes in a machine word.
pub open spec fn word_bytes() -> int {
    usize::BITS as int / 8
}

/// UTF-8 length of `s` in bytes.
pub open spec fn byte_len(s: String) -> int {
    (vstd::utf8::encode_utf8(s@).len() as usize) as int
}

/// `x` capped at `usize::MAX`.
pub open spec fn sat_usize(x: int) -> int {
    if x > usize::MAX {
        usize::MAX as int
    } else {
        x
    }
}

/// Moves the stack pointer `sp` down by `n` bytes; `None` when `n` does not
/// fit in a word or the pointer would go below zero.
pub open spec fn reserve(sp: Option<int>, n: int) -> Option<int> {
    match sp {
        Some(x) => if n <= usize::MAX && x >= n {
            Some(x - n)
        } else {
            None
        },
        None => None,
    }
}

/// Reserves room for each string and its terminating zero byte, in order.
pub open spec fn reserve_strs(sp: Option<int>, strs: Seq<String>) -> Option<int>
    decreases strs.len(),
{
    if strs.len() == 0 {
        sp
    } else {
        reserve(reserve_strs(sp, strs.drop_last()), sat_usize(byte_len(strs.last()) + 1))
    }
}

/// Where `push_at` leaves the stack pointer below `top`: environment and
/// argument strings, the auxiliary vector with its terminator, the
/// environment and argument pointer arrays with theirs, the argument count,
/// then down to a 16-byte boundary; 0 when anything does not fit.
pub open spec fn push_at_spec(top: usize, envs: Seq<String>, args: Seq<String>, naux: int) -> usize {
    let w = word_bytes();
    let s = reserve(
        reserve(
            reserve(
                reserve(reserve_strs(reserve_strs(Some(top as int), envs), args), (naux * 2 + 2) * w),
                (envs.len() + 1) * w,
            ),
            (args.len() + 1) * w,
        ),
        w,
    );
    match s {
        Some(x) => (x - x % 16) as usize,
        None => 0,
    }
}

/// Total bytes of `strs` with a terminating zero each.
pub open spec fn strs_bytes(strs: Seq<String>) -> int
    decreases strs.len(),
{
    if strs.len() == 0 {
        0
    } else {
        strs_bytes(strs.drop_last()) + byte_len(strs.last()) + 1
    }
}

/// Bytes that the initial stack data takes.
pub open spec fn total_size_spec(args: Seq<String>, envs: Seq<String>, naux: int) -> int {
    strs_bytes(args) + strs_bytes(envs) + (naux * 2 + 2 + args.len() + 1 + envs.len() + 1 + 1)
        * word_bytes()
}

fn reserve_stack_bytes(stack_pointer: &mut usize, byte_count: usize) -> (r: bool)
    ensures
        r == (*old(stack_pointer) >= byte_count),
        r ==> *final(stack_pointer) == *old(stack_pointer) - byte_count,
        !r ==> *final(stack_pointer) == *old(stack_pointer),
{
    match stack_pointer.checked_sub(byte_count) {
        Some(next) => {
            *stack_pointer = next;
            true
        },
        None => false,
    }
}

proof fn lemma_strs_bytes_nonneg(strs: Seq<String>)
    ensures
        strs_bytes(strs) >= 0,
    decreases strs.len(),
{
    if strs.len() > 0 {
        lemma_strs_bytes_nonneg(strs.drop_last());
    }
}

impl ProcInit {
    fn reserve_strings(strs: &Vec<String>, sp: &mut usize) -> (r: bool)
        ensures
            r == reserve_strs(Some(*old(sp) as int), strs@) is Some,
            r ==> Some(*final(sp) as int) == reserve_strs(Some(*old(sp) as int), strs@),
    {
        let mut i: usize = 0;
        while i < strs.len()
            invariant
                i <= strs@.len(),
                reserve_strs(Some(*old(sp) as int), strs@.subrange(0, i as int)) == Some(*sp as int),
            decreases strs@.len() - i,
        {
            let len = strs[i].as_str().len();
            let need = if len < usize::MAX {
                len + 1
            } else {
                usize::MAX
            };
            proof {
                let pre = strs@.subrange(0, i + 1);
                assert(pre.drop_last() =~= strs@.subrange(0, i as int));
                assert(pre.last() == strs@[i as int]);
            }
            if !reserve_stack_bytes(sp, need) {
                proof {
                    lemma_reserve_strs_none(Some(*old(sp) as int), strs@, i + 1);
                    assert(strs@.subrange(0, strs@.len() as int) =~= strs@);
                }
                return false;
            }
            i = i + 1;
        }
        proof {
            assert(strs@.subrange(0, i as int) =~= strs@);
        }
        true
    }

    /// Where the stack pointer ends up when the initial data is pushed below
    /// `top`; 0 when it does not fit.
    pub fn push_at(&self, top: usize) -> (r: usize)
        ensures
            r == push_at_spec(top, self.envs@, self.args@, self.auxv.len() as int),
    {
        let word_size = (usize::BITS / 8) as usize;
        let mut sp = top;
        if !Self::reserve_strings(&self.envs, &mut sp) {
            proof {
                lemma_reserve_strs_none_from(self.args@);
            }
            return 0;
        }
        if !Self::reserve_strings(&self.args, &mut sp) {
            return 0;
        }
        let aux_pairs = self.auxv.len();
        let aux_bytes = match aux_pairs.checked_mul(2) {
            Some(v) => match v.checked_add(2) {
                Some(v2) => match v2.checked_mul(word_size) {
                    Some(v3) => v3,
                    None => return 0,
                },
                None => {
                    proof {
                        assert((aux_pairs * 2 + 2) * word_size > usize::MAX) by (nonlinear_arith)
                            requires aux_pairs * 2 + 2 > usize::MAX, word_size >= 4;
                    }
                    return 0;
                },
            },
            None => {
                proof {
                    assert((aux_pairs * 2 + 2) * word_size > usize::MAX) by (nonlinear_arith)
                        requires aux_pairs * 2 > usize::MAX, word_size >= 4;
                }
                return 0;
            },
        };
        if !reserve_stack_bytes(&mut sp, aux_bytes) {
            return 0;
        }
        let env_ptrs = match self.envs.len().checked_add(1) {
            Some(v) => match v.checked_mul(word_size) {
                Some(v2) => v2,
                None => return 0,
            },
            None => {
                proof {
                    assert((self.envs@.len() + 1) * word_size > usize::MAX) by (nonlinear_arith)
                        requires self.envs@.len() + 1 > usize::MAX, word_size >= 4;
                }
                return 0;
            },
        };
        if !reserve_stack_bytes(&mut sp, env_ptrs) {
            return 0;
        }
        let arg_ptrs = match self.args.len().checked_add(1) {
            Some(v) => match v.checked_mul(word_size) {
                Some(v2) => v2,
                None => return 0,
            },
            None => {
                proof {
                    assert((self.args@.len() + 1) * word_size > usize::MAX) by (nonlinear_arith)
                        requires self.args@.len() + 1 > usize::MAX, word_size >= 4;
                }
                return 0;
            },
        };
        if !reserve_stack_bytes(&mut sp, arg_ptrs) {
            return 0;
        }
        if !reserve_stack_bytes(&mut sp, word_size) {
            return 0;
        }
        proof {
            assert(sp & 0xf == sp % 16) by (bit_vector);
        }
        let alignment_offset = sp & 0xF;
        if alignment_offset != 0 {
            if !reserve_stack_bytes(&mut sp, alignment_offset) {
                return 0;
            }
        }
        sp
    }

    /// Bytes the initial stack data takes: each string with its zero byte,
    /// and a word for each auxiliary entry half, pointer and terminator.
    pub fn total_size(&self) -> (r: usize)
        requires
            total_size_spec(self.args@, self.envs@, self.auxv.len() as int) <= usize::MAX,
        ensures
            r == total_size_spec(self.args@, self.envs@, self.auxv.len() as int),
    {
        let word_size = (usize::BITS / 8) as usize;
        let ghost total = total_size_spec(self.args@, self.envs@, self.auxv.len() as int);
        proof {
            lemma_strs_bytes_nonneg(self.args@);
            lemma_strs_bytes_nonneg(self.envs@);
            assert((self.auxv.len() * 2 + 2 + self.args@.len() + 1 + self.envs@.len() + 1 + 1) * word_size >= 0)
                by (nonlinear_arith)
                requires word_size >= 4;
        }
        let mut size: usize = 0;
        let mut i: usize = 0;
        while i < self.args.len()
            invariant
                i <= self.args@.len(),
                size == strs_bytes(self.args@.subrange(0, i as int)),
                strs_bytes(self.args@) <= total,
                total <= usize::MAX,
            decreases self.args@.len() - i,
        {
            proof {
                let pre = self.args@.subrange(0, i + 1);
                assert(pre.drop_last() =~= self.args@.subrange(0, i as int));
                lemma_strs_bytes_prefix(self.args@, i + 1);
            }
            size = size + self.args[i].as_str().len() + 1;
            i = i + 1;
        }
        proof {
            assert(self.args@.subrange(0, i as int) =~= self.args@);
        }
        let mut j: usize = 0;
        while j < self.envs.len()
            invariant
                j <= self.envs@.len(),
                size == strs_bytes(self.args@) + strs_bytes(self.envs@.subrange(0, j as int)),
                strs_bytes(self.args@) + strs_bytes(self.envs@) <= total,
                total <= usize::MAX,
            decreases self.envs@.len() - j,
        {
            proof {
                let pre = self.envs@.subrange(0, j + 1);
                assert(pre.drop_last() =~= self.envs@.subrange(0, j as int));
                lemma_strs_bytes_prefix(self.envs@, j + 1);
            }
            size = size + self.envs[j].as_str().len() + 1;
            j = j + 1;
        }
        proof {
            assert(self.envs@.subrange(0, j as int) =~= self.envs@);
        }
        proof {
            let n = self.auxv.len() * 2 + 2 + self.args@.len() + 1 + self.envs@.len() + 1 + 1;
            assert(n <= usize::MAX) by (nonlinear_arith)
                requires n * word_size <= usize::MAX, word_size >= 4, n >= 0;
        }
        let slots = self.auxv.len() * 2 + 2 + self.args.len() + 1 + self.envs.len() + 1 + 1;
        size = size + slots * word_size;
        size
    }
}

proof fn lemma_strs_bytes_prefix(strs: Seq<String>, n: int)
    requires
        0 <= n <= strs.len(),
    ensures
        strs_bytes(strs.subrange(0, n)) <= strs_bytes(strs),
    decreases strs.len() - n,
{
    if n < strs.len() {
        lemma_strs_bytes_prefix(strs, n + 1);
        let a = strs.subrange(0, n + 1);
        assert(a.drop_last() =~= strs.subrange(0, n));
    } else {
        assert(strs.subrange(0, n) =~= strs);
    }
}

proof fn lemma_reserve_strs_exact(x: int, strs: Seq<String>)
    requires
        x >= 0,
        strs_bytes(strs) <= usize::MAX,
    ensures
        reserve_strs(Some(x), strs) == (if x >= strs_bytes(strs) {
            Some(x - strs_bytes(strs))
        } else {
            None::<int>
        }),
    decreases strs.len(),
{
    if strs.len() > 0 {
        let init = strs.drop_last();
        let n = byte_len(strs.last()) + 1;
        lemma_strs_bytes_nonneg(init);
        lemma_reserve_strs_exact(x, init);
        assert(sat_usize(n) == n);
    }
}

/// `push_at` leaves the stack pointer `total_size` bytes below `top`,
/// rounded down to a 16-byte boundary, and answers 0 exactly when the data
/// does not fit below `top`.
pub proof fn law_push_at_total_size(top: usize, args: Seq<String>, envs: Seq<String>, naux: int)
    requires
        naux >= 0,
        total_size_spec(args, envs, naux) <= usize::MAX,
    ensures
        push_at_spec(top, envs, args, naux) == (if top >= total_size_spec(args, envs, naux) {
            let x = top - total_size_spec(args, envs, naux);
            (x - x % 16) as usize
        } else {
            0usize
        }),
{
    let w = word_bytes();
    let a = strs_bytes(envs);
    let b = strs_bytes(args);
    let c = (naux * 2 + 2) * w;
    let d = (envs.len() + 1) * w;
    let e = (args.len() + 1) * w;
    let total = total_size_spec(args, envs, naux);
    lemma_strs_bytes_nonneg(envs);
    lemma_strs_bytes_nonneg(args);
    assert(w == 4 || w == 8);
    assert(c >= 0 && d >= 0 && e >= 0 && total == a + b + c + d + e + w) by (nonlinear_arith)
        requires
            w == 4 || w == 8,
            naux >= 0,
            c == (naux * 2 + 2) * w,
            d == (envs.len() + 1) * w,
            e == (args.len() + 1) * w,
            total == b + a + (naux * 2 + 2 + args.len() + 1 + envs.len() + 1 + 1) * w,
    ;
    lemma_reserve_strs_exact(top as int, envs);
    if top >= a {
        lemma_reserve_strs_exact(top - a, args);
    } else {
        lemma_reserve_strs_none_from(args);
    }
}

proof fn lemma_reserve_strs_none_from(strs: Seq<String>)
    ensures
        reserve_strs(None, strs) is None,
    decreases strs.len(),
{
    if strs.len() > 0 {
        lemma_reserve_strs_none_from(strs.drop_last());
    }
}

proof fn lemma_reserve_strs_none(sp: Option<int>, strs: Seq<String>, n: int)
    requires
        0 <= n <= strs.len(),
        reserve_strs(sp, strs.subrange(0, n)) is None,
    ensures
        reserve_strs(sp, strs) is None,
    decreases strs.len() - n,
{
    if n < strs.len() {
        let a = strs.subrange(0, n + 1);
        assert(a.drop_last() =~= strs.subrange(0, n));
        lemma_reserve_strs_none(sp, strs, n + 1);
    } else {
        assert(strs.subrange(0, n) =~= strs);
    }
}

} // verus!

use vstd::prelude::*;
use std::collections::BTreeMap;
use crate::consts::PAGE_SZ;
use vstd::utf8::encode_utf8;
use vstd::std_specs::iter::IteratorSpec;

verus! {

/// The user memory an initial stack is written into: the pages the fault
/// handler can prepare for writing, and every byte written so far, in
/// order, with its address.
pub struct StackVm {
    pub ready_pages: Vec<usize>,
    pub written: Vec<(usize, u8)>,
}

/// The page holding address `va`.
pub open spec fn page_of(va: int) -> usize {
    (va as usize) & !((PAGE_SZ - 1) as usize)
}

/// Whether byte `i` of a write at `sp` starts a new page chunk.
pub open spec fn chunk_start(sp: int, i: int) -> bool {
    i == 0 || (sp + i) % (PAGE_SZ as int) == 0
}

/// The first `k` bytes of writing `bytes` at `sp`: each page is prepared
/// when the write reaches it, and a page that cannot be prepared stops the
/// write. Gives whether it went through and the bytes written.
pub open spec fn write_walk(ready: Seq<usize>, sp: int, bytes: Seq<u8>, k: int) -> (bool, Seq<(usize, u8)>)
    decreases k,
{
    if k <= 0 {
        (true, Seq::empty())
    } else {
        let prev = write_walk(ready, sp, bytes, k - 1);
        if !prev.0 {
            prev
        } else if chunk_start(sp, k - 1) && !ready.contains(page_of(sp + k - 1)) {
            (false, prev.1)
        } else {
            (true, prev.1.push(((sp + k - 1) as usize, bytes[k - 1])))
        }
    }
}

/// A writer state: stack pointer, bytes written, and the first error.
pub type StackState = (usize, Seq<(usize, u8)>, Option<&'static str>);

/// Pushes `bytes` below the stack pointer, aligned down to `align`.
pub open spec fn push_bytes_spec(ready: Seq<usize>, st: StackState, bytes: Seq<u8>, align: int) -> StackState {
    if st.2 is Some || bytes.len() == 0 {
        st
    } else if st.0 < bytes.len() {
        (st.0, st.1, Some("init stack pointer underflow"))
    } else {
        let sp1 = st.0 - bytes.len();
        let sp2 = sp1 - sp1 % align;
        let w = write_walk(ready, sp2, bytes, bytes.len() as int);
        (sp2 as usize, st.1 + w.1, if w.0 {
            None
        } else {
            Some("failed to prepare init stack page")
        })
    }
}

/// The eight little-endian bytes of a word.
pub open spec fn word_le(w: usize) -> Seq<u8> {
    Seq::new(8, |i: int| (((w as u64) >> ((8 * i) as u64)) & 0xff) as u8)
}

/// The bytes of a run of words.
pub open spec fn words_le(ws: Seq<usize>) -> Seq<u8>
    decreases ws.len(),
{
    if ws.len() == 0 {
        Seq::empty()
    } else {
        words_le(ws.drop_last()) + word_le(ws.last())
    }
}

/// Pushes a run of words, 8-byte aligned.
pub open spec fn push_words_spec(ready: Seq<usize>, st: StackState, ws: Seq<usize>) -> StackState {
    if st.2 is Some || ws.len() == 0 {
        st
    } else if ws.len() * 8 > usize::MAX {
        (st.0, st.1, Some("init stack slice size overflow"))
    } else {
        push_bytes_spec(ready, st, words_le(ws), 8)
    }
}

/// Pushes a string: a zero byte, then its UTF-8 bytes below it.
pub open spec fn push_str_spec(ready: Seq<usize>, st: StackState, s: Seq<char>) -> StackState {
    push_bytes_spec(ready, push_bytes_spec(ready, st, seq![0u8], 1), encode_utf8(s), 1)
}

/// Pushes strings in order, recording the stack pointer after each.
pub open spec fn push_strs_spec(ready: Seq<usize>, st: StackState, strs: Seq<Seq<char>>) -> (StackState, Seq<usize>)
    decreases strs.len(),
{
    if strs.len() == 0 {
        (st, Seq::empty())
    } else {
        let prev = push_strs_spec(ready, st, strs.drop_last());
        let next = push_str_spec(ready, prev.0, strs.last());
        (next, prev.1.push(next.0))
    }
}

/// Pushes the auxiliary entries in order, each as a (type, value) pair of
/// words.
pub open spec fn push_aux_spec(ready: Seq<usize>, st: StackState, aux: Seq<(u8, usize)>) -> StackState
    decreases aux.len(),
{
    if aux.len() == 0 {
        st
    } else {
        push_words_spec(ready, push_aux_spec(ready, st, aux.drop_last()), seq![aux.last().0 as usize, aux.last().1])
    }
}

proof fn lemma_push_bytes_keeps_error(ready: Seq<usize>, st: StackState, bytes: Seq<u8>, align: int)
    requires
        st.2 is Some,
    ensures
        push_bytes_spec(ready, st, bytes, align) == st,
{
}

/// Writes `bytes` at `sp` into `vm`, page by page.
fn write_bytes(vm: &mut StackVm, sp: usize, bytes: &[u8]) -> (r: Result<(), &'static str>)
    requires
        sp + bytes@.len() <= usize::MAX,
    ensures
        final(vm).ready_pages@ == old(vm).ready_pages@,
        ({
            let w = write_walk(old(vm).ready_pages@, sp as int, bytes@, bytes@.len() as int);
            &&& final(vm).written@ == old(vm).written@ + w.1
            &&& r == if w.0 {
                Ok::<(), &'static str>(())
            } else {
                Err("failed to prepare init stack page")
            }
        }),
{
    let ghost ready = vm.ready_pages@;
    let mut written: usize = 0;
    while written < bytes.len()
        invariant
            written <= bytes@.len(),
            sp + bytes@.len() <= usize::MAX,
            vm.ready_pages@ == ready,
            ready == old(vm).ready_pages@,
            write_walk(ready, sp as int, bytes@, written as int).0,
            vm.written@ == old(vm).written@ + write_walk(ready, sp as int, bytes@, written as int).1,
        decreases bytes@.len() - written,
    {
        let va = sp + written;
        if written == 0 || va % PAGE_SZ == 0 {
            let page_start = va & !(PAGE_SZ - 1);
            if !holds_page(&vm.ready_pages, page_start) {
                proof {
                    assert(write_walk(ready, sp as int, bytes@, bytes@.len() as int) == write_walk(
                        ready,
                        sp as int,
                        bytes@,
                        written + 1,
                    )) by {
                        lemma_walk_stops(ready, sp as int, bytes@, written + 1, bytes@.len() as int);
                    }
                }
                return Err("failed to prepare init stack page");
            }
        }
        vm.written.push((va, bytes[written]));
        written = written + 1;
        proof {
            assert(vm.written@ == old(vm).written@ + write_walk(ready, sp as int, bytes@, written as int).1);
        }
    }
    Ok(())
}

/// A failed write stays failed, with the same bytes, however far it is
/// taken.
proof fn lemma_walk_stops(ready: Seq<usize>, sp: int, bytes: Seq<u8>, k: int, n: int)
    requires
        1 <= k <= n,
        !write_walk(ready, sp, bytes, k).0,
    ensures
        write_walk(ready, sp, bytes, n) == write_walk(ready, sp, bytes, k),
    decreases n - k,
{
    if k < n {
        lemma_walk_stops(ready, sp, bytes, k, n - 1);
    }
}

/// Whether `page` is in `pages`.
fn holds_page(pages: &Vec<usize>, page: usize) -> (r: bool)
    ensures
        r == pages@.contains(page),
{
    let mut i: usize = 0;
    while i < pages.len()
        invariant
            i <= pages@.len(),
            forall|j: int| 0 <= j < i ==> pages@[j] != page,
        decreases pages@.len() - i,
    {
        if pages[i] == page {
            return true;
        }
        i = i + 1;
    }
    false
}

/// The result a writer state gives.
pub open spec fn state_result(st: StackState) -> Result<(), &'static str> {
    match st.2 {
        Some(e) => Err(e),
        None => Ok(()),
    }
}

/// Pushes `bytes` below `*sp`, aligned down to `align`.
fn push_bytes(vm: &mut StackVm, sp: &mut usize, bytes: &[u8], align: usize) -> (r: Result<(), &'static str>)
    requires
        align == 1 || align == 8,
    ensures
        final(vm).ready_pages@ == old(vm).ready_pages@,
        ({
            let st = push_bytes_spec(old(vm).ready_pages@, (*old(sp), old(vm).written@, None), bytes@, align as int);
            &&& final(vm).written@ == st.1
            &&& r == state_result(st)
            &&& r is Ok ==> *final(sp) == st.0
        }),
{
    if bytes.len() == 0 {
        return Ok(());
    }
    let size = bytes.len();
    if *sp < size {
        return Err("init stack pointer underflow");
    }
    *sp = *sp - size;
    *sp = *sp - *sp % align;
    write_bytes(vm, *sp, bytes)
}

/// The little-endian bytes of `ws`.
fn words_bytes(ws: &[usize]) -> (r: Vec<u8>)
    ensures
        r@ == words_le(ws@),
{
    let mut out: Vec<u8> = Vec::new();
    let mut k: usize = 0;
    while k < ws.len()
        invariant
            k <= ws@.len(),
            out@ == words_le(ws@.subrange(0, k as int)),
        decreases ws@.len() - k,
    {
        let w = ws[k];
        let ghost base = out@;
        let mut i: u64 = 0;
        while i < 8
            invariant
                i <= 8,
                out@ == base + word_le(w).subrange(0, i as int),
            decreases 8 - i,
        {
            out.push((((w as u64) >> (8 * i)) & 0xff) as u8);
            i = i + 1;
            proof {
                assert(out@ =~= base + word_le(w).subrange(0, i as int));
            }
        }
        proof {
            assert(word_le(w).subrange(0, 8) =~= word_le(w));
            assert(ws@.subrange(0, k + 1).drop_last() =~= ws@.subrange(0, k as int));
        }
        k = k + 1;
    }
    proof {
        assert(ws@.subrange(0, k as int) =~= ws@);
    }
    out
}

/// Pushes a run of words, 8-byte aligned.
fn push_words(vm: &mut StackVm, sp: &mut usize, ws: &[usize]) -> (r: Result<(), &'static str>)
    ensures
        final(vm).ready_pages@ == old(vm).ready_pages@,
        ({
            let st = push_words_spec(old(vm).ready_pages@, (*old(sp), old(vm).written@, None), ws@);
            &&& final(vm).written@ == st.1
            &&& r == state_result(st)
            &&& r is Ok ==> *final(sp) == st.0
        }),
{
    if ws.len() == 0 {
        return Ok(());
    }
    match ws.len().checked_mul(8) {
        None => return Err("init stack slice size overflow"),
        Some(_) => {},
    }
    let bytes = words_bytes(ws);
    push_bytes(vm, sp, bytes.as_slice(), 8)
}

/// Pushes a string: a zero byte, then its bytes.
fn push_str(vm: &mut StackVm, sp: &mut usize, s: &str) -> (r: Result<(), &'static str>)
    ensures
        final(vm).ready_pages@ == old(vm).ready_pages@,
        ({
            let st = push_str_spec(old(vm).ready_pages@, (*old(sp), old(vm).written@, None), s@);
            &&& final(vm).written@ == st.1
            &&& r == state_result(st)
            &&& r is Ok ==> *final(sp) == st.0
        }),
{
    let zero: Vec<u8> = vec![0u8];
    assert(zero@ =~= seq![0u8]);
    let ghost st0 = push_bytes_spec(vm.ready_pages@, (*sp, vm.written@, None), zero@, 1);
    match push_bytes(vm, sp, zero.as_slice(), 1) {
        Err(e) => {
            proof {
                lemma_push_bytes_keeps_error(vm.ready_pages@, st0, encode_utf8(s@), 1);
            }
            return Err(e);
        },
        Ok(()) => {},
    }
    push_bytes(vm, sp, s.as_bytes(), 1)
}

/// Arguments, environment and auxiliary vector of a new process.
pub struct ProcInitInfo {
    pub args: Vec<String>,
    pub envs: Vec<String>,
    pub auxv: BTreeMap<u8, usize>,
}

/// `e` lists the entries of `m` by increasing type.
pub open spec fn aux_order(m: Map<u8, usize>, e: Seq<(u8, usize)>) -> bool {
    &&& forall|i: int| 0 <= i < e.len() ==> m.contains_key(#[trigger] e[i].0) && m[e[i].0] == e[i].1
    &&& forall|k: u8| #[trigger] m.contains_key(k) ==> exists|i: int| 0 <= i < e.len() && e[i].0 == k
    &&& forall|i: int, j: int| 0 <= i < j < e.len() ==> e[i].0 < e[j].0
}

/// The strings of `v`, as characters.
pub open spec fn strs_of(v: Seq<String>) -> Seq<Seq<char>> {
    v.map_values(|s: String| s@)
}

/// Laying out a process's initial stack below `top`, from the top: the
/// program name, the environment strings, the argument strings, a null
/// pair, the auxiliary entries, a null, the environment pointers, a null,
/// the argument pointers and the argument count; words are 8 bytes,
/// little-endian and 8-byte aligned.
pub open spec fn init_stack_spec(
    ready: Seq<usize>,
    top: usize,
    log0: Seq<(usize, u8)>,
    args: Seq<Seq<char>>,
    envs: Seq<Seq<char>>,
    aux: Seq<(u8, usize)>,
) -> StackState {
    let s1 = push_str_spec(ready, (top, log0, None), args[0]);
    let e = push_strs_spec(ready, s1, envs);
    let a = push_strs_spec(ready, e.0, args);
    let s4 = push_words_spec(ready, a.0, seq![0usize, 0usize]);
    let s5 = push_aux_spec(ready, s4, aux);
    tail_spec(ready, s5, e.1, a.1)
}

/// The pushes after the auxiliary vector: a null, the environment
/// pointers, a null, the argument pointers and the argument count.
pub open spec fn tail_spec(ready: Seq<usize>, s5: StackState, envp: Seq<usize>, argv: Seq<usize>) -> StackState {
    let s6 = push_words_spec(ready, s5, seq![0usize]);
    let s7 = push_words_spec(ready, s6, envp);
    let s8 = push_words_spec(ready, s7, seq![0usize]);
    let s9 = push_words_spec(ready, s8, argv);
    push_words_spec(ready, s9, seq![argv.len() as usize])
}

proof fn lemma_words_keep_error(ready: Seq<usize>, st: StackState, ws: Seq<usize>)
    requires
        st.2 is Some,
    ensures
        push_words_spec(ready, st, ws) == st,
{
}

proof fn lemma_aux_keeps_error(ready: Seq<usize>, st: StackState, aux: Seq<(u8, usize)>)
    requires
        st.2 is Some,
    ensures
        push_aux_spec(ready, st, aux) == st,
    decreases aux.len(),
{
    if aux.len() > 0 {
        lemma_aux_keeps_error(ready, st, aux.drop_last());
    }
}

proof fn lemma_strs_keep_error(ready: Seq<usize>, st: StackState, strs: Seq<Seq<char>>)
    requires
        st.2 is Some,
    ensures
        push_strs_spec(ready, st, strs).0 == st,
    decreases strs.len(),
{
    if strs.len() > 0 {
        lemma_strs_keep_error(ready, st, strs.drop_last());
    }
}

proof fn lemma_tail_error(ready: Seq<usize>, st: StackState, envp: Seq<usize>, argv: Seq<usize>)
    requires
        st.2 is Some,
    ensures
        tail_spec(ready, st, envp, argv) == st,
{
}

/// Once a writer state holds an error, the rest of the layout changes
/// nothing.
proof fn lemma_error_to_end(ready: Seq<usize>, st: StackState, aux: Seq<(u8, usize)>, envp: Seq<usize>, argv: Seq<usize>)
    requires
        st.2 is Some,
    ensures
        tail_spec(ready, push_aux_spec(ready, push_words_spec(ready, st, seq![0usize, 0usize]), aux), envp, argv) == st,
{
    lemma_aux_keeps_error(ready, st, aux);
}

impl ProcInitInfo {
    /// Pushes the strings of `strs` in order, returning the stack pointer
    /// after each.
    fn push_strings(vm: &mut StackVm, sp: &mut usize, strs: &Vec<String>) -> (r: Result<Vec<usize>, &'static str>)
        ensures
            final(vm).ready_pages@ == old(vm).ready_pages@,
            ({
                let out = push_strs_spec(old(vm).ready_pages@, (*old(sp), old(vm).written@, None), strs_of(strs@));
                &&& final(vm).written@ == out.0.1
                &&& match r {
                    Ok(ps) => out.0.2 is None && *final(sp) == out.0.0 && ps@ == out.1,
                    Err(e) => out.0.2 == Some(e),
                }
            }),
    {
        let ghost ready = vm.ready_pages@;
        let ghost st0: StackState = (*sp, vm.written@, None);
        let mut ptrs: Vec<usize> = Vec::new();
        let mut i: usize = 0;
        while i < strs.len()
            invariant
                i <= strs@.len(),
                vm.ready_pages@ == ready,
                ready == old(vm).ready_pages@,
                st0 == (*old(sp), old(vm).written@, None::<&'static str>),
                ({
                    let out = push_strs_spec(ready, st0, strs_of(strs@).subrange(0, i as int));
                    &&& out.0 == (*sp, vm.written@, None::<&'static str>)
                    &&& ptrs@ == out.1
                }),
            decreases strs@.len() - i,
        {
            proof {
                assert(strs_of(strs@).subrange(0, i + 1).drop_last() =~= strs_of(strs@).subrange(0, i as int));
            }
            match push_str(vm, sp, strs[i].as_str()) {
                Err(e) => {
                    proof {
                        lemma_strs_keep_error(ready, push_strs_spec(ready, st0, strs_of(strs@).subrange(0, i + 1)).0, Seq::empty());
                        let full = strs_of(strs@);
                        lemma_strs_error_stays(ready, st0, full, i + 1);
                    }
                    return Err(e);
                },
                Ok(()) => {},
            }
            ptrs.push(*sp);
            i = i + 1;
        }
        proof {
            assert(strs_of(strs@).subrange(0, i as int) =~= strs_of(strs@));
        }
        Ok(ptrs)
    }

    /// Lays the initial stack out below `stack_top` in `vm` (see
    /// `init_stack_spec`); the error of the first push that fails, or
    /// "init stack missing argv" without arguments.
    #[verifier::loop_isolation(false)]
    pub fn try_push_at_in_vm(&self, vm: &mut StackVm, stack_top: usize) -> (r: Result<usize, &'static str>)
        ensures
            final(vm).ready_pages@ == old(vm).ready_pages@,
            self.args@.len() == 0 ==> r == Err::<usize, &'static str>("init stack missing argv") && final(vm).written@
                == old(vm).written@,
            self.args@.len() > 0 ==> exists|aux: Seq<(u8, usize)>|
                {
                    let st = init_stack_spec(
                        old(vm).ready_pages@,
                        stack_top,
                        old(vm).written@,
                        strs_of(self.args@),
                        strs_of(self.envs@),
                        aux,
                    );
                    &&& #[trigger] aux_order(self.auxv@, aux)
                    &&& final(vm).written@ == st.1
                    &&& r == match st.2 {
                        Some(e) => Err::<usize, &'static str>(e),
                        None => Ok(st.0),
                    }
                },
    {
        if self.args.len() == 0 {
            return Err("init stack missing argv");
        }
        let ghost ready = vm.ready_pages@;
        let probe = self.auxv.iter();
        let ghost aux = aux_of_iter(probe.remaining());
        proof {
            lemma_iter_order(&self.auxv, probe);
        }
        let mut sp = stack_top;
        let ghost s0: StackState = (stack_top, vm.written@, None);
        let ghost s1 = push_str_spec(ready, s0, strs_of(self.args@)[0]);
        let ghost e = push_strs_spec(ready, s1, strs_of(self.envs@));
        let ghost a = push_strs_spec(ready, e.0, strs_of(self.args@));
        let ghost s4 = push_words_spec(ready, a.0, seq![0usize, 0usize]);
        let ghost s5 = push_aux_spec(ready, s4, aux);
        let ghost st = init_stack_spec(ready, stack_top, vm.written@, strs_of(self.args@), strs_of(self.envs@), aux);
        proof {
            assert(strs_of(self.args@)[0] == self.args@[0]@);
        }
        if let Err(er) = push_str(vm, &mut sp, self.args[0].as_str()) {
            proof {
                lemma_strs_keep_error(ready, s1, strs_of(self.envs@));
                lemma_strs_keep_error(ready, s1, strs_of(self.args@));
                lemma_error_to_end(ready, s1, aux, e.1, a.1);
                assert(aux_order(self.auxv@, aux));
            }
            return Err(er);
        }
        let envs = match ProcInitInfo::push_strings(vm, &mut sp, &self.envs) {
            Err(er) => {
                proof {
                    lemma_strs_keep_error(ready, e.0, strs_of(self.args@));
                    lemma_error_to_end(ready, e.0, aux, e.1, a.1);
                    assert(aux_order(self.auxv@, aux));
                }
                return Err(er);
            },
            Ok(ps) => ps,
        };
        let argv = match ProcInitInfo::push_strings(vm, &mut sp, &self.args) {
            Err(er) => {
                proof {
                    lemma_error_to_end(ready, a.0, aux, e.1, a.1);
                    assert(aux_order(self.auxv@, aux));
                }
                return Err(er);
            },
            Ok(ps) => ps,
        };
        let nulls: Vec<usize> = vec![0usize, 0usize];
        assert(nulls@ =~= seq![0usize, 0usize]);
        if let Err(er) = push_words(vm, &mut sp, nulls.as_slice()) {
            proof {
                lemma_aux_keeps_error(ready, s4, aux);
                lemma_tail_error(ready, s4, e.1, a.1);
                assert(aux_order(self.auxv@, aux));
            }
            return Err(er);
        }
        for (type_, value) in it: self.auxv.iter()
            invariant
                vm.ready_pages@ == ready,
                ready == old(vm).ready_pages@,
                aux == aux_of_iter(it.seq()),
                0 <= it.index() <= it.seq().len(),
                push_aux_spec(ready, s4, aux.subrange(0, it.index())) == (sp, vm.written@, None::<&'static str>),
        {
            let pair: Vec<usize> = vec![*type_ as usize, *value];
            proof {
                let n = it.index();
                assert(0 <= n < aux.len());
                assert((type_, value) == it.seq()[n]);
                assert(aux.subrange(0, n + 1).drop_last() =~= aux.subrange(0, n));
                assert(pair@ =~= seq![aux[n].0 as usize, aux[n].1]);
            }
            if let Err(er) = push_words(vm, &mut sp, pair.as_slice()) {
                proof {
                    assert(aux.subrange(0, it.index() + 1).drop_last() =~= aux.subrange(0, it.index()));
                    lemma_aux_error_stays(ready, s4, aux, it.index() + 1);
                    lemma_tail_error(ready, s5, e.1, a.1);
                    assert(aux_order(self.auxv@, aux));
                }
                return Err(er);
            }
        }
        proof {
            assert(aux.subrange(0, aux.len() as int) =~= aux);
        }
        let null: Vec<usize> = vec![0usize];
        assert(null@ =~= seq![0usize]);
        let ghost s6 = push_words_spec(ready, s5, seq![0usize]);
        let ghost s7 = push_words_spec(ready, s6, e.1);
        let ghost s8 = push_words_spec(ready, s7, seq![0usize]);
        let ghost s9 = push_words_spec(ready, s8, a.1);
        if let Err(er) = push_words(vm, &mut sp, null.as_slice()) {
            proof {
                lemma_words_keep_error(ready, s6, e.1);
                lemma_words_keep_error(ready, s6, seq![0usize]);
                lemma_words_keep_error(ready, s6, a.1);
                lemma_words_keep_error(ready, s6, seq![a.1.len() as usize]);
                assert(aux_order(self.auxv@, aux));
            }
            return Err(er);
        }
        if let Err(er) = push_words(vm, &mut sp, envs.as_slice()) {
            proof {
                lemma_words_keep_error(ready, s7, seq![0usize]);
                lemma_words_keep_error(ready, s7, a.1);
                lemma_words_keep_error(ready, s7, seq![a.1.len() as usize]);
                assert(aux_order(self.auxv@, aux));
            }
            return Err(er);
        }
        if let Err(er) = push_words(vm, &mut sp, null.as_slice()) {
            proof {
                lemma_words_keep_error(ready, s8, a.1);
                lemma_words_keep_error(ready, s8, seq![a.1.len() as usize]);
                assert(aux_order(self.auxv@, aux));
            }
            return Err(er);
        }
        if let Err(er) = push_words(vm, &mut sp, argv.as_slice()) {
            proof {
                lemma_words_keep_error(ready, s9, seq![a.1.len() as usize]);
                assert(aux_order(self.auxv@, aux));
            }
            return Err(er);
        }
        let argc: Vec<usize> = vec![argv.len()];
        assert(argc@ =~= seq![a.1.len() as usize]);
        if let Err(er) = push_words(vm, &mut sp, argc.as_slice()) {
            proof {
                assert(aux_order(self.auxv@, aux));
            }
            return Err(er);
        }
        proof {
            assert(aux_order(self.auxv@, aux));
        }
        Ok(sp)
    }

    /// As `try_push_at_in_vm`, with 0 for a failure.
    pub fn push_at_in_vm(&self, vm: &mut StackVm, stack_top: usize) -> (r: usize)
        ensures
            final(vm).ready_pages@ == old(vm).ready_pages@,
            self.args@.len() == 0 ==> r == 0 && final(vm).written@ == old(vm).written@,
            self.args@.len() > 0 ==> exists|aux: Seq<(u8, usize)>|
                {
                    let st = init_stack_spec(
                        old(vm).ready_pages@,
                        stack_top,
                        old(vm).written@,
                        strs_of(self.args@),
                        strs_of(self.envs@),
                        aux,
                    );
                    &&& #[trigger] aux_order(self.auxv@, aux)
                    &&& final(vm).written@ == st.1
                    &&& r == match st.2 {
                        Some(_) => 0,
                        None => st.0,
                    }
                },
    {
        match self.try_push_at_in_vm(vm, stack_top) {
            Ok(sp) => sp,
            Err(_) => 0,
        }
    }
}

/// The entries an auxiliary-vector iterator yields, by value.
pub open spec fn aux_of_iter(v: Seq<(&u8, &usize)>) -> Seq<(u8, usize)> {
    v.map_values(|kv: (&u8, &usize)| (*kv.0, *kv.1))
}

/// A failed string push stays failed through the rest of the strings.
proof fn lemma_strs_error_stays(ready: Seq<usize>, st: StackState, strs: Seq<Seq<char>>, j: int)
    requires
        0 <= j <= strs.len(),
        push_strs_spec(ready, st, strs.subrange(0, j)).0.2 is Some,
    ensures
        push_strs_spec(ready, st, strs).0 == push_strs_spec(ready, st, strs.subrange(0, j)).0,
    decreases strs.len() - j,
{
    if j < strs.len() {
        assert(strs.subrange(0, j + 1).drop_last() =~= strs.subrange(0, j));
        lemma_strs_error_stays(ready, st, strs, j + 1);
    } else {
        assert(strs.subrange(0, j) =~= strs);
    }
}

/// A failed auxiliary push stays failed through the rest of the entries.
proof fn lemma_aux_error_stays(ready: Seq<usize>, st: StackState, aux: Seq<(u8, usize)>, j: int)
    requires
        0 <= j <= aux.len(),
        push_aux_spec(ready, st, aux.subrange(0, j)).2 is Some,
    ensures
        push_aux_spec(ready, st, aux) == push_aux_spec(ready, st, aux.subrange(0, j)),
    decreases aux.len() - j,
{
    if j < aux.len() {
        assert(aux.subrange(0, j + 1).drop_last() =~= aux.subrange(0, j));
        lemma_aux_error_stays(ready, st, aux, j + 1);
    } else {
        assert(aux.subrange(0, j) =~= aux);
    }
}

/// What `BTreeMap::iter` promises for `u8` keys: the iterator yields the
/// map's entries by increasing key.
proof fn lemma_iter_order(m: &BTreeMap<u8, usize>, it: std::collections::btree_map::Iter<'_, u8, usize>)
    requires
        vstd::std_specs::btree::key_obeys_cmp_spec::<u8>() ==> {
            &&& it == vstd::std_specs::btree::spec_btree_map_iter(m)
            &&& vstd::std_specs::btree::increasing_seq(it.remaining().map_values(|kv: (&u8, &usize)| *kv.0))
        },
    ensures
        vstd::std_specs::btree::key_obeys_cmp_spec::<u8>(),
        it == vstd::std_specs::btree::spec_btree_map_iter(m),
        aux_order(m@, aux_of_iter(it.remaining())),
{
    broadcast use vstd::laws_cmp::group_laws_cmp;
    broadcast use vstd::std_specs::btree::group_btree_axioms;

    broadcast use vstd::std_specs::btree::axiom_key_obeys_cmp_spec_meaning;

    assert(vstd::laws_cmp::obeys_cmp::<u8>());
    assert(vstd::std_specs::btree::key_obeys_cmp_spec::<u8>());
    let v = it.remaining();
    let keys = v.map_values(|kv: (&u8, &usize)| *kv.0);
    let aux = aux_of_iter(v);
    vstd::std_specs::btree::axiom_increasing_seq_meaning(keys);
    vstd::std_specs::btree::axiom_spec_btree_map_iter(m);
    assert forall|i: int, j: int| 0 <= i < j < aux.len() implies aux[i].0 < aux[j].0 by {
        assert(keys[i] == aux[i].0);
        assert(keys[j] == aux[j].0);
        assert(vstd::std_specs::cmp::OrdSpec::cmp_spec(&keys[i], &keys[j]) is Less);
    }
    assert forall|i: int| 0 <= i < aux.len() implies m@.contains_key(#[trigger] aux[i].0) && m@[aux[i].0] == aux[i].1 by {
        assert(m@.contains_key(*v[i].0));
    }
    assert forall|k: u8| #[trigger] m@.contains_key(k) implies exists|i: int| 0 <= i < aux.len() && aux[i].0 == k by {
        assert(v.contains((&k, &m@[k])));
        let i = choose|i: int| 0 <= i < v.len() && v[i] == (&k, &m@[k]);
        assert(aux[i].0 == k);
    }
}

} // verus!

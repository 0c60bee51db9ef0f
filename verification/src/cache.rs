use vstd::prelude::*;
use std::collections::VecDeque;
use crate::sync::{law_enter_leave_restores, KernLock, Spin};

verus! {

/// One cached page: its id, contents, whether it needs writeback, when it
/// was last used, and how many holders keep it from eviction.
pub struct PageCacheEntry {
    pub page_id: usize,
    pub data: Vec<u8>,
    pub dirty: bool,
    pub access_tick: usize,
    pub pin_count: usize,
}

/// What a cached page holds: contents, dirty flag, access tick, pin count.
pub type PageInfo = (Seq<u8>, bool, usize, usize);

pub open spec fn info(e: PageCacheEntry) -> PageInfo {
    (e.data@, e.dirty, e.access_tick, e.pin_count)
}

/// The page ids of `es`, in order.
pub open spec fn entry_ids(es: Seq<PageCacheEntry>) -> Seq<usize> {
    es.map_values(|e: PageCacheEntry| e.page_id)
}

/// Position of page `id` in `es` (meaningful when it is there).
pub open spec fn slot_of(es: Seq<PageCacheEntry>, id: usize) -> int {
    choose|i: int| 0 <= i < es.len() && es[i].page_id == id
}

/// The cached pages by id.
pub open spec fn page_map(es: Seq<PageCacheEntry>) -> Map<usize, PageInfo> {
    Map::new(|id: usize| entry_ids(es).contains(id), |id: usize| info(es[slot_of(es, id)]))
}

/// `s` without `x`.
pub open spec fn without(s: Seq<usize>, x: usize) -> Seq<usize> {
    s.filter(|y: usize| y != x)
}

/// Small LRU page cache: the cached pages, their capacity, hit, miss and
/// eviction counters, and the page ids from least to most recently used.
pub struct PageCache {
    pub entries: Vec<PageCacheEntry>,
    pub capacity: usize,
    pub hits: usize,
    pub misses: usize,
    pub evictions: usize,
    pub lru_order: VecDeque<usize>,
}

/// Distinct page ids, every cached page in the LRU order exactly once, and
/// no more pages than the capacity.
pub open spec fn cache_wf(es: Seq<PageCacheEntry>, lru: Seq<usize>, capacity: usize) -> bool {
    &&& entry_ids(es).no_duplicates()
    &&& lru.no_duplicates()
    &&& forall|id: usize| lru.contains(id) <==> entry_ids(es).contains(id)
    &&& es.len() <= capacity
}

proof fn lemma_slot(es: Seq<PageCacheEntry>, i: int)
    requires
        entry_ids(es).no_duplicates(),
        0 <= i < es.len(),
    ensures
        slot_of(es, es[i].page_id) == i,
        entry_ids(es).contains(es[i].page_id),
        page_map(es).dom().contains(es[i].page_id),
        page_map(es)[es[i].page_id] == info(es[i]),
{
    assert(entry_ids(es)[i] == es[i].page_id);
    let j = slot_of(es, es[i].page_id);
    assert(entry_ids(es)[j] == es[j].page_id);
}

proof fn lemma_not_cached(es: Seq<PageCacheEntry>, id: usize)
    requires
        forall|k: int| 0 <= k < es.len() ==> es[k].page_id != id,
    ensures
        !entry_ids(es).contains(id),
        !page_map(es).dom().contains(id),
{
    if entry_ids(es).contains(id) {
        let k = choose|k: int| 0 <= k < entry_ids(es).len() && entry_ids(es)[k] == id;
        assert(es[k].page_id == id);
    }
}

proof fn lemma_update_entry(es: Seq<PageCacheEntry>, i: int, e: PageCacheEntry)
    requires
        entry_ids(es).no_duplicates(),
        0 <= i < es.len(),
        e.page_id == es[i].page_id,
    ensures
        entry_ids(es.update(i, e)) == entry_ids(es),
        page_map(es.update(i, e)) == page_map(es).insert(e.page_id, info(e)),
{
    let n = es.update(i, e);
    assert(entry_ids(n) =~= entry_ids(es));
    lemma_slot(es, i);
    assert forall|id: usize| #[trigger] page_map(n).dom().contains(id) implies page_map(n)[id] == page_map(
        es,
    ).insert(e.page_id, info(e))[id] by {
        let j = choose|j: int| 0 <= j < entry_ids(n).len() && entry_ids(n)[j] == id;
        assert(n[j].page_id == id);
        lemma_slot(n, j);
        if j != i {
            lemma_slot(es, j);
            assert(entry_ids(es)[j] != entry_ids(es)[i]);
        }
    }
    assert(page_map(n) =~= page_map(es).insert(e.page_id, info(e)));
}

proof fn lemma_remove_entry(es: Seq<PageCacheEntry>, i: int)
    requires
        entry_ids(es).no_duplicates(),
        0 <= i < es.len(),
    ensures
        entry_ids(es.remove(i)) == entry_ids(es).remove(i),
        entry_ids(es.remove(i)).no_duplicates(),
        page_map(es.remove(i)) == page_map(es).remove(es[i].page_id),
{
    let n = es.remove(i);
    let id0 = es[i].page_id;
    assert(entry_ids(n) =~= entry_ids(es).remove(i));
    assert forall|a: int, b: int| 0 <= a < b < entry_ids(n).len() implies entry_ids(n)[a] != entry_ids(n)[b] by {
        let a2 = if a < i { a } else { a + 1 };
        let b2 = if b < i { b } else { b + 1 };
        assert(entry_ids(es)[a2] != entry_ids(es)[b2]);
    }
    assert forall|id: usize| page_map(n).dom().contains(id) <==> page_map(es).remove(id0).dom().contains(id) by {
        if entry_ids(n).contains(id) {
            let j = choose|j: int| 0 <= j < entry_ids(n).len() && entry_ids(n)[j] == id;
            let j2 = if j < i { j } else { j + 1 };
            assert(entry_ids(es)[j2] == id);
            assert(entry_ids(es)[i] == id0);
        }
        if entry_ids(es).contains(id) && id != id0 {
            let j = choose|j: int| 0 <= j < entry_ids(es).len() && entry_ids(es)[j] == id;
            assert(j != i);
            let j2 = if j < i { j } else { j - 1 };
            assert(entry_ids(n)[j2] == id);
        }
    }
    assert forall|id: usize| #[trigger] page_map(n).dom().contains(id) implies page_map(n)[id] == page_map(es)[id] by {
        let j = choose|j: int| 0 <= j < entry_ids(n).len() && entry_ids(n)[j] == id;
        assert(n[j].page_id == id);
        lemma_slot(n, j);
        let j2 = if j < i { j } else { j + 1 };
        assert(es[j2] == n[j]);
        lemma_slot(es, j2);
    }
    assert(page_map(n) =~= page_map(es).remove(id0));
}

proof fn lemma_push_entry(es: Seq<PageCacheEntry>, e: PageCacheEntry)
    requires
        entry_ids(es).no_duplicates(),
        !entry_ids(es).contains(e.page_id),
    ensures
        entry_ids(es.push(e)) == entry_ids(es).push(e.page_id),
        entry_ids(es.push(e)).no_duplicates(),
        page_map(es.push(e)) == page_map(es).insert(e.page_id, info(e)),
{
    let n = es.push(e);
    assert(entry_ids(n) =~= entry_ids(es).push(e.page_id));
    assert forall|a: int, b: int| 0 <= a < b < entry_ids(n).len() implies entry_ids(n)[a] != entry_ids(n)[b] by {
        if b == es.len() {
            assert(entry_ids(es)[a] == entry_ids(n)[a]);
        }
    }
    assert forall|id: usize| entry_ids(n).contains(id) <==> entry_ids(es).contains(id) || id == e.page_id by {
        if entry_ids(n).contains(id) {
            let j = choose|j: int| 0 <= j < entry_ids(n).len() && entry_ids(n)[j] == id;
            if j < es.len() {
                assert(entry_ids(es)[j] == id);
            }
        }
        if entry_ids(es).contains(id) {
            let j = choose|j: int| 0 <= j < entry_ids(es).len() && entry_ids(es)[j] == id;
            assert(entry_ids(n)[j] == id);
        }
        if id == e.page_id {
            assert(entry_ids(n)[es.len() as int] == id);
        }
    }
    assert forall|id: usize| #[trigger] page_map(n).dom().contains(id) implies page_map(n)[id] == page_map(
        es,
    ).insert(e.page_id, info(e))[id] by {
        let j = choose|j: int| 0 <= j < entry_ids(n).len() && entry_ids(n)[j] == id;
        assert(n[j].page_id == id);
        lemma_slot(n, j);
        if j < es.len() {
            lemma_slot(es, j);
            assert(id != e.page_id);
        }
    }
    assert(page_map(n) =~= page_map(es).insert(e.page_id, info(e)));
}

/// Removes every occurrence of `id` from `q`.
fn remove_id(q: &mut VecDeque<usize>, id: usize)
    ensures
        final(q)@ == without(old(q)@, id),
{
    let mut kept: VecDeque<usize> = VecDeque::new();
    let mut i: usize = 0;
    while i < q.len()
        invariant
            i <= q@.len(),
            q@ == old(q)@,
            kept@ == without(q@.subrange(0, i as int), id),
        decreases q@.len() - i,
    {
        let x = q[i];
        proof {
            let pre = q@.subrange(0, i + 1);
            assert(pre.drop_last() =~= q@.subrange(0, i as int));
            reveal(Seq::filter);
        }
        if x != id {
            kept.push_back(x);
        }
        i = i + 1;
    }
    proof {
        assert(q@.subrange(0, i as int) =~= old(q)@);
    }
    *q = kept;
}

/// What removing `x` from a sequence keeps.
pub proof fn lemma_without(s: Seq<usize>, x: usize)
    ensures
        forall|y: usize| without(s, x).contains(y) <==> s.contains(y) && y != x,
        s.no_duplicates() ==> without(s, x).no_duplicates(),
        !s.contains(x) ==> without(s, x) == s,
    decreases s.len(),
{
    reveal(Seq::filter);
    if s.len() > 0 {
        lemma_without(s.drop_last(), x);
        assert forall|y: usize| without(s, x).contains(y) <==> s.contains(y) && y != x by {
            if s.contains(y) && y != x {
                let k = choose|k: int| 0 <= k < s.len() && s[k] == y;
                if k < s.len() - 1 {
                    assert(s.drop_last()[k] == y);
                }
            }
            if s.drop_last().contains(y) {
                let k = choose|k: int| 0 <= k < s.drop_last().len() && s.drop_last()[k] == y;
                assert(s[k] == y);
            }
        }
        if s.no_duplicates() {
            assert(s.drop_last().no_duplicates());
            if s.last() != x {
                assert(!s.drop_last().contains(s.last()));
            }
        }
        if !s.contains(x) {
            assert(!s.drop_last().contains(x)) by {
                if s.drop_last().contains(x) {
                    let k = choose|k: int| 0 <= k < s.drop_last().len() && s.drop_last()[k] == x;
                    assert(s[k] == x);
                }
            }
            assert(s.drop_last().push(s.last()) =~= s);
        }
    } else {
        assert(without(s, x) =~= s);
    }
}

proof fn lemma_move_to_back(s: Seq<usize>, x: usize)
    requires
        s.no_duplicates(),
    ensures
        without(s, x).push(x).no_duplicates(),
        forall|y: usize| without(s, x).push(x).contains(y) <==> s.contains(y) || y == x,
        !s.contains(x) ==> without(s, x).push(x) == s.push(x),
{
    lemma_without(s, x);
    let w = without(s, x);
    assert forall|y: usize| w.push(x).contains(y) <==> w.contains(y) || y == x by {
        if w.push(x).contains(y) {
            let k = choose|k: int| 0 <= k < w.push(x).len() && w.push(x)[k] == y;
            if k < w.len() {
                assert(w[k] == y);
            }
        }
        if w.contains(y) {
            let k = choose|k: int| 0 <= k < w.len() && w[k] == y;
            assert(w.push(x)[k] == y);
        }
        if y == x {
            assert(w.push(x)[w.len() as int] == x);
        }
    }
    assert forall|a: int, b: int| 0 <= a < b < w.push(x).len() implies w.push(x)[a] != w.push(x)[b] by {
        if b == w.len() {
            assert(w[a] == w.push(x)[a]);
        }
    }
}

proof fn lemma_remove_contains(es: Seq<PageCacheEntry>, i: int)
    requires
        entry_ids(es).no_duplicates(),
        0 <= i < es.len(),
    ensures
        forall|y: usize| entry_ids(es.remove(i)).contains(y) <==> entry_ids(es).contains(y) && y != es[i].page_id,
{
    lemma_remove_entry(es, i);
    let a = entry_ids(es);
    let b = entry_ids(es.remove(i));
    assert forall|y: usize| b.contains(y) <==> a.contains(y) && y != es[i].page_id by {
        assert(a[i] == es[i].page_id);
        if b.contains(y) {
            let k = choose|k: int| 0 <= k < b.len() && b[k] == y;
            let k2 = if k < i { k } else { k + 1 };
            assert(a[k2] == y);
        }
        if a.contains(y) && y != es[i].page_id {
            let k = choose|k: int| 0 <= k < a.len() && a[k] == y;
            let k2 = if k < i { k } else { k - 1 };
            assert(b[k2] == y);
        }
    }
}

proof fn lemma_victim(lru: Seq<usize>, pages: Map<usize, PageInfo>, k: int)
    ensures
        lru_victim_from(lru, pages, k) matches Some(v) ==> pages.dom().contains(v) && pages[v].3 == 0
            && lru.contains(v),
    decreases lru.len() - k,
{
    if 0 <= k < lru.len() && !(pages.dom().contains(lru[k]) && pages[lru[k]].3 == 0) {
        lemma_victim(lru, pages, k + 1);
    }
}

proof fn lemma_wf_remove(es: Seq<PageCacheEntry>, lru: Seq<usize>, cap: usize, i: int)
    requires
        cache_wf(es, lru, cap),
        0 <= i < es.len(),
    ensures
        cache_wf(es.remove(i), without(lru, es[i].page_id), cap),
{
    lemma_remove_entry(es, i);
    lemma_remove_contains(es, i);
    lemma_without(lru, es[i].page_id);
    let x = es[i].page_id;
    assert forall|y: usize| without(lru, x).contains(y) <==> entry_ids(es.remove(i)).contains(y) by {
        assert(lru.contains(y) <==> entry_ids(es).contains(y));
    }
}

proof fn lemma_wf_touch(es: Seq<PageCacheEntry>, lru: Seq<usize>, cap: usize, es2: Seq<PageCacheEntry>, id: usize)
    requires
        cache_wf(es, lru, cap),
        entry_ids(es2) == entry_ids(es),
        es2.len() == es.len(),
        entry_ids(es).contains(id),
    ensures
        cache_wf(es2, without(lru, id).push(id), cap),
{
    lemma_move_to_back(lru, id);
    assert forall|y: usize| without(lru, id).push(id).contains(y) <==> entry_ids(es2).contains(y) by {
        assert(lru.contains(y) <==> entry_ids(es).contains(y));
    }
}

proof fn lemma_wf_push(es: Seq<PageCacheEntry>, lru: Seq<usize>, cap: usize, e: PageCacheEntry)
    requires
        cache_wf(es, lru, cap),
        !entry_ids(es).contains(e.page_id),
        es.len() < cap,
    ensures
        cache_wf(es.push(e), without(lru, e.page_id).push(e.page_id), cap),
{
    lemma_push_entry(es, e);
    lemma_move_to_back(lru, e.page_id);
    assert forall|y: usize| entry_ids(es.push(e)).contains(y) <==> entry_ids(es).contains(y) || y == e.page_id by {
        let n = entry_ids(es.push(e));
        if n.contains(y) {
            let k = choose|k: int| 0 <= k < n.len() && n[k] == y;
            if k < es.len() {
                assert(entry_ids(es)[k] == y);
            }
        }
        if entry_ids(es).contains(y) {
            let k = choose|k: int| 0 <= k < entry_ids(es).len() && entry_ids(es)[k] == y;
            assert(n[k] == y);
        }
        if y == e.page_id {
            assert(n[es.len() as int] == y);
        }
    }
    assert forall|y: usize| without(lru, e.page_id).push(e.page_id).contains(y) <==> entry_ids(es.push(e)).contains(y) by {
        assert(lru.contains(y) <==> entry_ids(es).contains(y));
    }
}

impl PageCache {
    /// The cached pages by id.
    pub open spec fn pages(&self) -> Map<usize, PageInfo> {
        page_map(self.entries@)
    }

    pub open spec fn wf(&self) -> bool {
        cache_wf(self.entries@, self.lru_order@, self.capacity)
    }

    /// An empty cache holding at most `capacity` pages.
    pub fn new(capacity: usize) -> (r: Self)
        ensures
            r.wf(),
            r.pages() == Map::<usize, PageInfo>::empty(),
            r.lru_order@.len() == 0,
            r.capacity == capacity,
            r.hits == 0,
            r.misses == 0,
            r.evictions == 0,
    {
        let r = PageCache {
            entries: Vec::new(),
            capacity,
            hits: 0,
            misses: 0,
            evictions: 0,
            lru_order: VecDeque::new(),
        };
        proof {
            assert(r.pages() =~= Map::<usize, PageInfo>::empty());
        }
        r
    }

    fn find(&self, page_id: usize) -> (r: Option<usize>)
        requires
            self.wf(),
        ensures
            match r {
                Some(i) => i < self.entries@.len() && self.entries@[i as int].page_id == page_id,
                None => !self.pages().dom().contains(page_id),
            },
            r is Some <==> self.pages().dom().contains(page_id),
    {
        let mut i: usize = 0;
        while i < self.entries.len()
            invariant
                self.wf(),
                i <= self.entries@.len(),
                forall|k: int| 0 <= k < i ==> self.entries@[k].page_id != page_id,
            decreases self.entries@.len() - i,
        {
            if self.entries[i].page_id == page_id {
                proof {
                    lemma_slot(self.entries@, i as int);
                }
                return Some(i);
            }
            i = i + 1;
        }
        proof {
            lemma_not_cached(self.entries@, page_id);
        }
        None
    }

    /// Looks up a page. A hit counts, moves the page to the most recently
    /// used end and stamps it with tick `now`; a miss counts too.
    pub fn lookup(&mut self, page_id: usize, now: usize) -> (r: Option<&[u8]>)
        requires
            old(self).wf(),
        ensures
            final(self).wf(),
            final(self).capacity == old(self).capacity,
            final(self).evictions == old(self).evictions,
            old(self).pages().dom().contains(page_id) ==> {
                &&& r is Some
                &&& r.unwrap()@ == old(self).pages()[page_id].0
                &&& final(self).pages() == old(self).pages().insert(
                    page_id,
                    (old(self).pages()[page_id].0, old(self).pages()[page_id].1, now, old(self).pages()[page_id].3),
                )
                &&& final(self).lru_order@ == without(old(self).lru_order@, page_id).push(page_id)
                &&& final(self).hits == vstd::wrapping::usize_specs::wrapping_add(old(self).hits, 1)
                &&& final(self).misses == old(self).misses
            },
            !old(self).pages().dom().contains(page_id) ==> {
                &&& r is None
                &&& final(self).pages() == old(self).pages()
                &&& final(self).lru_order@ == old(self).lru_order@
                &&& final(self).hits == old(self).hits
                &&& final(self).misses == vstd::wrapping::usize_specs::wrapping_add(old(self).misses, 1)
            },
    {
        match self.find(page_id) {
            None => {
                self.misses = self.misses.wrapping_add(1);
                None
            },
            Some(i) => {
                self.hits = self.hits.wrapping_add(1);
                remove_id(&mut self.lru_order, page_id);
                self.lru_order.push_back(page_id);
                let ghost es0 = self.entries@;
                proof {
                    lemma_slot(es0, i as int);
                    lemma_without(old(self).lru_order@, page_id);
                    lemma_move_to_back(old(self).lru_order@, page_id);
                }
                let mut e = self.entries.remove(i);
                e.access_tick = now;
                self.entries.insert(i, e);
                proof {
                    assert(self.entries@ =~= es0.update(i as int, self.entries@[i as int]));
                    lemma_update_entry(es0, i as int, self.entries@[i as int]);
                    assert(!without(old(self).lru_order@, page_id).contains(page_id));
                    assert(entry_ids(es0)[i as int] == page_id);
                    lemma_wf_touch(es0, old(self).lru_order@, self.capacity, self.entries@, page_id);
                }
                Some(self.entries[i].data.as_slice())
            },
        }
    }

    /// Caches `data` as page `page_id`, stamped with tick `now`, clean and
    /// unpinned; a page already cached is replaced. A cache of capacity 0
    /// stores nothing; when a new page finds the cache full, the least
    /// recently used unpinned page is evicted first, and when every page is
    /// pinned nothing is stored.
    pub fn insert(&mut self, page_id: usize, data: Vec<u8>, now: usize)
        requires
            old(self).wf(),
        ensures
            final(self).wf(),
            final(self).capacity == old(self).capacity,
            final(self).hits == old(self).hits,
            final(self).misses == old(self).misses,
            page_insert_post(*old(self), *final(self), page_id, data@, now),
    {
        if self.capacity == 0 {
            return;
        }
        let found = self.find(page_id);
        if found.is_none() && self.entries.len() >= self.capacity {
            if !self.evict_lru() {
                return;
            }
        }
        let ghost mid = *self;
        proof {
            if found.is_none() && old(self).entries@.len() >= old(self).capacity {
                lemma_victim(old(self).lru_order@, old(self).pages(), 0);
            }
            lemma_move_to_back(mid.lru_order@, page_id);
        }
        let e = PageCacheEntry { page_id, data, dirty: false, access_tick: now, pin_count: 0 };
        match self.find(page_id) {
            Some(i) => {
                let ghost es0 = self.entries@;
                self.entries.set(i, e);
                proof {
                    lemma_update_entry(es0, i as int, e);
                    assert(entry_ids(es0)[i as int] == page_id);
                    lemma_wf_touch(es0, mid.lru_order@, self.capacity, self.entries@, page_id);
                }
            },
            None => {
                proof {
                    lemma_push_entry(self.entries@, e);
                    lemma_wf_push(self.entries@, mid.lru_order@, self.capacity, e);
                }
                self.entries.push(e);
            },
        }
        remove_id(&mut self.lru_order, page_id);
        self.lru_order.push_back(page_id);
        proof {
            lemma_without(mid.lru_order@, page_id);
            assert(!without(mid.lru_order@, page_id).contains(page_id));
            if found.is_none() && old(self).entries@.len() >= old(self).capacity {
                let v = lru_victim(old(self).lru_order@, old(self).pages()).unwrap();
                lemma_without(old(self).lru_order@, v);
                assert(page_id != v);
                assert(!without(old(self).lru_order@, v).contains(page_id));
                assert(without(without(old(self).lru_order@, v), page_id) == without(old(self).lru_order@, v));
            }
        }
    }

    /// Evicts the least recently used unpinned page; false when every page
    /// is pinned.
    pub fn evict_lru(&mut self) -> (r: bool)
        requires
            old(self).wf(),
        ensures
            final(self).wf(),
            final(self).capacity == old(self).capacity,
            final(self).hits == old(self).hits,
            final(self).misses == old(self).misses,
            r == lru_victim(old(self).lru_order@, old(self).pages()) is Some,
            match lru_victim(old(self).lru_order@, old(self).pages()) {
                None => *final(self) == *old(self),
                Some(v) => {
                    &&& final(self).pages() == old(self).pages().remove(v)
                    &&& final(self).lru_order@ == without(old(self).lru_order@, v)
                    &&& final(self).entries@.len() == old(self).entries@.len() - 1
                    &&& final(self).evictions == vstd::wrapping::usize_specs::wrapping_add(
                        old(self).evictions,
                        1,
                    )
                },
            },
    {
        let mut k: usize = 0;
        while k < self.lru_order.len()
            invariant
                self.wf(),
                *self == *old(self),
                k <= self.lru_order@.len(),
                lru_victim_from(self.lru_order@, self.pages(), k as int) == lru_victim(self.lru_order@, self.pages()),
            decreases self.lru_order@.len() - k,
        {
            let id = self.lru_order[k];
            match self.find(id) {
                Some(i) => {
                    proof {
                        lemma_slot(self.entries@, i as int);
                    }
                    if self.entries[i].pin_count == 0 {
                        proof {
                            lemma_remove_entry(self.entries@, i as int);
                            lemma_wf_remove(self.entries@, self.lru_order@, self.capacity, i as int);
                            lemma_without(self.lru_order@, id);
                        }
                        self.entries.remove(i);
                        remove_id(&mut self.lru_order, id);
                        self.evictions = self.evictions.wrapping_add(1);
                        return true;
                    }
                },
                None => {},
            }
            k = k + 1;
        }
        false
    }

    /// Marks a cached page as needing writeback.
    pub fn mark_dirty(&mut self, page_id: usize)
        requires
            old(self).wf(),
        ensures
            final(self).wf(),
            final(self).pages() == (if old(self).pages().dom().contains(page_id) {
                old(self).pages().insert(
                    page_id,
                    (old(self).pages()[page_id].0, true, old(self).pages()[page_id].2, old(self).pages()[page_id].3),
                )
            } else {
                old(self).pages()
            }),
            final(self).lru_order@ == old(self).lru_order@,
            final(self).capacity == old(self).capacity,
            final(self).hits == old(self).hits,
            final(self).misses == old(self).misses,
            final(self).evictions == old(self).evictions,
    {
        match self.find(page_id) {
            Some(i) => {
                let ghost es0 = self.entries@;
                proof {
                    lemma_slot(es0, i as int);
                }
                let mut e = self.entries.remove(i);
                e.dirty = true;
                self.entries.insert(i, e);
                proof {
                    assert(self.entries@ =~= es0.update(i as int, self.entries@[i as int]));
                    lemma_update_entry(es0, i as int, self.entries@[i as int]);
                }
            },
            None => {},
        }
    }

    /// Writes back every dirty page (clears its flag) and returns how many
    /// there were.
    pub fn writeback_all(&mut self) -> (r: usize)
        requires
            old(self).wf(),
        ensures
            final(self).wf(),
            r == dirty_in(old(self).pages(), every_page()).len(),
            final(self).pages() == clean_where(old(self).pages(), every_page()),
            final(self).lru_order@ == old(self).lru_order@,
            final(self).capacity == old(self).capacity,
            final(self).hits == old(self).hits,
            final(self).misses == old(self).misses,
            final(self).evictions == old(self).evictions,
    {
        self.flush_where(0, usize::MAX, true)
    }

    /// Hit, miss and eviction counts.
    pub fn stats(&self) -> (r: (usize, usize, usize))
        ensures
            r == (self.hits, self.misses, self.evictions),
    {
        (self.hits, self.misses, self.evictions)
    }

    /// Pins a cached page once more; false when it is not cached.
    pub fn pin(&mut self, page_id: usize) -> (r: bool)
        requires
            old(self).wf(),
            old(self).pages().dom().contains(page_id) ==> old(self).pages()[page_id].3 < usize::MAX,
        ensures
            final(self).wf(),
            r == old(self).pages().dom().contains(page_id),
            final(self).pages() == (if r {
                old(self).pages().insert(
                    page_id,
                    (
                        old(self).pages()[page_id].0,
                        old(self).pages()[page_id].1,
                        old(self).pages()[page_id].2,
                        (old(self).pages()[page_id].3 + 1) as usize,
                    ),
                )
            } else {
                old(self).pages()
            }),
            final(self).lru_order@ == old(self).lru_order@,
            final(self).capacity == old(self).capacity,
            final(self).hits == old(self).hits,
            final(self).misses == old(self).misses,
            final(self).evictions == old(self).evictions,
    {
        match self.find(page_id) {
            Some(i) => {
                let ghost es0 = self.entries@;
                proof {
                    lemma_slot(es0, i as int);
                }
                let mut e = self.entries.remove(i);
                e.pin_count = e.pin_count + 1;
                self.entries.insert(i, e);
                proof {
                    assert(self.entries@ =~= es0.update(i as int, self.entries@[i as int]));
                    lemma_update_entry(es0, i as int, self.entries@[i as int]);
                }
                true
            },
            None => false,
        }
    }

    /// Releases one pin of a cached page (none left stays none); false when
    /// it is not cached.
    pub fn unpin(&mut self, page_id: usize) -> (r: bool)
        requires
            old(self).wf(),
        ensures
            final(self).wf(),
            r == old(self).pages().dom().contains(page_id),
            final(self).pages() == (if r {
                old(self).pages().insert(
                    page_id,
                    (
                        old(self).pages()[page_id].0,
                        old(self).pages()[page_id].1,
                        old(self).pages()[page_id].2,
                        if old(self).pages()[page_id].3 > 0 {
                            (old(self).pages()[page_id].3 - 1) as usize
                        } else {
                            0
                        },
                    ),
                )
            } else {
                old(self).pages()
            }),
            final(self).lru_order@ == old(self).lru_order@,
            final(self).capacity == old(self).capacity,
            final(self).hits == old(self).hits,
            final(self).misses == old(self).misses,
            final(self).evictions == old(self).evictions,
    {
        match self.find(page_id) {
            Some(i) => {
                let ghost es0 = self.entries@;
                proof {
                    lemma_slot(es0, i as int);
                }
                let mut e = self.entries.remove(i);
                if e.pin_count > 0 {
                    e.pin_count = e.pin_count - 1;
                }
                self.entries.insert(i, e);
                proof {
                    assert(self.entries@ =~= es0.update(i as int, self.entries@[i as int]));
                    lemma_update_entry(es0, i as int, self.entries@[i as int]);
                }
                true
            },
            None => false,
        }
    }

    /// Drops a cached page, pinned or not; false when it is not cached.
    pub fn invalidate(&mut self, page_id: usize) -> (r: bool)
        requires
            old(self).wf(),
        ensures
            final(self).wf(),
            r == old(self).pages().dom().contains(page_id),
            final(self).pages() == old(self).pages().remove(page_id),
            final(self).lru_order@ == (if r {
                without(old(self).lru_order@, page_id)
            } else {
                old(self).lru_order@
            }),
            final(self).capacity == old(self).capacity,
            final(self).hits == old(self).hits,
            final(self).misses == old(self).misses,
            final(self).evictions == old(self).evictions,
    {
        match self.find(page_id) {
            Some(i) => {
                proof {
                    lemma_slot(self.entries@, i as int);
                    lemma_remove_entry(self.entries@, i as int);
                    lemma_wf_remove(self.entries@, self.lru_order@, self.capacity, i as int);
                    lemma_without(self.lru_order@, page_id);
                }
                self.entries.remove(i);
                remove_id(&mut self.lru_order, page_id);
                true
            },
            None => {
                proof {
                    assert(old(self).pages().remove(page_id) =~= old(self).pages());
                }
                false
            },
        }
    }

    /// Writes back the dirty pages with ids in `start..end` and returns how
    /// many there were.
    pub fn flush_range(&mut self, start: usize, end: usize) -> (r: usize)
        requires
            old(self).wf(),
        ensures
            final(self).wf(),
            r == dirty_in(old(self).pages(), pages_in(start, end)).len(),
            final(self).pages() == clean_where(old(self).pages(), pages_in(start, end)),
            final(self).lru_order@ == old(self).lru_order@,
            final(self).capacity == old(self).capacity,
            final(self).hits == old(self).hits,
            final(self).misses == old(self).misses,
            final(self).evictions == old(self).evictions,
    {
        self.flush_where(start, end, false)
    }

    /// Cleans the dirty pages whose id is in `start..end`, or every dirty
    /// page when `all` holds.
    fn flush_where(&mut self, start: usize, end: usize, all: bool) -> (r: usize)
        requires
            old(self).wf(),
        ensures
            final(self).wf(),
            r == dirty_in(old(self).pages(), if all { every_page() } else { pages_in(start, end) }).len(),
            final(self).pages() == clean_where(old(self).pages(), if all { every_page() } else { pages_in(start, end) }),
            final(self).lru_order@ == old(self).lru_order@,
            final(self).capacity == old(self).capacity,
            final(self).hits == old(self).hits,
            final(self).misses == old(self).misses,
            final(self).evictions == old(self).evictions,
    {
        let ghost sel = if all {
            every_page()
        } else {
            pages_in(start, end)
        };
        let ghost es0 = self.entries@;
        let mut count: usize = 0;
        let mut i: usize = 0;
        while i < self.entries.len()
            invariant
                i <= self.entries@.len(),
                self.entries@.len() == es0.len(),
                entry_ids(self.entries@) == entry_ids(es0),
                cache_wf(es0, self.lru_order@, self.capacity),
                self.lru_order@ == old(self).lru_order@,
                self.capacity == old(self).capacity,
                self.hits == old(self).hits,
                self.misses == old(self).misses,
                self.evictions == old(self).evictions,
                es0 == old(self).entries@,
                sel == (if all {
                    every_page()
                } else {
                    pages_in(start, end)
                }),
                forall|k: int| 0 <= k < i ==> #[trigger] self.entries@[k] == clean_if(es0[k], sel(es0[k].page_id)),
                forall|k: int| i <= k < es0.len() ==> #[trigger] self.entries@[k] == es0[k],
                count == dirty_count_upto(es0, sel, i as int),
                count <= i,
            decreases es0.len() - i,
        {
            let e = self.entries.remove(i);
            let pick = all || (start <= e.page_id && e.page_id < end);
            if pick && e.dirty {
                let mut e2 = e;
                e2.dirty = false;
                self.entries.insert(i, e2);
                count = count + 1;
            } else {
                self.entries.insert(i, e);
            }
            proof {
                assert(entry_ids(self.entries@) =~= entry_ids(es0));
            }
            i = i + 1;
        }
        proof {
            lemma_clean_map(es0, self.entries@, sel);
            lemma_dirty_count(es0, sel);
        }
        count
    }
}

/// The first page in `lru` order that is cached and unpinned.
pub open spec fn lru_victim(lru: Seq<usize>, pages: Map<usize, PageInfo>) -> Option<usize> {
    lru_victim_from(lru, pages, 0)
}

pub open spec fn lru_victim_from(lru: Seq<usize>, pages: Map<usize, PageInfo>, k: int) -> Option<usize>
    decreases lru.len() - k,
{
    if k < 0 || k >= lru.len() {
        None
    } else if pages.dom().contains(lru[k]) && pages[lru[k]].3 == 0 {
        Some(lru[k])
    } else {
        lru_victim_from(lru, pages, k + 1)
    }
}

/// Picks every page.
pub open spec fn every_page() -> spec_fn(usize) -> bool {
    |id: usize| true
}

/// Picks the pages with ids in `start..end`.
pub open spec fn pages_in(start: usize, end: usize) -> spec_fn(usize) -> bool {
    |id: usize| start <= id < end
}

/// The ids of the dirty pages that `sel` picks.
pub open spec fn dirty_in(pages: Map<usize, PageInfo>, sel: spec_fn(usize) -> bool) -> Set<usize> {
    pages.dom().filter(|id: usize| sel(id) && pages[id].1)
}

/// `pages` with the pages that `sel` picks marked clean.
pub open spec fn clean_where(pages: Map<usize, PageInfo>, sel: spec_fn(usize) -> bool) -> Map<usize, PageInfo> {
    Map::new(
        |id: usize| pages.dom().contains(id),
        |id: usize| if sel(id) {
            (pages[id].0, false, pages[id].2, pages[id].3)
        } else {
            pages[id]
        },
    )
}

pub open spec fn clean_if(e: PageCacheEntry, c: bool) -> PageCacheEntry {
    if c {
        PageCacheEntry { dirty: false, ..e }
    } else {
        e
    }
}

pub open spec fn dirty_count_upto(es: Seq<PageCacheEntry>, sel: spec_fn(usize) -> bool, n: int) -> int
    decreases n,
{
    if n <= 0 {
        0
    } else {
        dirty_count_upto(es, sel, n - 1) + if sel(es[n - 1].page_id) && es[n - 1].dirty {
            1int
        } else {
            0
        }
    }
}

proof fn lemma_clean_map(es0: Seq<PageCacheEntry>, es: Seq<PageCacheEntry>, sel: spec_fn(usize) -> bool)
    requires
        entry_ids(es0).no_duplicates(),
        es.len() == es0.len(),
        forall|k: int| 0 <= k < es0.len() ==> #[trigger] es[k] == clean_if(es0[k], sel(es0[k].page_id)),
    ensures
        page_map(es) == clean_where(page_map(es0), sel),
        entry_ids(es) == entry_ids(es0),
{
    assert forall|k: int| 0 <= k < es.len() implies #[trigger] entry_ids(es)[k] == entry_ids(es0)[k] by {
        assert(es[k] == clean_if(es0[k], sel(es0[k].page_id)));
    }
    assert(entry_ids(es) =~= entry_ids(es0));
    assert forall|id: usize| #[trigger] page_map(es).dom().contains(id) implies page_map(es)[id] == clean_where(
        page_map(es0),
        sel,
    )[id] by {
        let j = choose|j: int| 0 <= j < entry_ids(es).len() && entry_ids(es)[j] == id;
        assert(es[j].page_id == id);
        assert(es[j] == clean_if(es0[j], sel(es0[j].page_id)));
        lemma_slot(es, j);
        lemma_slot(es0, j);
    }
    assert(page_map(es) =~= clean_where(page_map(es0), sel));
}

proof fn lemma_dirty_count(es: Seq<PageCacheEntry>, sel: spec_fn(usize) -> bool)
    requires
        entry_ids(es).no_duplicates(),
    ensures
        dirty_count_upto(es, sel, es.len() as int) == dirty_in(page_map(es), sel).len(),
        dirty_in(page_map(es), sel).finite(),
    decreases es.len(),
{
    let n = es.len() as int;
    if n == 0 {
        assert(dirty_in(page_map(es), sel) =~= Set::<usize>::empty());
    } else {
        let p = es.drop_last();
        assert(entry_ids(p) =~= entry_ids(es).drop_last());
        assert(entry_ids(p).no_duplicates());
        lemma_dirty_count(p, sel);
        assert forall|k: int| 0 <= k < n - 1 implies #[trigger] es[k] == p[k] by {}
        assert(dirty_count_upto(es, sel, n - 1) == dirty_count_upto(p, sel, n - 1)) by {
            lemma_dirty_count_prefix(es, p, sel, n - 1);
        }
        let last = es.last();
        lemma_slot(es, n - 1);
        let a = dirty_in(page_map(p), sel);
        let b = dirty_in(page_map(es), sel);
        assert(!entry_ids(p).contains(last.page_id)) by {
            if entry_ids(p).contains(last.page_id) {
                let j = choose|j: int| 0 <= j < entry_ids(p).len() && entry_ids(p)[j] == last.page_id;
                assert(entry_ids(es)[j] == entry_ids(es)[n - 1]);
            }
        }
        assert(es =~= p.push(last));
        lemma_push_entry(p, last);
        if sel(last.page_id) && last.dirty {
            assert(b =~= a.insert(last.page_id));
        } else {
            assert(b =~= a);
        }
    }
}

proof fn lemma_dirty_count_prefix(es: Seq<PageCacheEntry>, p: Seq<PageCacheEntry>, sel: spec_fn(usize) -> bool, n: int)
    requires
        0 <= n <= p.len(),
        n <= es.len(),
        forall|k: int| 0 <= k < n ==> #[trigger] es[k] == p[k],
    ensures
        dirty_count_upto(es, sel, n) == dirty_count_upto(p, sel, n),
    decreases n,
{
    if n > 0 {
        lemma_dirty_count_prefix(es, p, sel, n - 1);
    }
}

/// What `PageCache::insert(page_id, data, now)` does to cache `o`, giving
/// `f`: nothing at capacity 0; a cached page, or one that fits, is stored
/// clean, unpinned and stamped `now`, and becomes the most recently used;
/// a full cache first evicts its least recently used unpinned page (counting
/// the eviction), and changes nothing when every page is pinned.
pub open spec fn page_insert_post(o: PageCache, f: PageCache, page_id: usize, data: Seq<u8>, now: usize) -> bool {
    let new_info = (data, false, now, 0usize);
    let cached = o.pages().dom().contains(page_id);
    if o.capacity == 0 {
        f == o
    } else if cached || o.entries@.len() < o.capacity {
        &&& f.pages() == o.pages().insert(page_id, new_info)
        &&& f.lru_order@ == without(o.lru_order@, page_id).push(page_id)
        &&& f.evictions == o.evictions
    } else {
        match lru_victim(o.lru_order@, o.pages()) {
            None => f == o,
            Some(v) => {
                &&& f.pages() == o.pages().remove(v).insert(page_id, new_info)
                &&& f.lru_order@ == without(o.lru_order@, v).push(page_id)
                &&& f.evictions == vstd::wrapping::usize_specs::wrapping_add(o.evictions, 1)
            },
        }
    }
}

/// A cached page that is not pinned.
pub open spec fn unpinned_in(pages: Map<usize, PageInfo>, id: usize) -> bool {
    pages.dom().contains(id) && pages[id].3 == 0
}

proof fn lemma_victim_first(lru: Seq<usize>, pages: Map<usize, PageInfo>, k: int)
    requires
        0 <= k <= lru.len(),
    ensures
        lru_victim_from(lru, pages, k) matches Some(v) ==> exists|i: int|
            k <= i < lru.len() && lru[i] == v && unpinned_in(pages, v) && forall|j: int|
                k <= j < i ==> !unpinned_in(pages, #[trigger] lru[j]),
        lru_victim_from(lru, pages, k) is None ==> forall|j: int| k <= j < lru.len() ==> !unpinned_in(pages, #[trigger] lru[j]),
    decreases lru.len() - k,
{
    if k < lru.len() {
        lemma_victim_first(lru, pages, k + 1);
        if !unpinned_in(pages, lru[k]) {
            if let Some(v) = lru_victim_from(lru, pages, k + 1) {
                let i = choose|i: int|
                    k + 1 <= i < lru.len() && lru[i] == v && unpinned_in(pages, v) && forall|j: int|
                        k + 1 <= j < i ==> !unpinned_in(pages, #[trigger] lru[j]);
                assert(forall|j: int| k <= j < i ==> !unpinned_in(pages, #[trigger] lru[j]));
            }
        } else {
            assert(forall|j: int| k <= j < k ==> !unpinned_in(pages, #[trigger] lru[j]));
        }
    }
}

/// Inserting into a well-formed cache keeps it within its capacity (a
/// zero-capacity cache stores nothing). When the page was cached, fits,
/// or some page is unpinned, the page is stored clean, unpinned and stamped
/// `now`, and is last in the LRU order; if a page had to go, it is exactly
/// the first unpinned page in LRU order, and the eviction is counted.
/// Otherwise nothing changes.
pub proof fn law_page_cache_insert(o: PageCache, f: PageCache, page_id: usize, data: Seq<u8>, now: usize)
    requires
        o.wf(),
        f.wf(),
        page_insert_post(o, f, page_id, data, now),
    ensures
        f.entries@.len() <= f.capacity,
        o.capacity == 0 ==> f == o && f.entries@.len() == 0,
        ({
            let room = o.pages().dom().contains(page_id) || o.entries@.len() < o.capacity;
            let some_unpinned = exists|j: int| 0 <= j < o.lru_order@.len() && unpinned_in(o.pages(), o.lru_order@[j]);
            if o.capacity > 0 && (room || some_unpinned) {
                &&& f.pages().dom().contains(page_id)
                &&& f.pages()[page_id] == (data, false, now, 0usize)
                &&& f.lru_order@.last() == page_id
                &&& room ==> f.evictions == o.evictions && f.pages().remove(page_id) == o.pages().remove(page_id)
                &&& !room ==> exists|i: int|
                    0 <= i < o.lru_order@.len() && unpinned_in(o.pages(), o.lru_order@[i]) && (forall|j: int|
                        0 <= j < i ==> !unpinned_in(o.pages(), #[trigger] o.lru_order@[j])) && f.pages() == o.pages().remove(
                        o.lru_order@[i],
                    ).insert(page_id, (data, false, now, 0usize)) && f.evictions == vstd::wrapping::usize_specs::wrapping_add(
                        o.evictions,
                        1,
                    )
            } else {
                f == o
            }
        }),
{
    lemma_victim_first(o.lru_order@, o.pages(), 0);
    let room = o.pages().dom().contains(page_id) || o.entries@.len() < o.capacity;
    if o.capacity > 0 && room {
        assert(f.pages().remove(page_id) =~= o.pages().remove(page_id));
    }
}

/// The cache never holds more pages than its capacity, and its LRU order
/// lists each cached page exactly once.
pub proof fn law_cache_bounded(c: PageCache)
    requires
        c.wf(),
    ensures
        c.entries@.len() <= c.capacity,
        forall|id: usize| c.lru_order@.contains(id) <==> c.pages().dom().contains(id),
{
}

} // verus!

verus! {

/// One registered kernel object: id, type tag, owner, creation tick,
/// reference count and the object it depends on.
#[derive(Clone, Copy, PartialEq, Eq, Structural)]
pub struct KObjEntry {
    pub obj_id: usize,
    pub type_tag: u32,
    pub owner_pid: usize,
    pub created_tick: usize,
    pub ref_count: usize,
    pub parent_id: Option<usize>,
}

/// Registry of kernel objects in ascending id order, the next id to hand
/// out, and an index from type tag to object ids.
pub struct KObjRegistry {
    pub objects: Vec<KObjEntry>,
    pub seq: usize,
    pub type_index: Vec<(u32, Vec<usize>)>,
}

/// The ids listed under `tag` in `ti` (the last list with that tag), or none.
pub open spec fn tag_list(ti: Seq<(u32, Vec<usize>)>, tag: u32) -> Seq<usize>
    decreases ti.len(),
{
    if ti.len() == 0 {
        Seq::empty()
    } else if ti.last().0 == tag {
        ti.last().1@
    } else {
        tag_list(ti.drop_last(), tag)
    }
}

/// Ids of the objects of `objs` that `keep` selects, in order.
pub open spec fn ids_where(objs: Seq<KObjEntry>, keep: spec_fn(KObjEntry) -> bool) -> Seq<usize>
    decreases objs.len(),
{
    if objs.len() == 0 {
        Seq::empty()
    } else if keep(objs.last()) {
        ids_where(objs.drop_last(), keep).push(objs.last().obj_id)
    } else {
        ids_where(objs.drop_last(), keep)
    }
}

pub open spec fn of_type(tag: u32) -> spec_fn(KObjEntry) -> bool {
    |e: KObjEntry| e.type_tag == tag
}

pub open spec fn owned_by(pid: usize) -> spec_fn(KObjEntry) -> bool {
    |e: KObjEntry| e.owner_pid == pid
}

/// `(parent, child)` for every object with a parent, in id order.
pub open spec fn dependency_edges(objs: Seq<KObjEntry>) -> Seq<(usize, usize)>
    decreases objs.len(),
{
    if objs.len() == 0 {
        Seq::empty()
    } else {
        let rest = dependency_edges(objs.drop_last());
        match objs.last().parent_id {
            Some(p) => rest.push((p, objs.last().obj_id)),
            None => rest,
        }
    }
}

/// Object ids strictly ascending and below the next id; the index lists
/// exactly the objects of each tag in id order; tags appear once.
pub open spec fn registry_wf(objs: Seq<KObjEntry>, seq: usize, ti: Seq<(u32, Vec<usize>)>) -> bool {
    &&& forall|i: int, j: int| 0 <= i < j < objs.len() ==> objs[i].obj_id < objs[j].obj_id
    &&& forall|i: int| 0 <= i < objs.len() ==> #[trigger] objs[i].obj_id < seq
    &&& forall|t: u32| #[trigger] tag_list(ti, t) == ids_where(objs, of_type(t))
    &&& forall|i: int, j: int| 0 <= i < j < ti.len() ==> ti[i].0 != ti[j].0
}

proof fn lemma_ids_where_push(objs: Seq<KObjEntry>, e: KObjEntry, keep: spec_fn(KObjEntry) -> bool)
    ensures
        ids_where(objs.push(e), keep) == if keep(e) {
            ids_where(objs, keep).push(e.obj_id)
        } else {
            ids_where(objs, keep)
        },
{
    assert(objs.push(e).drop_last() =~= objs);
}

proof fn lemma_ids_where_remove(objs: Seq<KObjEntry>, i: int, keep: spec_fn(KObjEntry) -> bool)
    requires
        0 <= i < objs.len(),
        forall|a: int, b: int| 0 <= a < b < objs.len() ==> objs[a].obj_id < objs[b].obj_id,
    ensures
        ids_where(objs.remove(i), keep) == ids_where(objs, keep).filter(|x: usize| x != objs[i].obj_id),
    decreases objs.len(),
{
    reveal(Seq::filter);
    let id = objs[i].obj_id;
    let last = objs.last();
    let dd = ids_where(objs.drop_last(), keep);
    assert(dd.push(last.obj_id).drop_last() =~= dd);
    if i == objs.len() - 1 {
        assert(objs.remove(i) =~= objs.drop_last());
        lemma_ids_where_below(objs.drop_last(), id, keep);
        lemma_filter_absent(ids_where(objs.drop_last(), keep), id);
    } else {
        let d = objs.drop_last();
        lemma_ids_where_remove(d, i, keep);
        assert(objs.remove(i) =~= d.remove(i).push(last));
        lemma_ids_where_push(d.remove(i), last, keep);
        assert(last.obj_id != id);
        let f = ids_where(d.remove(i), keep);
        assert(f.push(last.obj_id).drop_last() =~= f);
    }
}

proof fn lemma_ids_where_below(objs: Seq<KObjEntry>, bound: usize, keep: spec_fn(KObjEntry) -> bool)
    requires
        forall|a: int| 0 <= a < objs.len() ==> #[trigger] objs[a].obj_id < bound,
    ensures
        !ids_where(objs, keep).contains(bound),
    decreases objs.len(),
{
    if objs.len() > 0 {
        lemma_ids_where_below(objs.drop_last(), bound, keep);
        let r = ids_where(objs.drop_last(), keep);
        if keep(objs.last()) {
            assert forall|k: int| 0 <= k < r.push(objs.last().obj_id).len() implies r.push(objs.last().obj_id)[k] != bound by {
                if k < r.len() {
                    assert(r[k] == r.push(objs.last().obj_id)[k]);
                }
            }
        }
    }
}

proof fn lemma_filter_absent(s: Seq<usize>, x: usize)
    requires
        !s.contains(x),
    ensures
        s.filter(|y: usize| y != x) == s,
    decreases s.len(),
{
    reveal(Seq::filter);
    if s.len() > 0 {
        assert(!s.drop_last().contains(x)) by {
            if s.drop_last().contains(x) {
                let k = choose|k: int| 0 <= k < s.drop_last().len() && s.drop_last()[k] == x;
                assert(s[k] == x);
            }
        }
        lemma_filter_absent(s.drop_last(), x);
        assert(s.drop_last().push(s.last()) =~= s);
    } else {
        assert(s.filter(|y: usize| y != x) =~= s);
    }
}

proof fn lemma_tag_list_update(ti: Seq<(u32, Vec<usize>)>, i: int, l: Vec<usize>, t: u32)
    requires
        0 <= i < ti.len(),
        forall|a: int, b: int| 0 <= a < b < ti.len() ==> ti[a].0 != ti[b].0,
    ensures
        tag_list(ti.update(i, (ti[i].0, l)), t) == if t == ti[i].0 {
            l@
        } else {
            tag_list(ti, t)
        },
    decreases ti.len(),
{
    let n = ti.update(i, (ti[i].0, l));
    if i == ti.len() - 1 {
        assert(n.drop_last() =~= ti.drop_last());
        if t == ti[i].0 {
        } else {
        }
    } else {
        lemma_tag_list_update(ti.drop_last(), i, l, t);
        assert(n.drop_last() =~= ti.drop_last().update(i, (ti[i].0, l)));
        if t == ti[i].0 {
            assert(ti.last().0 != t);
        }
    }
}

proof fn lemma_tag_list_absent(ti: Seq<(u32, Vec<usize>)>, t: u32)
    requires
        forall|a: int| 0 <= a < ti.len() ==> #[trigger] ti[a].0 != t,
    ensures
        tag_list(ti, t).len() == 0,
    decreases ti.len(),
{
    if ti.len() > 0 {
        lemma_tag_list_absent(ti.drop_last(), t);
    }
}

proof fn lemma_tag_list_present(ti: Seq<(u32, Vec<usize>)>, i: int)
    requires
        0 <= i < ti.len(),
        forall|a: int, b: int| 0 <= a < b < ti.len() ==> ti[a].0 != ti[b].0,
    ensures
        tag_list(ti, ti[i].0) == ti[i].1@,
    decreases ti.len(),
{
    if i < ti.len() - 1 {
        lemma_tag_list_present(ti.drop_last(), i);
    }
}

impl KObjRegistry {
    pub open spec fn wf(&self) -> bool {
        registry_wf(self.objects@, self.seq, self.type_index@)
    }

    /// An empty registry whose first id is 1.
    pub fn new() -> (r: Self)
        ensures
            r.wf(),
            r.objects@.len() == 0,
            r.seq == 1,
    {
        let r = KObjRegistry { objects: Vec::new(), seq: 1, type_index: Vec::new() };
        proof {
            assert forall|t: u32| #[trigger] tag_list(r.type_index@, t) == ids_where(r.objects@, of_type(t)) by {
                assert(tag_list(r.type_index@, t) =~= Seq::<usize>::empty());
            }
        }
        r
    }

    fn tag_slot(&self, tag: u32) -> (r: Option<usize>)
        ensures
            match r {
                Some(i) => i < self.type_index@.len() && self.type_index@[i as int].0 == tag,
                None => forall|a: int| 0 <= a < self.type_index@.len() ==> #[trigger] self.type_index@[a].0 != tag,
            },
    {
        let mut i: usize = 0;
        while i < self.type_index.len()
            invariant
                i <= self.type_index@.len(),
                forall|a: int| 0 <= a < i ==> #[trigger] self.type_index@[a].0 != tag,
            decreases self.type_index@.len() - i,
        {
            if self.type_index[i].0 == tag {
                return Some(i);
            }
            i = i + 1;
        }
        None
    }

    fn index_add(&mut self, tag: u32, id: usize)
        requires
            forall|a: int, b: int| 0 <= a < b < old(self).type_index@.len() ==> old(self).type_index@[a].0 != old(self).type_index@[b].0,
        ensures
            forall|a: int, b: int| 0 <= a < b < final(self).type_index@.len() ==> final(self).type_index@[a].0 != final(self).type_index@[b].0,
            forall|t: u32| #[trigger] tag_list(final(self).type_index@, t) == if t == tag {
                tag_list(old(self).type_index@, t).push(id)
            } else {
                tag_list(old(self).type_index@, t)
            },
            final(self).objects@ == old(self).objects@,
            final(self).seq == old(self).seq,
    {
        match self.tag_slot(tag) {
            Some(i) => {
                let ghost ti = self.type_index@;
                let (t, mut l) = self.type_index.remove(i);
                l.push(id);
                self.type_index.insert(i, (t, l));
                proof {
                    assert(self.type_index@ =~= ti.update(i as int, (tag, l)));
                    lemma_tag_list_present(ti, i as int);
                    assert forall|t2: u32| #[trigger] tag_list(self.type_index@, t2) == if t2 == tag {
                        tag_list(ti, t2).push(id)
                    } else {
                        tag_list(ti, t2)
                    } by {
                        lemma_tag_list_update(ti, i as int, l, t2);
                    }
                }
            },
            None => {
                let ghost ti = self.type_index@;
                let mut l: Vec<usize> = Vec::new();
                l.push(id);
                self.type_index.push((tag, l));
                proof {
                    lemma_tag_list_absent(ti, tag);
                    assert(self.type_index@.drop_last() =~= ti);
                    assert(l@ =~= tag_list(ti, tag).push(id));
                }
            },
        }
    }

    fn index_remove(&mut self, tag: u32, id: usize)
        requires
            forall|a: int, b: int| 0 <= a < b < old(self).type_index@.len() ==> old(self).type_index@[a].0 != old(self).type_index@[b].0,
        ensures
            forall|a: int, b: int| 0 <= a < b < final(self).type_index@.len() ==> final(self).type_index@[a].0 != final(self).type_index@[b].0,
            forall|t: u32| #[trigger] tag_list(final(self).type_index@, t) == if t == tag {
                tag_list(old(self).type_index@, t).filter(|x: usize| x != id)
            } else {
                tag_list(old(self).type_index@, t)
            },
            final(self).objects@ == old(self).objects@,
            final(self).seq == old(self).seq,
    {
        match self.tag_slot(tag) {
            Some(i) => {
                let ghost ti = self.type_index@;
                let (t, l) = self.type_index.remove(i);
                let mut kept: Vec<usize> = Vec::new();
                let mut k: usize = 0;
                while k < l.len()
                    invariant
                        k <= l@.len(),
                        kept@ == l@.subrange(0, k as int).filter(|x: usize| x != id),
                    decreases l@.len() - k,
                {
                    proof {
                        let pre = l@.subrange(0, k + 1);
                        assert(pre.drop_last() =~= l@.subrange(0, k as int));
                        reveal(Seq::filter);
                    }
                    if l[k] != id {
                        kept.push(l[k]);
                    }
                    k = k + 1;
                }
                proof {
                    assert(l@.subrange(0, k as int) =~= l@);
                }
                self.type_index.insert(i, (t, kept));
                proof {
                    assert(self.type_index@ =~= ti.update(i as int, (tag, kept)));
                    lemma_tag_list_present(ti, i as int);
                    assert forall|t2: u32| #[trigger] tag_list(self.type_index@, t2) == if t2 == tag {
                        tag_list(ti, t2).filter(|x: usize| x != id)
                    } else {
                        tag_list(ti, t2)
                    } by {
                        lemma_tag_list_update(ti, i as int, kept, t2);
                    }
                }
            },
            None => {
                proof {
                    lemma_tag_list_absent(self.type_index@, tag);
                    reveal(Seq::filter);
                    assert(tag_list(self.type_index@, tag).filter(|x: usize| x != id) =~= tag_list(self.type_index@, tag));
                }
            },
        }
    }

    /// Registers an object of type `type_tag` owned by `owner_pid` at tick
    /// `now` (one reference, no parent, or `parent_id`) and returns its id,
    /// the next in sequence.
    fn register_with(&mut self, type_tag: u32, owner_pid: usize, now: usize, parent_id: Option<usize>) -> (r: usize)
        requires
            old(self).wf(),
            old(self).seq < usize::MAX,
        ensures
            final(self).wf(),
            r == old(self).seq,
            final(self).seq == old(self).seq + 1,
            final(self).objects@ == old(self).objects@.push(
                KObjEntry { obj_id: r, type_tag, owner_pid, created_tick: now, ref_count: 1, parent_id },
            ),
    {
        let object_id = self.seq;
        self.seq = self.seq + 1;
        let e = KObjEntry { obj_id: object_id, type_tag, owner_pid, created_tick: now, ref_count: 1, parent_id };
        let ghost objs0 = self.objects@;
        self.objects.push(e);
        self.index_add(type_tag, object_id);
        proof {
            assert forall|t: u32| #[trigger] tag_list(self.type_index@, t) == ids_where(self.objects@, of_type(t)) by {
                lemma_ids_where_push(objs0, e, of_type(t));
            }
        }
        object_id
    }

    /// Registers a top-level object and returns its id.
    pub fn register(&mut self, type_tag: u32, owner_pid: usize, now: usize) -> (r: usize)
        requires
            old(self).wf(),
            old(self).seq < usize::MAX,
        ensures
            final(self).wf(),
            r == old(self).seq,
            final(self).seq == old(self).seq + 1,
            final(self).objects@ == old(self).objects@.push(
                KObjEntry { obj_id: r, type_tag, owner_pid, created_tick: now, ref_count: 1, parent_id: None },
            ),
    {
        self.register_with(type_tag, owner_pid, now, None)
    }

    /// Registers an object that depends on `parent_id` and returns its id.
    pub fn register_child(&mut self, type_tag: u32, owner_pid: usize, parent_id: usize, now: usize) -> (r: usize)
        requires
            old(self).wf(),
            old(self).seq < usize::MAX,
        ensures
            final(self).wf(),
            r == old(self).seq,
            final(self).seq == old(self).seq + 1,
            final(self).objects@ == old(self).objects@.push(
                KObjEntry {
                    obj_id: r,
                    type_tag,
                    owner_pid,
                    created_tick: now,
                    ref_count: 1,
                    parent_id: Some(parent_id),
                },
            ),
    {
        self.register_with(type_tag, owner_pid, now, Some(parent_id))
    }

    fn slot(&self, object_id: usize) -> (r: Option<usize>)
        ensures
            match r {
                Some(i) => i < self.objects@.len() && self.objects@[i as int].obj_id == object_id,
                None => forall|a: int| 0 <= a < self.objects@.len() ==> #[trigger] self.objects@[a].obj_id != object_id,
            },
    {
        let mut i: usize = 0;
        while i < self.objects.len()
            invariant
                i <= self.objects@.len(),
                forall|a: int| 0 <= a < i ==> #[trigger] self.objects@[a].obj_id != object_id,
            decreases self.objects@.len() - i,
        {
            if self.objects[i].obj_id == object_id {
                return Some(i);
            }
            i = i + 1;
        }
        None
    }

    fn remove_at(&mut self, i: usize)
        requires
            old(self).wf(),
            i < old(self).objects@.len(),
        ensures
            final(self).wf(),
            final(self).objects@ == old(self).objects@.remove(i as int),
            final(self).seq == old(self).seq,
    {
        let ghost objs0 = self.objects@;
        let e = self.objects.remove(i);
        self.index_remove(e.type_tag, e.obj_id);
        proof {
            assert forall|t: u32| #[trigger] tag_list(self.type_index@, t) == ids_where(self.objects@, of_type(t)) by {
                lemma_ids_where_remove(objs0, i as int, of_type(t));
                if t != e.type_tag {
                    lemma_ids_where_not_kept(objs0, i as int, of_type(t));
                }
            }
            assert forall|a: int, b: int| 0 <= a < b < self.objects@.len() implies self.objects@[a].obj_id < self.objects@[b].obj_id by {
                let a2 = if a < i { a } else { a + 1 };
                let b2 = if b < i { b } else { b + 1 };
                assert(objs0[a2].obj_id < objs0[b2].obj_id);
            }
            assert forall|a: int| 0 <= a < self.objects@.len() implies #[trigger] self.objects@[a].obj_id < self.seq by {
                let a2 = if a < i { a } else { a + 1 };
                assert(objs0[a2].obj_id < self.seq);
            }
        }
    }

    /// Removes object `object_id` (its dependants stay); false when it is
    /// not registered.
    pub fn unregister(&mut self, object_id: usize) -> (r: bool)
        requires
            old(self).wf(),
        ensures
            final(self).wf(),
            r == exists|i: int| 0 <= i < old(self).objects@.len() && old(self).objects@[i].obj_id == object_id,
            final(self).objects@ == old(self).objects@.filter(|e: KObjEntry| e.obj_id != object_id),
            final(self).seq == old(self).seq,
    {
        match self.slot(object_id) {
            Some(i) => {
                proof {
                    lemma_filter_one(self.objects@, i as int);
                }
                self.remove_at(i);
                true
            },
            None => {
                proof {
                    lemma_filter_none(self.objects@, object_id);
                }
                false
            },
        }
    }

    /// Ids of the registered objects of type `type_tag`, in id order.
    pub fn find_by_type(&self, type_tag: u32) -> (r: Vec<usize>)
        requires
            self.wf(),
        ensures
            r@ == ids_where(self.objects@, of_type(type_tag)),
    {
        match self.tag_slot(type_tag) {
            Some(i) => {
                proof {
                    lemma_tag_list_present(self.type_index@, i as int);
                    assert(tag_list(self.type_index@, type_tag) == ids_where(self.objects@, of_type(type_tag)));
                }
                let l = &self.type_index[i].1;
                let mut out: Vec<usize> = Vec::new();
                let mut k: usize = 0;
                while k < l.len()
                    invariant
                        k <= l@.len(),
                        out@ == l@.subrange(0, k as int),
                    decreases l@.len() - k,
                {
                    out.push(l[k]);
                    k = k + 1;
                    proof {
                        assert(out@ =~= l@.subrange(0, k as int));
                    }
                }
                proof {
                    assert(out@ =~= l@);
                }
                out
            },
            None => {
                proof {
                    lemma_tag_list_absent(self.type_index@, type_tag);
                    assert(tag_list(self.type_index@, type_tag) == ids_where(self.objects@, of_type(type_tag)));
                }
                Vec::new()
            },
        }
    }

    /// `(parent, child)` pairs of the objects that have a parent, in id
    /// order.
    pub fn dump_graph(&self) -> (r: Vec<(usize, usize)>)
        ensures
            r@ == dependency_edges(self.objects@),
    {
        let mut edges: Vec<(usize, usize)> = Vec::new();
        let mut i: usize = 0;
        while i < self.objects.len()
            invariant
                i <= self.objects@.len(),
                edges@ == dependency_edges(self.objects@.subrange(0, i as int)),
            decreases self.objects@.len() - i,
        {
            proof {
                assert(self.objects@.subrange(0, i + 1).drop_last() =~= self.objects@.subrange(0, i as int));
            }
            match self.objects[i].parent_id {
                Some(p) => edges.push((p, self.objects[i].obj_id)),
                None => {},
            }
            i = i + 1;
        }
        proof {
            assert(self.objects@.subrange(0, i as int) =~= self.objects@);
        }
        edges
    }

    /// Removes every object without references and returns how many.
    pub fn gc_sweep(&mut self) -> (r: usize)
        requires
            old(self).wf(),
        ensures
            final(self).wf(),
            final(self).objects@ == old(self).objects@.filter(|e: KObjEntry| e.ref_count != 0),
            r == old(self).objects@.len() - final(self).objects@.len(),
            final(self).seq == old(self).seq,
    {
        let mut i: usize = 0;
        let mut removed: usize = 0;
        proof {
            reveal(Seq::filter);
            assert(old(self).objects@.subrange(0, 0).filter(|e: KObjEntry| e.ref_count != 0) =~= Seq::<KObjEntry>::empty());
            assert(self.objects@.subrange(0, 0) =~= Seq::<KObjEntry>::empty());
            assert(old(self).objects@.subrange(0, 0) + old(self).objects@.subrange(0, old(self).objects@.len() as int)
                =~= old(self).objects@);
        }
        let ghost mut k: int = 0;
        assert(self.objects@.len() == self.objects.len());
        while i < self.objects.len()
            invariant
                self.wf(),
                old(self).objects@.len() <= usize::MAX,
                0 <= k <= old(self).objects@.len(),
                i <= self.objects@.len(),
                self.objects@ == old(self).objects@.subrange(0, k).filter(|e: KObjEntry| e.ref_count != 0)
                    + old(self).objects@.subrange(k, old(self).objects@.len() as int),
                i == old(self).objects@.subrange(0, k).filter(|e: KObjEntry| e.ref_count != 0).len(),
                removed == k - i,
                self.seq == old(self).seq,
            decreases self.objects@.len() - i,
        {
            let ghost kept = old(self).objects@.subrange(0, k).filter(|e: KObjEntry| e.ref_count != 0);
            proof {
                reveal(Seq::filter);
                assert(old(self).objects@.subrange(0, k + 1).drop_last() =~= old(self).objects@.subrange(0, k));
                assert(self.objects@[i as int] == old(self).objects@[k]);
                lemma_filter_len(old(self).objects@.subrange(0, k));
            }
            if self.objects[i].ref_count == 0 {
                self.remove_at(i);
                removed = removed + 1;
                proof {
                    assert(self.objects@ =~= kept + old(self).objects@.subrange(k + 1, old(self).objects@.len() as int));
                    k = k + 1;
                }
            } else {
                i = i + 1;
                proof {
                    assert(self.objects@ =~= kept.push(old(self).objects@[k]) + old(self).objects@.subrange(
                        k + 1,
                        old(self).objects@.len() as int,
                    ));
                    k = k + 1;
                }
            }
        }
        proof {
            assert(k == old(self).objects@.len());
            assert(old(self).objects@.subrange(0, k) =~= old(self).objects@);
            assert(self.objects@ =~= old(self).objects@.filter(|e: KObjEntry| e.ref_count != 0));
        }
        removed
    }

    fn set_refs(&mut self, i: usize, refs: usize)
        requires
            old(self).wf(),
            i < old(self).objects@.len(),
        ensures
            final(self).wf(),
            final(self).objects@ == old(self).objects@.update(
                i as int,
                KObjEntry { ref_count: refs, ..old(self).objects@[i as int] },
            ),
            final(self).seq == old(self).seq,
    {
        let ghost objs0 = self.objects@;
        let mut e = self.objects[i];
        e.ref_count = refs;
        self.objects.set(i, e);
        proof {
            assert forall|t: u32| #[trigger] tag_list(self.type_index@, t) == ids_where(self.objects@, of_type(t)) by {
                lemma_ids_where_update(objs0, i as int, e, of_type(t));
            }
        }
    }

    /// Takes one more reference on an object; false when it is not
    /// registered.
    pub fn ref_up(&mut self, object_id: usize) -> (r: bool)
        requires
            old(self).wf(),
            forall|i: int|
                0 <= i < old(self).objects@.len() && old(self).objects@[i].obj_id == object_id
                    ==> old(self).objects@[i].ref_count < usize::MAX,
        ensures
            final(self).wf(),
            r == exists|i: int| 0 <= i < old(self).objects@.len() && old(self).objects@[i].obj_id == object_id,
            final(self).objects@.len() == old(self).objects@.len(),
            forall|i: int|
                0 <= i < old(self).objects@.len() ==> #[trigger] final(self).objects@[i] == if old(self).objects@[i].obj_id == object_id {
                    KObjEntry { ref_count: (old(self).objects@[i].ref_count + 1) as usize, ..old(self).objects@[i] }
                } else {
                    old(self).objects@[i]
                },
            final(self).seq == old(self).seq,
    {
        match self.slot(object_id) {
            Some(i) => {
                let refs = self.objects[i].ref_count + 1;
                self.set_refs(i, refs);
                proof {
                    assert forall|j: int| 0 <= j < old(self).objects@.len() && j != i implies old(self).objects@[j].obj_id != object_id by {
                        if j < i {
                            assert(old(self).objects@[j].obj_id < old(self).objects@[i as int].obj_id);
                        } else {
                            assert(old(self).objects@[i as int].obj_id < old(self).objects@[j].obj_id);
                        }
                    }
                }
                true
            },
            None => false,
        }
    }

    /// Drops one reference on an object (none left stays none); false when
    /// it is not registered.
    pub fn ref_down(&mut self, object_id: usize) -> (r: bool)
        requires
            old(self).wf(),
        ensures
            final(self).wf(),
            r == exists|i: int| 0 <= i < old(self).objects@.len() && old(self).objects@[i].obj_id == object_id,
            final(self).objects@.len() == old(self).objects@.len(),
            forall|i: int|
                0 <= i < old(self).objects@.len() ==> #[trigger] final(self).objects@[i] == if old(self).objects@[i].obj_id == object_id {
                    KObjEntry {
                        ref_count: if old(self).objects@[i].ref_count > 0 {
                            (old(self).objects@[i].ref_count - 1) as usize
                        } else {
                            0
                        },
                        ..old(self).objects@[i]
                    }
                } else {
                    old(self).objects@[i]
                },
            final(self).seq == old(self).seq,
    {
        match self.slot(object_id) {
            Some(i) => {
                let c = self.objects[i].ref_count;
                let refs = if c > 0 {
                    c - 1
                } else {
                    0
                };
                self.set_refs(i, refs);
                proof {
                    assert forall|j: int| 0 <= j < old(self).objects@.len() && j != i implies old(self).objects@[j].obj_id != object_id by {
                        if j < i {
                            assert(old(self).objects@[j].obj_id < old(self).objects@[i as int].obj_id);
                        } else {
                            assert(old(self).objects@[i as int].obj_id < old(self).objects@[j].obj_id);
                        }
                    }
                }
                true
            },
            None => false,
        }
    }

    /// Number of registered objects.
    pub fn count(&self) -> (r: usize)
        ensures
            r == self.objects@.len(),
    {
        self.objects.len()
    }

    /// Ids of the objects owned by `owner_pid`, in id order.
    pub fn owner_objects(&self, owner_pid: usize) -> (r: Vec<usize>)
        ensures
            r@ == ids_where(self.objects@, owned_by(owner_pid)),
    {
        let mut out: Vec<usize> = Vec::new();
        let mut i: usize = 0;
        while i < self.objects.len()
            invariant
                i <= self.objects@.len(),
                out@ == ids_where(self.objects@.subrange(0, i as int), owned_by(owner_pid)),
            decreases self.objects@.len() - i,
        {
            proof {
                assert(self.objects@.subrange(0, i + 1).drop_last() =~= self.objects@.subrange(0, i as int));
            }
            if self.objects[i].owner_pid == owner_pid {
                out.push(self.objects[i].obj_id);
            }
            i = i + 1;
        }
        proof {
            assert(self.objects@.subrange(0, i as int) =~= self.objects@);
        }
        out
    }
}

proof fn lemma_ids_where_not_kept(objs: Seq<KObjEntry>, i: int, keep: spec_fn(KObjEntry) -> bool)
    requires
        0 <= i < objs.len(),
        !keep(objs[i]),
        forall|a: int, b: int| 0 <= a < b < objs.len() ==> objs[a].obj_id < objs[b].obj_id,
    ensures
        ids_where(objs, keep).filter(|x: usize| x != objs[i].obj_id) == ids_where(objs, keep),
{
    lemma_ids_where_absent(objs, i, keep);
    lemma_filter_absent(ids_where(objs, keep), objs[i].obj_id);
}

proof fn lemma_ids_where_absent(objs: Seq<KObjEntry>, i: int, keep: spec_fn(KObjEntry) -> bool)
    requires
        0 <= i < objs.len(),
        !keep(objs[i]),
        forall|a: int, b: int| 0 <= a < b < objs.len() ==> objs[a].obj_id < objs[b].obj_id,
    ensures
        !ids_where(objs, keep).contains(objs[i].obj_id),
    decreases objs.len(),
{
    let d = objs.drop_last();
    let id = objs[i].obj_id;
    if i == objs.len() - 1 {
        lemma_ids_where_below(d, id, keep);
    } else {
        lemma_ids_where_absent(d, i, keep);
        if keep(objs.last()) {
            let r = ids_where(d, keep);
            assert(objs.last().obj_id != id);
            assert forall|k: int| 0 <= k < r.push(objs.last().obj_id).len() implies r.push(objs.last().obj_id)[k] != id by {
                if k < r.len() {
                    assert(r[k] == r.push(objs.last().obj_id)[k]);
                }
            }
        }
    }
}

proof fn lemma_ids_where_update(objs: Seq<KObjEntry>, i: int, e: KObjEntry, keep: spec_fn(KObjEntry) -> bool)
    requires
        0 <= i < objs.len(),
        e.obj_id == objs[i].obj_id,
        keep(e) == keep(objs[i]),
    ensures
        ids_where(objs.update(i, e), keep) == ids_where(objs, keep),
    decreases objs.len(),
{
    let n = objs.update(i, e);
    if i == objs.len() - 1 {
        assert(n.drop_last() =~= objs.drop_last());
    } else {
        lemma_ids_where_update(objs.drop_last(), i, e, keep);
        assert(n.drop_last() =~= objs.drop_last().update(i, e));
    }
}

proof fn lemma_filter_one(objs: Seq<KObjEntry>, i: int)
    requires
        0 <= i < objs.len(),
        forall|a: int, b: int| 0 <= a < b < objs.len() ==> objs[a].obj_id < objs[b].obj_id,
    ensures
        objs.filter(|e: KObjEntry| e.obj_id != objs[i].obj_id) == objs.remove(i),
        exists|j: int| 0 <= j < objs.len() && objs[j].obj_id == objs[i].obj_id,
    decreases objs.len(),
{
    reveal(Seq::filter);
    let id = objs[i].obj_id;
    let d = objs.drop_last();
    if i == objs.len() - 1 {
        lemma_filter_none(d, id);
        assert(objs.remove(i) =~= d);
    } else {
        lemma_filter_one(d, i);
        assert(objs.remove(i) =~= d.remove(i).push(objs.last()));
    }
}

proof fn lemma_filter_none(objs: Seq<KObjEntry>, id: usize)
    requires
        forall|a: int| 0 <= a < objs.len() ==> #[trigger] objs[a].obj_id != id,
    ensures
        objs.filter(|e: KObjEntry| e.obj_id != id) == objs,
        !(exists|j: int| 0 <= j < objs.len() && objs[j].obj_id == id),
    decreases objs.len(),
{
    reveal(Seq::filter);
    if objs.len() > 0 {
        lemma_filter_none(objs.drop_last(), id);
        assert(objs.drop_last().push(objs.last()) =~= objs);
    } else {
        assert(objs.filter(|e: KObjEntry| e.obj_id != id) =~= objs);
    }
}

proof fn lemma_filter_len(s: Seq<KObjEntry>)
    ensures
        s.filter(|e: KObjEntry| e.ref_count != 0).len() <= s.len(),
    decreases s.len(),
{
    reveal(Seq::filter);
    if s.len() > 0 {
        lemma_filter_len(s.drop_last());
    }
}

} // verus!

verus! {

/// One cached block: its id, contents and whether it was modified.
pub struct CacheSlot {
    pub id: usize,
    pub payload: Vec<u8>,
    pub modified: bool,
}

/// One bucket of the block cache: a short-section lock and its blocks.
pub struct CacheChain {
    pub lk: Spin,
    pub items: Vec<CacheSlot>,
}

impl CacheChain {
    /// An empty, unlocked bucket.
    pub fn new() -> (r: Self)
        ensures
            r.items@.len() == 0,
            !r.lk.locked,
    {
        CacheChain { lk: Spin::new(), items: Vec::new() }
    }
}

/// What a cached block holds: id, contents and modified flag.
pub type SlotInfo = (usize, Seq<u8>, bool);

pub open spec fn slot_info(s: CacheSlot) -> SlotInfo {
    (s.id, s.payload@, s.modified)
}

/// The blocks of `items`, in order.
pub open spec fn slots_view(items: Seq<CacheSlot>) -> Seq<SlotInfo> {
    items.map_values(|s: CacheSlot| slot_info(s))
}

/// The blocks of a bucket, in order.
pub open spec fn chain_view(c: CacheChain) -> Seq<SlotInfo> {
    slots_view(c.items@)
}

/// The bucket of `block_id` in a cache of `width` buckets, none when the
/// cache has no buckets.
pub open spec fn chain_of(block_id: usize, width: usize) -> Option<usize> {
    if width == 0 {
        None
    } else {
        Some(((block_id ^ (block_id >> 7usize)) % width) as usize)
    }
}

/// The 512 bytes a block reads as when it is first fetched at tick `tick`:
/// byte `k` is the low byte of `seed + k`, the seed mixing the block id and
/// the tick.
pub open spec fn fresh_block(block_id: usize, tick: usize) -> Seq<u8> {
    let seed = vstd::wrapping::usize_specs::wrapping_mul(block_id, 0x9E3779B9usize) ^ tick;
    Seq::new(512, |k: int| (vstd::wrapping::usize_specs::wrapping_add(seed, k as usize) & 0xff) as u8)
}

/// Total blocks in `cs`.
pub open spec fn total_slots(cs: Seq<CacheChain>) -> int
    decreases cs.len(),
{
    if cs.len() == 0 {
        0
    } else {
        total_slots(cs.drop_last()) + cs.last().items@.len()
    }
}

/// Modified blocks in `s`.
pub open spec fn modified_in(s: Seq<SlotInfo>) -> int
    decreases s.len(),
{
    if s.len() == 0 {
        0
    } else {
        modified_in(s.drop_last()) + if s.last().2 {
            1int
        } else {
            0
        }
    }
}

/// Modified blocks in `cs`.
pub open spec fn total_modified(cs: Seq<CacheChain>) -> int
    decreases cs.len(),
{
    if cs.len() == 0 {
        0
    } else {
        total_modified(cs.drop_last()) + modified_in(chain_view(cs.last()))
    }
}

/// A block is cold when it is clean or its age, `now - 3 * id` with
/// wrapping arithmetic, has reached `max_age`.
pub open spec fn stays_warm(s: SlotInfo, now: usize, max_age: usize) -> bool {
    !s.2 || vstd::wrapping::usize_specs::wrapping_sub(now, vstd::wrapping::usize_specs::wrapping_mul(s.0, 3))
        < max_age
}

/// The blocks of `s` with every modified flag cleared.
pub open spec fn clear_flags(s: Seq<SlotInfo>) -> Seq<SlotInfo> {
    s.map_values(|x: SlotInfo| (x.0, x.1, false))
}

/// A bucket after a write-back: cleared unless its lock was taken.
pub open spec fn synced(s: Seq<SlotInfo>, busy: bool) -> Seq<SlotInfo> {
    if busy {
        s
    } else {
        clear_flags(s)
    }
}

/// Hash-chain block cache of `width` buckets.
pub struct BlockCache {
    pub chains: Vec<CacheChain>,
    pub width: usize,
}

fn copy_bytes(src: &Vec<u8>) -> (r: Vec<u8>)
    ensures
        r@ == src@,
{
    let mut out: Vec<u8> = Vec::new();
    let mut k: usize = 0;
    while k < src.len()
        invariant
            k <= src@.len(),
            out@ == src@.subrange(0, k as int),
        decreases src@.len() - k,
    {
        out.push(src[k]);
        k = k + 1;
        proof {
            assert(out@ =~= src@.subrange(0, k as int));
        }
    }
    proof {
        assert(out@ =~= src@);
    }
    out
}

fn take_chain(chains: &mut Vec<CacheChain>, i: usize) -> (r: CacheChain)
    requires
        i < old(chains)@.len(),
    ensures
        r == old(chains)@[i as int],
        final(chains)@.len() == old(chains)@.len(),
        forall|k: int| 0 <= k < old(chains)@.len() && k != i ==> #[trigger] final(chains)@[k] == old(chains)@[k],
        final(chains)@[i as int].items@.len() == 0,
{
    let c = chains.remove(i);
    chains.insert(i, CacheChain::new());
    c
}

fn put_chain(chains: &mut Vec<CacheChain>, i: usize, c: CacheChain)
    requires
        i < old(chains)@.len(),
    ensures
        final(chains)@ == old(chains)@.update(i as int, c),
{
    let _ = chains.remove(i);
    chains.insert(i, c);
    assert(chains@ =~= old(chains)@.update(i as int, c));
}

proof fn lemma_total_update(cs: Seq<CacheChain>, i: int, c: CacheChain)
    requires
        0 <= i < cs.len(),
    ensures
        total_slots(cs.update(i, c)) == total_slots(cs) - cs[i].items@.len() + c.items@.len(),
        total_modified(cs.update(i, c)) == total_modified(cs) - modified_in(chain_view(cs[i])) + modified_in(
            chain_view(c),
        ),
    decreases cs.len(),
{
    let n = cs.update(i, c);
    if i == cs.len() - 1 {
        assert(n.drop_last() =~= cs.drop_last());
    } else {
        lemma_total_update(cs.drop_last(), i, c);
        assert(n.drop_last() =~= cs.drop_last().update(i, c));
    }
}

proof fn lemma_total_nonneg(cs: Seq<CacheChain>, n: int)
    requires
        0 <= n <= cs.len(),
    ensures
        0 <= total_slots(cs.subrange(0, n)) <= total_slots(cs),
        0 <= total_modified(cs.subrange(0, n)) <= total_modified(cs),
    decreases cs.len() - n,
{
    lemma_total_nonneg_all(cs.subrange(0, n));
    if n < cs.len() {
        lemma_total_nonneg(cs, n + 1);
        assert(cs.subrange(0, n + 1).drop_last() =~= cs.subrange(0, n));
        assert(cs.subrange(0, n + 1).last() == cs[n]);
        lemma_modified_bounds(chain_view(cs[n]));
    } else {
        assert(cs.subrange(0, n) =~= cs);
    }
}

proof fn lemma_total_nonneg_all(cs: Seq<CacheChain>)
    ensures
        total_slots(cs) >= 0,
        total_modified(cs) >= 0,
    decreases cs.len(),
{
    if cs.len() > 0 {
        lemma_total_nonneg_all(cs.drop_last());
        lemma_modified_bounds(chain_view(cs.last()));
    }
}

proof fn lemma_modified_bounds(s: Seq<SlotInfo>)
    ensures
        0 <= modified_in(s) <= s.len(),
    decreases s.len(),
{
    if s.len() > 0 {
        lemma_modified_bounds(s.drop_last());
    }
}

impl BlockCache {
    /// Whether each bucket's lock is taken.
    pub open spec fn lock_states(&self) -> Seq<bool> {
        self.chains@.map_values(|c: CacheChain| c.lk.locked)
    }

    /// The blocks of every bucket.
    pub open spec fn view_chains(&self) -> Seq<Seq<SlotInfo>> {
        self.chains@.map_values(|c: CacheChain| chain_view(c))
    }

    /// A cache of `width` empty buckets.
    pub fn new(width: usize) -> (r: Self)
        ensures
            r.width == width,
            r.chains@.len() == width,
            forall|i: int| 0 <= i < width ==> (#[trigger] r.chains@[i]).items@.len() == 0,
    {
        let mut chains: Vec<CacheChain> = Vec::new();
        let mut i: usize = 0;
        while i < width
            invariant
                i <= width,
                chains@.len() == i,
                forall|k: int| 0 <= k < i ==> (#[trigger] chains@[k]).items@.len() == 0,
            decreases width - i,
        {
            chains.push(CacheChain::new());
            i = i + 1;
        }
        BlockCache { chains, width }
    }

    fn chain_index(&self, block_id: usize) -> (r: Option<usize>)
        ensures
            r == chain_of(block_id, self.width),
    {
        if self.width == 0 {
            None
        } else {
            Some((block_id ^ (block_id >> 7)) % self.width)
        }
    }

    /// The bucket of `block_id`, 0 when the cache has no buckets.
    pub fn idx(&self, block_id: usize) -> (r: usize)
        ensures
            r == match chain_of(block_id, self.width) {
                Some(i) => i,
                None => 0,
            },
    {
        match self.chain_index(block_id) {
            Some(i) => i,
            None => 0,
        }
    }

    /// The contents of block `block_id`: the cached copy when its bucket
    /// holds one, otherwise `fresh_block(block_id, now)`, which is then
    /// cached, clean, at the end of the bucket. A cache without buckets has
    /// nothing, and a bucket whose lock is taken is skipped rather than
    /// waited for: nothing is fetched. No bucket lock changes.
    pub fn fetch(&mut self, block_id: usize, now: usize) -> (r: Option<Vec<u8>>)
        requires
            old(self).chains@.len() == old(self).width,
        ensures
            final(self).width == old(self).width,
            final(self).chains@.len() == old(self).chains@.len(),
            final(self).lock_states() == old(self).lock_states(),
            match chain_of(block_id, old(self).width) {
                None => r is None && final(self).view_chains() == old(self).view_chains(),
                Some(c) => {
                    let items = old(self).view_chains()[c as int];
                    if old(self).lock_states()[c as int] {
                        r is None && final(self).view_chains() == old(self).view_chains()
                    } else if exists|k: int| 0 <= k < items.len() && items[k].0 == block_id {
                        &&& r is Some
                        &&& r.unwrap()@ == items[first_slot(items, block_id)].1
                        &&& final(self).view_chains() == old(self).view_chains()
                    } else {
                        &&& r is Some
                        &&& r.unwrap()@ == fresh_block(block_id, now)
                        &&& final(self).view_chains() == old(self).view_chains().update(
                            c as int,
                            items.push((block_id, fresh_block(block_id, now), false)),
                        )
                    }
                },
            },
    {
        let ci = match self.chain_index(block_id) {
            Some(i) => i,
            None => return None,
        };
        proof {
            vstd::arithmetic::div_mod::lemma_mod_pos_bound((block_id ^ (block_id >> 7usize)) as int, self.width as int);
        }
        if self.chains[ci].lk.locked {
            return None;
        }
        let ghost items = self.view_chains()[ci as int];
        let mut k: usize = 0;
        while k < self.chains[ci].items.len()
            invariant
                ci < self.chains@.len(),
                self.width == old(self).width,
                self.chains@ == old(self).chains@,
                chain_of(block_id, self.width) == Some(ci),
                !self.chains@[ci as int].lk.locked,
                items == chain_view(self.chains@[ci as int]),
                k <= items.len(),
                forall|j: int| 0 <= j < k ==> items[j].0 != block_id,
            decreases items.len() - k,
        {
            if self.chains[ci].items[k].id == block_id {
                proof {
                    assert(items[k as int] == slot_info(self.chains@[ci as int].items@[k as int]));
                    assert(items[k as int].0 == block_id);
                    lemma_first_slot(items, block_id, k as int);
                }
                let data = copy_bytes(&self.chains[ci].items[k].payload);
                proof {
                    assert(data@ == items[first_slot(items, block_id)].1);
                    assert(exists|j: int| 0 <= j < items.len() && items[j].0 == block_id);
                    assert(chain_of(block_id, old(self).width) == Some(ci));
                    assert(items == old(self).view_chains()[ci as int]);
                    assert(!old(self).lock_states()[ci as int]);
                }
                return Some(data);
            }
            k = k + 1;
        }
        let seed = block_id.wrapping_mul(0x9E3779B9) ^ now;
        let mut payload: Vec<u8> = Vec::new();
        let mut b: usize = 0;
        while b < 512
            invariant
                b <= 512,
                seed == vstd::wrapping::usize_specs::wrapping_mul(block_id, 0x9E3779B9usize) ^ now,
                payload@ == fresh_block(block_id, now).subrange(0, b as int),
            decreases 512 - b,
        {
            payload.push((seed.wrapping_add(b) & 0xFF) as u8);
            b = b + 1;
            proof {
                assert(payload@ =~= fresh_block(block_id, now).subrange(0, b as int));
            }
        }
        proof {
            assert(payload@ =~= fresh_block(block_id, now));
        }
        let result = copy_bytes(&payload);
        let ghost cs0 = self.chains@;
        let mut chain = take_chain(&mut self.chains, ci);
        chain.items.push(CacheSlot { id: block_id, payload, modified: false });
        put_chain(&mut self.chains, ci, chain);
        proof {
            assert(chain_view(chain) =~= items.push((block_id, fresh_block(block_id, now), false)));
            assert(self.view_chains() =~= old(self).view_chains().update(
                ci as int,
                items.push((block_id, fresh_block(block_id, now), false)),
            ));
            assert(!exists|j: int| 0 <= j < items.len() && items[j].0 == block_id);
            assert(self.lock_states() =~= old(self).lock_states());
        }
        Some(result)
    }

    /// Writes back every bucket whose lock is free: clears its modified
    /// flags. A bucket whose lock is taken is skipped, not waited for, and
    /// keeps its flags for a later call. The global lock is entered for
    /// `lock_owner_id` when that needs no waiting and left again; when
    /// another owner holds it the work runs without entering. Either way the
    /// global lock ends as it was.
    pub fn sync_all(&mut self, gkl: &mut KernLock, lock_owner_id: usize)
        requires
            old(gkl).wf(),
            old(gkl).depth < usize::MAX,
        ensures
            *final(gkl) == *old(gkl),
            final(self).width == old(self).width,
            final(self).chains@.len() == old(self).chains@.len(),
            final(self).lock_states() == old(self).lock_states(),
            forall|i: int|
                0 <= i < old(self).chains@.len() ==> #[trigger] final(self).view_chains()[i] == synced(
                    old(self).view_chains()[i],
                    old(self).lock_states()[i],
                ),
    {
        proof {
            if gkl.can_enter(lock_owner_id) {
                law_enter_leave_restores(*gkl, lock_owner_id);
            }
        }
        let entered = gkl.try_enter(lock_owner_id);
        self.write_back_free_chains();
        if entered {
            gkl.leave();
        }
    }

    fn write_back_free_chains(&mut self)
        ensures
            final(self).width == old(self).width,
            final(self).chains@.len() == old(self).chains@.len(),
            final(self).lock_states() == old(self).lock_states(),
            forall|i: int|
                0 <= i < old(self).chains@.len() ==> #[trigger] final(self).view_chains()[i] == synced(
                    old(self).view_chains()[i],
                    old(self).lock_states()[i],
                ),
    {
        let mut i: usize = 0;
        while i < self.chains.len()
            invariant
                i <= self.chains@.len(),
                self.chains@.len() == old(self).chains@.len(),
                self.width == old(self).width,
                forall|j: int| 0 <= j < self.chains@.len() ==> #[trigger] self.chains@[j].lk == old(self).chains@[j].lk,
                forall|j: int|
                    0 <= j < i ==> #[trigger] self.view_chains()[j] == synced(
                        old(self).view_chains()[j],
                        old(self).lock_states()[j],
                    ),
                forall|j: int| i <= j < self.chains@.len() ==> #[trigger] self.chains@[j] == old(self).chains@[j],
            decreases self.chains@.len() - i,
        {
            if self.chains[i].lk.locked {
                proof {
                    assert(self.chains@[i as int] == old(self).chains@[i as int]);
                    assert(old(self).lock_states()[i as int]);
                    assert(self.view_chains()[i as int] == old(self).view_chains()[i as int]);
                }
                i = i + 1;
                continue;
            }
            let ghost cs_start = self.chains@;
            let ghost vs = self.view_chains();
            let mut chain = take_chain(&mut self.chains, i);
            let ghost before = chain_view(chain);
            let mut k: usize = 0;
            while k < chain.items.len()
                invariant
                    k <= chain.items@.len(),
                    chain.items@.len() == before.len(),
                    chain.lk == cs_start[i as int].lk,
                    forall|j: int| 0 <= j < k ==> #[trigger] chain_view(chain)[j] == (before[j].0, before[j].1, false),
                    forall|j: int| k <= j < before.len() ==> #[trigger] chain_view(chain)[j] == before[j],
                decreases before.len() - k,
            {
                let ghost prev = chain.items@;
                let ghost oldc = chain;
                proof {
                    assert(chain_view(oldc)[k as int] == before[k as int]);
                }
                let mut s = chain.items.remove(k);
                s.modified = false;
                chain.items.insert(k, s);
                proof {
                    assert(chain.items@ =~= prev.update(k as int, s));
                    assert(chain_view(chain)[k as int] == slot_info(s));
                    assert forall|j: int| 0 <= j < before.len() implies #[trigger] chain_view(chain)[j] == (if j <= k {
                        (before[j].0, before[j].1, false)
                    } else {
                        before[j]
                    }) by {
                        if j != k {
                            assert(chain_view(chain)[j] == chain_view(oldc)[j]);
                        }
                    }
                }
                k = k + 1;
            }
            proof {
                assert(chain_view(chain) =~= clear_flags(before));
            }
            let ghost cs1 = self.chains@;
            put_chain(&mut self.chains, i, chain);
            proof {
                assert(self.view_chains()[i as int] == chain_view(chain));
                assert(before == old(self).view_chains()[i as int]);
                assert(!old(self).lock_states()[i as int]);
                assert forall|j: int| 0 <= j < self.chains@.len() && j != i implies #[trigger] self.chains@[j] == cs_start[j] by {
                    assert(cs1[j] == cs_start[j]);
                }
                assert forall|j: int| 0 <= j < self.chains@.len() implies #[trigger] self.chains@[j].lk == old(self).chains@[j].lk by {
                    if j != i {
                        assert(self.chains@[j] == cs_start[j]);
                    }
                }
                assert forall|j: int| 0 <= j < i + 1 implies #[trigger] self.view_chains()[j] == synced(
                    old(self).view_chains()[j],
                    old(self).lock_states()[j],
                ) by {
                    if j < i {
                        assert(self.chains@[j] == cs_start[j]);
                        assert(vs[j] == synced(old(self).view_chains()[j], old(self).lock_states()[j]));
                    }
                }
            }
            i = i + 1;
        }
        proof {
            assert(self.lock_states() =~= old(self).lock_states());
        }
    }

    /// The buckets after `fetch(block_id, now)`: a free bucket without the
    /// block gains a clean fresh copy at its end; nothing else changes.
    pub open spec fn fetched_view(&self, block_id: usize, now: usize) -> Seq<Seq<SlotInfo>> {
        match chain_of(block_id, self.width) {
            None => self.view_chains(),
            Some(c) => if self.lock_states()[c as int] {
                self.view_chains()
            } else {
                self.view_chains().update(c as int, fetched_chain(self.view_chains()[c as int], block_id, now))
            },
        }
    }

    /// The buckets after `write_through(block_id, now)`: as after the fetch,
    /// with the block's first copy in a free bucket marked modified.
    pub open spec fn written_view(&self, block_id: usize, now: usize) -> Seq<Seq<SlotInfo>> {
        match chain_of(block_id, self.width) {
            None => self.view_chains(),
            Some(c) => if self.lock_states()[c as int] {
                self.view_chains()
            } else {
                self.view_chains().update(
                    c as int,
                    mark_first(fetched_chain(self.view_chains()[c as int], block_id, now), block_id),
                )
            },
        }
    }

    /// How many bytes `read_through(block_id, now, count)` gives: up to
    /// `count` of the block as `fetch` finds or makes it, none when its
    /// bucket is busy or there are no buckets.
    pub open spec fn read_len(&self, block_id: usize, now: usize, count: usize) -> int {
        match chain_of(block_id, self.width) {
            None => 0,
            Some(c) => if self.lock_states()[c as int] {
                0
            } else {
                let items = self.view_chains()[c as int];
                let n = if exists|k: int| 0 <= k < items.len() && items[k].0 == block_id {
                    items[first_slot(items, block_id)].1.len() as int
                } else {
                    512
                };
                if count < n {
                    count as int
                } else {
                    n
                }
            },
        }
    }

    /// Reads block `block_id` through the cache (see `fetch`) into a
    /// scratch buffer of `count` bytes; returns how many bytes were read.
    pub fn read_through(&mut self, block_id: usize, now: usize, count: usize) -> (r: usize)
        requires
            old(self).chains@.len() == old(self).width,
        ensures
            final(self).width == old(self).width,
            final(self).chains@.len() == old(self).chains@.len(),
            final(self).lock_states() == old(self).lock_states(),
            final(self).view_chains() == old(self).fetched_view(block_id, now),
            r == old(self).read_len(block_id, now, count),
    {
        match self.fetch(block_id, now) {
            Some(data) => if count < data.len() {
                count
            } else {
                data.len()
            },
            None => 0,
        }
    }

    /// Writes block `block_id` through the cache: it is fetched (see
    /// `fetch`) and its first copy marked modified, unless its bucket is
    /// busy or there are no buckets.
    pub fn write_through(&mut self, block_id: usize, now: usize)
        requires
            old(self).chains@.len() == old(self).width,
        ensures
            final(self).width == old(self).width,
            final(self).chains@.len() == old(self).chains@.len(),
            final(self).lock_states() == old(self).lock_states(),
            final(self).view_chains() == old(self).written_view(block_id, now),
    {
        let fetched = self.fetch(block_id, now);
        if fetched.is_none() {
            return;
        }
        let ci = self.idx(block_id);
        proof {
            vstd::arithmetic::div_mod::lemma_mod_pos_bound((block_id ^ (block_id >> 7usize)) as int, self.width as int);
            let items = old(self).view_chains()[ci as int];
            let f = fetched_chain(items, block_id, now);
            assert(self.view_chains()[ci as int] == f);
            if !(exists|k: int| 0 <= k < items.len() && items[k].0 == block_id) {
                assert(f[items.len() as int].0 == block_id);
            }
            assert(exists|k: int| 0 <= k < f.len() && f[k].0 == block_id);
            assert(self.view_chains() =~= old(self).view_chains().update(ci as int, f));
        }
        let ghost items1 = self.view_chains()[ci as int];
        let mut k: usize = 0;
        while k < self.chains[ci].items.len()
            invariant
                ci < self.chains@.len(),
                self.chains@.len() == old(self).chains@.len(),
                self.width == old(self).width,
                items1 == chain_view(self.chains@[ci as int]),
                self.view_chains()[ci as int] == items1,
                self.view_chains() == old(self).view_chains().update(ci as int, items1),
                self.lock_states() == old(self).lock_states(),
                chain_of(block_id, old(self).width) == Some(ci),
                !old(self).lock_states()[ci as int],
                items1 == fetched_chain(old(self).view_chains()[ci as int], block_id, now),
                k <= items1.len(),
                forall|j: int| 0 <= j < k ==> items1[j].0 != block_id,
                exists|j: int| 0 <= j < items1.len() && items1[j].0 == block_id,
            decreases items1.len() - k,
        {
            if self.chains[ci].items[k].id == block_id {
                proof {
                    assert(items1[k as int] == slot_info(self.chains@[ci as int].items@[k as int]));
                    lemma_first_slot(items1, block_id, k as int);
                }
                let ghost cs0 = self.chains@;
                let ghost v0 = self.view_chains();
                let mut chain = take_chain(&mut self.chains, ci);
                let ghost before = chain.items@;
                let mut slot = chain.items.remove(k);
                slot.modified = true;
                chain.items.insert(k, slot);
                put_chain(&mut self.chains, ci, chain);
                proof {
                    assert(chain.items@ =~= before.update(k as int, slot));
                    assert(chain_view(chain) =~= mark_first(items1, block_id));
                    assert(self.view_chains() =~= v0.update(ci as int, mark_first(items1, block_id)));
                    assert forall|j: int| 0 <= j < self.chains@.len() implies #[trigger] self.chains@[j].lk == cs0[j].lk by {
                        if j == ci {
                            assert(self.chains@[j] == chain);
                        }
                    }
                    assert(self.lock_states() =~= old(self).lock_states());
                }
                return;
            }
            k = k + 1;
        }
    }

    /// Drops every cached copy of `block_id` from its bucket.
    pub fn invalidate(&mut self, block_id: usize)
        requires
            old(self).chains@.len() == old(self).width,
        ensures
            final(self).width == old(self).width,
            final(self).chains@.len() == old(self).chains@.len(),
            final(self).lock_states() == old(self).lock_states(),
            match chain_of(block_id, old(self).width) {
                None => final(self).view_chains() == old(self).view_chains(),
                Some(c) => final(self).view_chains() == old(self).view_chains().update(
                    c as int,
                    old(self).view_chains()[c as int].filter(|s: SlotInfo| s.0 != block_id),
                ),
            },
    {
        let ci = match self.chain_index(block_id) {
            Some(i) => i,
            None => return,
        };
        proof {
            vstd::arithmetic::div_mod::lemma_mod_pos_bound((block_id ^ (block_id >> 7usize)) as int, self.width as int);
        }
        let ghost cs0 = self.chains@;
        let mut chain = take_chain(&mut self.chains, ci);
        let ghost before = chain_view(chain);
        let ghost lk0 = chain.lk;
        let mut kept: Vec<CacheSlot> = Vec::new();
        while chain.items.len() > 0
            invariant
                chain.lk == lk0,
                slots_view(kept@) + chain_view(chain).filter(|s: SlotInfo| s.0 != block_id)
                    == before.filter(|s: SlotInfo| s.0 != block_id),
            decreases chain.items@.len(),
        {
            let ghost rest = chain_view(chain);
            let s = chain.items.remove(0);
            proof {
                reveal(Seq::filter);
                assert(rest =~= seq![slot_info(s)] + chain_view(chain));
                lemma_filter_cons(slot_info(s), chain_view(chain), block_id);
            }
            if s.id != block_id {
                kept.push(s);
            }
        }
        proof {
            reveal(Seq::filter);
            assert(chain_view(chain).filter(|s: SlotInfo| s.0 != block_id) =~= Seq::<SlotInfo>::empty());
        }
        chain.items = kept;
        proof {
            assert(chain_view(chain) =~= before.filter(|s: SlotInfo| s.0 != block_id));
        }
        put_chain(&mut self.chains, ci, chain);
        proof {
            assert(self.view_chains() =~= old(self).view_chains().update(
                ci as int,
                old(self).view_chains()[ci as int].filter(|s: SlotInfo| s.0 != block_id),
            ));
            assert(lk0 == cs0[ci as int].lk);
            assert(self.lock_states() =~= old(self).lock_states());
        }
    }

    /// Number of cached blocks.
    pub fn total_entries(&self) -> (r: usize)
        requires
            total_slots(self.chains@) <= usize::MAX,
        ensures
            r == total_slots(self.chains@),
    {
        let mut total: usize = 0;
        let mut i: usize = 0;
        while i < self.chains.len()
            invariant
                i <= self.chains@.len(),
                total == total_slots(self.chains@.subrange(0, i as int)),
                total_slots(self.chains@) <= usize::MAX,
            decreases self.chains@.len() - i,
        {
            proof {
                assert(self.chains@.subrange(0, i + 1).drop_last() =~= self.chains@.subrange(0, i as int));
                lemma_total_nonneg(self.chains@, i + 1);
            }
            total = total + self.chains[i].items.len();
            i = i + 1;
        }
        proof {
            assert(self.chains@.subrange(0, i as int) =~= self.chains@);
        }
        total
    }

    /// Number of modified blocks.
    pub fn dirty_count(&self) -> (r: usize)
        requires
            total_modified(self.chains@) <= usize::MAX,
        ensures
            r == total_modified(self.chains@),
    {
        let mut count: usize = 0;
        let mut i: usize = 0;
        while i < self.chains.len()
            invariant
                i <= self.chains@.len(),
                count == total_modified(self.chains@.subrange(0, i as int)),
                total_modified(self.chains@) <= usize::MAX,
            decreases self.chains@.len() - i,
        {
            proof {
                assert(self.chains@.subrange(0, i + 1).drop_last() =~= self.chains@.subrange(0, i as int));
                lemma_total_nonneg(self.chains@, i + 1);
            }
            let items = &self.chains[i].items;
            let ghost cv = chain_view(self.chains@[i as int]);
            let mut k: usize = 0;
            while k < items.len()
                invariant
                    k <= items@.len(),
                    cv == items@.map_values(|s: CacheSlot| slot_info(s)),
                    count == total_modified(self.chains@.subrange(0, i as int)) + modified_in(cv.subrange(0, k as int)),
                    total_modified(self.chains@.subrange(0, i as int)) + modified_in(cv) <= usize::MAX,
                decreases items@.len() - k,
            {
                proof {
                    assert(cv.subrange(0, k + 1).drop_last() =~= cv.subrange(0, k as int));
                    lemma_modified_prefix(cv, k + 1);
                    lemma_modified_bounds(cv.subrange(0, k as int));
                }
                if items[k].modified {
                    count = count + 1;
                }
                k = k + 1;
            }
            proof {
                assert(cv.subrange(0, k as int) =~= cv);
            }
            i = i + 1;
        }
        proof {
            assert(self.chains@.subrange(0, i as int) =~= self.chains@);
        }
        count
    }

    /// Drops every modified block whose age at tick `now` has reached
    /// `max_age` (see `stays_warm`) and returns how many.
    pub fn evict_cold(&mut self, max_age: usize, now: usize) -> (r: usize)
        requires
            total_slots(old(self).chains@) <= usize::MAX,
        ensures
            final(self).width == old(self).width,
            final(self).chains@.len() == old(self).chains@.len(),
            forall|i: int|
                0 <= i < old(self).chains@.len() ==> #[trigger] final(self).view_chains()[i] == old(self).view_chains()[i].filter(|s: SlotInfo| stays_warm(s, now, max_age)),
            r == total_slots(old(self).chains@) - total_slots(final(self).chains@),
            final(self).lock_states() == old(self).lock_states(),
    {
        let mut evicted: usize = 0;
        let mut i: usize = 0;
        while i < self.chains.len()
            invariant
                i <= self.chains@.len(),
                self.chains@.len() == old(self).chains@.len(),
                self.width == old(self).width,
                forall|j: int|
                    0 <= j < i ==> #[trigger] self.view_chains()[j] == old(self).view_chains()[j].filter(
                        |s: SlotInfo| stays_warm(s, now, max_age),
                    ),
                forall|j: int| i <= j < self.chains@.len() ==> #[trigger] self.chains@[j] == old(self).chains@[j],
                evicted == total_slots(old(self).chains@) - total_slots(self.chains@),
                forall|j: int| 0 <= j < self.chains@.len() ==> #[trigger] self.chains@[j].lk == old(self).chains@[j].lk,
                total_slots(self.chains@) <= total_slots(old(self).chains@),
                total_slots(old(self).chains@) <= usize::MAX,
            decreases self.chains@.len() - i,
        {
            let ghost cs0 = self.chains@;
            let ghost vs = self.view_chains();
            let mut chain = take_chain(&mut self.chains, i);
            let ghost before = chain_view(chain);
            let previous_len = chain.items.len();
            let ghost lk0 = chain.lk;
            let mut kept: Vec<CacheSlot> = Vec::new();
            while chain.items.len() > 0
                invariant
                    chain.lk == lk0,
                    slots_view(kept@) + chain_view(chain).filter(
                        |s: SlotInfo| stays_warm(s, now, max_age),
                    ) == before.filter(|s: SlotInfo| stays_warm(s, now, max_age)),
                decreases chain.items@.len(),
            {
                let ghost rest = chain_view(chain);
                let s = chain.items.remove(0);
                proof {
                    reveal(Seq::filter);
                    assert(rest =~= seq![slot_info(s)] + chain_view(chain));
                    lemma_filter_cons_warm(slot_info(s), chain_view(chain), now, max_age);
                }
                let age = now.wrapping_sub(s.id.wrapping_mul(3));
                if !s.modified || age < max_age {
                    kept.push(s);
                }
            }
            proof {
                reveal(Seq::filter);
                assert(chain_view(chain).filter(|s: SlotInfo| stays_warm(s, now, max_age)) =~= Seq::<SlotInfo>::empty());
            }
            chain.items = kept;
            proof {
                assert(chain_view(chain) =~= before.filter(|s: SlotInfo| stays_warm(s, now, max_age)));
                lemma_filter_len_slots(before, now, max_age);
            }
            let new_len = chain.items.len();
            put_chain(&mut self.chains, i, chain);
            proof {
                assert(self.chains@ =~= cs0.update(i as int, chain));
                lemma_total_update(cs0, i as int, chain);
                lemma_total_nonneg_all(self.chains@);
                assert forall|j: int| 0 <= j < i + 1 implies #[trigger] self.view_chains()[j] == old(self).view_chains()[j].filter(
                    |s: SlotInfo| stays_warm(s, now, max_age),
                ) by {
                    if j < i {
                        assert(self.chains@[j] == cs0[j]);
                        assert(vs[j] == old(self).view_chains()[j].filter(|s: SlotInfo| stays_warm(s, now, max_age)));
                    }
                }
                assert(new_len <= previous_len);
                assert(self.view_chains()[i as int] == chain_view(chain));
                assert(before == old(self).view_chains()[i as int]);
                assert forall|j: int| 0 <= j < self.chains@.len() implies #[trigger] self.chains@[j].lk == old(self).chains@[j].lk by {
                    if j == i {
                        assert(lk0 == cs0[i as int].lk);
                    } else {
                        assert(self.chains@[j] == cs0[j]);
                    }
                }
            }
            evicted = evicted + (previous_len - new_len);
            i = i + 1;
        }
        proof {
            assert(self.lock_states() =~= old(self).lock_states());
        }
        evicted
    }
}

/// A bucket after fetching `id`: unchanged when it holds the block, else
/// with a clean fresh copy at its end.
pub open spec fn fetched_chain(items: Seq<SlotInfo>, id: usize, now: usize) -> Seq<SlotInfo> {
    if exists|k: int| 0 <= k < items.len() && items[k].0 == id {
        items
    } else {
        items.push((id, fresh_block(id, now), false))
    }
}

/// A bucket with its first copy of `id` marked modified.
pub open spec fn mark_first(items: Seq<SlotInfo>, id: usize) -> Seq<SlotInfo> {
    let k = first_slot(items, id);
    items.update(k, (items[k].0, items[k].1, true))
}

/// Position of the first block `id` in `s`.
pub open spec fn first_slot(s: Seq<SlotInfo>, id: usize) -> int {
    choose|k: int| 0 <= k < s.len() && s[k].0 == id && forall|j: int| 0 <= j < k ==> s[j].0 != id
}

proof fn lemma_first_slot(s: Seq<SlotInfo>, id: usize, k: int)
    requires
        0 <= k < s.len(),
        s[k].0 == id,
        forall|j: int| 0 <= j < k ==> s[j].0 != id,
    ensures
        first_slot(s, id) == k,
{
    let f = first_slot(s, id);
    assert(0 <= f < s.len() && s[f].0 == id && forall|j: int| 0 <= j < f ==> s[j].0 != id);
}

proof fn lemma_filter_cons(x: SlotInfo, s: Seq<SlotInfo>, id: usize)
    ensures
        (seq![x] + s).filter(|t: SlotInfo| t.0 != id) == (if x.0 != id {
            seq![x]
        } else {
            Seq::empty()
        }) + s.filter(|t: SlotInfo| t.0 != id),
{
    let p = |t: SlotInfo| t.0 != id;
    Seq::filter_distributes_over_add(seq![x], s, p);
    reveal(Seq::filter);
    assert(seq![x].drop_last() =~= Seq::<SlotInfo>::empty());
    assert(Seq::<SlotInfo>::empty().filter(p) =~= Seq::<SlotInfo>::empty());
    assert(seq![x].drop_last().filter(p) =~= Seq::<SlotInfo>::empty());
    assert(seq![x].last() == x);
    assert(seq![x].filter(p) =~= (if x.0 != id {
        seq![x]
    } else {
        Seq::empty()
    }));
}

proof fn lemma_filter_cons_warm(x: SlotInfo, s: Seq<SlotInfo>, now: usize, max_age: usize)
    ensures
        (seq![x] + s).filter(|t: SlotInfo| stays_warm(t, now, max_age)) == (if stays_warm(x, now, max_age) {
            seq![x]
        } else {
            Seq::empty()
        }) + s.filter(|t: SlotInfo| stays_warm(t, now, max_age)),
{
    let p = |t: SlotInfo| stays_warm(t, now, max_age);
    Seq::filter_distributes_over_add(seq![x], s, p);
    reveal(Seq::filter);
    assert(seq![x].drop_last() =~= Seq::<SlotInfo>::empty());
    assert(Seq::<SlotInfo>::empty().filter(p) =~= Seq::<SlotInfo>::empty());
    assert(seq![x].drop_last().filter(p) =~= Seq::<SlotInfo>::empty());
    assert(seq![x].last() == x);
    assert(seq![x].filter(p) =~= (if stays_warm(x, now, max_age) {
        seq![x]
    } else {
        Seq::empty()
    }));
}

proof fn lemma_filter_len_slots(s: Seq<SlotInfo>, now: usize, max_age: usize)
    ensures
        s.filter(|t: SlotInfo| stays_warm(t, now, max_age)).len() <= s.len(),
    decreases s.len(),
{
    reveal(Seq::filter);
    if s.len() > 0 {
        lemma_filter_len_slots(s.drop_last(), now, max_age);
    }
}

proof fn lemma_modified_prefix(s: Seq<SlotInfo>, n: int)
    requires
        0 <= n <= s.len(),
    ensures
        modified_in(s.subrange(0, n)) <= modified_in(s),
    decreases s.len() - n,
{
    if n < s.len() {
        lemma_modified_prefix(s, n + 1);
        assert(s.subrange(0, n + 1).drop_last() =~= s.subrange(0, n));
    } else {
        assert(s.subrange(0, n) =~= s);
    }
}

} // verus!

use vstd::prelude::*;
use vstd::string::{StrSliceExecFns, StringExecFns};

verus! {

/// One mount: a path prefix and the target it maps to.
#[derive(Clone, Debug)]
pub struct MountEntry {
    pub prefix: String,
    pub target: String,
}

/// Mount table, kept in descending order of prefix length (in bytes) so
/// that longer mount points come first.
pub struct MountTable {
    pub entries: Vec<MountEntry>,
}

/// A mount as a pair of character sequences.
pub type MountView = (Seq<char>, Seq<char>);

pub open spec fn mount_view(e: MountEntry) -> MountView {
    (e.prefix@, e.target@)
}

/// UTF-8 length of `s` in bytes.
pub open spec fn byte_len(s: Seq<char>) -> int {
    (vstd::utf8::encode_utf8(s).len() as usize) as int
}

/// `prefix` covers `path`: the root `/` covers every absolute path; any
/// other prefix covers a path that starts with it and either ends there or
/// continues with `/` (so `/mnt` covers `/mnt/file` but not `/mnted`).
pub open spec fn covers(prefix: Seq<char>, path: Seq<char>) -> bool {
    if prefix == seq!['/'] {
        path.len() > 0 && path[0] == '/'
    } else {
        prefix.len() <= path.len() && path.subrange(0, prefix.len() as int) == prefix && (path.len()
            == prefix.len() || path[prefix.len() as int] == '/')
    }
}

/// Among the first `n` mounts, the first with the longest nonempty prefix
/// that covers `path`.
pub open spec fn best_mount(es: Seq<MountView>, path: Seq<char>, n: int) -> Option<int>
    decreases n,
{
    if n <= 0 {
        None
    } else {
        let b = best_mount(es, path, n - 1);
        let l = byte_len(es[n - 1].0);
        let bl = match b {
            Some(i) => byte_len(es[i].0),
            None => 0,
        };
        if l > 0 && covers(es[n - 1].0, path) && l > bl {
            Some(n - 1)
        } else {
            b
        }
    }
}

/// `s` with each `/` that follows another `/` removed.
pub open spec fn collapse_slashes(s: Seq<char>) -> Seq<char>
    decreases s.len(),
{
    if s.len() == 0 {
        s
    } else if s.last() == '/' && s.len() >= 2 && s[s.len() - 2] == '/' {
        collapse_slashes(s.drop_last())
    } else {
        collapse_slashes(s.drop_last()).push(s.last())
    }
}

/// The resolution of `path`: with a covering mount, its target, `:`, and
/// the resolution of the rest of the path after the prefix; without one,
/// the path with repeated slashes collapsed.
pub open spec fn resolve_spec(es: Seq<MountView>, path: Seq<char>) -> Seq<char>
    decreases path.len(),
{
    match best_mount(es, path, es.len() as int) {
        Some(i) => if 0 < es[i].0.len() <= path.len() {
            es[i].1 + seq![':'] + resolve_spec(es, path.subrange(es[i].0.len() as int, path.len() as int))
        } else {
            path
        },
        None => collapse_slashes(path),
    }
}

/// Prefixes in non-increasing byte length.
pub open spec fn sorted_by_len(es: Seq<MountView>) -> bool {
    forall|i: int, j: int| 0 <= i <= j < es.len() ==> byte_len(es[i].0) >= byte_len(es[j].0)
}

/// Selects the mounts whose prefix is not `p`.
pub open spec fn not_at(p: Seq<char>) -> spec_fn(MountView) -> bool {
    |m: MountView| m.0 != p
}

/// Where `bind` puts a new mount: before the first one with a shorter
/// prefix.
pub open spec fn bind_pos(es: Seq<MountView>, l: int) -> int
    decreases es.len(),
{
    if es.len() == 0 {
        0
    } else if byte_len(es[0].0) < l {
        0
    } else {
        1 + bind_pos(es.drop_first(), l)
    }
}

pub(crate) fn str_eq(a: &str, b: &str) -> (r: bool)
    ensures
        r == (a@ == b@),
{
    let n = a.unicode_len();
    if n != b.unicode_len() {
        return false;
    }
    let mut i: usize = 0;
    while i < n
        invariant
            n == a@.len(),
            n == b@.len(),
            i <= n,
            forall|k: int| 0 <= k < i ==> a@[k] == b@[k],
        decreases n - i,
    {
        if a.get_char(i) != b.get_char(i) {
            return false;
        }
        i = i + 1;
    }
    proof {
        assert(a@ =~= b@);
    }
    true
}

fn covers_exec(prefix: &str, path: &str) -> (r: bool)
    ensures
        r == covers(prefix@, path@),
{
    let pl = prefix.unicode_len();
    let n = path.unicode_len();
    if pl == 1 && prefix.get_char(0) == '/' {
        proof {
            assert(prefix@ =~= seq!['/']);
        }
        return n > 0 && path.get_char(0) == '/';
    }
    proof {
        if prefix@ == seq!['/'] {
            assert(prefix@[0] == '/');
        }
    }
    if pl > n {
        return false;
    }
    let mut i: usize = 0;
    while i < pl
        invariant
            pl == prefix@.len(),
            n == path@.len(),
            pl <= n,
            i <= pl,
            forall|k: int| 0 <= k < i ==> path@[k] == prefix@[k],
        decreases pl - i,
    {
        if path.get_char(i) != prefix.get_char(i) {
            proof {
                assert(path@.subrange(0, pl as int)[i as int] != prefix@[i as int]);
            }
            return false;
        }
        i = i + 1;
    }
    proof {
        assert(path@.subrange(0, pl as int) =~= prefix@);
    }
    n == pl || path.get_char(pl) == '/'
}

fn clone_string(s: &String) -> (r: String)
    ensures
        r@ == s@,
{
    s.as_str().to_owned()
}

proof fn lemma_best_mount_bound(es: Seq<MountView>, path: Seq<char>, n: int)
    requires
        0 <= n <= es.len(),
    ensures
        best_mount(es, path, n) matches Some(i) ==> 0 <= i < n && byte_len(es[i].0) > 0 && covers(
            es[i].0,
            path,
        ),
    decreases n,
{
    if n > 0 {
        lemma_best_mount_bound(es, path, n - 1);
    }
}

/// The mount that path resolution picks is the longest match: it covers
/// the path with a nonempty prefix, no mount covering the path has a longer
/// prefix, and every earlier mount covering it has a shorter one. With no
/// covering mount nothing is picked.
pub proof fn law_best_mount_longest(es: Seq<MountView>, path: Seq<char>)
    ensures
        match best_mount(es, path, es.len() as int) {
            Some(i) => {
                &&& 0 <= i < es.len()
                &&& covers(es[i].0, path)
                &&& byte_len(es[i].0) > 0
                &&& forall|j: int|
                    0 <= j < es.len() && covers(#[trigger] es[j].0, path) ==> byte_len(es[j].0) <= byte_len(es[i].0)
                &&& forall|j: int|
                    0 <= j < i && covers(#[trigger] es[j].0, path) ==> byte_len(es[j].0) < byte_len(es[i].0)
            },
            None => forall|j: int|
                0 <= j < es.len() && covers(#[trigger] es[j].0, path) ==> byte_len(es[j].0) == 0,
        },
{
    lemma_best_mount_longest_upto(es, path, es.len() as int);
}

proof fn lemma_best_mount_longest_upto(es: Seq<MountView>, path: Seq<char>, n: int)
    requires
        0 <= n <= es.len(),
    ensures
        match best_mount(es, path, n) {
            Some(i) => {
                &&& 0 <= i < n
                &&& covers(es[i].0, path)
                &&& byte_len(es[i].0) > 0
                &&& forall|j: int| 0 <= j < n && covers(#[trigger] es[j].0, path) ==> byte_len(es[j].0) <= byte_len(es[i].0)
                &&& forall|j: int| 0 <= j < i && covers(#[trigger] es[j].0, path) ==> byte_len(es[j].0) < byte_len(es[i].0)
            },
            None => forall|j: int| 0 <= j < n && covers(#[trigger] es[j].0, path) ==> byte_len(es[j].0) <= 0,
        },
    decreases n,
{
    if n > 0 {
        lemma_best_mount_longest_upto(es, path, n - 1);
        assert(byte_len(es[n - 1].0) >= 0);
    }
}

proof fn lemma_nonempty(s: Seq<char>)
    requires
        byte_len(s) > 0,
    ensures
        s.len() > 0,
{
    if s.len() == 0 {
        assert(s =~= Seq::<char>::empty());
        assert(vstd::utf8::encode_utf8(s).len() == 0) by {
            reveal_with_fuel(vstd::utf8::encode_utf8, 2);
        }
    }
}

impl MountTable {
    /// The mounts, in table order.
    pub open spec fn view_entries(&self) -> Seq<MountView> {
        self.entries@.map_values(|e: MountEntry| mount_view(e))
    }

    /// An empty table.
    pub fn new() -> (r: Self)
        ensures
            r.view_entries().len() == 0,
    {
        MountTable { entries: Vec::new() }
    }

    fn byte_len_of(s: &String) -> (r: usize)
        ensures
            r == byte_len(s@),
    {
        s.as_str().len()
    }

    /// Mounts `target` at `prefix`, keeping the table in descending order
    /// of prefix length (a new mount goes after those at least as long); an
    /// identical mount is not added twice.
    pub fn bind(&mut self, prefix: &str, target: &str)
        requires
            sorted_by_len(old(self).view_entries()),
        ensures
            sorted_by_len(final(self).view_entries()),
            old(self).view_entries().contains((prefix@, target@)) ==> final(self).view_entries()
                == old(self).view_entries(),
            !old(self).view_entries().contains((prefix@, target@)) ==> final(self).view_entries()
                == old(self).view_entries().insert(
                bind_pos(old(self).view_entries(), byte_len(prefix@)),
                (prefix@, target@),
            ),
    {
        let mut i: usize = 0;
        while i < self.entries.len()
            invariant
                i <= self.entries@.len(),
                self.view_entries() == old(self).view_entries(),
                sorted_by_len(self.view_entries()),
                forall|k: int| 0 <= k < i ==> #[trigger] self.view_entries()[k] != (prefix@, target@),
            decreases self.entries@.len() - i,
        {
            if str_eq(self.entries[i].prefix.as_str(), prefix) && str_eq(self.entries[i].target.as_str(), target) {
                proof {
                    assert(self.view_entries()[i as int] == (prefix@, target@));
                }
                return;
            }
            i = i + 1;
        }
        let entry = MountEntry { prefix: prefix.to_owned(), target: target.to_owned() };
        let l = Self::byte_len_of(&entry.prefix);
        let ghost es = self.view_entries();
        let mut p: usize = 0;
        proof {
            assert(es.subrange(0, es.len() as int) =~= es);
        }
        while p < self.entries.len() && Self::byte_len_of(&self.entries[p].prefix) >= l
            invariant
                p <= self.entries@.len(),
                es == self.view_entries(),
                bind_pos(es, l as int) == p + bind_pos(es.subrange(p as int, es.len() as int), l as int),
            decreases self.entries@.len() - p,
        {
            proof {
                let rest = es.subrange(p as int, es.len() as int);
                assert(rest.drop_first() =~= es.subrange(p + 1, es.len() as int));
            }
            p = p + 1;
        }
        proof {
            let rest = es.subrange(p as int, es.len() as int);
            if p < es.len() {
                assert(rest[0] == es[p as int]);
            }
            assert(!es.contains((prefix@, target@))) by {
                if es.contains((prefix@, target@)) {
                    let k = choose|k: int| 0 <= k < es.len() && es[k] == (prefix@, target@);
                    assert(self.view_entries()[k] != (prefix@, target@));
                }
            }
        }
        self.entries.insert(p, entry);
        proof {
            assert(self.view_entries() =~= es.insert(p as int, (prefix@, target@)));
            lemma_bind_pos_split(es, l as int);
            assert forall|a: int, b: int| 0 <= a <= b < self.view_entries().len() implies byte_len(self.view_entries()[a].0)
                >= byte_len(self.view_entries()[b].0) by {
                let v = self.view_entries();
                if a < p && b > p {
                    assert(v[b] == es[b - 1]);
                } else if a < p && b == p {
                } else if a == p && b > p {
                    assert(v[b] == es[b - 1]);
                } else if a > p {
                    assert(v[a] == es[a - 1]);
                    assert(v[b] == es[b - 1]);
                }
            }
        }
    }

    fn canonicalize_slashes(path: &str) -> (r: String)
        ensures
            r@ == collapse_slashes(path@),
    {
        let n = path.unicode_len();
        let mut canonical = String::new();
        let mut previous_was_slash = false;
        let mut i: usize = 0;
        proof {
            assert(canonical@ =~= collapse_slashes(path@.subrange(0, 0)));
        }
        while i < n
            invariant
                n == path@.len(),
                i <= n,
                canonical@ == collapse_slashes(path@.subrange(0, i as int)),
                previous_was_slash == (i > 0 && path@[i - 1] == '/'),
            decreases n - i,
        {
            let ch = path.get_char(i);
            proof {
                let pre = path@.subrange(0, i + 1);
                assert(pre.drop_last() =~= path@.subrange(0, i as int));
                assert(pre.last() == ch);
                if i > 0 {
                    assert(pre[pre.len() - 2] == path@[i - 1]);
                }
            }
            if ch == '/' {
                if !previous_was_slash {
                    canonical.append(path.substring_char(i, i + 1));
                }
                previous_was_slash = true;
            } else {
                canonical.append(path.substring_char(i, i + 1));
                previous_was_slash = false;
            }
            proof {
                assert(path@.subrange(i as int, i + 1) =~= seq![ch]);
            }
            i = i + 1;
        }
        proof {
            assert(path@.subrange(0, n as int) =~= path@);
        }
        canonical
    }

    /// The first mount with the longest nonempty prefix covering `path`.
    pub fn find_mount(&self, path: &str) -> (r: Option<MountEntry>)
        ensures
            match best_mount(self.view_entries(), path@, self.view_entries().len() as int) {
                None => r is None,
                Some(i) => r matches Some(e) && mount_view(e) == self.view_entries()[i],
            },
    {
        let mut best: Option<usize> = None;
        let mut best_len: usize = 0;
        let mut i: usize = 0;
        while i < self.entries.len()
            invariant
                i <= self.entries@.len(),
                match best_mount(self.view_entries(), path@, i as int) {
                    Some(k) => best == Some(k as usize),
                    None => best is None,
                },
                best_len == match best_mount(self.view_entries(), path@, i as int) {
                    Some(k) => byte_len(self.view_entries()[k].0),
                    None => 0,
                },
                best_mount(self.view_entries(), path@, i as int) matches Some(k) ==> 0 <= k < i,
            decreases self.entries@.len() - i,
        {
            proof {
                lemma_best_mount_bound(self.view_entries(), path@, i as int);
            }
            let l = Self::byte_len_of(&self.entries[i].prefix);
            if l != 0 {
                if covers_exec(self.entries[i].prefix.as_str(), path) && l > best_len {
                    best_len = l;
                    best = Some(i);
                }
            }
            i = i + 1;
        }
        match best {
            Some(k) => {
                let e = MountEntry {
                    prefix: clone_string(&self.entries[k].prefix),
                    target: clone_string(&self.entries[k].target),
                };
                Some(e)
            },
            None => None,
        }
    }

    /// Resolves `path` through the mounts (see `resolve_spec`); never
    /// fails.
    pub fn resolve(&self, path: &str) -> (r: Result<String, &'static str>)
        ensures
            r matches Ok(s) && s@ == resolve_spec(self.view_entries(), path@),
        decreases path@.len(),
    {
        match self.find_mount(path) {
            Some(entry) => {
                let ghost es = self.view_entries();
                let ghost i = best_mount(es, path@, es.len() as int).unwrap();
                proof {
                    lemma_best_mount_bound(es, path@, es.len() as int);
                    lemma_nonempty(es[i].0);
                    if es[i].0 == seq!['/'] {
                        assert(es[i].0.len() == 1);
                    }
                }
                let pl = entry.prefix.as_str().unicode_len();
                let n = path.unicode_len();
                let remaining = path.substring_char(pl, n);
                let suffix = match self.resolve(remaining) {
                    Ok(s) => s,
                    Err(e) => return Err(e),
                };
                let mut result = clone_string(&entry.target);
                result.append(":");
                result.append(suffix.as_str());
                proof {
                    reveal_strlit(":");
                }
                Ok(result)
            },
            None => Ok(Self::canonicalize_slashes(path)),
        }
    }

    /// Removes every mount at `prefix`; tells whether there was one.
    pub fn unmount(&mut self, prefix: &str) -> (r: bool)
        ensures
            final(self).view_entries() == old(self).view_entries().filter(not_at(prefix@)),
            r == (final(self).view_entries().len() < old(self).view_entries().len()),
            sorted_by_len(old(self).view_entries()) ==> sorted_by_len(final(self).view_entries()),
    {
        let ghost es = self.view_entries();
        let mut kept: Vec<MountEntry> = Vec::new();
        let mut i: usize = 0;
        let previous_len = self.entries.len();
        while i < self.entries.len()
            invariant
                i <= self.entries@.len(),
                es == self.view_entries(),
                previous_len == es.len(),
                kept@.map_values(|e: MountEntry| mount_view(e)) == es.subrange(0, i as int).filter(not_at(prefix@)),
            decreases self.entries@.len() - i,
        {
            proof {
                let pre = es.subrange(0, i + 1);
                assert(pre.drop_last() =~= es.subrange(0, i as int));
                reveal(Seq::filter);
            }
            if !str_eq(self.entries[i].prefix.as_str(), prefix) {
                let e = MountEntry {
                    prefix: clone_string(&self.entries[i].prefix),
                    target: clone_string(&self.entries[i].target),
                };
                kept.push(e);
                proof {
                    assert(kept@.map_values(|e: MountEntry| mount_view(e)) =~= es.subrange(0, i as int).filter(not_at(prefix@)).push(es[i as int]));
                }
            }
            i = i + 1;
        }
        proof {
            assert(es.subrange(0, i as int) =~= es);
            if sorted_by_len(es) {
                lemma_filter_sorted(es, prefix@);
            }
        }
        self.entries = kept;
        self.entries.len() < previous_len
    }

    /// `(prefix, target)` of every mount, in table order.
    pub fn list_mounts(&self) -> (r: Vec<(String, String)>)
        ensures
            r@.len() == self.view_entries().len(),
            forall|k: int| 0 <= k < r@.len() ==> (#[trigger] r@[k]).0@ == self.view_entries()[k].0 && r@[k].1@ == self.view_entries()[k].1,
    {
        let mut out: Vec<(String, String)> = Vec::new();
        let mut i: usize = 0;
        while i < self.entries.len()
            invariant
                i <= self.entries@.len(),
                out@.len() == i,
                forall|k: int| 0 <= k < i ==> (#[trigger] out@[k]).0@ == self.view_entries()[k].0 && out@[k].1@ == self.view_entries()[k].1,
            decreases self.entries@.len() - i,
        {
            out.push((clone_string(&self.entries[i].prefix), clone_string(&self.entries[i].target)));
            i = i + 1;
        }
        out
    }

    /// Number of mounts.
    pub fn mount_count(&self) -> (r: usize)
        ensures
            r == self.view_entries().len(),
    {
        self.entries.len()
    }

    /// Whether some mount has exactly this prefix.
    pub fn has_prefix(&self, prefix: &str) -> (r: bool)
        ensures
            r == exists|k: int| 0 <= k < self.view_entries().len() && self.view_entries()[k].0 == prefix@,
    {
        let mut i: usize = 0;
        while i < self.entries.len()
            invariant
                i <= self.entries@.len(),
                forall|k: int| 0 <= k < i ==> self.view_entries()[k].0 != prefix@,
            decreases self.entries@.len() - i,
        {
            if str_eq(self.entries[i].prefix.as_str(), prefix) {
                proof {
                    assert(self.view_entries()[i as int].0 == prefix@);
                }
                return true;
            }
            i = i + 1;
        }
        false
    }
}

proof fn lemma_bind_pos_split(es: Seq<MountView>, l: int)
    requires
        sorted_by_len(es),
    ensures
        0 <= bind_pos(es, l) <= es.len(),
        forall|k: int| 0 <= k < bind_pos(es, l) ==> byte_len(#[trigger] es[k].0) >= l,
        forall|k: int| bind_pos(es, l) <= k < es.len() ==> byte_len(#[trigger] es[k].0) < l,
    decreases es.len(),
{
    if es.len() > 0 && byte_len(es[0].0) >= l {
        let d = es.drop_first();
        assert forall|i: int, j: int| 0 <= i <= j < d.len() implies byte_len(d[i].0) >= byte_len(d[j].0) by {
            assert(d[i] == es[i + 1]);
            assert(d[j] == es[j + 1]);
        }
        lemma_bind_pos_split(d, l);
        assert forall|k: int| 0 <= k < bind_pos(es, l) implies byte_len(#[trigger] es[k].0) >= l by {
            if k > 0 {
                assert(es[k] == d[k - 1]);
            }
        }
        assert forall|k: int| bind_pos(es, l) <= k < es.len() implies byte_len(#[trigger] es[k].0) < l by {
            assert(es[k] == d[k - 1]);
        }
    } else if es.len() > 0 {
        assert forall|k: int| 0 <= k < es.len() implies byte_len(#[trigger] es[k].0) < l by {
            assert(byte_len(es[0].0) >= byte_len(es[k].0));
        }
    }
}

proof fn lemma_filter_sorted(es: Seq<MountView>, p: Seq<char>)
    requires
        sorted_by_len(es),
    ensures
        sorted_by_len(es.filter(not_at(p))),
{
    let f = es.filter(not_at(p));
    assert forall|i: int, j: int| 0 <= i <= j < f.len() implies byte_len(f[i].0) >= byte_len(f[j].0) by {
        lemma_filter_index_mono(es, p, i, j);
    }
}

proof fn lemma_filter_index_mono(es: Seq<MountView>, p: Seq<char>, i: int, j: int)
    requires
        0 <= i <= j < es.filter(not_at(p)).len(),
    ensures
        exists|a: int, b: int|
            0 <= a <= b < es.len() && es[a] == es.filter(not_at(p))[i] && es[b] == es.filter(not_at(p))[j],
    decreases es.len(),
{
    reveal(Seq::filter);
    let pr = not_at(p);
    let d = es.drop_last();
    let fd = d.filter(pr);
    if pr(es.last()) && j == fd.len() {
        if i == j {
            assert(es[es.len() - 1] == es.filter(pr)[i]);
        } else {
            let k = i;
            assert(fd.contains(fd[k]));
            Seq::lemma_filter_contains_rev(d, pr, fd[k]);
            let a = choose|a: int| 0 <= a < d.len() && d[a] == fd[k];
            assert(es[a] == es.filter(pr)[i]);
            assert(es[es.len() - 1] == es.filter(pr)[j]);
        }
    } else {
        lemma_filter_index_mono(d, p, i, j);
        let (a, b) = choose|a: int, b: int| 0 <= a <= b < d.len() && d[a] == fd[i] && d[b] == fd[j];
        assert(es[a] == d[a]);
        assert(es[b] == d[b]);
    }
}

} // verus!

//! What is remembered of the paths that were asked about last.

use crate::apfs::types::FileStat;
use lru::LruCache;
use std::num::NonZeroUsize;
use vstd::prelude::*;

verus! {

/// How many paths are remembered.
pub const STAT_CACHE_CAPACITY: usize = 4096;

/// Cached metadata for a path.
pub struct CachedStat {
    pub stat: FileStat,
    /// Extent map for files; empty for directories.
    pub extent_map: Vec<(u64, u64, u64)>,
    /// Logical file size; 0 for directories.
    pub file_size: u64,
    /// Whether the extent map was looked up. It is empty where the metadata
    /// came with a directory listing.
    pub extents_resolved: bool,
}

/// The contents of a [`CachedStat`].
#[verifier::ext_equal]
pub struct CachedView {
    pub stat: FileStat,
    pub extent_map: Seq<(u64, u64, u64)>,
    pub file_size: u64,
    pub extents_resolved: bool,
}

impl View for CachedStat {
    type V = CachedView;

    open spec fn view(&self) -> CachedView {
        CachedView {
            stat: self.stat,
            extent_map: self.extent_map@,
            file_size: self.file_size,
            extents_resolved: self.extents_resolved,
        }
    }
}

/// A copy of an extent map.
pub fn copy_spans(m: &[(u64, u64, u64)]) -> (v: Vec<(u64, u64, u64)>)
    ensures
        v@ == m@,
{
    let mut v: Vec<(u64, u64, u64)> = Vec::new();
    let mut i: usize = 0;
    while i < m.len()
        invariant
            i <= m.len(),
            v@ == m@.take(i as int),
        decreases m.len() - i,
    {
        v.push(m[i]);
        assert(v@ =~= m@.take(i + 1));
        i += 1;
    }
    assert(v@ =~= m@);
    v
}

impl Clone for CachedStat {
    fn clone(&self) -> (r: Self)
        ensures
            r@ == self@,
    {
        CachedStat {
            stat: self.stat,
            extent_map: copy_spans(self.extent_map.as_slice()),
            file_size: self.file_size,
            extents_resolved: self.extents_resolved,
        }
    }
}

/// `lru::LruCache`.
#[verifier::external_type_specification]
#[verifier::external_body]
#[verifier::reject_recursive_types(K)]
#[verifier::reject_recursive_types(V)]
#[verifier::reject_recursive_types(S)]
pub struct ExLruCache<K, V, S>(LruCache<K, V, S>);

/// The hasher of an `lru::LruCache` that is made with `LruCache::new`.
#[verifier::external_type_specification]
#[verifier::external_body]
pub struct ExDefaultHasher(lru::DefaultHasher);

/// What a cache remembers, the path that was used last in front.
pub uninterp spec fn remembered(c: LruCache<String, CachedStat>) -> Seq<(Seq<char>, CachedView)>;

/// How many paths a cache remembers at most.
pub uninterp spec fn capacity(c: LruCache<String, CachedStat>) -> nat;

/// What is remembered of `path`.
pub open spec fn recalled(s: Seq<(Seq<char>, CachedView)>, path: Seq<char>) -> Option<CachedView>
    decreases s.len(),
{
    if s.len() == 0 {
        None
    } else if s[0].0 == path {
        Some(s[0].1)
    } else {
        recalled(s.skip(1), path)
    }
}

/// Everything but what is remembered of `path`.
pub open spec fn forgotten(s: Seq<(Seq<char>, CachedView)>, path: Seq<char>) -> Seq<
    (Seq<char>, CachedView),
>
    decreases s.len(),
{
    if s.len() == 0 {
        s
    } else if s[0].0 == path {
        forgotten(s.skip(1), path)
    } else {
        seq![s[0]] + forgotten(s.skip(1), path)
    }
}

/// After `path` was used.
pub open spec fn used(s: Seq<(Seq<char>, CachedView)>, path: Seq<char>) -> Seq<
    (Seq<char>, CachedView),
> {
    match recalled(s, path) {
        Some(v) => seq![(path, v)] + forgotten(s, path),
        None => s,
    }
}

/// After `v` was noted of `path` in a cache for `cap` paths. Where a new path
/// finds the cache full, the one not used for longest is given up.
pub open spec fn noted(
    s: Seq<(Seq<char>, CachedView)>,
    cap: nat,
    path: Seq<char>,
    v: CachedView,
) -> Seq<(Seq<char>, CachedView)> {
    if recalled(s, path) is Some {
        seq![(path, v)] + forgotten(s, path)
    } else if s.len() == cap && s.len() > 0 {
        seq![(path, v)] + s.drop_last()
    } else {
        seq![(path, v)] + s
    }
}

/// `LruCache::new`: an empty cache for `cap` paths. It makes room for all of
/// them at once, so the number is bounded.
#[verifier::external_body]
pub(crate) fn new_cache(cap: usize) -> (c: LruCache<String, CachedStat>)
    requires
        0 < cap <= STAT_CACHE_CAPACITY,
    ensures
        remembered(c) == Seq::<(Seq<char>, CachedView)>::empty(),
        capacity(c) == cap,
{
    LruCache::new(NonZeroUsize::new(cap).unwrap())
}

/// `LruCache::get`: the value of the key, which becomes the one used last.
#[verifier::external_body]
pub(crate) fn cache_get<'a>(c: &'a mut LruCache<String, CachedStat>, path: &str) -> (r: Option<
    &'a CachedStat,
>)
    ensures
        match r {
            Some(x) => recalled(remembered(*old(c)), path@) == Some(x@),
            None => recalled(remembered(*old(c)), path@) is None,
        },
        remembered(*final(c)) == used(remembered(*old(c)), path@),
        capacity(*final(c)) == capacity(*old(c)),
{
    c.get(path)
}

/// `LruCache::put`: the key with its value becomes the one used last. A new
/// key that finds the cache full takes the place of the one not used for
/// longest.
#[verifier::external_body]
pub(crate) fn cache_put(c: &mut LruCache<String, CachedStat>, path: String, v: CachedStat)
    ensures
        remembered(*final(c)) == noted(remembered(*old(c)), capacity(*old(c)), path@, v@),
        capacity(*final(c)) == capacity(*old(c)),
{
    c.put(path, v);
}

/// `LruCache::pop`: the key is removed.
#[verifier::external_body]
pub(crate) fn cache_pop(c: &mut LruCache<String, CachedStat>, path: &str)
    ensures
        remembered(*final(c)) == forgotten(remembered(*old(c)), path@),
        capacity(*final(c)) == capacity(*old(c)),
{
    c.pop(path);
}

/// `LruCache::contains`: whether the key is there. Nothing is moved.
#[verifier::external_body]
pub(crate) fn cache_contains(c: &LruCache<String, CachedStat>, path: &str) -> (r: bool)
    ensures
        r == (recalled(remembered(*c), path@) is Some),
{
    c.contains(path)
}

/// No path is remembered twice, and no more than `cap` of them.
pub open spec fn orderly(s: Seq<(Seq<char>, CachedView)>, cap: nat) -> bool {
    &&& s.len() <= cap
    &&& forall|i: int, j: int| 0 <= i < j < s.len() ==> (#[trigger] s[i]).0 != (#[trigger] s[j]).0
}

proof fn lemma_forgotten(s: Seq<(Seq<char>, CachedView)>, path: Seq<char>)
    ensures
        forgotten(s, path).len() <= s.len(),
        recalled(s, path) is Some ==> forgotten(s, path).len() < s.len(),
        recalled(s, path) is None ==> forgotten(s, path) == s,
        recalled(forgotten(s, path), path) is None,
        forall|i: int|
            0 <= i < forgotten(s, path).len() ==> (#[trigger] forgotten(s, path)[i]).0 != path,
        forall|i: int|
            0 <= i < forgotten(s, path).len() ==> s.contains(#[trigger] forgotten(s, path)[i]),
    decreases s.len(),
{
    if s.len() > 0 {
        let t = s.skip(1);
        lemma_forgotten(t, path);
        let f = forgotten(s, path);
        if s[0].0 == path {
            assert forall|i: int| 0 <= i < f.len() implies s.contains(#[trigger] f[i]) by {
                let k = choose|k: int| 0 <= k < t.len() && t[k] == f[i];
                assert(s[k + 1] == f[i]);
            }
        } else {
            let g = forgotten(t, path);
            assert(f.skip(1) =~= g);
            if recalled(s, path) is None {
                assert(f =~= s);
            }
            assert forall|i: int| 0 <= i < f.len() implies (#[trigger] f[i]).0 != path by {
                if i > 0 {
                    assert(f[i] == g[i - 1]);
                }
            }
            assert forall|i: int| 0 <= i < f.len() implies s.contains(#[trigger] f[i]) by {
                if i == 0 {
                    assert(f[i] == s[0]);
                } else {
                    assert(f[i] == g[i - 1]);
                    let k = choose|k: int| 0 <= k < t.len() && t[k] == g[i - 1];
                    assert(s[k + 1] == f[i]);
                }
            }
        }
    }
}

proof fn lemma_forgotten_distinct(s: Seq<(Seq<char>, CachedView)>, path: Seq<char>, cap: nat)
    requires
        orderly(s, cap),
    ensures
        orderly(forgotten(s, path), cap),
    decreases s.len(),
{
    lemma_forgotten(s, path);
    if s.len() > 0 {
        let t = s.skip(1);
        assert forall|i: int, j: int| 0 <= i < j < t.len() implies (#[trigger] t[i]).0 != (
        #[trigger] t[j]).0 by {
            assert(t[i] == s[i + 1] && t[j] == s[j + 1]);
        }
        lemma_forgotten_distinct(t, path, cap);
        lemma_forgotten(t, path);
        let g = forgotten(t, path);
        let f = forgotten(s, path);
        if s[0].0 != path {
            assert forall|i: int, j: int| 0 <= i < j < f.len() implies (#[trigger] f[i]).0 != (
            #[trigger] f[j]).0 by {
                assert(f[j] == g[j - 1]);
                if i == 0 {
                    let k = choose|k: int| 0 <= k < t.len() && t[k] == g[j - 1];
                    assert(s[k + 1] == t[k]);
                } else {
                    assert(f[i] == g[i - 1]);
                }
            }
        }
    }
}

proof fn lemma_recalled(s: Seq<(Seq<char>, CachedView)>, path: Seq<char>, i: int)
    requires
        recalled(s, path) is None,
        0 <= i < s.len(),
    ensures
        s[i].0 != path,
    decreases s.len(),
{
    if i > 0 {
        lemma_recalled(s.skip(1), path, i - 1);
        assert(s.skip(1)[i - 1] == s[i]);
    }
}

/// The cache never holds more paths than it has room for, nor one twice,
/// whatever is looked up, noted or removed.
pub proof fn law_cache_stays_orderly(
    s: Seq<(Seq<char>, CachedView)>,
    cap: nat,
    path: Seq<char>,
    v: CachedView,
)
    requires
        orderly(s, cap),
        cap > 0,
    ensures
        orderly(used(s, path), cap),
        orderly(noted(s, cap, path, v), cap),
        orderly(forgotten(s, path), cap),
{
    lemma_forgotten(s, path);
    lemma_forgotten_distinct(s, path, cap);
    let f = forgotten(s, path);
    let n = noted(s, cap, path, v);
    if recalled(s, path) is None {
        assert forall|i: int, j: int| 0 <= i < j < n.len() implies (#[trigger] n[i]).0 != (
        #[trigger] n[j]).0 by {
            assert(n[j] == s[j - 1]);
            lemma_recalled(s, path, j - 1);
            if i > 0 {
                assert(n[i] == s[i - 1]);
            }
        }
    }
}

/// What is noted of a path is recalled next, and removing the path is
/// forgetting it.
pub proof fn law_noted_is_recalled(
    s: Seq<(Seq<char>, CachedView)>,
    cap: nat,
    path: Seq<char>,
    v: CachedView,
)
    ensures
        recalled(noted(s, cap, path, v), path) == Some(v),
        recalled(used(s, path), path) == recalled(s, path),
        recalled(forgotten(s, path), path) is None,
{
    lemma_forgotten(s, path);
}

proof fn lemma_forgotten_others(s: Seq<(Seq<char>, CachedView)>, path: Seq<char>, other: Seq<char>)
    requires
        other != path,
    ensures
        recalled(forgotten(s, path), other) == recalled(s, other),
    decreases s.len(),
{
    if s.len() > 0 {
        lemma_forgotten_others(s.skip(1), path, other);
        if s[0].0 != path {
            assert(forgotten(s, path).skip(1) =~= forgotten(s.skip(1), path));
        }
    }
}

/// What is looked up, noted or removed of one path leaves what is remembered
/// of another, unless the cache is full: then one path may be given up.
pub proof fn law_other_paths_are_kept(
    s: Seq<(Seq<char>, CachedView)>,
    cap: nat,
    path: Seq<char>,
    v: CachedView,
    other: Seq<char>,
)
    requires
        other != path,
    ensures
        recalled(used(s, path), other) == recalled(s, other),
        recalled(forgotten(s, path), other) == recalled(s, other),
        s.len() < cap ==> recalled(noted(s, cap, path, v), other) == recalled(s, other),
        s.len() < cap ==> noted(s, cap, path, v).len() <= s.len() + 1,
{
    lemma_forgotten(s, path);
    lemma_forgotten_others(s, path, other);
    let f = forgotten(s, path);
    assert(forall|x: CachedView| (seq![(path, x)] + f).skip(1) =~= f);
    assert((seq![(path, v)] + s).skip(1) =~= s);
}

/// A new path that finds the cache full takes the place of the path that was
/// not used for longest, and of no other. It is the one used last from then on.
pub proof fn law_full_cache_gives_up_the_oldest(
    s: Seq<(Seq<char>, CachedView)>,
    cap: nat,
    path: Seq<char>,
    v: CachedView,
)
    requires
        s.len() == cap,
        cap > 0,
        recalled(s, path) is None,
    ensures
        ({
            let n = noted(s, cap, path, v);
            &&& n.len() == cap
            &&& n[0] == (path, v)
            &&& forall|i: int| 0 <= i < cap - 1 ==> #[trigger] n[i + 1] == s[i]
        }),
{
}

/// A path that is looked up is the one used last from then on.
pub proof fn law_looked_up_path_is_used_last(s: Seq<(Seq<char>, CachedView)>, path: Seq<char>)
    ensures
        recalled(s, path) matches Some(v) ==> used(s, path)[0] == (path, v),
        recalled(s, path) is None ==> used(s, path) == s,
{
}

} // verus!

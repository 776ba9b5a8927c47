//! Walks through directories, and what an entry more or less means for them.

use crate::apfs::error::Fault;
use crate::apfs::catalog::records::ROOT_DIR_RECORD;
use crate::apfs::types::{DirEntryView, EntryKind, WalkEntryView};
use crate::apfs::volume::listing::walked;
use crate::apfs::volume::read::{walked_path, WALK_DEPTH_LIMIT};
use crate::apfs::volume::state::VolumeView;
use vstd::prelude::*;

verus! {

/// The entries of each directory.
pub type Dirs = spec_fn(u64) -> Result<Seq<DirEntryView>, Fault>;

/// A walk through the entries of a directory from `i` on.
pub open spec fn walk_list(
    dirs: Dirs,
    list: Seq<DirEntryView>,
    i: int,
    parent: Seq<char>,
    levels: u32,
) -> Result<Seq<WalkEntryView>, Fault>
    decreases levels, list.len() - i,
{
    if i >= list.len() || i < 0 {
        Ok(seq![])
    } else {
        match walk_below(dirs, list[i], walked_path(parent, list[i].name), levels) {
            Err(e) => Err(e),
            Ok(below) => match walk_list(dirs, list, i + 1, parent, levels) {
                Err(e) => Err(e),
                Ok(rest) => Ok(seq![walked(parent, list[i])] + below + rest),
            },
        }
    }
}

/// A walk through everything under an entry.
pub open spec fn walk_below(dirs: Dirs, entry: DirEntryView, path: Seq<char>, levels: u32) -> Result<
    Seq<WalkEntryView>,
    Fault,
>
    decreases levels, 0int,
{
    if entry.kind != EntryKind::Directory {
        Ok(seq![])
    } else if levels == 0 {
        Err(Fault::Internal("walk: directories nest too deep"@))
    } else {
        match dirs(entry.oid) {
            Err(e) => Err(e),
            Ok(list) => walk_list(dirs, list, 0, path, (levels - 1) as u32),
        }
    }
}

/// A walk through everything.
#[verifier::opaque]
pub open spec fn walk_all(dirs: Dirs) -> Result<Seq<WalkEntryView>, Fault> {
    match dirs(ROOT_DIR_RECORD) {
        Err(e) => Err(e),
        Ok(list) => walk_list(dirs, list, 0, seq![], WALK_DEPTH_LIMIT),
    }
}

/// The directories of a volume.
pub open spec fn dirs_of(v: VolumeView) -> Dirs {
    |o: u64| v.directory(o)
}

/// A walk of a volume goes through its directories.
pub proof fn lemma_volume_walk(v: VolumeView)
    ensures
        v.walk() == walk_all(dirs_of(v)),
{
    reveal(walk_all);
    if let Ok(list) = v.directory(ROOT_DIR_RECORD) {
        lemma_volume_list(v, list, 0, seq![], WALK_DEPTH_LIMIT);
    }
}

proof fn lemma_volume_list(
    v: VolumeView,
    list: Seq<DirEntryView>,
    i: int,
    parent: Seq<char>,
    levels: u32,
)
    ensures
        v.walk_entries(list, i, parent, levels) == walk_list(dirs_of(v), list, i, parent, levels),
    decreases levels, list.len() - i,
{
    if 0 <= i < list.len() {
        let path = walked_path(parent, list[i].name);
        if list[i].kind == EntryKind::Directory && levels > 0 {
            if let Ok(inner) = v.directory(list[i].oid) {
                lemma_volume_list(v, inner, 0, path, (levels - 1) as u32);
            }
        }
        lemma_volume_list(v, list, i + 1, parent, levels);
        assert(v.walk_under(list[i], path, levels) == walk_below(
            dirs_of(v),
            list[i],
            path,
            levels,
        ));
    }
}

/// Whether an entry of a walk is the directory `dir`.
pub open spec fn is_directory(y: WalkEntryView, dir: u64) -> bool {
    y.entry.oid == dir && y.entry.kind == EntryKind::Directory
}

/// Whether a walk shows `x` for the entry `e` of a directory at `parent`: the
/// entry itself, or what is under it.
pub open spec fn shown(dirs: Dirs, e: DirEntryView, parent: Seq<char>, x: WalkEntryView) -> bool {
    exists|levels: u32|
        (#[trigger] walk_list(dirs, seq![e], 0, parent, levels)) matches Ok(s) && s.contains(x)
}

/// Whether `x` is shown for the entry `e` under a place where a walk has the
/// directory `dir`.
pub open spec fn gained(
    dirs: Dirs,
    all: Seq<WalkEntryView>,
    dir: u64,
    e: DirEntryView,
    x: WalkEntryView,
) -> bool {
    exists|y: WalkEntryView| #[trigger]
        all.contains(y) && is_directory(y, dir) && shown(dirs, e, y.path, x)
}

/// Whether a walk has gained what is shown for the entry `e` of `dir`, and
/// nothing else.
pub open spec fn grown_by(
    dirs: Dirs,
    was: Seq<WalkEntryView>,
    now: Seq<WalkEntryView>,
    dir: u64,
    e: DirEntryView,
) -> bool {
    forall|x: WalkEntryView| #[trigger]
        now.contains(x) == (was.contains(x) || gained(dirs, was, dir, e, x))
}

/// The same of a walk that starts at the root, which may be `dir` itself.
#[verifier::opaque]
pub open spec fn all_grown_by(
    dirs: Dirs,
    was: Seq<WalkEntryView>,
    now: Seq<WalkEntryView>,
    dir: u64,
    e: DirEntryView,
) -> bool {
    forall|x: WalkEntryView| #[trigger]
        now.contains(x) == (was.contains(x) || gained(dirs, was, dir, e, x) || (dir
            == ROOT_DIR_RECORD && shown(dirs, e, seq![], x)))
}

/// Whether the directories of `w` are those of `v`, with the entry `e` put
/// into `dir` between `a` and `b`.
pub open spec fn entry_put(
    v: Dirs,
    w: Dirs,
    dir: u64,
    a: Seq<DirEntryView>,
    e: DirEntryView,
    b: Seq<DirEntryView>,
) -> bool {
    &&& forall|o: u64| o != dir ==> #[trigger] w(o) == v(o)
    &&& v(dir) == Ok::<Seq<DirEntryView>, Fault>(a + b)
    &&& w(dir) == Ok::<Seq<DirEntryView>, Fault>(a + seq![e] + b)
}

proof fn lemma_cat_has(a: Seq<WalkEntryView>, b: Seq<WalkEntryView>, x: WalkEntryView)
    ensures
        (a + b).contains(x) == (a.contains(x) || b.contains(x)),
{
    if a.contains(x) {
        let i = choose|i: int| 0 <= i < a.len() && a[i] == x;
        assert((a + b)[i] == x);
    }
    if b.contains(x) {
        let i = choose|i: int| 0 <= i < b.len() && b[i] == x;
        assert((a + b)[a.len() + i] == x);
    }
    if (a + b).contains(x) {
        let i = choose|i: int| 0 <= i < (a + b).len() && (a + b)[i] == x;
        if i < a.len() {
            assert(a[i] == x);
        } else {
            assert(b[i - a.len()] == x);
        }
    }
}

proof fn lemma_cat_gained(
    dirs: Dirs,
    a: Seq<WalkEntryView>,
    b: Seq<WalkEntryView>,
    dir: u64,
    e: DirEntryView,
    x: WalkEntryView,
)
    ensures
        gained(dirs, a + b, dir, e, x) == (gained(dirs, a, dir, e, x) || gained(
            dirs,
            b,
            dir,
            e,
            x,
        )),
{
    if gained(dirs, a + b, dir, e, x) {
        let y = choose|y: WalkEntryView| #[trigger]
            (a + b).contains(y) && is_directory(y, dir) && shown(dirs, e, y.path, x);
        lemma_cat_has(a, b, y);
    }
    if gained(dirs, a, dir, e, x) {
        let y = choose|y: WalkEntryView| #[trigger]
            a.contains(y) && is_directory(y, dir) && shown(dirs, e, y.path, x);
        lemma_cat_has(a, b, y);
    }
    if gained(dirs, b, dir, e, x) {
        let y = choose|y: WalkEntryView| #[trigger]
            b.contains(y) && is_directory(y, dir) && shown(dirs, e, y.path, x);
        lemma_cat_has(a, b, y);
    }
}

/// Two parts of a walk that gained the entry make a walk that gained it.
proof fn lemma_cat_grown(
    dirs: Dirs,
    a: Seq<WalkEntryView>,
    b: Seq<WalkEntryView>,
    c: Seq<WalkEntryView>,
    d: Seq<WalkEntryView>,
    dir: u64,
    e: DirEntryView,
)
    requires
        grown_by(dirs, a, c, dir, e),
        grown_by(dirs, b, d, dir, e),
    ensures
        grown_by(dirs, a + b, c + d, dir, e),
{
    assert forall|x: WalkEntryView| #[trigger] (c + d).contains(x) == ((a + b).contains(x)
        || gained(dirs, a + b, dir, e, x)) by {
        lemma_cat_has(a, b, x);
        lemma_cat_has(c, d, x);
        lemma_cat_gained(dirs, a, b, dir, e, x);
    }
}

/// A walk through entries goes through one part of them and then the other.
proof fn lemma_walk_parts(
    dirs: Dirs,
    a: Seq<DirEntryView>,
    b: Seq<DirEntryView>,
    i: int,
    parent: Seq<char>,
    levels: u32,
)
    requires
        0 <= i <= a.len(),
    ensures
        walk_list(dirs, a + b, i, parent, levels) is Ok ==> walk_list(
            dirs,
            a,
            i,
            parent,
            levels,
        ) is Ok && walk_list(dirs, b, 0, parent, levels) is Ok,
        walk_list(dirs, a, i, parent, levels) is Ok && walk_list(dirs, b, 0, parent, levels) is Ok
            ==> walk_list(dirs, a + b, i, parent, levels) == Ok::<Seq<WalkEntryView>, Fault>(
            walk_list(dirs, a, i, parent, levels)->Ok_0 + walk_list(
                dirs,
                b,
                0,
                parent,
                levels,
            )->Ok_0,
        ),
    decreases a.len() - i,
{
    if i < a.len() {
        assert((a + b)[i] == a[i]);
        lemma_walk_parts(dirs, a, b, i + 1, parent, levels);
        if walk_list(dirs, a, i, parent, levels) is Ok && walk_list(
            dirs,
            b,
            0,
            parent,
            levels,
        ) is Ok {
            let path = walked_path(parent, a[i].name);
            let here = seq![walked(parent, a[i])];
            let below = walk_below(dirs, a[i], path, levels)->Ok_0;
            let ra = walk_list(dirs, a, i + 1, parent, levels)->Ok_0;
            let rb = walk_list(dirs, b, 0, parent, levels)->Ok_0;
            assert(here + below + (ra + rb) =~= here + below + ra + rb);
        }
    } else {
        lemma_walk_behind(dirs, a, b, 0, parent, levels);
    }
}

/// A walk through the entries behind others is one through them alone.
proof fn lemma_walk_behind(
    dirs: Dirs,
    a: Seq<DirEntryView>,
    b: Seq<DirEntryView>,
    j: int,
    parent: Seq<char>,
    levels: u32,
)
    requires
        0 <= j <= b.len(),
    ensures
        walk_list(dirs, a + b, a.len() + j, parent, levels) == walk_list(
            dirs,
            b,
            j,
            parent,
            levels,
        ),
    decreases b.len() - j,
{
    if j < b.len() {
        assert((a + b)[a.len() + j] == b[j]);
        lemma_walk_behind(dirs, a, b, j + 1, parent, levels);
    }
}

/// How deep a walk may go does not change what it shows.
proof fn lemma_levels(
    dirs: Dirs,
    list: Seq<DirEntryView>,
    i: int,
    parent: Seq<char>,
    l: u32,
    k: u32,
)
    requires
        walk_list(dirs, list, i, parent, l) is Ok,
        walk_list(dirs, list, i, parent, k) is Ok,
    ensures
        walk_list(dirs, list, i, parent, l) == walk_list(dirs, list, i, parent, k),
    decreases l, list.len() - i,
{
    if 0 <= i < list.len() {
        let path = walked_path(parent, list[i].name);
        assert(walk_below(dirs, list[i], path, l) is Ok);
        assert(walk_below(dirs, list[i], path, k) is Ok);
        if list[i].kind == EntryKind::Directory {
            let inner = dirs(list[i].oid)->Ok_0;
            lemma_levels(dirs, inner, 0, path, (l - 1) as u32, (k - 1) as u32);
        }
        lemma_levels(dirs, list, i + 1, parent, l, k);
    }
}

/// What is shown for an entry is what any walk through it shows.
proof fn lemma_shown(dirs: Dirs, e: DirEntryView, parent: Seq<char>, levels: u32, x: WalkEntryView)
    requires
        walk_list(dirs, seq![e], 0, parent, levels) is Ok,
    ensures
        shown(dirs, e, parent, x) == walk_list(dirs, seq![e], 0, parent, levels)->Ok_0.contains(x),
{
    if shown(dirs, e, parent, x) {
        let k = choose|k: u32|
            (#[trigger] walk_list(dirs, seq![e], 0, parent, k)) matches Ok(s) && s.contains(x);
        lemma_levels(dirs, seq![e], 0, parent, levels, k);
    }
}

/// For an entry that is a file, or a directory without entries, the entry
/// alone is shown.
pub proof fn lemma_shown_alone(dirs: Dirs, e: DirEntryView, parent: Seq<char>, x: WalkEntryView)
    requires
        e.kind == EntryKind::Directory ==> dirs(e.oid) == Ok::<Seq<DirEntryView>, Fault>(seq![]),
    ensures
        shown(dirs, e, parent, x) == (x == walked(parent, e)),
{
    reveal_with_fuel(walk_list, 3);
    let path = walked_path(parent, e.name);
    let none: Seq<WalkEntryView> = seq![];
    let one = seq![walked(parent, e)];
    assert(seq![e][0] == e);
    assert(walk_below(dirs, e, path, 1) == Ok::<Seq<WalkEntryView>, Fault>(none));
    assert(one + none + none =~= one);
    assert(walk_list(dirs, seq![e], 0, parent, 1) == Ok::<Seq<WalkEntryView>, Fault>(one));
    lemma_shown(dirs, e, parent, 1, x);
    assert(one[0] == walked(parent, e));
}

/// A walk through entries gains the new one wherever it comes to its
/// directory.
#[verifier::rlimit(40)]
proof fn lemma_walk_grown(
    v: Dirs,
    w: Dirs,
    list: Seq<DirEntryView>,
    i: int,
    parent: Seq<char>,
    levels: u32,
    dir: u64,
    a: Seq<DirEntryView>,
    e: DirEntryView,
    b: Seq<DirEntryView>,
)
    requires
        entry_put(v, w, dir, a, e, b),
        0 <= i <= list.len(),
        walk_list(v, list, i, parent, levels) is Ok,
        walk_list(w, list, i, parent, levels) is Ok,
    ensures
        grown_by(
            w,
            walk_list(v, list, i, parent, levels)->Ok_0,
            walk_list(w, list, i, parent, levels)->Ok_0,
            dir,
            e,
        ),
    decreases levels, list.len() - i,
{
    if i < list.len() {
        let path = walked_path(parent, list[i].name);
        let here = walked(parent, list[i]);
        lemma_walk_grown(v, w, list, i + 1, parent, levels, dir, a, e, b);
        lemma_below_grown(v, w, here, levels, dir, a, e, b);
        let hv = seq![here] + walk_below(v, list[i], path, levels)->Ok_0;
        let hw = seq![here] + walk_below(w, list[i], path, levels)->Ok_0;
        let rv = walk_list(v, list, i + 1, parent, levels)->Ok_0;
        let rw = walk_list(w, list, i + 1, parent, levels)->Ok_0;
        lemma_cat_grown(w, hv, rv, hw, rw, dir, e);
    }
}

/// An entry of a walk with what is under it gains the new one.
#[verifier::rlimit(40)]
proof fn lemma_below_grown(
    v: Dirs,
    w: Dirs,
    here: WalkEntryView,
    levels: u32,
    dir: u64,
    a: Seq<DirEntryView>,
    e: DirEntryView,
    b: Seq<DirEntryView>,
)
    requires
        entry_put(v, w, dir, a, e, b),
        walk_below(v, here.entry, here.path, levels) is Ok,
        walk_below(w, here.entry, here.path, levels) is Ok,
    ensures
        grown_by(
            w,
            seq![here] + walk_below(v, here.entry, here.path, levels)->Ok_0,
            seq![here] + walk_below(w, here.entry, here.path, levels)->Ok_0,
            dir,
            e,
        ),
    decreases levels, 0int,
{
    let h = seq![here];
    let none: Seq<WalkEntryView> = seq![];
    if here.entry.kind != EntryKind::Directory {
        lemma_plain(w, here, dir, e);
        assert(h + none =~= h);
    } else {
        let l = (levels - 1) as u32;
        if here.entry.oid != dir {
            let list = v(here.entry.oid)->Ok_0;
            assert(w(here.entry.oid) == v(here.entry.oid));
            lemma_walk_grown(v, w, list, 0, here.path, l, dir, a, e, b);
            lemma_plain(w, here, dir, e);
            lemma_cat_grown(
                w,
                h,
                walk_below(v, here.entry, here.path, levels)->Ok_0,
                h,
                walk_below(w, here.entry, here.path, levels)->Ok_0,
                dir,
                e,
            );
        } else {
            lemma_dir_grown(v, w, here.path, l, dir, a, e, b);
            let bv = walk_below(v, here.entry, here.path, levels)->Ok_0;
            let bw = walk_below(w, here.entry, here.path, levels)->Ok_0;
            assert forall|x: WalkEntryView| #[trigger] (h + bw).contains(x) == ((h + bv).contains(x)
                || gained(w, h + bv, dir, e, x)) by {
                lemma_cat_has(h, bv, x);
                lemma_cat_has(h, bw, x);
                lemma_cat_gained(w, h, bv, dir, e, x);
                assert(h[0] == here);
                assert(h.contains(here) && is_directory(here, dir));
                assert(gained(w, h, dir, e, x) == shown(w, e, here.path, x));
            }
        }
    }
}

/// An entry that is not the directory gains nothing.
proof fn lemma_plain(dirs: Dirs, here: WalkEntryView, dir: u64, e: DirEntryView)
    requires
        !is_directory(here, dir),
    ensures
        grown_by(dirs, seq![here], seq![here], dir, e),
{
    assert forall|x: WalkEntryView| !gained(dirs, seq![here], dir, e, x) by {
        if gained(dirs, seq![here], dir, e, x) {
            let y = choose|y: WalkEntryView| #[trigger]
                seq![here].contains(y) && is_directory(y, dir) && shown(dirs, e, y.path, x);
            assert(y == here);
        }
    }
}

/// A walk through the directory itself has the new entry, and what it gains
/// below.
#[verifier::rlimit(40)]
proof fn lemma_dir_grown(
    v: Dirs,
    w: Dirs,
    path: Seq<char>,
    levels: u32,
    dir: u64,
    a: Seq<DirEntryView>,
    e: DirEntryView,
    b: Seq<DirEntryView>,
)
    requires
        entry_put(v, w, dir, a, e, b),
        walk_list(v, a + b, 0, path, levels) is Ok,
        walk_list(w, a + seq![e] + b, 0, path, levels) is Ok,
    ensures
        forall|x: WalkEntryView| #[trigger]
            walk_list(w, a + seq![e] + b, 0, path, levels)->Ok_0.contains(x) == (walk_list(
                v,
                a + b,
                0,
                path,
                levels,
            )->Ok_0.contains(x) || gained(
                w,
                walk_list(v, a + b, 0, path, levels)->Ok_0,
                dir,
                e,
                x,
            ) || shown(w, e, path, x)),
    decreases levels, a.len() + b.len() + 1,
{
    lemma_walk_parts(v, a, b, 0, path, levels);
    lemma_walk_parts(w, a + seq![e], b, 0, path, levels);
    lemma_walk_parts(w, a, seq![e], 0, path, levels);
    lemma_walk_grown(v, w, a, 0, path, levels, dir, a, e, b);
    lemma_walk_grown(v, w, b, 0, path, levels, dir, a, e, b);
    let va = walk_list(v, a, 0, path, levels)->Ok_0;
    let vb = walk_list(v, b, 0, path, levels)->Ok_0;
    let wa = walk_list(w, a, 0, path, levels)->Ok_0;
    let wb = walk_list(w, b, 0, path, levels)->Ok_0;
    let n = walk_list(w, seq![e], 0, path, levels)->Ok_0;
    assert forall|x: WalkEntryView| #[trigger] (wa + n + wb).contains(x) == ((va + vb).contains(x)
        || gained(w, va + vb, dir, e, x) || shown(w, e, path, x)) by {
        lemma_cat_has(va, vb, x);
        lemma_cat_has(wa + n, wb, x);
        lemma_cat_has(wa, n, x);
        lemma_cat_gained(w, va, vb, dir, e, x);
        lemma_shown(w, e, path, levels, x);
    }
}

/// A walk gains the new entry wherever it comes to its directory.
pub proof fn lemma_all_grown(
    v: Dirs,
    w: Dirs,
    dir: u64,
    a: Seq<DirEntryView>,
    e: DirEntryView,
    b: Seq<DirEntryView>,
)
    requires
        entry_put(v, w, dir, a, e, b),
        walk_all(v) is Ok,
        walk_all(w) is Ok,
    ensures
        all_grown_by(w, walk_all(v)->Ok_0, walk_all(w)->Ok_0, dir, e),
{
    reveal(walk_all);
    reveal(all_grown_by);
    if dir == ROOT_DIR_RECORD {
        lemma_dir_grown(v, w, seq![], WALK_DEPTH_LIMIT, dir, a, e, b);
    } else {
        let list = v(ROOT_DIR_RECORD)->Ok_0;
        assert(w(ROOT_DIR_RECORD) == v(ROOT_DIR_RECORD));
        lemma_walk_grown(v, w, list, 0, seq![], WALK_DEPTH_LIMIT, dir, a, e, b);
    }
}

/// A walk that comes to its end does so with an entry less, and with one more
/// that is not a directory.
pub proof fn lemma_all_ends(
    v: Dirs,
    w: Dirs,
    dir: u64,
    a: Seq<DirEntryView>,
    e: DirEntryView,
    b: Seq<DirEntryView>,
)
    requires
        entry_put(v, w, dir, a, e, b),
    ensures
        walk_all(w) is Ok ==> walk_all(v) is Ok,
        walk_all(v) is Ok && e.kind != EntryKind::Directory ==> walk_all(w) is Ok,
{
    reveal(walk_all);
    if dir == ROOT_DIR_RECORD {
        lemma_dir_ends(v, w, seq![], WALK_DEPTH_LIMIT, dir, a, e, b);
    } else {
        assert(w(ROOT_DIR_RECORD) == v(ROOT_DIR_RECORD));
        if let Ok(list) = v(ROOT_DIR_RECORD) {
            lemma_walk_ends(v, w, list, 0, seq![], WALK_DEPTH_LIMIT, dir, a, e, b);
        }
    }
}

proof fn lemma_walk_ends(
    v: Dirs,
    w: Dirs,
    list: Seq<DirEntryView>,
    i: int,
    parent: Seq<char>,
    levels: u32,
    dir: u64,
    a: Seq<DirEntryView>,
    e: DirEntryView,
    b: Seq<DirEntryView>,
)
    requires
        entry_put(v, w, dir, a, e, b),
        0 <= i <= list.len(),
    ensures
        walk_list(w, list, i, parent, levels) is Ok ==> walk_list(
            v,
            list,
            i,
            parent,
            levels,
        ) is Ok,
        walk_list(v, list, i, parent, levels) is Ok && e.kind != EntryKind::Directory ==> walk_list(
            w,
            list,
            i,
            parent,
            levels,
        ) is Ok,
    decreases levels, list.len() - i,
{
    if i < list.len() {
        let path = walked_path(parent, list[i].name);
        let bv = walk_below(v, list[i], path, levels);
        let bw = walk_below(w, list[i], path, levels);
        lemma_walk_ends(v, w, list, i + 1, parent, levels, dir, a, e, b);
        if list[i].kind == EntryKind::Directory && levels > 0 {
            let l = (levels - 1) as u32;
            if list[i].oid == dir {
                lemma_dir_ends(v, w, path, l, dir, a, e, b);
            } else {
                assert(w(list[i].oid) == v(list[i].oid));
                if let Ok(inner) = v(list[i].oid) {
                    lemma_walk_ends(v, w, inner, 0, path, l, dir, a, e, b);
                }
            }
        }
        assert(bw is Ok ==> bv is Ok);
        assert(bv is Ok && e.kind != EntryKind::Directory ==> bw is Ok);
    }
}

proof fn lemma_dir_ends(
    v: Dirs,
    w: Dirs,
    path: Seq<char>,
    levels: u32,
    dir: u64,
    a: Seq<DirEntryView>,
    e: DirEntryView,
    b: Seq<DirEntryView>,
)
    requires
        entry_put(v, w, dir, a, e, b),
    ensures
        walk_list(w, a + seq![e] + b, 0, path, levels) is Ok ==> walk_list(
            v,
            a + b,
            0,
            path,
            levels,
        ) is Ok,
        walk_list(v, a + b, 0, path, levels) is Ok && e.kind != EntryKind::Directory ==> walk_list(
            w,
            a + seq![e] + b,
            0,
            path,
            levels,
        ) is Ok,
    decreases levels, a.len() + b.len() + 1,
{
    lemma_walk_parts(v, a, b, 0, path, levels);
    lemma_walk_parts(w, a + seq![e], b, 0, path, levels);
    lemma_walk_parts(w, a, seq![e], 0, path, levels);
    lemma_walk_ends(v, w, a, 0, path, levels, dir, a, e, b);
    lemma_walk_ends(v, w, b, 0, path, levels, dir, a, e, b);
    if e.kind != EntryKind::Directory {
        reveal_with_fuel(walk_list, 3);
        assert(seq![e][0] == e);
        assert(walk_list(w, seq![e], 1, path, levels) is Ok);
        assert(walk_list(w, seq![e], 0, path, levels) is Ok);
    }
}

} // verus!

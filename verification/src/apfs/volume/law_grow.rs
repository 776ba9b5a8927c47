//! What a volume shows after a file has grown.

use crate::apfs::btree::node::NodeView;
use crate::apfs::btree::records::{law_entries_are_records, records};
use crate::apfs::btree::search::Found;
use crate::apfs::bytes::{bytes_u32, bytes_u64, group_bytes_len, lemma_read_u64};
use crate::apfs::catalog::edit::{
    edit_inode, extent_key, fresh_dstream, insert_record, law_size_and_alloc_edit, record_entry,
    size_and_alloc_edit,
};
use crate::apfs::catalog::order::{
    key_logical, key_sign, law_key_order_flips, law_key_order_is_transitive,
};
use crate::apfs::catalog::query::{cat_rank, extents_from};
use crate::apfs::catalog::records::{
    extent_bytes, extent_outcome, extent_with, inode_outcome, inode_value, key_head,
    law_built_inode_has_size, law_extent_roundtrip, law_key_head_roundtrip, FileExtentVal, InodeVal,
    J_TYPE_DIR_REC, J_TYPE_DSTREAM_ID, J_TYPE_FILE_EXTENT, J_TYPE_INODE,
};
use crate::apfs::error::Fault;
use crate::apfs::packed::KIND_UNIT;
use crate::apfs::volume::commit::tree_with;
use crate::apfs::volume::effects::{
    lemma_edit_inode, lemma_hit_leaf, lemma_picked_from, lemma_untouched,
};
use crate::apfs::volume::fill::{run_exts, run_short};
use crate::apfs::volume::frame::leaf_count;
use crate::apfs::volume::grow::{record_end, records_end, round_up};
use crate::apfs::volume::law_remove::lemma_matching;
use crate::apfs::volume::leaves::put_leaf;
use crate::apfs::volume::model::{
    extents_in, inode_in, lemma_one_single, lemma_patch, lemma_recs_sorted, sorted,
};
use crate::apfs::volume::place::{lemma_insert_record, reaches};
use crate::apfs::volume::state::VolumeView;
use crate::apfs::volume::steps::{
    lemma_around, lemma_leaf_delete, lemma_leaf_insert, lemma_load, lemma_put, only, recs_with,
    touched_ok,
};
use crate::apfs::volume::swap::{bounds, bounds_from};
use crate::apfs::volume::tree::{
    leaf_recs, lemma_child_order, lemma_leaf_order, lemma_single, ordered, picked, recs, sep,
    single, upper, within, Tree,
};
use vstd::prelude::*;

verus! {

/// Picked records of sorted records are sorted.
pub proof fn lemma_picked_sorted(r: Seq<Found>, oid: u64, j_type: u8)
    requires
        sorted(r),
    ensures
        sorted(picked(r, oid, j_type)),
        forall|i: int|
            0 <= i < picked(r, oid, j_type).len() ==> cat_rank(
                (#[trigger] picked(r, oid, j_type)[i]).0,
                oid,
                j_type,
            ) == 0,
        r.len() > 0 ==> forall|i: int|
            0 <= i < picked(r.drop_last(), oid, j_type).len() ==> key_sign(
                (#[trigger] picked(r.drop_last(), oid, j_type)[i]).0,
                r.last().0,
            ) < 0,
    decreases r.len(),
{
    reveal(Seq::filter);
    if r.len() > 0 {
        let a = r.drop_last();
        let g = picked(a, oid, j_type);
        let f = picked(r, oid, j_type);
        assert forall|i: int, j: int| 0 <= i < j < a.len() implies key_sign(
            (#[trigger] a[i]).0,
            (#[trigger] a[j]).0,
        ) < 0 by {
            assert(a[i] == r[i] && a[j] == r[j]);
        }
        assert forall|i: int| 0 <= i < a.len() implies (#[trigger] a[i]).0.len() >= 8 by {
            assert(a[i] == r[i]);
        }
        lemma_picked_sorted(a, oid, j_type);
        assert forall|i: int| 0 <= i < g.len() implies key_sign((#[trigger] g[i]).0, r.last().0)
            < 0 by {
            let k = lemma_picked_from(a, oid, j_type, i);
            assert(a[k] == r[k]);
            assert(key_sign(r[k].0, r[r.len() - 1].0) < 0);
        }
        assert(r.last() == r[r.len() - 1]);
        assert(f == g || f == g.push(r.last()));
        assert forall|i: int, j: int| 0 <= i < j < f.len() implies key_sign(
            (#[trigger] f[i]).0,
            (#[trigger] f[j]).0,
        ) < 0 by {
            assert(f[i] == g[i]);
            if j < g.len() {
                assert(f[j] == g[j]);
            }
        }
        assert forall|i: int| 0 <= i < f.len() implies (#[trigger] f[i]).0.len() >= 8 && cat_rank(
            f[i].0,
            oid,
            j_type,
        ) == 0 by {
            if i < g.len() {
                assert(f[i] == g[i]);
            }
        }
    }
}

/// The extents of records and of one more.
proof fn lemma_extents_push(a: Seq<Found>, f: Found, i: int)
    requires
        0 <= i <= a.len(),
        extents_from(a, i) is Ok,
        extent_outcome(f.1) is Ok,
    ensures
        extents_from(a.push(f), i) == Ok::<Seq<FileExtentVal>, Fault>(
            extents_from(a, i)->Ok_0.push(extent_outcome(f.1)->Ok_0),
        ),
    decreases a.len() - i,
{
    let b = a.push(f);
    let x = extent_outcome(f.1)->Ok_0;
    if i < a.len() {
        assert(b[i] == a[i]);
        lemma_extents_push(a, f, i + 1);
        let rest = extents_from(a, i + 1)->Ok_0;
        let e = extent_outcome(a[i].1)->Ok_0;
        assert(seq![e] + rest.push(x) =~= (seq![e] + rest).push(x));
    } else {
        assert(b[i] == f);
        assert(extents_from(b, i + 1) == Ok::<Seq<FileExtentVal>, Fault>(Seq::empty()));
        assert(seq![x] + Seq::<FileExtentVal>::empty() =~= Seq::<FileExtentVal>::empty().push(x));
    }
}

/// Whether all extents of records start before `log`.
pub open spec fn starts_before(r: Seq<Found>, log: int) -> bool {
    forall|i: int| 0 <= i < r.len() ==> key_logical((#[trigger] r[i]).0) < log
}

pub proof fn lemma_extent_key(oid: u64, log: u64)
    requires
        oid < KIND_UNIT,
    ensures
        extent_key(oid, log).len() == 16,
        cat_rank(extent_key(oid, log), oid, J_TYPE_FILE_EXTENT) == 0,
        key_logical(extent_key(oid, log)) == log,
{
    broadcast use group_bytes_len;

    let k = extent_key(oid, log);
    law_key_head_roundtrip(oid, J_TYPE_FILE_EXTENT, bytes_u64(log));
    assert(k.subrange(8, 16) =~= bytes_u64(log));
    lemma_read_u64(k, 8, log);
}

/// An extent behind all others is put in.
pub proof fn lemma_put_extent(
    v: VolumeView,
    t: Tree,
    m: Set<u64>,
    s: Seq<(u64, NodeView)>,
    p: u64,
    oid: u64,
    log: u64,
    e: FileExtentVal,
    f: spec_fn(NodeView) -> (Result<int, Fault>, NodeView),
)
    requires
        v.sound(t, m),
        touched_ok(t, s),
        oid < KIND_UNIT,
        v.key_leaf(extent_key(oid, log)) == Ok::<u64, Fault>(p),
        reaches(t, extent_key(oid, log)),
        forall|n: NodeView| #[trigger]
            f(n) == insert_record(n, extent_key(oid, log), extent_bytes(e)),
        v.change(s, p, f).0 is Ok,
        extents_in(recs_with(t, s), oid) is Ok,
        starts_before(picked(recs_with(t, s), oid, J_TYPE_FILE_EXTENT), log as int),
    ensures
        ({
            let was = recs_with(t, s);
            let now = recs_with(t, v.change(s, p, f).1);
            &&& touched_ok(t, v.change(s, p, f).1)
            &&& only(was, now, oid, J_TYPE_FILE_EXTENT)
            &&& extents_in(now, oid) == Ok::<Seq<FileExtentVal>, Fault>(
                extents_in(was, oid)->Ok_0.push(e),
            )
            &&& starts_before(picked(now, oid, J_TYPE_FILE_EXTENT), log + 1)
        }),
{
    broadcast use group_bytes_len;

    let ext = J_TYPE_FILE_EXTENT;
    let key = extent_key(oid, log);
    let val = extent_bytes(e);
    lemma_extent_key(oid, log);
    let (x, y) = lemma_insert_record(v, t, m, s, p, key, val, oid, ext, f);
    let u = v.change(s, p, f).1;
    let was = picked(recs_with(t, s), oid, ext);
    let now = picked(recs_with(t, u), oid, ext);
    let new = (key, val, p);
    lemma_recs_sorted(tree_with(t, u), None, None);
    lemma_picked_sorted(recs_with(t, u), oid, ext);
    if y.len() > 0 {
        let c = x.len() as int;
        assert(now[c] == new && now[c + 1] == y[0]);
        assert(was[c] == y[0]);
        assert(key_logical(was[c].0) < log);
        assert(key_sign(now[c].0, now[c + 1].0) < 0);
        assert(cat_rank(now[c + 1].0, oid, ext) == 0);
    }
    assert(y =~= seq![]);
    assert(was =~= x);
    assert(now =~= was.push(new));
    law_extent_roundtrip(e);
    lemma_extents_push(was, new, 0);
    assert forall|i: int| 0 <= i < now.len() implies key_logical((#[trigger] now[i]).0) < log
        + 1 by {
        if i < was.len() {
            assert(now[i] == was[i]);
        }
    }
}

/// The extent of the first of some runs is put in. Gives the touched leaves
/// afterwards.
proof fn lemma_put_first_extent(
    v: VolumeView,
    t: Tree,
    m: Set<u64>,
    s: Seq<(u64, NodeView)>,
    runs: Seq<(u64, u64)>,
    i: int,
    oid: u64,
    log: int,
) -> (u: Seq<(u64, NodeView)>)
    requires
        v.sound(t, m),
        v.block_size > 0,
        touched_ok(t, s),
        oid < KIND_UNIT,
        0 <= i < runs.len(),
        0 <= log,
        runs[i].1 > 0,
        log <= u64::MAX ==> reaches(t, extent_key(oid, log as u64)),
        v.put_extents(s, runs, i, oid, log) is Ok,
        extents_in(recs_with(t, s), oid) is Ok,
        starts_before(picked(recs_with(t, s), oid, J_TYPE_FILE_EXTENT), log),
    ensures
        ({
            let length = runs[i].1 * v.block_size;
            let was = recs_with(t, s);
            let now = recs_with(t, u);
            &&& 0 < length
            &&& run_short(runs[i], v.block_size)
            &&& v.put_extents(s, runs, i, oid, log) == v.put_extents(
                u,
                runs,
                i + 1,
                oid,
                log + length,
            )
            &&& touched_ok(t, u)
            &&& only(was, now, oid, J_TYPE_FILE_EXTENT)
            &&& extents_in(now, oid) == Ok::<Seq<FileExtentVal>, Fault>(
                extents_in(was, oid)->Ok_0.push(
                    extent_with(length as u64, 0, runs[i].0, 0),
                ),
            )
            &&& starts_before(picked(now, oid, J_TYPE_FILE_EXTENT), log + length)
        }),
{
    let length = runs[i].1 * v.block_size;
    assert(length > 0) by (nonlinear_arith)
        requires
            length == runs[i].1 * v.block_size,
            runs[i].1 > 0,
            v.block_size > 0,
    ;
    let e = extent_with(length as u64, 0, runs[i].0, 0);
    let f = |n: NodeView|
        insert_record(
            n,
            extent_key(oid, log as u64),
            extent_bytes(extent_with(length as u64, 0, runs[i].0, 0)),
        );
    let p = v.key_leaf(extent_key(oid, log as u64))->Ok_0;
    let u = v.change(s, p, f).1;
    lemma_put_extent(v, t, m, s, p, oid, log as u64, e, f);
    let mid = picked(recs_with(t, u), oid, J_TYPE_FILE_EXTENT);
    assert forall|k: int| 0 <= k < mid.len() implies key_logical((#[trigger] mid[k]).0) < log
        + length by {
        assert(key_logical(mid[k].0) < log + 1);
    }
    u
}

/// Extents for runs are put in behind all others.
pub proof fn lemma_put_extents(
    v: VolumeView,
    t: Tree,
    m: Set<u64>,
    s: Seq<(u64, NodeView)>,
    runs: Seq<(u64, u64)>,
    i: int,
    oid: u64,
    log: int,
    base: int,
)
    requires
        v.sound(t, m),
        v.block_size > 0,
        touched_ok(t, s),
        oid < KIND_UNIT,
        0 <= i <= runs.len(),
        0 <= base <= log,
        forall|k: int| 0 <= k < runs.len() ==> (#[trigger] runs[k]).1 > 0,
        forall|l: u64| base <= l ==> reaches(t, #[trigger] extent_key(oid, l)),
        v.put_extents(s, runs, i, oid, log) is Ok,
        extents_in(recs_with(t, s), oid) is Ok,
        i < runs.len() ==> starts_before(
            picked(recs_with(t, s), oid, J_TYPE_FILE_EXTENT),
            log,
        ),
    ensures
        ({
            let u = v.put_extents(s, runs, i, oid, log)->Ok_0;
            let was = recs_with(t, s);
            let now = recs_with(t, u);
            &&& touched_ok(t, u)
            &&& only(was, now, oid, J_TYPE_FILE_EXTENT)
            &&& extents_in(now, oid) == Ok::<Seq<FileExtentVal>, Fault>(
                extents_in(was, oid)->Ok_0 + run_exts(runs, v.block_size).skip(i),
            )
            &&& forall|k: int|
                i <= k < runs.len() ==> #[trigger] run_short(runs[k], v.block_size)
        }),
    decreases runs.len() - i,
{
    let es = run_exts(runs, v.block_size);
    let a = extents_in(recs_with(t, s), oid)->Ok_0;
    if i < runs.len() {
        let length = runs[i].1 * v.block_size;
        assert(log <= u64::MAX ==> reaches(t, extent_key(oid, log as u64)));
        assert(runs[i].1 > 0);
        let u1 = lemma_put_first_extent(v, t, m, s, runs, i, oid, log);
        lemma_put_extents(v, t, m, u1, runs, i + 1, oid, log + length, base);
        assert forall|k: int| i <= k < runs.len() implies #[trigger] run_short(
            runs[k],
            v.block_size,
        ) by {
            if k > i {
                assert(i + 1 <= k);
            }
        }
        let was = recs_with(t, s);
        let now = recs_with(t, v.put_extents(s, runs, i, oid, log)->Ok_0);
        assert forall|o: u64, j: u8|
            (o, j) != (oid, J_TYPE_FILE_EXTENT) implies #[trigger] picked(now, o, j) == picked(
            was,
            o,
            j,
        ) by {
            assert(picked(recs_with(t, u1), o, j) == picked(was, o, j));
        }
        assert(a.push(es[i]) + es.skip(i + 1) =~= a + es.skip(i));
    } else {
        assert(es.skip(i) =~= seq![]);
        assert(a + es.skip(i) =~= a);
    }
}

/// A record of a single type is exchanged for one of any length at the same
/// place of a leaf in order.
proof fn lemma_leaf_exchange(
    p: u64,
    n: NodeView,
    lo: Option<Seq<u8>>,
    hi: Option<Seq<u8>>,
    i: int,
    key: Seq<u8>,
    val: Seq<u8>,
)
    requires
        ordered(Tree::Leaf { p, n }, lo, hi),
        0 <= i < n.toc.len(),
        key.len() >= 8,
        key.len() <= u16::MAX,
        val.len() <= u16::MAX,
        key_sign(records(n, 0, 0)[i].0, key) == 0,
        lo matches Some(l) ==> l.len() >= 8,
        hi matches Some(h) ==> h.len() >= 8,
        n.delete_var(i).1.insert_var(i, key, val).0 is Ok,
    ensures
        n.delete_var(i).0 is Ok,
        ordered(Tree::Leaf { p, n: n.delete_var(i).1.insert_var(i, key, val).1 }, lo, hi),
        leaf_recs(p, n.delete_var(i).1.insert_var(i, key, val).1) == leaf_recs(p, n).update(
            i,
            (key, val, p),
        ),
{
    lemma_leaf_order(p, n, lo, hi);
    lemma_leaf_delete(p, n, lo, hi, i);
    let d = n.delete_var(i).1;
    let l = leaf_recs(p, n);
    let r = records(n, 0, 0);
    let q = records(d, 0, 0);
    let old = r[i].0;
    assert(leaf_recs(p, d) == l.remove(i));
    assert(within(r[i].0, lo, hi));
    law_key_order_flips(old, key);
    if let Some(x) = lo {
        law_key_order_is_transitive(x, old, key);
    }
    if let Some(x) = hi {
        law_key_order_is_transitive(key, old, x);
    }
    assert forall|j: int| 0 <= j < i implies key_sign((#[trigger] q[j]).0, key) < 0 by {
        assert(leaf_recs(p, d)[j] == l[j]);
        assert(key_sign(r[j].0, r[i].0) < 0);
        law_key_order_is_transitive(r[j].0, old, key);
    }
    assert forall|j: int| i <= j < d.toc.len() implies key_sign(key, (#[trigger] q[j]).0) < 0 by {
        assert(leaf_recs(p, d)[j] == l[j + 1]);
        assert(key_sign(r[i].0, r[j + 1].0) < 0);
        law_key_order_is_transitive(key, old, r[j + 1].0);
    }
    lemma_leaf_insert(p, d, lo, hi, i, key, val);
    assert(l.remove(i).insert(i, (key, val, p)) =~= l.update(i, (key, val, p)));
}

/// The bounds of a leaf are keys.
proof fn lemma_bounds_keys(t: Tree, p: u64, lo: Option<Seq<u8>>, hi: Option<Seq<u8>>)
    requires
        ordered(t, lo, hi),
        lo matches Some(l) ==> l.len() >= 8,
        hi matches Some(h) ==> h.len() >= 8,
    ensures
        bounds(t, p, lo, hi) matches Some((l, h)) ==> (l matches Some(x) ==> x.len() >= 8) && (
        h matches Some(x) ==> x.len() >= 8),
    decreases t, 1int, 0int,
{
    if t is Inner {
        lemma_bounds_keys_from(t, p, lo, hi, 0);
    }
}

proof fn lemma_bounds_keys_from(
    t: Tree,
    p: u64,
    lo: Option<Seq<u8>>,
    hi: Option<Seq<u8>>,
    i: int,
)
    requires
        t is Inner,
        ordered(t, lo, hi),
        0 <= i <= t->kids.len(),
        lo matches Some(l) ==> l.len() >= 8,
        hi matches Some(h) ==> h.len() >= 8,
    ensures
        bounds_from(t.node(), t->kids, p, hi, i) matches Some((l, h)) ==> (l matches Some(x)
            ==> x.len() >= 8) && (h matches Some(x) ==> x.len() >= 8),
    decreases t, 0int, t->kids.len() - i,
{
    if i < t->kids.len() {
        lemma_child_order(t, lo, hi, i);
        if i + 1 < t->kids.len() {
            lemma_child_order(t, lo, hi, i + 1);
        }
        lemma_bounds_keys(
            t->kids[i],
            p,
            Some(sep(t.node(), i)),
            upper(t.node(), i, hi),
        );
        lemma_bounds_keys_from(t, p, lo, hi, i + 1);
    }
}

/// A record of a single type is exchanged in a touched leaf.
proof fn lemma_step_exchange(
    v: VolumeView,
    t: Tree,
    m: Set<u64>,
    s: Seq<(u64, NodeView)>,
    p: u64,
    i: int,
    key: Seq<u8>,
    val: Seq<u8>,
    oid: u64,
    j_type: u8,
)
    requires
        v.sound(t, m),
        touched_ok(t, s),
        leaf_count(t, p) > 0,
        single(j_type),
        8 <= key.len() <= u16::MAX,
        val.len() <= u16::MAX,
        cat_rank(key, oid, j_type) == 0,
        v.load(s, p).0 matches Ok(n) && 0 <= i < n.toc.len() && cat_rank(
            records(n, 0, 0)[i].0,
            oid,
            j_type,
        ) == 0 && n.delete_var(i).1.insert_var(i, key, val).0 is Ok,
    ensures
        ({
            let n = v.load(s, p).0->Ok_0;
            let u = put_leaf(
                v.load(s, p).1,
                p,
                n.delete_var(i).1.insert_var(i, key, val).1,
            );
            &&& n.delete_var(i).0 is Ok
            &&& touched_ok(t, u)
            &&& only(recs_with(t, s), recs_with(t, u), oid, j_type)
            &&& picked(recs_with(t, s), oid, j_type) == seq![
                (records(n, 0, 0)[i].0, records(n, 0, 0)[i].1, p),
            ]
            &&& picked(recs_with(t, u), oid, j_type) == seq![(key, val, p)]
        }),
{
    let n = v.load(s, p).0->Ok_0;
    let x = n.delete_var(i).1.insert_var(i, key, val).1;
    let (a, n0, b) = lemma_put(v, t, m, s, p, x);
    let (l, h) = bounds(t, p, None, None)->0;
    lemma_bounds_keys(t, p, None, None);
    lemma_leaf_order(p, n, l, h);
    let was = records(n, 0, 0)[i].0;
    assert(within(records(n, 0, 0)[i].0, l, h));
    lemma_single(was, key, oid, j_type);
    lemma_leaf_exchange(p, n, l, h, i, key, val);
    let lr = leaf_recs(p, n);
    let new = (key, val, p);
    lemma_around(a, lr, b, i);
    assert(leaf_recs(p, x) == lr.update(i, new));
    let c = a + lr.take(i);
    let d = lr.skip(i + 1) + b;
    lemma_patch(c, seq![lr[i]], seq![new], d, oid, j_type);
    lemma_recs_sorted(tree_with(t, s), None, None);
    lemma_one_single(c, lr[i], d, oid, j_type);
    let none = Seq::<Found>::empty();
    assert(none + seq![lr[i]] + none =~= seq![lr[i]]);
    assert(none + seq![new] + none =~= seq![new]);
}

/// An inode is given a data stream in a touched leaf.
proof fn lemma_install(
    v: VolumeView,
    t: Tree,
    m: Set<u64>,
    s: Seq<(u64, NodeView)>,
    p: u64,
    oid: u64,
    size: u64,
    alloced: u64,
    now: i64,
)
    requires
        v.sound(t, m),
        touched_ok(t, s),
        leaf_count(t, p) > 0,
        oid < KIND_UNIT,
        v.put_stream(s, p, oid, size, alloced, now) is Ok,
    ensures
        ({
            let u = v.put_stream(s, p, oid, size, alloced, now)->Ok_0;
            &&& touched_ok(t, u)
            &&& only(recs_with(t, s), recs_with(t, u), oid, J_TYPE_INODE)
            &&& inode_in(recs_with(t, s), oid) matches Ok(i) && inode_in(
                recs_with(t, u),
                oid,
            ) == Ok::<InodeVal, Fault>(
                InodeVal {
                    dstream_size: Some(size),
                    modify_time: now,
                    change_time: now,
                    ..i
                },
            )
        }),
{
    broadcast use group_bytes_len;

    let ino = J_TYPE_INODE;
    lemma_load(v, t, m, s, p);
    let n = v.load(s, p).0->Ok_0;
    lemma_matching(n, oid, ino, None, 0);
    let i = record_entry(n, oid, ino, None)->Ok_0->0;
    law_entries_are_records(n, i, 0, 0);
    let inode = inode_outcome(n.value(i, 0)->Ok_0)->Ok_0;
    let grown = InodeVal {
        dstream_size: Some(size),
        modify_time: now,
        change_time: now,
        ..inode
    };
    let key = key_head(oid, ino);
    let d = fresh_dstream(size, alloced);
    let val = inode_value(grown, Some(d));
    law_built_inode_has_size(grown, d);
    assert(val.len() <= 200);
    assert(key =~= key + Seq::<u8>::empty());
    law_key_head_roundtrip(oid, ino, Seq::<u8>::empty());
    lemma_step_exchange(v, t, m, s, p, i, key, val, oid, ino);
}

/// The inode of a file that has grown. A file that gets its data stream field
/// was written and changed now; one that has it keeps its times.
pub open spec fn regrown(i: InodeVal, j: InodeVal, size: u64, now: i64) -> bool {
    &&& j == (InodeVal {
        dstream_size: Some(size),
        modify_time: j.modify_time,
        change_time: j.change_time,
        ..i
    })
    &&& i.dstream_size is None ==> j.modify_time == now && j.change_time == now
    &&& (j.modify_time == i.modify_time && j.change_time == i.change_time) || (j.modify_time == now
        && j.change_time == now)
}

proof fn lemma_edit_refused(
    n: NodeView,
    oid: u64,
    not_a_leaf: Seq<char>,
    e: spec_fn(Seq<u8>) -> Result<Seq<u8>, Fault>,
)
    ensures
        edit_inode(n, oid, not_a_leaf, e).0 is Err ==> edit_inode(n, oid, not_a_leaf, e).1 == n,
{
}

/// The size of a file is put into its inode.
pub proof fn lemma_put_size(
    v: VolumeView,
    t: Tree,
    m: Set<u64>,
    s: Seq<(u64, NodeView)>,
    oid: u64,
    size: u64,
    alloced: u64,
    now: i64,
)
    requires
        v.sound(t, m),
        touched_ok(t, s),
        oid < KIND_UNIT,
        v.put_size(s, oid, size, alloced, now) is Ok,
    ensures
        ({
            let u = v.put_size(s, oid, size, alloced, now)->Ok_0;
            &&& touched_ok(t, u)
            &&& only(recs_with(t, s), recs_with(t, u), oid, J_TYPE_INODE)
            &&& inode_in(recs_with(t, s), oid) matches Ok(i) && (inode_in(
                recs_with(t, u),
                oid,
            ) matches Ok(j) && regrown(i, j, size, now))
        }),
{
    let p = v.record_leaf(oid, J_TYPE_INODE)->Ok_0;
    lemma_hit_leaf(v, t, oid, J_TYPE_INODE, p);
    lemma_load(v, t, m, s, p);
    let n = v.load(s, p).0->Ok_0;
    let l = v.load(s, p).1;
    let not_a_leaf = "set_inode_dstream_size_and_alloc_in_node: target is not a leaf"@;
    let e = size_and_alloc_edit(oid, size, alloced);
    let f = |n: NodeView| edit_inode(n, oid, not_a_leaf, e);
    let (r, x) = edit_inode(n, oid, not_a_leaf, e);
    if r is Ok {
        assert(v.change(s, p, f) == (r, put_leaf(l, p, x)));
        let (k, old, new) = lemma_edit_inode(v, t, m, s, p, oid, not_a_leaf, e, f);
        law_size_and_alloc_edit(old, oid, size, alloced);
    } else {
        lemma_edit_refused(n, oid, not_a_leaf, e);
        let (a, n0, b) = lemma_put(v, t, m, s, p, n);
        let s1 = put_leaf(l, p, n);
        assert(touched_ok(t, s1) && recs_with(t, s1) == recs_with(t, s));
        lemma_install(v, t, m, s1, p, oid, size, alloced, now);
    }
}

/// A file has a data stream record.
pub proof fn lemma_put_stream_id(
    v: VolumeView,
    t: Tree,
    m: Set<u64>,
    s: Seq<(u64, NodeView)>,
    oid: u64,
)
    requires
        v.sound(t, m),
        touched_ok(t, s),
        oid < KIND_UNIT,
        reaches(t, key_head(oid, J_TYPE_DSTREAM_ID)),
        v.put_stream_id(s, oid) is Ok,
    ensures
        touched_ok(t, v.put_stream_id(s, oid)->Ok_0),
        only(
            recs_with(t, s),
            recs_with(t, v.put_stream_id(s, oid)->Ok_0),
            oid,
            J_TYPE_DSTREAM_ID,
        ),
{
    broadcast use group_bytes_len;

    if v.record_leaf(oid, J_TYPE_DSTREAM_ID) is Err {
        let key = key_head(oid, J_TYPE_DSTREAM_ID);
        let p = v.key_leaf(key)->Ok_0;
        let f = |n: NodeView|
            insert_record(n, key_head(oid, J_TYPE_DSTREAM_ID), bytes_u32(1));
        assert(key =~= key + Seq::<u8>::empty());
        law_key_head_roundtrip(oid, J_TYPE_DSTREAM_ID, Seq::<u8>::empty());
        let (x, y) = lemma_insert_record(
            v,
            t,
            m,
            s,
            p,
            key,
            bytes_u32(1),
            oid,
            J_TYPE_DSTREAM_ID,
            f,
        );
    }
}

/// The extents that records hold start before the end of all of them.
pub proof fn lemma_starts_before(found: Seq<Found>, i: int)
    requires
        0 <= i <= found.len(),
        records_end(found, i) < u64::MAX,
    ensures
        forall|k: int|
            i <= k < found.len() ==> key_logical((#[trigger] found[k]).0) < records_end(found, i),
    decreases found.len() - i,
{
    if i < found.len() {
        lemma_starts_before(found, i + 1);
        assert(record_end(found[i]) <= records_end(found, i));
        assert forall|k: int| i <= k < found.len() implies key_logical((#[trigger] found[k]).0)
            < records_end(found, i) by {
            if k > i {
                assert(key_logical(found[k].0) < records_end(found, i + 1));
            }
        }
    }
}

/// The records of a file that has grown are put in.
pub proof fn lemma_grown(
    v: VolumeView,
    t: Tree,
    m: Set<u64>,
    oid: u64,
    sid: u64,
    runs: Seq<(u64, u64)>,
    log: int,
    new_size: u64,
    now: i64,
)
    requires
        v.sound(t, m),
        v.block_size > 0,
        oid < KIND_UNIT,
        sid < KIND_UNIT,
        0 <= log,
        forall|k: int| 0 <= k < runs.len() ==> (#[trigger] runs[k]).1 > 0,
        forall|l: u64| log <= l ==> reaches(t, #[trigger] extent_key(sid, l)),
        reaches(t, key_head(sid, J_TYPE_DSTREAM_ID)),
        v.grown(oid, sid, runs, log, new_size, now) is Ok,
        extents_in(recs(t), sid) is Ok,
        runs.len() > 0 ==> starts_before(picked(recs(t), sid, J_TYPE_FILE_EXTENT), log),
    ensures
        ({
            let s = v.grown(oid, sid, runs, log, new_size, now)->Ok_0;
            let r = recs(t);
            let q = recs_with(t, s);
            &&& touched_ok(t, s)
            &&& extents_in(q, sid) == Ok::<Seq<FileExtentVal>, Fault>(
                extents_in(r, sid)->Ok_0 + run_exts(runs, v.block_size),
            )
            &&& inode_in(r, oid) matches Ok(i) && (inode_in(q, oid) matches Ok(j) && regrown(
                i,
                j,
                new_size,
                now,
            ))
            &&& forall|o: u64, j: u8|
                j == J_TYPE_DIR_REC || (o != oid && j == J_TYPE_INODE) || (o != sid && j
                    == J_TYPE_FILE_EXTENT) ==> #[trigger] picked(q, o, j) == picked(r, o, j)
            &&& forall|k: int|
                0 <= k < runs.len() ==> #[trigger] run_short(runs[k], v.block_size)
        }),
{
    let none: Seq<(u64, NodeView)> = seq![];
    lemma_untouched(v, t, m);
    let s1 = v.put_extents(none, runs, 0, sid, log)->Ok_0;
    let alloced = round_up(new_size, v.block_size) as u64;
    let s2 = v.put_size(s1, oid, new_size, alloced, now)->Ok_0;
    let s3 = v.put_stream_id(s2, sid)->Ok_0;
    let r0 = recs(t);
    let r1 = recs_with(t, s1);
    let r2 = recs_with(t, s2);
    let r3 = recs_with(t, s3);
    lemma_put_extents(v, t, m, none, runs, 0, sid, log, log);
    lemma_put_size(v, t, m, s1, oid, new_size, alloced, now);
    lemma_put_stream_id(v, t, m, s2, sid);
    let es = run_exts(runs, v.block_size);
    assert(es.skip(0) =~= es);
    assert(picked(r3, sid, J_TYPE_FILE_EXTENT) == picked(r2, sid, J_TYPE_FILE_EXTENT));
    assert(picked(r2, sid, J_TYPE_FILE_EXTENT) == picked(r1, sid, J_TYPE_FILE_EXTENT));
    assert(picked(r3, oid, J_TYPE_INODE) == picked(r2, oid, J_TYPE_INODE));
    assert(picked(r1, oid, J_TYPE_INODE) == picked(r0, oid, J_TYPE_INODE));
    assert forall|o: u64, j: u8|
        j == J_TYPE_DIR_REC || (o != oid && j == J_TYPE_INODE) || (o != sid && j
            == J_TYPE_FILE_EXTENT) implies #[trigger] picked(r3, o, j) == picked(r0, o, j) by {
        assert(picked(r3, o, j) == picked(r2, o, j));
        assert(picked(r2, o, j) == picked(r1, o, j));
        assert(picked(r1, o, j) == picked(r0, o, j));
    }
}

} // verus!

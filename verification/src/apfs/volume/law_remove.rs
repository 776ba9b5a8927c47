//! What a volume shows after an entry was removed.

use crate::apfs::btree::node::NodeView;
use crate::apfs::btree::records::law_entries_are_records;
use crate::apfs::btree::search::Found;
use crate::apfs::catalog::edit::{
    dec_edit, delete_records, edit_inode, key_matches, law_delete_records_leaves_none,
    lemma_with_fixed, matching_entry, record_entry, sweep, with_counter,
};
use crate::apfs::catalog::query::cat_rank;
use crate::apfs::catalog::records::{
    drec_file_type, drec_name_outcome, inode_of, DrecVal, FileExtentVal, InodeVal, DT_DIR,
    J_TYPE_DIR_REC, J_TYPE_DSTREAM_ID, J_TYPE_FILE_EXTENT, J_TYPE_INODE, ROOT_DIR_RECORD,
};
use crate::apfs::error::Fault;
use crate::apfs::extents::fork_prefix;
use crate::apfs::path::{
    base_part, components, law_names_of_parent_and_entry, parent_part, parent_path, trimmed,
};
use crate::apfs::volume::commit::{lemma_commit, tree_after};
use crate::apfs::volume::effects::{
    lemma_commit_file, lemma_edit_inode, lemma_hit_leaf, lemma_picked_from, lemma_untouched,
    spans_clear,
};
use crate::apfs::volume::frame::leaf_count;
use crate::apfs::volume::laws::files_kept;
use crate::apfs::volume::leaves::put_leaf;
use crate::apfs::volume::model::{
    drec_in, extents_in, inode_in, law_volume_shows_records, lemma_patch,
};
use crate::apfs::volume::names::{
    dir_walk, lemma_named_among, lemma_no_name, lemma_once, lemma_once_without, lemma_walk_back,
    lemma_walk_entry, lemma_walk_without, names_entry, names_once,
};
use crate::apfs::volume::listing::{lacks, law_listing_agrees_with_lookup};
use crate::apfs::volume::remount::{follows, lemma_commit_follows};
use crate::apfs::volume::remove::{
    addr_pos, leaf_addrs, record_out, rmdir_no_drec, unlink_no_drec, with_addr,
};
use crate::apfs::volume::state::VolumeView;
use crate::apfs::volume::steps::{
    lemma_leaf_delete, lemma_load, lemma_put, lemma_step_delete, only, recs_with, touched_ok,
};
use crate::apfs::volume::success::lemma_delete_succeeds;
use crate::apfs::volume::swap::{bounds, lemma_recs_leaf};
use crate::apfs::volume::tree::{
    law_lookups_find_records, leaf_recs, lemma_leaf_order, lemma_picked_add, lemma_picked_none,
    ordered, picked, recs, single, Tree,
};
use vstd::prelude::*;

verus! {

/// The entry of a leaf that matches.
pub proof fn lemma_matching(n: NodeView, oid: u64, j_type: u8, name: Option<Seq<char>>, i: int)
    requires
        0 <= i,
        matching_entry(n, oid, j_type, name, i) matches Ok(Some(_)),
    ensures
        matching_entry(n, oid, j_type, name, i) matches Ok(Some(k)) && i <= k < n.toc.len()
            && n.key(k, 0) is Ok && key_matches(n.key(k, 0)->Ok_0, oid, j_type, name),
    decreases n.toc.len() - i,
{
    if i < n.toc.len() {
        if !key_matches(n.key(i, 0)->Ok_0, oid, j_type, name) {
            lemma_matching(n, oid, j_type, name, i + 1);
        }
    }
}

/// The directory record of a name is taken out of the first leaf that has it.
/// Gives the records of the directory before and behind it, and the record.
proof fn lemma_without_drec(
    v: VolumeView,
    t: Tree,
    m: Set<u64>,
    s: Seq<(u64, NodeView)>,
    found: Seq<Found>,
    i: int,
    dir: u64,
    name: Seq<char>,
) -> (r: (Seq<Found>, Found, Seq<Found>))
    requires
        v.sound(t, m),
        touched_ok(t, s),
        0 <= i <= found.len(),
        forall|k: int| 0 <= k < found.len() ==> leaf_count(t, (#[trigger] found[k]).2) > 0,
        v.without_drec(s, found, i, dir, name) matches Ok(Some(_)),
    ensures
        ({
            let u = v.without_drec(s, found, i, dir, name)->Ok_0->0;
            &&& touched_ok(t, u)
            &&& only(recs_with(t, s), recs_with(t, u), dir, J_TYPE_DIR_REC)
            &&& picked(recs_with(t, s), dir, J_TYPE_DIR_REC) == r.0 + seq![r.1] + r.2
            &&& picked(recs_with(t, u), dir, J_TYPE_DIR_REC) == r.0 + r.2
            &&& drec_name_outcome(r.1.0) == Ok::<Seq<char>, Fault>(name)
        }),
    decreases found.len() - i,
{
    let p = found[i].2;
    lemma_load(v, t, m, s, p);
    let n = v.load(s, p).0->Ok_0;
    let l = v.load(s, p).1;
    if record_entry(n, dir, J_TYPE_DIR_REC, Some(name)) == Ok::<Option<int>, Fault>(None) {
        lemma_without_drec(v, t, m, l, found, i + 1, dir, name)
    } else {
        lemma_matching(n, dir, J_TYPE_DIR_REC, Some(name), 0);
        let k = record_entry(n, dir, J_TYPE_DIR_REC, Some(name))->Ok_0->0;
        law_entries_are_records(n, k, 0, 0);
        lemma_step_delete(v, t, m, s, p, k, dir, J_TYPE_DIR_REC)
    }
}

/// The directory record of a name is taken out.
pub proof fn lemma_drop_drec(
    v: VolumeView,
    t: Tree,
    m: Set<u64>,
    dir: u64,
    name: Seq<char>,
    missing: Fault,
) -> (r: (Seq<Found>, Found, Seq<Found>))
    requires
        v.sound(t, m),
        v.drop_drec(dir, name, missing) is Ok,
    ensures
        ({
            let u = v.drop_drec(dir, name, missing)->Ok_0;
            &&& touched_ok(t, u)
            &&& only(recs(t), recs_with(t, u), dir, J_TYPE_DIR_REC)
            &&& picked(recs(t), dir, J_TYPE_DIR_REC) == r.0 + seq![r.1] + r.2
            &&& picked(recs_with(t, u), dir, J_TYPE_DIR_REC) == r.0 + r.2
            &&& drec_name_outcome(r.1.0) == Ok::<Seq<char>, Fault>(name)
        }),
{
    law_lookups_find_records(v, t, dir, J_TYPE_DIR_REC);
    let found = picked(recs(t), dir, J_TYPE_DIR_REC);
    assert forall|k: int| 0 <= k < found.len() implies leaf_count(t, (#[trigger] found[k]).2)
        > 0 by {
        let j = lemma_picked_from(recs(t), dir, J_TYPE_DIR_REC, k);
        lemma_recs_leaf(t, j);
    }
    lemma_untouched(v, t, m);
    lemma_without_drec(v, t, m, seq![], found, 0, dir, name)
}

/// The record of a single type is taken out, if it is there.
pub proof fn lemma_delete_record(
    v: VolumeView,
    t: Tree,
    m: Set<u64>,
    s: Seq<(u64, NodeView)>,
    oid: u64,
    j_type: u8,
)
    requires
        v.sound(t, m),
        touched_ok(t, s),
        single(j_type),
    ensures
        touched_ok(t, v.delete_record(s, oid, j_type).1),
        only(recs_with(t, s), recs_with(t, v.delete_record(s, oid, j_type).1), oid, j_type),
        v.delete_record(s, oid, j_type).0 is Ok ==> picked(
            recs_with(t, v.delete_record(s, oid, j_type).1),
            oid,
            j_type,
        ).len() == 0,
{
    law_lookups_find_records(v, t, oid, j_type);
    if let Ok(Some((_, p))) = v.hit(oid, j_type) {
        lemma_hit_leaf(v, t, oid, j_type, p);
        lemma_load(v, t, m, s, p);
        let n = v.load(s, p).0->Ok_0;
        if let Ok(Some(_)) = record_entry(n, oid, j_type, None) {
            lemma_matching(n, oid, j_type, None, 0);
            let k = record_entry(n, oid, j_type, None)->Ok_0->0;
            law_entries_are_records(n, k, 0, 0);
            let (x, f, y) = lemma_step_delete(v, t, m, s, p, k, oid, j_type);
            assert(record_out(n, oid, j_type) == n.delete_var(k));
        } else {
            let (a, n0, b) = lemma_put(v, t, m, s, p, n);
            let s1 = put_leaf(v.load(s, p).1, p, n);
            assert(record_out(n, oid, j_type).1 == n);
            assert(touched_ok(t, s1) && recs_with(t, s1) == recs_with(t, s));
        }
    }
}

/// All records of `(oid, j_type)` are taken out of a leaf in order.
proof fn lemma_sweep_leaf(
    p: u64,
    n: NodeView,
    lo: Option<Seq<u8>>,
    hi: Option<Seq<u8>>,
    oid: u64,
    j_type: u8,
    i: int,
    removed: int,
)
    requires
        ordered(Tree::Leaf { p, n }, lo, hi),
        0 <= i <= n.toc.len(),
        sweep(n, oid, j_type, i, removed).0 is Ok,
    ensures
        ordered(Tree::Leaf { p, n: sweep(n, oid, j_type, i, removed).1 }, lo, hi),
        only(leaf_recs(p, n), leaf_recs(p, sweep(n, oid, j_type, i, removed).1), oid, j_type),
    decreases n.toc.len() - i,
{
    if i < n.toc.len() {
        lemma_leaf_order(p, n, lo, hi);
        law_entries_are_records(n, i, 0, 0);
        let k = n.key(i, 0)->Ok_0;
        if key_matches(k, oid, j_type, None) {
            lemma_leaf_delete(p, n, lo, hi, i);
            let x = n.delete_var(i).1;
            let l = leaf_recs(p, n);
            let old = l[i];
            lemma_patch(l.take(i), seq![old], seq![], l.skip(i + 1), oid, j_type);
            assert(l =~= l.take(i) + seq![old] + l.skip(i + 1));
            assert(l.remove(i) =~= l.take(i) + seq![] + l.skip(i + 1));
            lemma_sweep_leaf(p, x, lo, hi, oid, j_type, i, removed + 1);
            let z = leaf_recs(p, sweep(n, oid, j_type, i, removed).1);
            assert forall|o: u64, j: u8| (o, j) != (oid, j_type) implies #[trigger] picked(
                z,
                o,
                j,
            ) == picked(l, o, j) by {
                assert(picked(leaf_recs(p, x), o, j) == picked(l, o, j));
            }
        } else {
            lemma_sweep_leaf(p, n, lo, hi, oid, j_type, i + 1, removed);
        }
    }
}

/// All records of `(oid, j_type)` are taken out of the leaf at `p`.
pub proof fn lemma_delete_records(
    v: VolumeView,
    t: Tree,
    m: Set<u64>,
    s: Seq<(u64, NodeView)>,
    p: u64,
    oid: u64,
    j_type: u8,
    f: spec_fn(NodeView) -> (Result<int, Fault>, NodeView),
)
    requires
        v.sound(t, m),
        touched_ok(t, s),
        leaf_count(t, p) > 0,
        forall|n: NodeView| #[trigger] f(n) == delete_records(n, oid, j_type),
        v.change(s, p, f).0 is Ok,
    ensures
        touched_ok(t, v.change(s, p, f).1),
        only(recs_with(t, s), recs_with(t, v.change(s, p, f).1), oid, j_type),
        forall|k: int|
            0 <= k < picked(recs_with(t, v.change(s, p, f).1), oid, j_type).len() ==> {
                let g = #[trigger] picked(recs_with(t, v.change(s, p, f).1), oid, j_type)[k];
                g.2 != p && picked(recs_with(t, s), oid, j_type).contains(g)
            },
{
    lemma_load(v, t, m, s, p);
    let n = v.load(s, p).0->Ok_0;
    assert(f(n) == delete_records(n, oid, j_type));
    let x = delete_records(n, oid, j_type).1;
    let (a, n0, b) = lemma_put(v, t, m, s, p, x);
    let (l, h) = bounds(t, p, None, None)->0;
    lemma_sweep_leaf(p, n, l, h, oid, j_type, 0, 0);
    law_delete_records_leaves_none(n, oid, j_type);
    let old = leaf_recs(p, n);
    let new = leaf_recs(p, x);
    let was = recs_with(t, s);
    let now = recs_with(t, v.change(s, p, f).1);
    assert forall|o: u64, j: u8| (o, j) != (oid, j_type) implies #[trigger] picked(now, o, j)
        == picked(was, o, j) by {
        lemma_picked_add(a, old, o, j);
        lemma_picked_add(a + old, b, o, j);
        lemma_picked_add(a, new, o, j);
        lemma_picked_add(a + new, b, o, j);
        assert(picked(new, o, j) == picked(old, o, j));
    }
    lemma_leaf_order(p, x, l, h);
    assert forall|i: int| 0 <= i < new.len() implies cat_rank((#[trigger] new[i]).0, oid, j_type)
        != 0 by {
        law_entries_are_records(x, i, 0, 0);
        assert(x.key(i, 0) is Ok);
        assert(!key_matches(x.key(i, 0)->Ok_0, oid, j_type, None));
    }
    lemma_picked_none(new, oid, j_type);
    lemma_picked_add(a, old, oid, j_type);
    lemma_picked_add(a + old, b, oid, j_type);
    lemma_picked_add(a, new, oid, j_type);
    lemma_picked_add(a + new, b, oid, j_type);
    let pa = picked(a, oid, j_type);
    let pb = picked(b, oid, j_type);
    let pw = picked(was, oid, j_type);
    let pn = picked(now, oid, j_type);
    let po = picked(old, oid, j_type);
    assert(pn =~= pa + pb);
    assert forall|k: int| 0 <= k < pn.len() implies {
        let g = #[trigger] pn[k];
        g.2 != p && pw.contains(g)
    } by {
        if k < pa.len() {
            assert(pn[k] == pa[k]);
            let j = lemma_picked_from(a, oid, j_type, k);
            assert(pw[k] == pn[k]);
        } else {
            let c = k - pa.len();
            assert(pn[k] == pb[c]);
            let j = lemma_picked_from(b, oid, j_type, c);
            assert(pw[pa.len() + po.len() + c] == pn[k]);
        }
    }
}

/// All extents of a file are taken out of the leaves at some addresses.
proof fn lemma_without_extents(
    v: VolumeView,
    t: Tree,
    m: Set<u64>,
    s: Seq<(u64, NodeView)>,
    addrs: Seq<u64>,
    i: int,
    oid: u64,
)
    requires
        v.sound(t, m),
        touched_ok(t, s),
        0 <= i <= addrs.len(),
        forall|k: int| 0 <= k < addrs.len() ==> leaf_count(t, #[trigger] addrs[k]) > 0,
        v.without_extents(s, addrs, i, oid) is Ok,
    ensures
        touched_ok(t, v.without_extents(s, addrs, i, oid)->Ok_0),
        only(
            recs_with(t, s),
            recs_with(t, v.without_extents(s, addrs, i, oid)->Ok_0),
            oid,
            J_TYPE_FILE_EXTENT,
        ),
        forall|k: int|
            0 <= k < picked(
                recs_with(t, v.without_extents(s, addrs, i, oid)->Ok_0),
                oid,
                J_TYPE_FILE_EXTENT,
            ).len() ==> {
                let g = #[trigger] picked(
                    recs_with(t, v.without_extents(s, addrs, i, oid)->Ok_0),
                    oid,
                    J_TYPE_FILE_EXTENT,
                )[k];
                picked(recs_with(t, s), oid, J_TYPE_FILE_EXTENT).contains(g) && !addrs.skip(
                    i,
                ).contains(g.2)
            },
    decreases addrs.len() - i,
{
    let ext = J_TYPE_FILE_EXTENT;
    let was = picked(recs_with(t, s), oid, ext);
    if i < addrs.len() {
        let f = |n: NodeView| delete_records(n, oid, J_TYPE_FILE_EXTENT);
        let a = v.change(s, addrs[i], f).1;
        lemma_delete_records(v, t, m, s, addrs[i], oid, ext, f);
        lemma_without_extents(v, t, m, a, addrs, i + 1, oid);
        let u = v.without_extents(s, addrs, i, oid)->Ok_0;
        let mid = picked(recs_with(t, a), oid, ext);
        let now = picked(recs_with(t, u), oid, ext);
        assert forall|o: u64, j: u8| (o, j) != (oid, ext) implies #[trigger] picked(
            recs_with(t, u),
            o,
            j,
        ) == picked(recs_with(t, s), o, j) by {
            assert(picked(recs_with(t, a), o, j) == picked(recs_with(t, s), o, j));
        }
        assert forall|k: int| 0 <= k < now.len() implies {
            let g = #[trigger] now[k];
            was.contains(g) && !addrs.skip(i).contains(g.2)
        } by {
            let g = now[k];
            assert(mid.contains(g) && !addrs.skip(i + 1).contains(g.2));
            let j = choose|j: int| 0 <= j < mid.len() && mid[j] == g;
            assert(mid[j].2 != addrs[i] && was.contains(mid[j]));
            if addrs.skip(i).contains(g.2) {
                let c = choose|c: int| 0 <= c < addrs.skip(i).len() && addrs.skip(i)[c] == g.2;
                assert(c > 0);
                assert(addrs.skip(i + 1)[c - 1] == g.2);
            }
        }
    } else {
        assert forall|k: int| 0 <= k < was.len() implies {
            let g = #[trigger] was[k];
            was.contains(g) && !addrs.skip(i).contains(g.2)
        } by {}
    }
}

proof fn lemma_with_addr(s: Seq<u64>, p: u64, q: u64)
    ensures
        with_addr(s, p).contains(q) == (s.contains(q) || q == p),
{
    lemma_addr_pos(s, p, 0);
    let i = addr_pos(s, p, 0);
    let u = with_addr(s, p);
    if u.len() > s.len() {
        assert(u[i] == p);
        if s.contains(q) {
            let k = choose|k: int| 0 <= k < s.len() && s[k] == q;
            assert(u[if k < i {
                k
            } else {
                k + 1
            }] == q);
        }
        if u.contains(q) && q != p {
            let k = choose|k: int| 0 <= k < u.len() && u[k] == q;
            assert(s[if k < i {
                k
            } else {
                k - 1
            }] == q);
        }
    }
}

proof fn lemma_addr_pos(s: Seq<u64>, p: u64, i: int)
    requires
        0 <= i <= s.len(),
    ensures
        i <= addr_pos(s, p, i) <= s.len(),
    decreases s.len() - i,
{
    if i < s.len() && s[i] < p {
        lemma_addr_pos(s, p, i + 1);
    }
}

/// The addresses of the leaves of records are those that were seen before and
/// those of the records.
pub proof fn lemma_leaf_addrs(found: Seq<Found>, i: int, seen: Seq<u64>, q: u64)
    requires
        0 <= i <= found.len(),
    ensures
        leaf_addrs(found, i, seen).contains(q) == (seen.contains(q) || exists|k: int|
            i <= k < found.len() && (#[trigger] found[k]).2 == q),
    decreases found.len() - i,
{
    if i < found.len() {
        lemma_leaf_addrs(found, i + 1, with_addr(seen, found[i].2), q);
        lemma_with_addr(seen, found[i].2, q);
        if exists|k: int| i <= k < found.len() && (#[trigger] found[k]).2 == q {
            let k = choose|k: int| i <= k < found.len() && (#[trigger] found[k]).2 == q;
            if k > i {
                assert(found[k].2 == q);
            }
        }
    }
}

/// All extents of a file are taken out.
pub proof fn lemma_drop_extents(
    v: VolumeView,
    t: Tree,
    m: Set<u64>,
    s: Seq<(u64, NodeView)>,
    oid: u64,
)
    requires
        v.sound(t, m),
        touched_ok(t, s),
        picked(recs_with(t, s), oid, J_TYPE_FILE_EXTENT) == picked(
            recs(t),
            oid,
            J_TYPE_FILE_EXTENT,
        ),
        v.drop_extents(s, oid) is Ok,
    ensures
        touched_ok(t, v.drop_extents(s, oid)->Ok_0),
        only(
            recs_with(t, s),
            recs_with(t, v.drop_extents(s, oid)->Ok_0),
            oid,
            J_TYPE_FILE_EXTENT,
        ),
        picked(recs_with(t, v.drop_extents(s, oid)->Ok_0), oid, J_TYPE_FILE_EXTENT).len() == 0,
{
    let ext = J_TYPE_FILE_EXTENT;
    law_lookups_find_records(v, t, oid, ext);
    let found = picked(recs(t), oid, ext);
    let addrs = leaf_addrs(found, 0, seq![]);
    assert forall|k: int| 0 <= k < addrs.len() implies leaf_count(t, #[trigger] addrs[k]) > 0 by {
        assert(addrs.contains(addrs[k]));
        lemma_leaf_addrs(found, 0, seq![], addrs[k]);
        let i = choose|i: int| 0 <= i < found.len() && (#[trigger] found[i]).2 == addrs[k];
        let j = lemma_picked_from(recs(t), oid, ext, i);
        lemma_recs_leaf(t, j);
    }
    lemma_without_extents(v, t, m, s, addrs, 0, oid);
    let now = picked(recs_with(t, v.drop_extents(s, oid)->Ok_0), oid, ext);
    if now.len() > 0 {
        let g = now[0];
        assert(found.contains(g) && !addrs.skip(0).contains(g.2));
        let k = choose|k: int| 0 <= k < found.len() && found[k] == g;
        assert(found[k].2 == g.2);
        lemma_leaf_addrs(found, 0, seq![], g.2);
        assert(addrs.skip(0) =~= addrs);
    }
}

/// The inode of a directory with one entry less.
pub open spec fn uncounted(i: InodeVal) -> InodeVal {
    with_counter(i, i.nchildren_or_nlink - 1)
}

/// A child is counted off in the inode of a directory.
pub proof fn lemma_count_off(
    v: VolumeView,
    t: Tree,
    m: Set<u64>,
    s: Seq<(u64, NodeView)>,
    p: u64,
    dir: u64,
)
    requires
        v.sound(t, m),
        touched_ok(t, s),
        v.hit(dir, J_TYPE_INODE) matches Ok(Some((_, q))) && q == p,
        v.count_off(s, p, dir) is Ok,
    ensures
        touched_ok(t, v.count_off(s, p, dir)->Ok_0),
        only(recs_with(t, s), recs_with(t, v.count_off(s, p, dir)->Ok_0), dir, J_TYPE_INODE),
        inode_in(recs_with(t, s), dir) matches Ok(i) && inode_in(
            recs_with(t, v.count_off(s, p, dir)->Ok_0),
            dir,
        ) == Ok::<InodeVal, Fault>(uncounted(i)),
{
    let not_a_leaf = "dec_inode_counter_in_node: target is not a leaf"@;
    let f = |n: NodeView|
        edit_inode(
            n,
            dir,
            "dec_inode_counter_in_node: target is not a leaf"@,
            dec_edit(dir),
        );
    lemma_hit_leaf(v, t, dir, J_TYPE_INODE, p);
    let (k, old, new) = lemma_edit_inode(v, t, m, s, p, dir, not_a_leaf, dec_edit(dir), f);
    let i = inode_of(old);
    lemma_with_fixed(old, uncounted(i));
}

/// What holds of the records after an entry was removed: its name and its
/// inode are not found any more, its directory does not count it, and all
/// other names and inodes are as before.
pub open spec fn entry_removed(
    r: Seq<Found>,
    q: Seq<Found>,
    oid: u64,
    dir: u64,
    name: Seq<char>,
) -> bool {
    &&& drec_in(q, dir, name) == Err::<DrecVal, Fault>(Fault::NotFound(name))
    &&& !names_entry(q, dir, name)
    &&& forall|o: u64, nm: Seq<char>|
        (o, nm) != (dir, name) ==> #[trigger] drec_in(q, o, nm) == drec_in(r, o, nm)
    &&& forall|o: u64, nm: Seq<char>|
        names_once(picked(r, o, J_TYPE_DIR_REC), nm) ==> #[trigger] names_once(
            picked(q, o, J_TYPE_DIR_REC),
            nm,
        )
    &&& dir != oid
    &&& picked(q, oid, J_TYPE_INODE).len() == 0
    &&& inode_in(r, dir) matches Ok(was) && inode_in(q, dir) == Ok::<InodeVal, Fault>(
        uncounted(was),
    )
    &&& forall|o: u64| o != oid && o != dir ==> #[trigger] inode_in(q, o) == inode_in(r, o)
}

/// Whether of all directory records the one of `name` in `dir` was taken out,
/// which lay between others.
pub open spec fn drec_taken(
    r: Seq<Found>,
    q: Seq<Found>,
    dir: u64,
    name: Seq<char>,
    at: (Seq<Found>, Found, Seq<Found>),
) -> bool {
    &&& picked(r, dir, J_TYPE_DIR_REC) == at.0 + seq![at.1] + at.2
    &&& picked(q, dir, J_TYPE_DIR_REC) == at.0 + at.2
    &&& drec_name_outcome(at.1.0) == Ok::<Seq<char>, Fault>(name)
    &&& forall|o: u64|
        o != dir ==> #[trigger] picked(q, o, J_TYPE_DIR_REC) == picked(r, o, J_TYPE_DIR_REC)
}

/// What follows the taking of a directory record leaves the others.
pub proof fn lemma_drec_taken(
    r: Seq<Found>,
    mid: Seq<Found>,
    q: Seq<Found>,
    dir: u64,
    name: Seq<char>,
    at: (Seq<Found>, Found, Seq<Found>),
)
    requires
        only(r, mid, dir, J_TYPE_DIR_REC),
        picked(r, dir, J_TYPE_DIR_REC) == at.0 + seq![at.1] + at.2,
        picked(mid, dir, J_TYPE_DIR_REC) == at.0 + at.2,
        drec_name_outcome(at.1.0) == Ok::<Seq<char>, Fault>(name),
        forall|o: u64| #[trigger]
            picked(q, o, J_TYPE_DIR_REC) == picked(mid, o, J_TYPE_DIR_REC),
    ensures
        drec_taken(r, q, dir, name, at),
{
    assert forall|o: u64| o != dir implies #[trigger] picked(q, o, J_TYPE_DIR_REC) == picked(
        r,
        o,
        J_TYPE_DIR_REC,
    ) by {
        assert(picked(mid, o, J_TYPE_DIR_REC) == picked(r, o, J_TYPE_DIR_REC));
    }
}

/// What taking a directory record out means for names.
pub proof fn lemma_name_gone(
    r: Seq<Found>,
    q: Seq<Found>,
    dir: u64,
    name: Seq<char>,
    x: Seq<Found>,
    f: Found,
    y: Seq<Found>,
)
    requires
        only(r, q, dir, J_TYPE_DIR_REC),
        picked(r, dir, J_TYPE_DIR_REC) == x + seq![f] + y,
        picked(q, dir, J_TYPE_DIR_REC) == x + y,
        drec_name_outcome(f.0) == Ok::<Seq<char>, Fault>(name),
        names_once(picked(r, dir, J_TYPE_DIR_REC), name),
    ensures
        drec_in(q, dir, name) == Err::<DrecVal, Fault>(Fault::NotFound(name)),
        !names_entry(q, dir, name),
        forall|o: u64, nm: Seq<char>|
            (o, nm) != (dir, name) ==> #[trigger] drec_in(q, o, nm) == drec_in(r, o, nm),
        forall|o: u64, nm: Seq<char>|
            names_once(picked(r, o, J_TYPE_DIR_REC), nm) ==> #[trigger] names_once(
                picked(q, o, J_TYPE_DIR_REC),
                nm,
            ),
{
    assert forall|o: u64, nm: Seq<char>|
        names_once(picked(r, o, J_TYPE_DIR_REC), nm) implies #[trigger] names_once(
        picked(q, o, J_TYPE_DIR_REC),
        nm,
    ) by {
        if o == dir {
            lemma_once_without(x, f, y, nm);
        } else {
            assert(picked(q, o, J_TYPE_DIR_REC) == picked(r, o, J_TYPE_DIR_REC));
        }
    }
    lemma_once(x, f, y, name);
    lemma_no_name(x + y, name, 0);
    assert forall|o: u64, nm: Seq<char>| (o, nm) != (dir, name) implies #[trigger] drec_in(
        q,
        o,
        nm,
    ) == drec_in(r, o, nm) by {
        if o == dir {
            lemma_named_among(x, f, y, nm);
        } else {
            assert(picked(q, o, J_TYPE_DIR_REC) == picked(r, o, J_TYPE_DIR_REC));
        }
    }
}

/// The steps of removing an entry, on the records alone. `r2` and `r3` differ
/// in records of the object that neither names nor describes it.
proof fn lemma_removed_records(
    r0: Seq<Found>,
    r1: Seq<Found>,
    r2: Seq<Found>,
    r3: Seq<Found>,
    r4: Seq<Found>,
    oid: u64,
    sid: u64,
    dir: u64,
    name: Seq<char>,
)
    requires
        only(r0, r1, dir, J_TYPE_DIR_REC),
        drec_in(r1, dir, name) == Err::<DrecVal, Fault>(Fault::NotFound(name)),
        !names_entry(r1, dir, name),
        forall|o: u64, nm: Seq<char>|
            (o, nm) != (dir, name) ==> #[trigger] drec_in(r1, o, nm) == drec_in(r0, o, nm),
        forall|o: u64, nm: Seq<char>|
            names_once(picked(r0, o, J_TYPE_DIR_REC), nm) ==> #[trigger] names_once(
                picked(r1, o, J_TYPE_DIR_REC),
                nm,
            ),
        only(r1, r2, oid, J_TYPE_INODE),
        picked(r2, oid, J_TYPE_INODE).len() == 0,
        forall|o: u64, j: u8|
            j == J_TYPE_INODE || j == J_TYPE_DIR_REC || (j == J_TYPE_FILE_EXTENT && o != sid)
                ==> #[trigger] picked(r3, o, j) == picked(r2, o, j),
        only(r3, r4, dir, J_TYPE_INODE),
        inode_in(r3, dir) matches Ok(was) && inode_in(r4, dir) == Ok::<InodeVal, Fault>(
            uncounted(was),
        ),
    ensures
        entry_removed(r0, r4, oid, dir, name),
        forall|o: u64| o != sid ==> #[trigger] extents_in(r4, o) == extents_in(r0, o),
{
    assert(picked(r3, oid, J_TYPE_INODE) == picked(r2, oid, J_TYPE_INODE));
    assert(dir != oid);
    assert(picked(r4, oid, J_TYPE_INODE) == picked(r3, oid, J_TYPE_INODE));
    assert(picked(r3, dir, J_TYPE_INODE) == picked(r2, dir, J_TYPE_INODE));
    assert(picked(r2, dir, J_TYPE_INODE) == picked(r1, dir, J_TYPE_INODE));
    assert(picked(r1, dir, J_TYPE_INODE) == picked(r0, dir, J_TYPE_INODE));
    assert forall|o: u64| #[trigger] picked(r4, o, J_TYPE_DIR_REC) == picked(
        r1,
        o,
        J_TYPE_DIR_REC,
    ) by {
        assert(picked(r3, o, J_TYPE_DIR_REC) == picked(r2, o, J_TYPE_DIR_REC));
        assert(picked(r2, o, J_TYPE_DIR_REC) == picked(r1, o, J_TYPE_DIR_REC));
    }
    assert(drec_in(r4, dir, name) == drec_in(r1, dir, name));
    assert(picked(r4, dir, J_TYPE_DIR_REC) == picked(r1, dir, J_TYPE_DIR_REC));
    assert forall|o: u64, nm: Seq<char>|
        names_once(picked(r0, o, J_TYPE_DIR_REC), nm) implies #[trigger] names_once(
        picked(r4, o, J_TYPE_DIR_REC),
        nm,
    ) by {
        assert(picked(r4, o, J_TYPE_DIR_REC) == picked(r1, o, J_TYPE_DIR_REC));
        assert(names_once(picked(r1, o, J_TYPE_DIR_REC), nm));
    }
    assert forall|o: u64, nm: Seq<char>| (o, nm) != (dir, name) implies #[trigger] drec_in(
        r4,
        o,
        nm,
    ) == drec_in(r0, o, nm) by {
        assert(picked(r4, o, J_TYPE_DIR_REC) == picked(r1, o, J_TYPE_DIR_REC));
        assert(drec_in(r1, o, nm) == drec_in(r0, o, nm));
    }
    assert forall|o: u64| o != oid && o != dir implies #[trigger] inode_in(r4, o) == inode_in(
        r0,
        o,
    ) by {
        assert(picked(r4, o, J_TYPE_INODE) == picked(r3, o, J_TYPE_INODE));
        assert(picked(r3, o, J_TYPE_INODE) == picked(r2, o, J_TYPE_INODE));
        assert(picked(r2, o, J_TYPE_INODE) == picked(r1, o, J_TYPE_INODE));
        assert(picked(r1, o, J_TYPE_INODE) == picked(r0, o, J_TYPE_INODE));
    }
    assert forall|o: u64| o != sid implies #[trigger] extents_in(r4, o) == extents_in(r0, o) by {
        assert(picked(r4, o, J_TYPE_FILE_EXTENT) == picked(r3, o, J_TYPE_FILE_EXTENT));
        assert(picked(r3, o, J_TYPE_FILE_EXTENT) == picked(r2, o, J_TYPE_FILE_EXTENT));
        assert(picked(r2, o, J_TYPE_FILE_EXTENT) == picked(r1, o, J_TYPE_FILE_EXTENT));
        assert(picked(r1, o, J_TYPE_FILE_EXTENT) == picked(r0, o, J_TYPE_FILE_EXTENT));
    }
}

/// A file is taken out of the catalog.
pub proof fn lemma_unlinked(
    v: VolumeView,
    t: Tree,
    m: Set<u64>,
    oid: u64,
    sid: u64,
    dir: u64,
    name: Seq<char>,
) -> (r: (Seq<Found>, Found, Seq<Found>))
    requires
        v.sound(t, m),
        v.unlinked(oid, sid, dir, name) is Ok,
        names_once(picked(recs(t), dir, J_TYPE_DIR_REC), name),
    ensures
        ({
            let s = v.unlinked(oid, sid, dir, name)->Ok_0;
            &&& touched_ok(t, s)
            &&& entry_removed(recs(t), recs_with(t, s), oid, dir, name)
            &&& forall|o: u64|
                o != sid ==> #[trigger] extents_in(recs_with(t, s), o) == extents_in(recs(t), o)
            &&& picked(recs_with(t, s), sid, J_TYPE_FILE_EXTENT).len() == 0
            &&& picked(recs_with(t, s), sid, J_TYPE_DSTREAM_ID).len() == 0
            &&& drec_taken(recs(t), recs_with(t, s), dir, name, r)
        }),
{
    let missing = unlink_no_drec(dir, name);
    let s1 = v.drop_drec(dir, name, missing)->Ok_0;
    let s2a = v.delete_record(s1, oid, J_TYPE_INODE).1;
    let s2 = v.drop_inode(s1, oid, sid)->Ok_0;
    let s3 = v.drop_extents(s2, sid)->Ok_0;
    let s4 = v.count_off_parent(s3, dir)->Ok_0;
    let r0 = recs(t);
    let r1 = recs_with(t, s1);
    let r2a = recs_with(t, s2a);
    let r2 = recs_with(t, s2);
    let r3 = recs_with(t, s3);
    let r4 = recs_with(t, s4);
    let (x, f, y) = lemma_drop_drec(v, t, m, dir, name, missing);
    lemma_name_gone(r0, r1, dir, name, x, f, y);
    lemma_delete_record(v, t, m, s1, oid, J_TYPE_INODE);
    law_lookups_find_records(v, t, sid, J_TYPE_DSTREAM_ID);
    let ext = J_TYPE_FILE_EXTENT;
    let dst = J_TYPE_DSTREAM_ID;
    assert(picked(r2a, sid, dst) == picked(r1, sid, dst));
    assert(picked(r1, sid, dst) == picked(r0, sid, dst));
    if picked(r0, sid, dst).len() > 0 {
        lemma_delete_succeeds(v, t, m, s2a, sid, dst);
        lemma_delete_record(v, t, m, s2a, sid, dst);
    }
    assert(only(r2a, r2, sid, dst));
    assert(picked(r2, sid, dst).len() == 0);
    assert(picked(r2, sid, ext) == picked(r2a, sid, ext));
    assert(picked(r2a, sid, ext) == picked(r1, sid, ext));
    assert(picked(r1, sid, ext) == picked(r0, sid, ext));
    lemma_drop_extents(v, t, m, s2, sid);
    let p = (v.hit(dir, J_TYPE_INODE)->Ok_0->0).1;
    lemma_count_off(v, t, m, s3, p, dir);
    assert forall|o: u64, j: u8|
        j == J_TYPE_INODE || j == J_TYPE_DIR_REC || (j == J_TYPE_FILE_EXTENT && o
            != sid) implies #[trigger] picked(r3, o, j) == picked(r2a, o, j) by {
        assert(picked(r3, o, j) == picked(r2, o, j));
        assert(picked(r2, o, j) == picked(r2a, o, j));
    }
    lemma_removed_records(r0, r1, r2a, r3, r4, oid, sid, dir, name);
    assert(picked(r4, sid, ext) == picked(r3, sid, ext));
    assert(picked(r4, sid, dst) == picked(r3, sid, dst));
    assert(picked(r3, sid, dst) == picked(r2, sid, dst));
    assert forall|o: u64| #[trigger] picked(r4, o, J_TYPE_DIR_REC) == picked(
        r1,
        o,
        J_TYPE_DIR_REC,
    ) by {
        assert(picked(r4, o, J_TYPE_DIR_REC) == picked(r3, o, J_TYPE_DIR_REC));
        assert(picked(r3, o, J_TYPE_DIR_REC) == picked(r2a, o, J_TYPE_DIR_REC));
        assert(picked(r2a, o, J_TYPE_DIR_REC) == picked(r1, o, J_TYPE_DIR_REC));
    }
    lemma_drec_taken(r0, r1, r4, dir, name, (x, f, y));
    (x, f, y)
}

/// An empty directory is taken out of the catalog.
pub proof fn lemma_directory_removed(
    v: VolumeView,
    t: Tree,
    m: Set<u64>,
    oid: u64,
    dir: u64,
    name: Seq<char>,
) -> (r: (Seq<Found>, Found, Seq<Found>))
    requires
        v.sound(t, m),
        v.directory_removed(oid, dir, name) is Ok,
        names_once(picked(recs(t), dir, J_TYPE_DIR_REC), name),
    ensures
        ({
            let s = v.directory_removed(oid, dir, name)->Ok_0;
            &&& touched_ok(t, s)
            &&& entry_removed(recs(t), recs_with(t, s), oid, dir, name)
            &&& forall|o: u64| #[trigger]
                extents_in(recs_with(t, s), o) == extents_in(recs(t), o)
            &&& drec_taken(recs(t), recs_with(t, s), dir, name, r)
        }),
{
    let missing = rmdir_no_drec(dir, name);
    let s1 = v.drop_drec(dir, name, missing)->Ok_0;
    let s2 = v.delete_record(s1, oid, J_TYPE_INODE).1;
    let p = v.record_leaf(dir, J_TYPE_INODE)->Ok_0;
    let s3 = v.count_off(s2, p, dir)->Ok_0;
    let r0 = recs(t);
    let r1 = recs_with(t, s1);
    let r2 = recs_with(t, s2);
    let r3 = recs_with(t, s3);
    let (x, f, y) = lemma_drop_drec(v, t, m, dir, name, missing);
    lemma_name_gone(r0, r1, dir, name, x, f, y);
    lemma_delete_record(v, t, m, s1, oid, J_TYPE_INODE);
    lemma_count_off(v, t, m, s2, p, dir);
    lemma_removed_records(r0, r1, r2, r2, r3, oid, oid, dir, name);
    let ext = J_TYPE_FILE_EXTENT;
    assert(picked(r3, oid, ext) == picked(r2, oid, ext));
    assert(picked(r2, oid, ext) == picked(r1, oid, ext));
    assert(picked(r1, oid, ext) == picked(r0, oid, ext));
    assert forall|o: u64| #[trigger] picked(r3, o, J_TYPE_DIR_REC) == picked(
        r1,
        o,
        J_TYPE_DIR_REC,
    ) by {
        assert(picked(r3, o, J_TYPE_DIR_REC) == picked(r2, o, J_TYPE_DIR_REC));
        assert(picked(r2, o, J_TYPE_DIR_REC) == picked(r1, o, J_TYPE_DIR_REC));
    }
    lemma_drec_taken(r0, r1, r3, dir, name, (x, f, y));
    (x, f, y)
}

/// The entry that a path names: its directory is reached through directories
/// and has the name once, and nothing is reached through the entry itself.
pub open spec fn can_remove(t: Tree, path: Seq<char>, dir: u64) -> bool {
    let r = recs(t);
    let names = components(parent_path(parent_part(trimmed(path))));
    let name = base_part(trimmed(path));
    &&& dir_walk(r, names, 0, ROOT_DIR_RECORD) == Some(dir)
    &&& names_once(picked(r, dir, J_TYPE_DIR_REC), name)
    &&& (drec_in(r, dir, name) matches Ok(d) ==> drec_file_type(d.flags) != DT_DIR || picked(
        r,
        d.file_id,
        J_TYPE_DIR_REC,
    ).len() == 0)
}

/// Whether `w` is `v` without the object `oid`: what other paths led to they
/// still lead to, with one entry less in `dir`, and no path leads to anything
/// that it did not lead to before.
pub open spec fn only_gone(v: VolumeView, w: VolumeView, oid: u64, dir: u64) -> bool {
    &&& forall|q: Seq<char>|
        v.resolve(q) is Ok && (v.resolve(q)->Ok_0).0 != oid ==> #[trigger] w.resolve(q) == Ok::<
            (u64, InodeVal),
            Fault,
        >(
            (
                (v.resolve(q)->Ok_0).0,
                if (v.resolve(q)->Ok_0).0 == dir {
                    uncounted((v.resolve(q)->Ok_0).1)
                } else {
                    (v.resolve(q)->Ok_0).1
                },
            ),
        )
    &&& forall|q: Seq<char>| (#[trigger] w.resolve(q) matches Ok((o, _)) ==> (v.resolve(q)
        matches Ok((was, _)) && was == o && o != oid))
}

pub proof fn lemma_entry_gone(
    v: VolumeView,
    w: VolumeView,
    t: Tree,
    u: Tree,
    path: Seq<char>,
    oid: u64,
    dir: u64,
)
    requires
        v.has_catalog(t),
        w.has_catalog(u),
        trimmed(path).len() > 0,
        can_remove(t, path, dir),
        v.resolve(path) matches Ok((o, _)) && o == oid,
        entry_removed(recs(t), recs(u), oid, dir, base_part(trimmed(path))),
    ensures
        w.resolve(path) == Err::<(u64, InodeVal), Fault>(
            Fault::NotFound(base_part(trimmed(path))),
        ),
        only_gone(v, w, oid, dir),
{
    let r = recs(t);
    let q = recs(u);
    let parent = parent_path(parent_part(trimmed(path)));
    let name = base_part(trimmed(path));
    law_names_of_parent_and_entry(path);
    lemma_walk_entry(r, components(parent), name, 0, ROOT_DIR_RECORD);
    law_volume_shows_records(v, t, path, 0);
    law_volume_shows_records(w, u, path, 0);
    let d = drec_in(r, dir, name)->Ok_0;
    assert(d.file_id == oid);
    let g = |o: u64, x: InodeVal|
        if o == dir {
            uncounted(x)
        } else {
            x
        };
    assert forall|o: u64| #[trigger]
        inode_in(r, o) is Ok && o != oid implies inode_in(q, o) == Ok::<InodeVal, Fault>(
        g(o, inode_in(r, o)->Ok_0),
    ) by {
        if o != dir {
            assert(inode_in(q, o) == inode_in(r, o));
        }
    }
    lemma_walk_without(
        r,
        q,
        components(parent),
        0,
        ROOT_DIR_RECORD,
        dir,
        name,
        oid,
        g,
        dir,
        name,
    );
    lemma_walk_entry(q, components(parent), name, 0, ROOT_DIR_RECORD);
    assert forall|p: Seq<char>|
        v.resolve(p) is Ok && (v.resolve(p)->Ok_0).0 != oid implies #[trigger] w.resolve(p) == Ok::<
        (u64, InodeVal),
        Fault,
    >(
        (
            (v.resolve(p)->Ok_0).0,
            if (v.resolve(p)->Ok_0).0 == dir {
                uncounted((v.resolve(p)->Ok_0).1)
            } else {
                (v.resolve(p)->Ok_0).1
            },
        ),
    ) by {
        law_volume_shows_records(v, t, p, 0);
        law_volume_shows_records(w, u, p, 0);
        lemma_walk_without(
            r,
            q,
            components(p),
            0,
            ROOT_DIR_RECORD,
            dir,
            name,
            oid,
            g,
            dir,
            name,
        );
    }
    assert forall|o: u64, nm: Seq<char>| #[trigger] drec_in(q, o, nm) is Ok implies drec_in(
        r,
        o,
        nm,
    ) == drec_in(q, o, nm) by {
        assert((o, nm) != (dir, name));
    }
    assert forall|o: u64| #[trigger] inode_in(q, o) is Ok implies inode_in(r, o) is Ok && o
        != oid by {
        if o == oid {
            assert(picked(q, oid, J_TYPE_INODE).len() == 0);
        } else if o != dir {
            assert(inode_in(q, o) == inode_in(r, o));
        }
    }
    assert forall|p: Seq<char>| (#[trigger] w.resolve(p) matches Ok((o, _)) ==> (v.resolve(p)
        matches Ok((was, _)) && was == o && o != oid)) by {
        law_volume_shows_records(v, t, p, 0);
        law_volume_shows_records(w, u, p, 0);
        lemma_walk_back(r, q, components(p), 0, ROOT_DIR_RECORD);
    }
}

/// A file that was unlinked is not found any more, none of its records is left,
/// and its directory neither lists nor counts it. What other paths led to they
/// still lead to, and nothing else; other files have their extents and their
/// bytes as before. Gives the catalog afterwards.
pub proof fn law_unlink_is_shown(v: VolumeView, t: Tree, m: Set<u64>, path: Seq<char>) -> (u: Tree)
    requires
        v.sound(t, m),
        v.unlink(path).0 is Ok,
        can_remove(t, path, (v.resolve(path)->Ok_0).1.parent_id),
    ensures
        ({
            let w = v.unlink(path).1;
            let (oid, inode) = v.resolve(path)->Ok_0;
            &&& w.sound(u, m)
            &&& w.resolve(path) == Err::<(u64, InodeVal), Fault>(
                Fault::NotFound(base_part(trimmed(path))),
            )
            &&& w.presence(path) == Ok::<bool, Fault>(false)
            &&& lacks(w.directory(inode.parent_id), base_part(trimmed(path)))
            &&& only_gone(v, w, oid, inode.parent_id)
            &&& w.extents(inode.private_id) == Ok::<Seq<FileExtentVal>, Fault>(seq![])
            &&& forall|o: u64| o != inode.private_id ==> #[trigger] w.extents(o) == v.extents(o)
            &&& w.hits(oid, J_TYPE_INODE) == Ok::<Seq<Found>, Fault>(seq![])
            &&& w.hits(inode.private_id, J_TYPE_DSTREAM_ID) == Ok::<Seq<Found>, Fault>(seq![])
            &&& files_kept(v, w, t, m)
            &&& follows(v, t, w, u, m)
        }),
{
    let w = v.unlink(path).1;
    let (oid, inode) = v.resolve(path)->Ok_0;
    let dir = inode.parent_id;
    let name = base_part(trimmed(path));
    let sid = inode.private_id;
    lemma_unlinked(v, t, m, oid, sid, dir, name);
    let s = v.unlinked(oid, sid, dir, name)->Ok_0;
    lemma_commit(v, t, m, s);
    lemma_commit_follows(v, t, m, s);
    let u = tree_after(t, s, v.nx);
    lemma_entry_gone(v, w, t, u, path, oid, dir);
    law_listing_agrees_with_lookup(w, u, dir, name);
    law_volume_shows_records(w, u, path, sid);
    law_lookups_find_records(w, u, oid, J_TYPE_INODE);
    law_lookups_find_records(w, u, sid, J_TYPE_DSTREAM_ID);
    assert(picked(recs(u), oid, J_TYPE_INODE) =~= seq![]);
    assert(picked(recs(u), sid, J_TYPE_DSTREAM_ID) =~= seq![]);
    assert forall|o: u64| o != sid implies #[trigger] w.extents(o) == v.extents(o) by {
        law_volume_shows_records(v, t, path, o);
        law_volume_shows_records(w, u, path, o);
        assert(extents_in(recs(u), o) == extents_in(recs(t), o));
    }
    assert forall|spans: Seq<(u64, u64, u64)>, limit: int|
        spans_clear(t, m, v.nx, v.block_size, spans) implies #[trigger] fork_prefix(
        w.disk,
        spans,
        0,
        limit,
    ) == fork_prefix(v.disk, spans, 0, limit) by {
        lemma_commit_file(v, t, m, s, spans, limit);
    }
    u
}

/// A directory that was removed is not found any more, and the directory it
/// was in neither lists nor counts it. What other paths led to they still lead
/// to, and files have their extents and their bytes as before. Gives the
/// catalog afterwards.
pub proof fn law_remove_directory_is_shown(
    v: VolumeView,
    t: Tree,
    m: Set<u64>,
    path: Seq<char>,
) -> (u: Tree)
    requires
        v.sound(t, m),
        v.remove_directory(path).0 is Ok,
        can_remove(t, path, (v.resolve(path)->Ok_0).1.parent_id),
    ensures
        ({
            let w = v.remove_directory(path).1;
            let (oid, inode) = v.resolve(path)->Ok_0;
            &&& w.sound(u, m)
            &&& w.resolve(path) == Err::<(u64, InodeVal), Fault>(
                Fault::NotFound(base_part(trimmed(path))),
            )
            &&& w.presence(path) == Ok::<bool, Fault>(false)
            &&& lacks(w.directory(inode.parent_id), base_part(trimmed(path)))
            &&& only_gone(v, w, oid, inode.parent_id)
            &&& forall|o: u64| #[trigger] w.extents(o) == v.extents(o)
            &&& w.hits(oid, J_TYPE_INODE) == Ok::<Seq<Found>, Fault>(seq![])
            &&& files_kept(v, w, t, m)
            &&& follows(v, t, w, u, m)
        }),
{
    let w = v.remove_directory(path).1;
    let (oid, inode) = v.resolve(path)->Ok_0;
    let dir = inode.parent_id;
    let name = base_part(trimmed(path));
    lemma_directory_removed(v, t, m, oid, dir, name);
    let s = v.directory_removed(oid, dir, name)->Ok_0;
    lemma_commit(v, t, m, s);
    lemma_commit_follows(v, t, m, s);
    let u = tree_after(t, s, v.nx);
    lemma_entry_gone(v, w, t, u, path, oid, dir);
    law_listing_agrees_with_lookup(w, u, dir, name);
    law_volume_shows_records(v, t, path, oid);
    law_lookups_find_records(w, u, oid, J_TYPE_INODE);
    assert(picked(recs(u), oid, J_TYPE_INODE) =~= seq![]);
    assert forall|o: u64| #[trigger] w.extents(o) == v.extents(o) by {
        law_volume_shows_records(v, t, path, o);
        law_volume_shows_records(w, u, path, o);
        assert(extents_in(recs(u), o) == extents_in(recs(t), o));
    }
    assert forall|spans: Seq<(u64, u64, u64)>, limit: int|
        spans_clear(t, m, v.nx, v.block_size, spans) implies #[trigger] fork_prefix(
        w.disk,
        spans,
        0,
        limit,
    ) == fork_prefix(v.disk, spans, 0, limit) by {
        lemma_commit_file(v, t, m, s, spans, limit);
    }
    u
}

} // verus!

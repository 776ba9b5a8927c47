//! What changes to single records mean for paths, directories and files.

use crate::apfs::btree::node::NodeView;
use crate::apfs::btree::records::law_entries_are_records;
use crate::apfs::btree::search::Found;
use crate::apfs::catalog::edit::{edit_inode, inode_entry};
use crate::apfs::catalog::query::cat_rank;
use crate::apfs::catalog::records::{key_outcome, InodeVal, J_TYPE_DIR_REC, J_TYPE_INODE};
use crate::apfs::error::Fault;
use crate::apfs::extents::fork_prefix;
use crate::apfs::superblock::NxView;
use crate::apfs::transaction::{in_block, in_ring};
use crate::apfs::volume::commit::{kept, lemma_commit, lemma_commit_byte};
use crate::apfs::volume::frame::{
    inner_at, leaf_count, lemma_releafed, lemma_releafed_places, releafed,
};
use crate::apfs::volume::model::{drec_in, inode_in, walk_in};
use crate::apfs::volume::state::VolumeView;
use crate::apfs::volume::steps::{lemma_put, lemma_step_replace, only, recs_with, touched_ok};
use crate::apfs::volume::swap::lemma_recs_leaf;
use crate::apfs::volume::tree::{law_lookups_find_records, picked, recs, single, Tree};
use vstd::prelude::*;

verus! {

/// A picked record is one of the records.
pub proof fn lemma_picked_from(r: Seq<Found>, oid: u64, j_type: u8, i: int) -> (j: int)
    requires
        0 <= i < picked(r, oid, j_type).len(),
    ensures
        0 <= j < r.len(),
        r[j] == picked(r, oid, j_type)[i],
        cat_rank(r[j].0, oid, j_type) == 0,
    decreases r.len(),
{
    reveal(Seq::filter);
    let a = r.drop_last();
    let g = picked(a, oid, j_type);
    if i < g.len() {
        let j = lemma_picked_from(a, oid, j_type, i);
        assert(a[j] == r[j]);
        j
    } else {
        r.len() - 1
    }
}

/// The leaf in which a lookup finds a record is a leaf of the catalog.
pub proof fn lemma_hit_leaf(v: VolumeView, t: Tree, oid: u64, j_type: u8, p: u64)
    requires
        v.has_catalog(t),
        single(j_type),
        v.hit(oid, j_type) matches Ok(Some((_, q))) && q == p,
    ensures
        leaf_count(t, p) > 0,
{
    law_lookups_find_records(v, t, oid, j_type);
    let j = lemma_picked_from(recs(t), oid, j_type, 0);
    lemma_recs_leaf(t, j);
}

/// Nothing touched leaves the catalog as it is.
pub proof fn lemma_untouched(v: VolumeView, t: Tree, m: Set<u64>)
    requires
        v.sound(t, m),
    ensures
        touched_ok(t, seq![]),
        recs_with(t, seq![]) == recs(t),
{
    let f = kept(seq![]);
    assert forall|q: u64, n: NodeView| #[trigger] f(q, n) == n by {}
    lemma_same_tree(t, f);
}

pub proof fn lemma_same_tree(t: Tree, f: spec_fn(u64, NodeView) -> NodeView)
    requires
        forall|q: u64, n: NodeView| #[trigger] f(q, n) == n,
    ensures
        releafed(t, f) == t,
    decreases t,
{
    lemma_releafed(t, f);
    match t {
        Tree::Leaf { p, n } => {
            assert(f(p, n) == n);
        },
        Tree::Inner { kids, .. } => {
            let r = releafed(t, f)->kids;
            assert forall|i: int| 0 <= i < kids.len() implies r[i] == kids[i] by {
                assert(r[i] == releafed(kids[i], f));
                lemma_same_tree(kids[i], f);
            }
            assert(r =~= kids);
        },
    }
}

proof fn lemma_inode_entry(n: NodeView, oid: u64, i: int)
    requires
        0 <= i,
        inode_entry(n, oid, i) matches Ok(Some(_)),
    ensures
        inode_entry(n, oid, i) matches Ok(Some(k)) && i <= k < n.toc.len() && n.key(k, 0) is Ok
            && key_outcome(n.key(k, 0)->Ok_0) == Ok::<(u64, u8), Fault>((oid, J_TYPE_INODE)),
    decreases n.toc.len() - i,
{
    if i < n.toc.len() {
        let k = n.key(i, 0)->Ok_0;
        if key_outcome(k) != Ok::<(u64, u8), Fault>((oid, J_TYPE_INODE)) {
            lemma_inode_entry(n, oid, i + 1);
        }
    }
}

/// An inode is changed in a touched leaf. Gives its key with the old value, and
/// the new value.
pub proof fn lemma_edit_inode(
    v: VolumeView,
    t: Tree,
    m: Set<u64>,
    s: Seq<(u64, NodeView)>,
    p: u64,
    oid: u64,
    not_a_leaf: Seq<char>,
    e: spec_fn(Seq<u8>) -> Result<Seq<u8>, Fault>,
    f: spec_fn(NodeView) -> (Result<int, Fault>, NodeView),
) -> (r: (Seq<u8>, Seq<u8>, Seq<u8>))
    requires
        v.sound(t, m),
        touched_ok(t, s),
        leaf_count(t, p) > 0,
        forall|n: NodeView| #[trigger] f(n) == edit_inode(n, oid, not_a_leaf, e),
        v.change(s, p, f).0 is Ok,
    ensures
        touched_ok(t, v.change(s, p, f).1),
        only(recs_with(t, s), recs_with(t, v.change(s, p, f).1), oid, J_TYPE_INODE),
        e(r.1) == Ok::<Seq<u8>, Fault>(r.2),
        r.2.len() == r.1.len(),
        picked(recs_with(t, s), oid, J_TYPE_INODE) == seq![(r.0, r.1, p)],
        picked(recs_with(t, v.change(s, p, f).1), oid, J_TYPE_INODE) == seq![(r.0, r.2, p)],
{
    let n = v.load(s, p).0->Ok_0;
    let (a0, n0, b0) = lemma_put(v, t, m, s, p, n);
    lemma_inode_entry(n, oid, 0);
    let i = inode_entry(n, oid, 0)->Ok_0->0;
    law_entries_are_records(n, i, 0, 0);
    let old = n.value(i, 0)->Ok_0;
    let w = e(old)->Ok_0;
    assert(f(n) == edit_inode(n, oid, not_a_leaf, e));
    let (x, k, y) = lemma_step_replace(v, t, m, s, p, i, w, oid, J_TYPE_INODE);
    assert(x + seq![k] + y =~= seq![k]);
    assert(x + seq![(k.0, w, p)] + y =~= seq![(k.0, w, p)]);
    (k.0, old, w)
}

/// A lookup of a path with another inode for `oid`.
pub open spec fn with_inode(r: Result<(u64, InodeVal), Fault>, oid: u64, i: InodeVal) -> Result<
    (u64, InodeVal),
    Fault,
> {
    match r {
        Ok((o, was)) => if o == oid {
            Ok((o, i))
        } else {
            Ok((o, was))
        },
        Err(e) => Err(e),
    }
}

/// Paths lead where they led when only the inode of `oid` is another.
pub proof fn lemma_walk_changed(
    r: Seq<Found>,
    q: Seq<Found>,
    oid: u64,
    i: InodeVal,
    names: Seq<Seq<char>>,
    k: int,
    parent: u64,
)
    requires
        forall|o: u64| #[trigger] picked(q, o, J_TYPE_DIR_REC) == picked(r, o, J_TYPE_DIR_REC),
        forall|o: u64|
            o != oid ==> #[trigger] picked(q, o, J_TYPE_INODE) == picked(r, o, J_TYPE_INODE),
        inode_in(r, oid) is Ok,
        inode_in(q, oid) == Ok::<InodeVal, Fault>(i),
    ensures
        walk_in(q, names, k, parent) == with_inode(walk_in(r, names, k, parent), oid, i),
    decreases names.len() - k,
{
    if k >= names.len() || k < 0 {
        assert(parent != oid ==> picked(q, parent, J_TYPE_INODE) == picked(
            r,
            parent,
            J_TYPE_INODE,
        ));
    } else {
        assert(picked(q, parent, J_TYPE_DIR_REC) == picked(r, parent, J_TYPE_DIR_REC));
        if let Ok(d) = drec_in(r, parent, names[k]) {
            lemma_walk_changed(r, q, oid, i, names, k + 1, d.file_id);
        }
    }
}

/// Whether no byte of these spans lies in a block that metadata is in.
pub open spec fn spans_clear(
    t: Tree,
    m: Set<u64>,
    nx: NxView,
    block_size: u32,
    spans: Seq<(u64, u64, u64)>,
) -> bool {
    forall|i: int, x: int, q: u64|
        #![trigger spans[i], in_block(x, q, block_size as u64)]
        0 <= i < spans.len() && spans[i].1 <= x < spans[i].1 + spans[i].2 && in_block(
            x,
            q,
            block_size as u64,
        ) ==> no_metadata(t, m, nx, q)
}

/// Whether a block is no part of the catalog, the object map or the checkpoint
/// rings.
pub open spec fn no_metadata(t: Tree, m: Set<u64>, nx: NxView, q: u64) -> bool {
    leaf_count(t, q) == 0 && !inner_at(t, q) && !m.contains(q) && !in_ring(nx, q)
}

/// Devices that hold the same bytes in the spans of a file give the same file.
pub proof fn lemma_same_file(
    d: Seq<u8>,
    e: Seq<u8>,
    spans: Seq<(u64, u64, u64)>,
    i: int,
    limit: int,
)
    requires
        d.len() == e.len(),
        0 <= i <= spans.len(),
        forall|k: int, x: int|
            #![trigger spans[k], d[x]]
            0 <= k < spans.len() && spans[k].1 <= x < spans[k].1 + spans[k].2 && x < d.len()
                ==> d[x] == e[x],
    ensures
        fork_prefix(d, spans, i, limit) == fork_prefix(e, spans, i, limit),
    decreases spans.len() - i,
{
    if i < spans.len() && limit > 0 {
        let (_, phys, len) = spans[i];
        let n = if len <= limit {
            len as int
        } else {
            limit
        };
        lemma_same_file(d, e, spans, i + 1, limit - n);
        if phys + n <= d.len() {
            assert forall|x: int| phys <= x < phys + n implies d[x] == e[x] by {
                let k = spans[i];
            }
            assert(d.subrange(phys as int, phys + n) =~= e.subrange(phys as int, phys + n));
        }
    }
}

/// What committing touched leaves does to a file that is clear of metadata:
/// nothing.
pub proof fn lemma_commit_file(
    v: VolumeView,
    t: Tree,
    m: Set<u64>,
    s: Seq<(u64, NodeView)>,
    spans: Seq<(u64, u64, u64)>,
    limit: int,
)
    requires
        v.sound(t, m),
        touched_ok(t, s),
        v.commit(s).0 is Ok,
        spans_clear(t, m, v.nx, v.block_size, spans),
    ensures
        fork_prefix(v.commit(s).1.disk, spans, 0, limit) == fork_prefix(v.disk, spans, 0, limit),
{
    let w = v.commit(s).1;
    lemma_commit(v, t, m, s);
    assert forall|k: int, x: int|
        #![trigger spans[k], v.disk[x]]
        0 <= k < spans.len() && spans[k].1 <= x < spans[k].1 + spans[k].2 && x
            < v.disk.len() implies v.disk[x] == w.disk[x] by {
        assert forall|q: u64| #[trigger] in_block(x, q, v.block_size as u64) implies leaf_count(
            t,
            q,
        ) == 0 && !in_ring(v.nx, q) by {
            let y = spans[k];
            assert(no_metadata(t, m, v.nx, q));
        }
        lemma_commit_byte(v, t, m, s, x);
    }
    lemma_same_file(v.disk, w.disk, spans, 0, limit);
}

/// Spans that are clear of a catalog are clear of one with other leaves.
pub proof fn lemma_clear_kept(
    t: Tree,
    f: spec_fn(u64, NodeView) -> NodeView,
    m: Set<u64>,
    nx: NxView,
    ny: NxView,
    block_size: u32,
    spans: Seq<(u64, u64, u64)>,
)
    requires
        spans_clear(t, m, nx, block_size, spans),
        forall|q: u64| #[trigger] in_ring(ny, q) == in_ring(nx, q),
    ensures
        spans_clear(releafed(t, f), m, ny, block_size, spans),
{
    let u = releafed(t, f);
    assert forall|i: int, x: int, q: u64|
        #![trigger spans[i], in_block(x, q, block_size as u64)]
        0 <= i < spans.len() && spans[i].1 <= x < spans[i].1 + spans[i].2 && in_block(
            x,
            q,
            block_size as u64,
        ) implies no_metadata(u, m, ny, q) by {
        assert(no_metadata(t, m, nx, q));
        lemma_releafed_places(seq![], 1, 0, t, f, m, q);
        assert(in_ring(ny, q) == in_ring(nx, q));
    }
}

} // verus!

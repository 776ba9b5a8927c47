//! What a check of the image comes to after a change.

use crate::apfs::btree::node::{node_outcome, NodeView};
use crate::apfs::btree::search::{child_choice, node_at, tree_sizes, TREE_DEPTH_LIMIT};
use crate::apfs::error::Fault;
use crate::apfs::fletcher::intact;
use crate::apfs::object::block_outcome;
use crate::apfs::omap::{
    omap_outcome, omap_search, omap_tree_root, resolver, OMAP_KEY_SIZE, OMAP_VAL_SIZE,
};
use crate::apfs::superblock::{first_nx, law_latest_nx_is_newest, ring_nx, NxView};
use crate::apfs::verify::{
    check_container, check_omap, check_ring, check_slot, check_volume, check_volumes,
    checked_volume, child_at, empty_report, image_outcome, walk_children, walk_node, walk_tree,
    VerifyReport,
};
use crate::apfs::volume::commit::next_slot;
use crate::apfs::volume::frame::{
    leaf_count, lemma_omap_frame, omap_within, same_blocks, search_within,
};
use crate::apfs::volume::remount::{
    follows, leaf_kept, lemma_kept_blocks, lemma_rooted_after, renewed, rooted, stays,
};
use crate::apfs::volume::state::VolumeView;
use crate::apfs::volume::swap::{lemma_has_leaf, lemma_leaf_there};
use crate::apfs::volume::tree::Tree;
use vstd::prelude::*;

verus! {

/// The `i`-th child of the node at `p`, if the node has one.
pub open spec fn child_of(
    disk: Seq<u8>,
    block_size: u32,
    omap_root: Option<u64>,
    p: u64,
    i: int,
) -> Option<u64> {
    match node_at(disk, p, block_size) {
        Ok(n) => if !n.is_leaf() && 0 <= i < n.toc.len() {
            match child_at(disk, block_size, omap_root, n, i) {
                Ok(c) => Some(c),
                Err(_) => None,
            }
        } else {
            None
        },
        Err(_) => None,
    }
}

/// Whether these blocks hold a tree: its root, and with a node its children.
pub open spec fn holds_tree(
    disk: Seq<u8>,
    block_size: u32,
    omap_root: Option<u64>,
    root: u64,
    k: Set<u64>,
) -> bool {
    &&& k.contains(root)
    &&& forall|p: u64, i: int|
        k.contains(p) ==> (#[trigger] child_of(disk, block_size, omap_root, p, i) matches Some(c)
            ==> k.contains(c))
}

/// Whether these blocks are all of the set or leaves of the catalog.
pub open spec fn kept_or_leaves(k: Set<u64>, t: Tree, m: Set<u64>) -> bool {
    forall|q: u64| #[trigger] k.contains(q) ==> m.contains(q) || leaf_count(t, q) > 0
}

/// Whether a tree lies in the set, but for leaves of the catalog.
pub open spec fn tree_within(
    disk: Seq<u8>,
    block_size: u32,
    omap_root: Option<u64>,
    root: u64,
    t: Tree,
    m: Set<u64>,
) -> bool {
    exists|k: Set<u64>| #[trigger]
        holds_tree(disk, block_size, omap_root, root, k) && kept_or_leaves(k, t, m)
}

/// Whether an object map lies in the set.
pub open spec fn omap_tree_within(disk: Seq<u8>, block_size: u32, root: u64, m: Set<u64>) -> bool {
    exists|k: Set<u64>| #[trigger]
        holds_tree(disk, block_size, None, root, k) && k.subset_of(m)
}

proof fn lemma_choice(
    n: NodeView,
    fks: u32,
    rank: spec_fn(Seq<u8>) -> int,
    i: int,
    chosen: Option<int>,
)
    requires
        0 <= i,
        chosen matches Some(c) ==> 0 <= c < n.toc.len(),
    ensures
        child_choice(n, fks, rank, i, chosen) matches Ok(Some(c)) ==> 0 <= c < n.toc.len(),
    decreases n.toc.len() - i,
{
    if i < n.toc.len() {
        lemma_choice(n, fks, rank, i + 1, Some(i));
    }
}

proof fn lemma_search_stays(
    disk: Seq<u8>,
    block_size: u32,
    fks: u32,
    rank: spec_fn(Seq<u8>) -> int,
    root: u64,
    p: u64,
    levels: u32,
    k: Set<u64>,
    m: Set<u64>,
)
    requires
        holds_tree(disk, block_size, None, root, k),
        k.subset_of(m),
        k.contains(p),
        node_at(disk, p, block_size) is Ok,
    ensures
        search_within(
            disk,
            block_size,
            fks,
            rank,
            node_at(disk, p, block_size)->Ok_0,
            levels,
            m,
        ),
    decreases levels,
{
    let n = node_at(disk, p, block_size)->Ok_0;
    if !n.is_leaf() && levels > 0 {
        lemma_choice(n, fks, rank, 0, None);
        if let Ok(Some(i)) = child_choice(n, fks, rank, 0, None) {
            if let Ok(c) = n.child_oid(i) {
                assert(child_of(disk, block_size, None, p, i) == Some(c));
                if node_at(disk, c, block_size) is Ok {
                    lemma_search_stays(
                        disk,
                        block_size,
                        fks,
                        rank,
                        root,
                        c,
                        (levels - 1) as u32,
                        k,
                        m,
                    );
                }
            }
        }
    }
}

/// Lookups in an object map of the set stay in the set.
proof fn lemma_omap_stays(disk: Seq<u8>, block_size: u32, root: u64, oid: u64, m: Set<u64>)
    requires
        omap_tree_within(disk, block_size, root, m),
    ensures
        omap_within(disk, root, block_size, oid, m),
{
    let k = choose|k: Set<u64>| #[trigger]
        holds_tree(disk, block_size, None, root, k) && k.subset_of(m);
    if let Ok(n) = node_at(disk, root, block_size) {
        lemma_search_stays(
            disk,
            block_size,
            tree_sizes(n, OMAP_KEY_SIZE, OMAP_VAL_SIZE).0,
            omap_search(oid),
            root,
            root,
            TREE_DEPTH_LIMIT,
            k,
            m,
        );
    }
}

/// Whether lookups give the same on both devices.
pub open spec fn same_lookups(
    d: Seq<u8>,
    e: Seq<u8>,
    block_size: u32,
    omap_root: Option<u64>,
) -> bool {
    forall|oid: u64| #[trigger]
        resolver(e, block_size, omap_root)(oid) == resolver(d, block_size, omap_root)(oid)
}

proof fn lemma_same_lookups(
    d: Seq<u8>,
    e: Seq<u8>,
    block_size: u32,
    root: u64,
    m: Set<u64>,
)
    requires
        same_blocks(d, e, block_size, m),
        omap_tree_within(d, block_size, root, m),
    ensures
        same_lookups(d, e, block_size, Some(root)),
        forall|oid: u64| #[trigger]
            omap_outcome(e, root, block_size, oid) == omap_outcome(d, root, block_size, oid),
{
    assert forall|oid: u64| #[trigger] omap_outcome(e, root, block_size, oid) == omap_outcome(
        d,
        root,
        block_size,
        oid,
    ) by {
        lemma_omap_stays(d, block_size, root, oid, m);
        lemma_omap_frame(d, e, root, block_size, oid, m);
    }
    assert forall|oid: u64| #[trigger] resolver(e, block_size, Some(root))(oid) == resolver(
        d,
        block_size,
        Some(root),
    )(oid) by {
        assert(omap_outcome(e, root, block_size, oid) == omap_outcome(d, root, block_size, oid));
    }
}

/// Whether a block is the same on both devices, or a leaf on both, and intact
/// on the second.
pub open spec fn node_kept(d: Seq<u8>, e: Seq<u8>, block_size: u32, q: u64) -> bool {
    block_outcome(e, q, block_size) == block_outcome(d, q, block_size) || {
        &&& node_at(d, q, block_size) matches Ok(n) && n.is_leaf()
        &&& block_outcome(e, q, block_size) matches Ok(b) && intact(b) && (node_outcome(
            b,
        ) matches Ok(n) && n.is_leaf())
    }
}

/// Whether the nodes of a tree are kept.
pub open spec fn nodes_kept(d: Seq<u8>, e: Seq<u8>, block_size: u32, k: Set<u64>) -> bool {
    forall|q: u64| k.contains(q) ==> #[trigger] node_kept(d, e, block_size, q)
}

/// A tree whose nodes are kept passes the walk as it did.
proof fn lemma_walk_node(
    d: Seq<u8>,
    e: Seq<u8>,
    block_size: u32,
    omap_root: Option<u64>,
    root: u64,
    p: u64,
    r1: VerifyReport,
    r2: VerifyReport,
    visited: Set<u64>,
    levels: u32,
    k: Set<u64>,
)
    requires
        holds_tree(d, block_size, omap_root, root, k),
        nodes_kept(d, e, block_size, k),
        same_lookups(d, e, block_size, omap_root),
        k.contains(p),
        walk_node(d, block_size, omap_root, p, r1, visited, levels) is Ok,
    ensures
        walk_node(e, block_size, omap_root, p, r2, visited, levels) matches Ok((_, after))
            && after == (walk_node(d, block_size, omap_root, p, r1, visited, levels)->Ok_0).1,
    decreases levels, 1int, 0int,
{
    if !visited.contains(p) {
        assert(node_kept(d, e, block_size, p));
        let n = node_at(d, p, block_size)->Ok_0;
        if !n.is_leaf() {
            lemma_walk_children(
                d,
                e,
                block_size,
                omap_root,
                root,
                p,
                n,
                0,
                r1.node(),
                r2.node(),
                visited.insert(p),
                levels,
                k,
            );
        }
    }
}

proof fn lemma_walk_children(
    d: Seq<u8>,
    e: Seq<u8>,
    block_size: u32,
    omap_root: Option<u64>,
    root: u64,
    p: u64,
    n: NodeView,
    i: int,
    r1: VerifyReport,
    r2: VerifyReport,
    visited: Set<u64>,
    levels: u32,
    k: Set<u64>,
)
    requires
        holds_tree(d, block_size, omap_root, root, k),
        nodes_kept(d, e, block_size, k),
        same_lookups(d, e, block_size, omap_root),
        k.contains(p),
        node_at(d, p, block_size) == Ok::<NodeView, Fault>(n),
        !n.is_leaf(),
        walk_children(d, block_size, omap_root, n, i, r1, visited, levels) is Ok,
    ensures
        walk_children(e, block_size, omap_root, n, i, r2, visited, levels) matches Ok((_, after))
            && after == (walk_children(
            d,
            block_size,
            omap_root,
            n,
            i,
            r1,
            visited,
            levels,
        )->Ok_0).1,
    decreases levels, 0int, n.toc.len() - i,
{
    if 0 <= i < n.toc.len() && levels > 0 {
        let c = child_at(d, block_size, omap_root, n, i)->Ok_0;
        assert(child_of(d, block_size, omap_root, p, i) == Some(c));
        let oid = n.child_oid(i)->Ok_0;
        assert(resolver(e, block_size, omap_root)(oid) == resolver(d, block_size, omap_root)(oid));
        assert(child_at(e, block_size, omap_root, n, i) == Ok::<u64, Fault>(c));
        let below = (levels - 1) as u32;
        lemma_walk_node(d, e, block_size, omap_root, root, c, r1, r2, visited, below, k);
        let (s1, seen) = walk_node(d, block_size, omap_root, c, r1, visited, below)->Ok_0;
        let (s2, _) = walk_node(e, block_size, omap_root, c, r2, visited, below)->Ok_0;
        lemma_walk_children(
            d,
            e,
            block_size,
            omap_root,
            root,
            p,
            n,
            i + 1,
            s1,
            s2,
            seen,
            levels,
            k,
        );
    }
}

/// Blocks that hold a tree still hold it when its nodes are kept.
proof fn lemma_holds_after(
    d: Seq<u8>,
    e: Seq<u8>,
    block_size: u32,
    omap_root: Option<u64>,
    root: u64,
    k: Set<u64>,
)
    requires
        holds_tree(d, block_size, omap_root, root, k),
        nodes_kept(d, e, block_size, k),
        same_lookups(d, e, block_size, omap_root),
    ensures
        holds_tree(e, block_size, omap_root, root, k),
{
    assert forall|p: u64, i: int| k.contains(p) implies (#[trigger] child_of(
        e,
        block_size,
        omap_root,
        p,
        i,
    ) matches Some(c) ==> k.contains(c)) by {
        assert(node_kept(d, e, block_size, p));
        if let Some(c) = child_of(e, block_size, omap_root, p, i) {
            let n = node_at(e, p, block_size)->Ok_0;
            assert(node_at(d, p, block_size) == Ok::<NodeView, Fault>(n));
            let oid = n.child_oid(i)->Ok_0;
            assert(resolver(e, block_size, omap_root)(oid) == resolver(d, block_size, omap_root)(
                oid,
            ));
            assert(child_of(d, block_size, omap_root, p, i) == Some(c));
        }
    }
}

/// A tree of the set, or with leaves of the catalog, passes the walk after a
/// step.
proof fn lemma_tree_after(
    v: VolumeView,
    t: Tree,
    w: VolumeView,
    u: Tree,
    m: Set<u64>,
    omap_root: Option<u64>,
    root: u64,
    r1: VerifyReport,
    r2: VerifyReport,
)
    requires
        v.sound(t, m),
        follows(v, t, w, u, m),
        tree_within(v.disk, v.block_size, omap_root, root, t, m),
        same_lookups(v.disk, w.disk, v.block_size, omap_root),
        walk_tree(v.disk, v.block_size, omap_root, root, r1) is Ok,
    ensures
        walk_tree(w.disk, v.block_size, omap_root, root, r2) is Ok,
        tree_within(w.disk, v.block_size, omap_root, root, u, m),
{
    let bs = v.block_size;
    let k = choose|k: Set<u64>| #[trigger]
        holds_tree(v.disk, bs, omap_root, root, k) && kept_or_leaves(k, t, m);
    lemma_kept_blocks(v, t, w, u, m);
    assert forall|q: u64| k.contains(q) implies #[trigger] node_kept(v.disk, w.disk, bs, q) by {
        if m.contains(q) {
            assert(block_outcome(v.disk, q, bs) == block_outcome(w.disk, q, bs));
        } else {
            assert(leaf_count(t, q) > 0);
            assert(leaf_kept(v, w, q));
            let n = lemma_leaf_there(t, q);
            lemma_has_leaf(v.disk, bs, v.omap_root, t, TREE_DEPTH_LIMIT, q, n);
        }
    }
    lemma_walk_node(
        v.disk,
        w.disk,
        bs,
        omap_root,
        root,
        root,
        r1,
        r2,
        Set::empty(),
        TREE_DEPTH_LIMIT,
        k,
    );
    lemma_holds_after(v.disk, w.disk, bs, omap_root, root, k);
    assert(kept_or_leaves(k, u, m)) by {
        assert forall|q: u64| #[trigger] k.contains(q) implies m.contains(q) || leaf_count(u, q)
            > 0 by {
            assert(leaf_count(u, q) == leaf_count(t, q));
        }
    }
}

/// An object map of the set passes the check after a step.
proof fn lemma_omap_after(
    v: VolumeView,
    t: Tree,
    w: VolumeView,
    u: Tree,
    m: Set<u64>,
    oid: u64,
    root: u64,
    r1: VerifyReport,
    r2: VerifyReport,
)
    requires
        v.sound(t, m),
        follows(v, t, w, u, m),
        m.contains(oid),
        omap_tree_root(v.disk, oid, v.block_size) == Ok::<u64, Fault>(root),
        omap_tree_within(v.disk, v.block_size, root, m),
        check_omap(v.disk, oid, v.block_size, r1) is Ok,
    ensures
        check_omap(w.disk, oid, v.block_size, r2) matches Ok((_, x)) && x == root,
        omap_tree_root(w.disk, oid, v.block_size) == Ok::<u64, Fault>(root),
        omap_tree_within(w.disk, v.block_size, root, m),
        same_lookups(v.disk, w.disk, v.block_size, Some(root)),
        forall|o: u64| #[trigger]
            omap_outcome(w.disk, root, v.block_size, o) == omap_outcome(
                v.disk,
                root,
                v.block_size,
                o,
            ),
{
    let bs = v.block_size;
    lemma_kept_blocks(v, t, w, u, m);
    assert(block_outcome(v.disk, oid, bs) == block_outcome(w.disk, oid, bs));
    lemma_same_lookups(v.disk, w.disk, bs, root, m);
    let k = choose|k: Set<u64>| #[trigger]
        holds_tree(v.disk, bs, None, root, k) && k.subset_of(m);
    assert(same_lookups(v.disk, w.disk, bs, None));
    assert forall|q: u64| k.contains(q) implies #[trigger] node_kept(v.disk, w.disk, bs, q) by {
        assert(m.contains(q));
        assert(block_outcome(v.disk, q, bs) == block_outcome(w.disk, q, bs));
    }
    lemma_walk_node(
        v.disk,
        w.disk,
        bs,
        None,
        root,
        root,
        r1.block(),
        r2.block(),
        Set::empty(),
        TREE_DEPTH_LIMIT,
        k,
    );
    lemma_holds_after(v.disk, w.disk, bs, None, root, k);
}

/// Whether what a check of a volume visits lies in the set, but for leaves of
/// the catalog.
#[verifier::opaque]
pub open spec fn volume_within(
    disk: Seq<u8>,
    block_size: u32,
    root: u64,
    oid: u64,
    t: Tree,
    m: Set<u64>,
) -> bool {
    &&& omap_outcome(disk, root, block_size, oid) matches Ok(p)
    &&& m.contains(p)
    &&& checked_volume(disk, root, block_size, oid) matches Ok(vol)
    &&& m.contains(vol.omap_oid)
    &&& omap_tree_root(disk, vol.omap_oid, block_size) matches Ok(omap_root)
    &&& omap_tree_within(disk, block_size, omap_root, m)
    &&& omap_outcome(disk, omap_root, block_size, vol.root_tree_oid) matches Ok(catalog)
    &&& tree_within(disk, block_size, Some(omap_root), catalog, t, m)
    &&& vol.extentref_tree_oid == 0 || tree_within(
        disk,
        block_size,
        None,
        vol.extentref_tree_oid,
        t,
        m,
    )
}

/// A volume passes the check after a step.
proof fn lemma_volume_after(
    v: VolumeView,
    t: Tree,
    w: VolumeView,
    u: Tree,
    m: Set<u64>,
    x: NxView,
    y: NxView,
    root: u64,
    oid: u64,
    r1: VerifyReport,
    r2: VerifyReport,
)
    requires
        v.sound(t, m),
        follows(v, t, w, u, m),
        x.block_size == v.block_size,
        y.block_size == v.block_size,
        x.header.xid <= y.header.xid,
        omap_tree_within(v.disk, v.block_size, root, m),
        volume_within(v.disk, v.block_size, root, oid, t, m),
        check_volume(v.disk, x, root, oid, r1) is Ok,
    ensures
        check_volume(w.disk, y, root, oid, r2) is Ok,
        volume_within(w.disk, v.block_size, root, oid, u, m),
{
    reveal(volume_within);
    let bs = v.block_size;
    lemma_kept_blocks(v, t, w, u, m);
    lemma_same_lookups(v.disk, w.disk, bs, root, m);
    let p = omap_outcome(v.disk, root, bs, oid)->Ok_0;
    assert(omap_outcome(w.disk, root, bs, oid) == Ok::<u64, Fault>(p));
    assert(block_outcome(v.disk, p, bs) == block_outcome(w.disk, p, bs));
    let vol = checked_volume(v.disk, root, bs, oid)->Ok_0;
    assert(checked_volume(w.disk, root, bs, oid) == checked_volume(v.disk, root, bs, oid));
    let omap_root = omap_tree_root(v.disk, vol.omap_oid, bs)->Ok_0;
    let catalog = omap_outcome(v.disk, omap_root, bs, vol.root_tree_oid)->Ok_0;
    let q1 = r1.block().volume().xid(vol.header.xid);
    let q2 = r2.block().volume().xid(vol.header.xid);
    lemma_omap_after(v, t, w, u, m, vol.omap_oid, omap_root, q1, q2);
    let (a1, _) = check_omap(v.disk, vol.omap_oid, bs, q1)->Ok_0;
    let (a2, _) = check_omap(w.disk, vol.omap_oid, bs, q2)->Ok_0;
    assert(omap_outcome(w.disk, omap_root, bs, vol.root_tree_oid) == Ok::<u64, Fault>(catalog));
    lemma_tree_after(v, t, w, u, m, Some(omap_root), catalog, a1, a2);
    if vol.extentref_tree_oid != 0 {
        let b1 = walk_tree(v.disk, bs, Some(omap_root), catalog, a1)->Ok_0;
        let b2 = walk_tree(w.disk, bs, Some(omap_root), catalog, a2)->Ok_0;
        assert(same_lookups(v.disk, w.disk, bs, None));
        lemma_tree_after(v, t, w, u, m, None, vol.extentref_tree_oid, b1, b2);
    }
}

/// Whether what a check of the volumes visits lies in the set, but for leaves
/// of the catalog.
pub open spec fn volumes_within(
    disk: Seq<u8>,
    block_size: u32,
    root: u64,
    fs_oids: Seq<u64>,
    t: Tree,
    m: Set<u64>,
) -> bool {
    forall|i: int|
        0 <= i < fs_oids.len() && #[trigger] fs_oids[i] != 0 ==> volume_within(
            disk,
            block_size,
            root,
            fs_oids[i],
            t,
            m,
        )
}

/// The volumes pass the check after a step.
#[verifier::rlimit(40)]
proof fn lemma_volumes_after(
    v: VolumeView,
    t: Tree,
    w: VolumeView,
    u: Tree,
    m: Set<u64>,
    x: NxView,
    y: NxView,
    root: u64,
    i: int,
    r1: VerifyReport,
    r2: VerifyReport,
)
    requires
        v.sound(t, m),
        follows(v, t, w, u, m),
        x.block_size == v.block_size,
        y.block_size == v.block_size,
        y.fs_oids == x.fs_oids,
        x.header.xid <= y.header.xid,
        0 <= i,
        omap_tree_within(v.disk, v.block_size, root, m),
        volumes_within(v.disk, v.block_size, root, x.fs_oids, t, m),
        check_volumes(v.disk, x, root, i, r1) is Ok,
    ensures
        check_volumes(w.disk, y, root, i, r2) is Ok,
        forall|j: int|
            i <= j < x.fs_oids.len() && #[trigger] x.fs_oids[j] != 0 ==> volume_within(
                w.disk,
                v.block_size,
                root,
                x.fs_oids[j],
                u,
                m,
            ),
    decreases x.fs_oids.len() - i,
{
    if i < x.fs_oids.len() {
        if x.fs_oids[i] == 0 {
            lemma_volumes_after(v, t, w, u, m, x, y, root, i + 1, r1, r2);
        } else {
            let oid = x.fs_oids[i];
            lemma_volume_after(v, t, w, u, m, x, y, root, oid, r1, r2);
            let s1 = check_volume(v.disk, x, root, oid, r1)->Ok_0;
            let s2 = check_volume(w.disk, y, root, oid, r2)->Ok_0;
            lemma_volumes_after(v, t, w, u, m, x, y, root, i + 1, s1, s2);
        }
    }
}

/// Whether what a check of the image visits outside the rings lies in the set,
/// but for leaves of the catalog.
pub open spec fn image_within(v: VolumeView, t: Tree, m: Set<u64>) -> bool {
    &&& rooted(v, m)
    &&& m.contains(v.nx.omap_oid)
    &&& omap_tree_root(v.disk, v.nx.omap_oid, v.block_size) matches Ok(root)
    &&& omap_tree_within(v.disk, v.block_size, root, m)
    &&& volumes_within(v.disk, v.block_size, root, v.nx.fs_oids, t, m)
}

/// Whether two superblocks describe the same state of a container.
pub open spec fn same_container(x: NxView, y: NxView) -> bool {
    &&& x.header.xid == y.header.xid
    &&& x.block_size == y.block_size
    &&& x.omap_oid == y.omap_oid
    &&& x.fs_oids == y.fs_oids
}

/// The superblock that a check of the image goes by, when the ring is sound.
pub open spec fn ring_best(disk: Seq<u8>, seed: NxView) -> NxView {
    match check_ring(disk, seed, 0, empty_report(), None) {
        Ok((_, Some(x))) => x,
        _ => seed,
    }
}

/// What reading slot `i` of the ring gives.
pub open spec fn slot_block(disk: Seq<u8>, seed: NxView, i: int) -> Result<Seq<u8>, Fault> {
    block_outcome(disk, (seed.xp_desc_base + i) as u64, seed.block_size)
}

/// Rings with the same slots pass the check alike.
proof fn lemma_ring_same(
    d: Seq<u8>,
    e: Seq<u8>,
    seed: NxView,
    at: int,
    r1: VerifyReport,
    r2: VerifyReport,
    best: Option<NxView>,
)
    requires
        forall|i: int|
            at <= i < seed.xp_desc_blocks ==> #[trigger] slot_block(e, seed, i) == slot_block(
                d,
                seed,
                i,
            ),
        check_ring(d, seed, at, r1, best) is Ok,
    ensures
        check_ring(e, seed, at, r2, best) matches Ok((_, x)) && x == (check_ring(
            d,
            seed,
            at,
            r1,
            best,
        )->Ok_0).1,
    decreases seed.xp_desc_blocks - at,
{
    if 0 <= at < seed.xp_desc_blocks {
        assert(slot_block(e, seed, at) == slot_block(d, seed, at));
        let (s1, next) = check_slot(d, seed, at, r1, best)->Ok_0;
        let (s2, _) = check_slot(e, seed, at, r2, best)->Ok_0;
        lemma_ring_same(d, e, seed, at + 1, s1, s2, next);
    }
}

/// A ring that passes the check does so from a newer superblock on too.
proof fn lemma_ring_holds(
    d: Seq<u8>,
    e: Seq<u8>,
    seed: NxView,
    at: int,
    r1: VerifyReport,
    r2: VerifyReport,
    best: Option<NxView>,
    x: NxView,
)
    requires
        forall|i: int|
            at <= i < seed.xp_desc_blocks ==> #[trigger] slot_block(e, seed, i) == slot_block(
                d,
                seed,
                i,
            ),
        forall|i: int|
            at <= i < seed.xp_desc_blocks ==> (#[trigger] ring_nx(e, seed, i) matches Some(sb)
                ==> sb.header.xid < x.header.xid),
        check_ring(d, seed, at, r1, best) is Ok,
    ensures
        check_ring(e, seed, at, r2, Some(x)) matches Ok((_, y)) && y == Some(x),
    decreases seed.xp_desc_blocks - at,
{
    if 0 <= at < seed.xp_desc_blocks {
        assert(slot_block(e, seed, at) == slot_block(d, seed, at));
        let here = ring_nx(e, seed, at);
        let (s1, next) = check_slot(d, seed, at, r1, best)->Ok_0;
        let (s2, _) = check_slot(e, seed, at, r2, Some(x))->Ok_0;
        lemma_ring_holds(d, e, seed, at + 1, s1, s2, next, x);
    }
}

/// A ring with a newer superblock in one slot passes the check, which then
/// goes by that superblock.
proof fn lemma_ring_renewed(
    d: Seq<u8>,
    e: Seq<u8>,
    seed: NxView,
    at: int,
    r1: VerifyReport,
    r2: VerifyReport,
    b1: Option<NxView>,
    b2: Option<NxView>,
    k: int,
    x: NxView,
)
    requires
        0 <= at <= k < seed.xp_desc_blocks,
        forall|i: int|
            at <= i < seed.xp_desc_blocks && i != k ==> #[trigger] slot_block(e, seed, i)
                == slot_block(d, seed, i),
        ring_nx(e, seed, k) == Some(x),
        forall|i: int|
            at <= i < seed.xp_desc_blocks && i != k ==> (#[trigger] ring_nx(
                e,
                seed,
                i,
            ) matches Some(sb) ==> sb.header.xid < x.header.xid),
        b2 matches Some(z) ==> z.header.xid < x.header.xid,
        check_ring(d, seed, at, r1, b1) is Ok,
    ensures
        check_ring(e, seed, at, r2, b2) matches Ok((_, y)) && y == Some(x),
    decreases seed.xp_desc_blocks - at,
{
    let (s1, n1) = check_slot(d, seed, at, r1, b1)->Ok_0;
    let here = ring_nx(e, seed, at);
    if at == k {
        assert(check_slot(e, seed, at, r2, b2) is Ok);
        let (s2, n2) = check_slot(e, seed, at, r2, b2)->Ok_0;
        assert(n2 == Some(x));
        lemma_ring_holds(d, e, seed, at + 1, s1, s2, n1, x);
    } else {
        assert(slot_block(e, seed, at) == slot_block(d, seed, at));
        assert(check_slot(e, seed, at, r2, b2) is Ok);
        let (s2, n2) = check_slot(e, seed, at, r2, b2)->Ok_0;
        lemma_ring_renewed(d, e, seed, at + 1, s1, s2, n1, n2, k, x);
    }
}

/// What the check of the ring comes to after a step.
proof fn lemma_ring_after(
    v: VolumeView,
    t: Tree,
    w: VolumeView,
    u: Tree,
    m: Set<u64>,
    seed: NxView,
    r1: VerifyReport,
    r2: VerifyReport,
)
    requires
        v.sound(t, m),
        follows(v, t, w, u, m),
        rooted(v, m),
        first_nx(v.disk) == Ok::<NxView, Fault>(seed),
        check_ring(v.disk, seed, 0, r1, None) is Ok,
    ensures
        check_ring(w.disk, seed, 0, r2, None) matches Ok((_, x)) && (if renewed(v, w) {
            x == Some(w.nx)
        } else {
            x == (check_ring(v.disk, seed, 0, r1, None)->Ok_0).1
        }),
{
    let k = v.nx.xp_desc_next as int;
    let slot = next_slot(v.nx);
    assert forall|i: int|
        0 <= i < seed.xp_desc_blocks && i != k implies #[trigger] slot_block(w.disk, seed, i)
        == slot_block(v.disk, seed, i) by {
        let q = (seed.xp_desc_base + i) as u64;
        assert(stays(v, m, q));
        assert(block_outcome(w.disk, q, v.block_size) == block_outcome(v.disk, q, v.block_size));
    }
    if renewed(v, w) {
        assert(ring_nx(w.disk, seed, k) == Some(w.nx));
        assert forall|i: int| 0 <= i < seed.xp_desc_blocks && i != k implies (#[trigger] ring_nx(
            w.disk,
            seed,
            i,
        ) matches Some(sb) ==> sb.header.xid < w.nx.header.xid) by {
            law_latest_nx_is_newest(v.disk, seed, i);
            assert(slot_block(w.disk, seed, i) == slot_block(v.disk, seed, i));
            assert(ring_nx(w.disk, seed, i) == ring_nx(v.disk, seed, i));
        }
        lemma_ring_renewed(v.disk, w.disk, seed, 0, r1, r2, None, None, k, w.nx);
    } else {
        assert(slot_block(w.disk, seed, k) == slot_block(v.disk, seed, k));
        lemma_ring_same(v.disk, w.disk, seed, 0, r1, r2, None);
    }
}

/// What the check of the container comes to after a step.
proof fn lemma_container_after(
    v: VolumeView,
    t: Tree,
    w: VolumeView,
    u: Tree,
    m: Set<u64>,
    seed: NxView,
    x: NxView,
    y: NxView,
    r1: VerifyReport,
    r2: VerifyReport,
)
    requires
        v.sound(t, m),
        follows(v, t, w, u, m),
        image_within(v, t, m),
        same_container(x, v.nx),
        y.header.xid >= x.header.xid,
        y.block_size == x.block_size,
        y.omap_oid == x.omap_oid,
        y.fs_oids == x.fs_oids,
        check_container(v.disk, seed, x, r1) is Ok,
    ensures
        check_container(w.disk, seed, y, r2) is Ok,
        image_within(w, u, m),
{
    let bs = v.block_size;
    let root = omap_tree_root(v.disk, v.nx.omap_oid, bs)->Ok_0;
    lemma_rooted_after(v, t, w, u, m);
    lemma_omap_after(v, t, w, u, m, v.nx.omap_oid, root, r1, r2);
    let (a1, _) = check_omap(v.disk, v.nx.omap_oid, bs, r1)->Ok_0;
    let (a2, _) = check_omap(w.disk, v.nx.omap_oid, bs, r2)->Ok_0;
    lemma_volumes_after(v, t, w, u, m, x, y, root, 0, a1, a2);
}

/// An image that passes the check passes it after a step too. The step may be
/// any of the changes to a volume, and more steps can follow.
pub proof fn law_image_still_checks_out(
    v: VolumeView,
    t: Tree,
    w: VolumeView,
    u: Tree,
    m: Set<u64>,
)
    requires
        v.sound(t, m),
        follows(v, t, w, u, m),
        image_within(v, t, m),
        same_container(ring_best(v.disk, first_nx(v.disk)->Ok_0), v.nx),
        image_outcome(v.disk) is Ok,
    ensures
        image_outcome(w.disk) is Ok,
        image_within(w, u, m),
        same_container(ring_best(w.disk, first_nx(w.disk)->Ok_0), w.nx),
{
    let bs = v.block_size;
    let seed = first_nx(v.disk)->Ok_0;
    lemma_rooted_after(v, t, w, u, m);
    lemma_kept_blocks(v, t, w, u, m);
    assert(block_outcome(v.disk, 0, bs) == block_outcome(w.disk, 0, bs));
    let r0 = empty_report().block();
    lemma_ring_same(v.disk, v.disk, seed, 0, r0, empty_report(), None);
    lemma_ring_after(v, t, w, u, m, seed, r0, r0);
    lemma_ring_same(w.disk, w.disk, seed, 0, r0, empty_report(), None);
    let (s1, b1) = check_ring(v.disk, seed, 0, r0, None)->Ok_0;
    let (s2, b2) = check_ring(w.disk, seed, 0, r0, None)->Ok_0;
    let x = match b1 {
        Some(x) => x,
        None => seed,
    };
    let y = match b2 {
        Some(y) => y,
        None => seed,
    };
    assert(ring_best(v.disk, seed) == x);
    assert(ring_best(w.disk, seed) == y);
    lemma_container_after(
        v,
        t,
        w,
        u,
        m,
        seed,
        x,
        y,
        s1.xid(x.header.xid),
        s2.xid(y.header.xid),
    );
}

} // verus!

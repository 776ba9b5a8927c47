//! The catalog of a volume as a tree of records, and what lookups find in it.

use crate::apfs::btree::node::NodeView;
use crate::apfs::btree::records::{
    law_entries_are_records, leaf_ok, records, roomy, storable, values_apart,
};
use crate::apfs::btree::search::{
    child_choice, leaf_find, leaf_for, node_at, scan_children, scan_leaf, scan_node, tree_sizes,
    Found, TREE_DEPTH_LIMIT,
};
use crate::apfs::catalog::order::key_sign;
use crate::apfs::catalog::query::{cat_rank, cat_search, cat_selection};
use crate::apfs::catalog::records::{J_TYPE_DIR_REC, J_TYPE_FILE_EXTENT, J_TYPE_XATTR};
use crate::apfs::error::Fault;
use crate::apfs::omap::{omap_outcome, resolver};
use crate::apfs::volume::state::VolumeView;
use vstd::prelude::*;

verus! {

/// A catalog tree: its nodes with their addresses.
pub enum Tree {
    Leaf { p: u64, n: NodeView },
    Inner { p: u64, n: NodeView, kids: Seq<Tree> },
}

impl Tree {
    /// The address of the topmost node.
    pub open spec fn at(self) -> u64 {
        match self {
            Tree::Leaf { p, .. } => p,
            Tree::Inner { p, .. } => p,
        }
    }

    /// The topmost node.
    pub open spec fn node(self) -> NodeView {
        match self {
            Tree::Leaf { n, .. } => n,
            Tree::Inner { n, .. } => n,
        }
    }
}

/// The records of a leaf, each with the address of the leaf.
pub open spec fn leaf_recs(p: u64, n: NodeView) -> Seq<Found> {
    Seq::new(n.toc.len(), |i: int| (records(n, 0, 0)[i].0, records(n, 0, 0)[i].1, p))
}

/// The records of a tree, in order.
pub open spec fn recs(t: Tree) -> Seq<Found>
    decreases t, 0int,
{
    match t {
        Tree::Leaf { p, n } => leaf_recs(p, n),
        Tree::Inner { kids, .. } => recs_from(kids, 0),
    }
}

/// The records of the trees from `i` on, in order.
pub open spec fn recs_from(kids: Seq<Tree>, i: int) -> Seq<Found>
    decreases kids, kids.len() - i,
{
    if i >= kids.len() || i < 0 {
        seq![]
    } else {
        recs(kids[i]) + recs_from(kids, i + 1)
    }
}

/// The key in front of the `i`-th child.
pub open spec fn sep(n: NodeView, i: int) -> Seq<u8> {
    n.key(i, 0)->Ok_0
}

/// Whether a device holds this tree: every node is at its address, and the
/// object map leads from each node to its children.
#[verifier::opaque]
pub open spec fn planted(disk: Seq<u8>, block_size: u32, omap_root: u64, t: Tree, levels: u32) -> bool
    decreases t,
{
    &&& node_at(disk, t.at(), block_size) == Ok::<NodeView, Fault>(t.node())
    &&& !t.node().fixed_kv()
    &&& match t {
        Tree::Leaf { n, .. } => n.is_leaf(),
        Tree::Inner { n, kids, .. } => {
            &&& !n.is_leaf()
            &&& levels > 0
            &&& kids.len() == n.toc.len()
            &&& forall|i: int| 0 <= i < kids.len() ==> (#[trigger] n.key(i, 0)) is Ok
            &&& forall|i: int|
                0 <= i < kids.len() ==> linked(
                    disk,
                    block_size,
                    omap_root,
                    n,
                    i,
                    (#[trigger] kids[i]).at(),
                )
            &&& forall|i: int|
                0 <= i < kids.len() ==> planted(
                    disk,
                    block_size,
                    omap_root,
                    #[trigger] kids[i],
                    (levels - 1) as u32,
                )
        },
    }
}

/// Whether the `i`-th child of a node is at `p`.
pub open spec fn linked(
    disk: Seq<u8>,
    block_size: u32,
    omap_root: u64,
    n: NodeView,
    i: int,
    p: u64,
) -> bool {
    n.child_oid(i) matches Ok(oid) && omap_outcome(disk, omap_root, block_size, oid) == Ok::<
        u64,
        Fault,
    >(p)
}

/// Whether a key lies between two keys: not below the first, and below the
/// second.
pub open spec fn within(k: Seq<u8>, lo: Option<Seq<u8>>, hi: Option<Seq<u8>>) -> bool {
    &&& k.len() >= 8
    &&& lo matches Some(l) ==> key_sign(l, k) <= 0
    &&& hi matches Some(h) ==> key_sign(k, h) < 0
}

/// A leaf that can be changed and written back: keys and values have places of
/// their own, and the keys are in order.
pub open spec fn good_leaf(n: NodeView) -> bool {
    &&& leaf_ok(n, 0, 0)
    &&& roomy(n)
    &&& storable(n)
    &&& values_apart(n, 0)
    &&& !n.fixed_kv()
    &&& in_order(records(n, 0, 0))
    &&& forall|i: int| 0 <= i < n.toc.len() ==> (#[trigger] records(n, 0, 0)[i]).0.len() >= 8
}

/// Keys in ascending order.
pub open spec fn in_order(s: Seq<(Seq<u8>, Seq<u8>)>) -> bool {
    forall|i: int, j: int|
        0 <= i < j < s.len() ==> key_sign((#[trigger] s[i]).0, (#[trigger] s[j]).0) < 0
}

/// The key that the `i`-th child stays below.
pub open spec fn upper(n: NodeView, i: int, hi: Option<Seq<u8>>) -> Option<Seq<u8>> {
    if i + 1 < n.toc.len() { Some(sep(n, i + 1)) } else { hi }
}

/// A tree in order: the keys in front of the children ascend, and what is
/// under a child lies between the key in front of it and the next one.
#[verifier::opaque]
pub open spec fn ordered(t: Tree, lo: Option<Seq<u8>>, hi: Option<Seq<u8>>) -> bool
    decreases t,
{
    match t {
        Tree::Leaf { n, .. } => {
            &&& good_leaf(n)
            &&& forall|i: int| 0 <= i < n.toc.len() ==> within(#[trigger] records(n, 0, 0)[i].0, lo, hi)
        },
        Tree::Inner { n, kids, .. } => {
            &&& kids.len() == n.toc.len()
            &&& forall|i: int| 0 <= i < kids.len() ==> within(#[trigger] sep(n, i), lo, hi)
            &&& forall|i: int, j: int|
                0 <= i < j < kids.len() ==> key_sign(#[trigger] sep(n, i), #[trigger] sep(n, j)) < 0
            &&& forall|i: int|
                0 <= i < kids.len() ==> ordered(
                    #[trigger] kids[i],
                    Some(sep(n, i)),
                    upper(n, i, hi),
                )
        },
    }
}

/// Whether a record is one of `(oid, j_type)`.
pub open spec fn is_of(oid: u64, j_type: u8) -> spec_fn(Found) -> bool {
    |f: Found| cat_rank(f.0, oid, j_type) == 0
}

/// The records of `(oid, j_type)`.
pub open spec fn picked(s: Seq<Found>, oid: u64, j_type: u8) -> Seq<Found> {
    s.filter(is_of(oid, j_type))
}

/// Along ascending keys the rank ascends.
pub proof fn lemma_rank_follows(a: Seq<u8>, b: Seq<u8>, oid: u64, j_type: u8)
    requires
        a.len() >= 8,
        b.len() >= 8,
        key_sign(a, b) <= 0,
    ensures
        cat_rank(a, oid, j_type) > 0 ==> cat_rank(b, oid, j_type) > 0,
        cat_rank(b, oid, j_type) < 0 ==> cat_rank(a, oid, j_type) < 0,
        cat_rank(b, oid, j_type) <= 0 ==> cat_rank(a, oid, j_type) <= 0,
{
}

pub proof fn lemma_picked_add(a: Seq<Found>, b: Seq<Found>, oid: u64, j_type: u8)
    ensures
        picked(a + b, oid, j_type) == picked(a, oid, j_type) + picked(b, oid, j_type),
{
    Seq::filter_distributes_over_add(a, b, is_of(oid, j_type));
}

pub proof fn lemma_picked_none(s: Seq<Found>, oid: u64, j_type: u8)
    requires
        forall|i: int| 0 <= i < s.len() ==> cat_rank((#[trigger] s[i]).0, oid, j_type) != 0,
    ensures
        picked(s, oid, j_type) == Seq::<Found>::empty(),
    decreases s.len(),
{
    reveal(Seq::filter);
    if s.len() > 0 {
        assert forall|i: int| 0 <= i < s.drop_last().len() implies cat_rank(
            (#[trigger] s.drop_last()[i]).0,
            oid,
            j_type,
        ) != 0 by {
            assert(s.drop_last()[i] == s[i]);
        }
        lemma_picked_none(s.drop_last(), oid, j_type);
        assert(s.last() == s[s.len() - 1]);
    }
    assert(picked(s, oid, j_type) =~= Seq::<Found>::empty());
}

pub proof fn lemma_picked_one(f: Found, oid: u64, j_type: u8)
    ensures
        picked(seq![f], oid, j_type) == (if cat_rank(f.0, oid, j_type) == 0 {
            seq![f]
        } else {
            seq![]
        }),
{
    reveal(Seq::filter);
    let s = seq![f];
    assert(s.drop_last() =~= seq![]);
    assert(s.drop_last().filter(is_of(oid, j_type)) =~= seq![]);
    assert(s.last() == f);
    if cat_rank(f.0, oid, j_type) == 0 {
        assert(picked(s, oid, j_type) =~= seq![f]);
    } else {
        assert(picked(s, oid, j_type) =~= seq![]);
    }
}

/// What a planted tree says of its topmost node.
pub proof fn lemma_planted(disk: Seq<u8>, block_size: u32, omap_root: u64, t: Tree, levels: u32)
    requires
        planted(disk, block_size, omap_root, t, levels),
    ensures
        node_at(disk, t.at(), block_size) == Ok::<NodeView, Fault>(t.node()),
        !t.node().fixed_kv(),
        t.node().is_leaf() == (t is Leaf),
        t is Inner ==> levels > 0 && t->kids.len() == t.node().toc.len(),
{
    reveal(planted);
}

/// What a planted tree says of a child.
pub proof fn lemma_child(
    disk: Seq<u8>,
    block_size: u32,
    omap_root: u64,
    t: Tree,
    levels: u32,
    i: int,
)
    requires
        planted(disk, block_size, omap_root, t, levels),
        t is Inner,
        0 <= i < t->kids.len(),
    ensures
        levels > 0,
        t.node().key(i, 0) is Ok,
        linked(disk, block_size, omap_root, t.node(), i, t->kids[i].at()),
        planted(disk, block_size, omap_root, t->kids[i], (levels - 1) as u32),
{
    reveal(planted);
    let k = t->kids[i];
    let key = t.node().key(i, 0);
}

/// What order says of a leaf.
pub proof fn lemma_leaf_order(p: u64, n: NodeView, lo: Option<Seq<u8>>, hi: Option<Seq<u8>>)
    requires
        ordered(Tree::Leaf { p, n }, lo, hi),
    ensures
        good_leaf(n),
        forall|i: int|
            0 <= i < n.toc.len() ==> within(#[trigger] records(n, 0, 0)[i].0, lo, hi),
{
    reveal(ordered);
}

/// What order says of a child.
pub proof fn lemma_child_order(t: Tree, lo: Option<Seq<u8>>, hi: Option<Seq<u8>>, i: int)
    requires
        ordered(t, lo, hi),
        t is Inner,
        0 <= i < t->kids.len(),
    ensures
        t->kids.len() == t.node().toc.len(),
        within(sep(t.node(), i), lo, hi),
        ordered(t->kids[i], Some(sep(t.node(), i)), upper(t.node(), i, hi)),
        forall|j: int|
            i < j < t->kids.len() ==> key_sign(sep(t.node(), i), #[trigger] sep(t.node(), j)) < 0,
{
    reveal(ordered);
    let k = t->kids[i];
    let s = sep(t.node(), i);
}

/// The scan of a leaf in order.
proof fn lemma_scan_leaf(
    p: u64,
    n: NodeView,
    lo: Option<Seq<u8>>,
    hi: Option<Seq<u8>>,
    fks: u32,
    fvs: u32,
    oid: u64,
    j_type: u8,
    i: int,
)
    requires
        ordered(Tree::Leaf { p, n }, lo, hi),
        0 <= i <= n.toc.len(),
    ensures
        ({
            let r = scan_leaf(n, p, fks, fvs, cat_selection(oid, j_type), i);
            &&& r is Ok
            &&& r->Ok_0.0 == picked(leaf_recs(p, n).skip(i), oid, j_type)
            &&& r->Ok_0.1 ==> (hi matches Some(h) ==> h.len() >= 8 ==> cat_rank(h, oid, j_type) > 0)
        }),
    decreases n.toc.len() - i,
{
    lemma_leaf_order(p, n, lo, hi);
    let all = leaf_recs(p, n);
    let pick = cat_selection(oid, j_type);
    if i == n.toc.len() {
        assert(all.skip(i) =~= seq![]);
        lemma_picked_none(all.skip(i), oid, j_type);
    } else {
        law_entries_are_records(n, i, 0, 0);
        assert(n.key(i, fks) == n.key(i, 0) && n.value(i, fvs) == n.value(i, 0));
        let k = records(n, 0, 0)[i].0;
        assert(within(k, lo, hi));
        assert(all.skip(i) =~= seq![all[i]] + all.skip(i + 1));
        lemma_picked_add(seq![all[i]], all.skip(i + 1), oid, j_type);
        lemma_picked_one(all[i], oid, j_type);
        if cat_rank(k, oid, j_type) > 0 {
            assert forall|j: int| 0 <= j < all.skip(i).len() implies cat_rank(
                (#[trigger] all.skip(i)[j]).0,
                oid,
                j_type,
            ) != 0 by {
                assert(all.skip(i)[j] == all[i + j]);
                assert(within(records(n, 0, 0)[i + j].0, lo, hi));
                if j > 0 {
                    assert(key_sign(records(n, 0, 0)[i].0, records(n, 0, 0)[i + j].0) < 0);
                    lemma_rank_follows(k, records(n, 0, 0)[i + j].0, oid, j_type);
                }
            }
            lemma_picked_none(all.skip(i), oid, j_type);
            if let Some(h) = hi {
                if h.len() >= 8 {
                    lemma_rank_follows(k, h, oid, j_type);
                }
            }
        } else {
            lemma_scan_leaf(p, n, lo, hi, fks, fvs, oid, j_type, i + 1);
            assert(seq![] + picked(all.skip(i + 1), oid, j_type) =~= picked(
                all.skip(i + 1),
                oid,
                j_type,
            ));
        }
    }
}

/// All that is under trees whose keys start above the search has a higher
/// rank.
proof fn lemma_above(t: Tree, l: Seq<u8>, hi: Option<Seq<u8>>, oid: u64, j_type: u8)
    requires
        ordered(t, Some(l), hi),
        l.len() >= 8,
        cat_rank(l, oid, j_type) > 0,
    ensures
        picked(recs(t), oid, j_type) == Seq::<Found>::empty(),
    decreases t, 1int, 0int,
{
    match t {
        Tree::Leaf { p, n } => {
            lemma_leaf_order(p, n, Some(l), hi);
            assert forall|i: int| 0 <= i < recs(t).len() implies cat_rank(
                (#[trigger] recs(t)[i]).0,
                oid,
                j_type,
            ) != 0 by {
                assert(within(records(n, 0, 0)[i].0, Some(l), hi));
                lemma_rank_follows(l, records(n, 0, 0)[i].0, oid, j_type);
            }
            lemma_picked_none(recs(t), oid, j_type);
        },
        Tree::Inner { n, kids, .. } => {
            if kids.len() > 0 {
                lemma_child_order(t, Some(l), hi, 0);
                lemma_rank_follows(l, sep(n, 0), oid, j_type);
            }
            lemma_above_tail(t, Some(l), hi, oid, j_type, 0);
        },
    }
}

/// Nothing under the children from `i` on is found when the key in front of
/// the `i`-th lies above the search.
proof fn lemma_above_tail(
    t: Tree,
    lo: Option<Seq<u8>>,
    hi: Option<Seq<u8>>,
    oid: u64,
    j_type: u8,
    i: int,
)
    requires
        t is Inner,
        ordered(t, lo, hi),
        0 <= i <= t->kids.len(),
        i < t->kids.len() ==> cat_rank(sep(t.node(), i), oid, j_type) > 0,
    ensures
        picked(recs_from(t->kids, i), oid, j_type) == Seq::<Found>::empty(),
    decreases t, 0int, t->kids.len() - i,
{
    let kids = t->kids;
    let n = t.node();
    if i < kids.len() {
        lemma_child_order(t, lo, hi, i);
        lemma_above(kids[i], sep(n, i), upper(n, i, hi), oid, j_type);
        if i + 1 < kids.len() {
            lemma_child_order(t, lo, hi, i + 1);
            lemma_rank_follows(sep(n, i), sep(n, i + 1), oid, j_type);
        }
        lemma_above_tail(t, lo, hi, oid, j_type, i + 1);
        lemma_picked_add(recs(kids[i]), recs_from(kids, i + 1), oid, j_type);
        assert(Seq::<Found>::empty() + Seq::<Found>::empty() =~= Seq::<Found>::empty());
    } else {
        lemma_picked_none(recs_from(kids, i), oid, j_type);
    }
}

/// The scan of a planted tree in order finds the records of `(oid, j_type)`.
proof fn lemma_scan(
    disk: Seq<u8>,
    block_size: u32,
    omap_root: u64,
    t: Tree,
    levels: u32,
    lo: Option<Seq<u8>>,
    hi: Option<Seq<u8>>,
    fks: u32,
    fvs: u32,
    oid: u64,
    j_type: u8,
)
    requires
        planted(disk, block_size, omap_root, t, levels),
        ordered(t, lo, hi),
        hi matches Some(h) ==> h.len() >= 8,
    ensures
        ({
            let r = scan_node(
                disk,
                block_size,
                fks,
                fvs,
                cat_selection(oid, j_type),
                resolver(disk, block_size, Some(omap_root)),
                t.node(),
                t.at(),
                levels,
            );
            &&& r is Ok
            &&& r->Ok_0.0 == picked(recs(t), oid, j_type)
            &&& r->Ok_0.1 ==> (hi matches Some(h) ==> cat_rank(h, oid, j_type) > 0)
        }),
    decreases t, 1int, 0int,
{
    lemma_planted(disk, block_size, omap_root, t, levels);
    match t {
        Tree::Leaf { p, n } => {
            lemma_scan_leaf(p, n, lo, hi, fks, fvs, oid, j_type, 0);
            assert(leaf_recs(p, n).skip(0) =~= leaf_recs(p, n));
        },
        Tree::Inner { .. } => {
            lemma_scan_from(
                disk,
                block_size,
                omap_root,
                t,
                levels,
                lo,
                hi,
                fks,
                fvs,
                oid,
                j_type,
                0,
            );
        },
    }
}

proof fn lemma_scan_from(
    disk: Seq<u8>,
    block_size: u32,
    omap_root: u64,
    t: Tree,
    levels: u32,
    lo: Option<Seq<u8>>,
    hi: Option<Seq<u8>>,
    fks: u32,
    fvs: u32,
    oid: u64,
    j_type: u8,
    i: int,
)
    requires
        t is Inner,
        planted(disk, block_size, omap_root, t, levels),
        ordered(t, lo, hi),
        0 <= i <= t->kids.len(),
        hi matches Some(h) ==> h.len() >= 8,
    ensures
        ({
            let r = scan_children(
                disk,
                block_size,
                fks,
                fvs,
                cat_selection(oid, j_type),
                resolver(disk, block_size, Some(omap_root)),
                t.node(),
                levels,
                i,
            );
            &&& r is Ok
            &&& r->Ok_0.0 == picked(recs_from(t->kids, i), oid, j_type)
            &&& r->Ok_0.1 ==> (hi matches Some(h) ==> cat_rank(h, oid, j_type) > 0)
        }),
    decreases t, 0int, t->kids.len() - i,
{
    let n = t.node();
    let kids = t->kids;
    lemma_planted(disk, block_size, omap_root, t, levels);
    if i >= kids.len() {
        lemma_picked_none(recs_from(kids, i), oid, j_type);
    } else {
        let k = sep(n, i);
        lemma_child(disk, block_size, omap_root, t, levels, i);
        lemma_child_order(t, lo, hi, i);
        assert(n.key(i, fks) == n.key(i, 0));
        lemma_picked_add(recs(kids[i]), recs_from(kids, i + 1), oid, j_type);
        if i + 1 < kids.len() {
            lemma_child_order(t, lo, hi, i + 1);
        }
        if cat_rank(k, oid, j_type) > 0 {
            lemma_above_tail(t, lo, hi, oid, j_type, i);
            if let Some(h) = hi {
                lemma_rank_follows(k, h, oid, j_type);
            }
        } else {
            let u = upper(n, i, hi);
            lemma_planted(disk, block_size, omap_root, kids[i], (levels - 1) as u32);
            lemma_scan(
                disk,
                block_size,
                omap_root,
                kids[i],
                (levels - 1) as u32,
                Some(k),
                u,
                fks,
                fvs,
                oid,
                j_type,
            );
            let r = scan_node(
                disk,
                block_size,
                fks,
                fvs,
                cat_selection(oid, j_type),
                resolver(disk, block_size, Some(omap_root)),
                kids[i].node(),
                kids[i].at(),
                (levels - 1) as u32,
            );
            if r->Ok_0.1 {
                lemma_above_tail(t, lo, hi, oid, j_type, i + 1);
                if i + 1 < kids.len() {
                    if let Some(h) = hi {
                        lemma_rank_follows(sep(n, i + 1), h, oid, j_type);
                    }
                }
                assert(picked(recs(kids[i]), oid, j_type) + Seq::<Found>::empty() =~= picked(
                    recs(kids[i]),
                    oid,
                    j_type,
                ));
            } else {
                lemma_scan_from(
                    disk,
                    block_size,
                    omap_root,
                    t,
                    levels,
                    lo,
                    hi,
                    fks,
                    fvs,
                    oid,
                    j_type,
                    i + 1,
                );
            }
        }
    }
}

/// The types of which an object has one record at most.
pub open spec fn single(j_type: u8) -> bool {
    j_type != J_TYPE_DIR_REC && j_type != J_TYPE_FILE_EXTENT && j_type != J_TYPE_XATTR
}

/// The value of the first record.
pub open spec fn first_value(s: Seq<Found>) -> Option<Seq<u8>> {
    if s.len() == 0 { None } else { Some(s[0].1) }
}

/// The value of the first record, with the address of its leaf.
pub open spec fn first_hit(s: Seq<Found>) -> Option<(Seq<u8>, u64)> {
    if s.len() == 0 { None } else { Some((s[0].1, s[0].2)) }
}

proof fn lemma_leaf_find(
    p: u64,
    n: NodeView,
    fks: u32,
    fvs: u32,
    oid: u64,
    j_type: u8,
    i: int,
)
    requires
        good_leaf(n),
        0 <= i <= n.toc.len(),
    ensures
        leaf_find(n, fks, fvs, cat_search(oid, j_type), i) == Ok::<Option<Seq<u8>>, Fault>(
            first_value(picked(leaf_recs(p, n).skip(i), oid, j_type)),
        ),
    decreases n.toc.len() - i,
{
    let all = leaf_recs(p, n);
    if i == n.toc.len() {
        assert(all.skip(i) =~= seq![]);
        lemma_picked_none(all.skip(i), oid, j_type);
    } else {
        law_entries_are_records(n, i, 0, 0);
        assert(n.key(i, fks) == n.key(i, 0) && n.value(i, fvs) == n.value(i, 0));
        let k = records(n, 0, 0)[i].0;
        assert(all.skip(i) =~= seq![all[i]] + all.skip(i + 1));
        lemma_picked_add(seq![all[i]], all.skip(i + 1), oid, j_type);
        lemma_picked_one(all[i], oid, j_type);
        if cat_rank(k, oid, j_type) > 0 {
            assert forall|j: int| 0 <= j < all.skip(i).len() implies cat_rank(
                (#[trigger] all.skip(i)[j]).0,
                oid,
                j_type,
            ) != 0 by {
                assert(all.skip(i)[j] == all[i + j]);
                assert(records(n, 0, 0)[i + j].0.len() >= 8);
                if j > 0 {
                    assert(key_sign(records(n, 0, 0)[i].0, records(n, 0, 0)[i + j].0) < 0);
                    lemma_rank_follows(k, records(n, 0, 0)[i + j].0, oid, j_type);
                }
            }
            lemma_picked_none(all.skip(i), oid, j_type);
        } else {
            lemma_leaf_find(p, n, fks, fvs, oid, j_type, i + 1);
            assert(seq![] + picked(all.skip(i + 1), oid, j_type) =~= picked(
                all.skip(i + 1),
                oid,
                j_type,
            ));
        }
    }
}

/// The child that a search follows.
pub proof fn lemma_choice(
    disk: Seq<u8>,
    block_size: u32,
    omap_root: u64,
    t: Tree,
    levels: u32,
    fks: u32,
    rank: spec_fn(Seq<u8>) -> int,
    i: int,
)
    requires
        t is Inner,
        planted(disk, block_size, omap_root, t, levels),
        0 <= i <= t->kids.len(),
        i > 0 ==> rank(sep(t.node(), i - 1)) <= 0,
    ensures
        ({
            let r = child_choice(
                t.node(),
                fks,
                rank,
                i,
                if i == 0 {
                    None
                } else {
                    Some(i - 1)
                },
            );
            let n = t.node();
            match r {
                Err(_) => false,
                Ok(None) => n.toc.len() > 0 ==> rank(sep(n, 0)) > 0,
                Ok(Some(c)) => 0 <= c < n.toc.len() && rank(sep(n, c)) <= 0 && (c + 1 < n.toc.len()
                    ==> rank(sep(n, c + 1)) > 0),
            }
        }),
    decreases t->kids.len() - i,
{
    lemma_planted(disk, block_size, omap_root, t, levels);
    if i < t->kids.len() {
        lemma_child(disk, block_size, omap_root, t, levels, i);
        assert(t.node().key(i, fks) == t.node().key(i, 0));
        if rank(sep(t.node(), i)) <= 0 {
            lemma_choice(disk, block_size, omap_root, t, levels, fks, rank, i + 1);
        }
    }
}

/// Keys of one object and one single type are the same key.
pub proof fn lemma_single(a: Seq<u8>, b: Seq<u8>, oid: u64, j_type: u8)
    requires
        single(j_type),
        a.len() >= 8,
        b.len() >= 8,
        cat_rank(a, oid, j_type) == 0,
        cat_rank(b, oid, j_type) == 0,
    ensures
        key_sign(a, b) == 0,
{
}

/// Nothing is found under children in front of one whose key is not above the
/// search, when there is one record at most.
proof fn lemma_below(
    t: Tree,
    lo: Option<Seq<u8>>,
    h: Seq<u8>,
    oid: u64,
    j_type: u8,
)
    requires
        ordered(t, lo, Some(h)),
        h.len() >= 8,
        cat_rank(h, oid, j_type) <= 0,
        single(j_type),
    ensures
        picked(recs(t), oid, j_type) == Seq::<Found>::empty(),
    decreases t, 1int, 0int,
{
    match t {
        Tree::Leaf { p, n } => {
            lemma_leaf_order(p, n, lo, Some(h));
            assert forall|i: int| 0 <= i < recs(t).len() implies cat_rank(
                (#[trigger] recs(t)[i]).0,
                oid,
                j_type,
            ) != 0 by {
                let k = records(n, 0, 0)[i].0;
                assert(within(k, lo, Some(h)));
                lemma_rank_follows(k, h, oid, j_type);
                if cat_rank(k, oid, j_type) == 0 {
                    lemma_single(k, h, oid, j_type);
                }
            }
            lemma_picked_none(recs(t), oid, j_type);
        },
        Tree::Inner { .. } => {
            lemma_below_from(t, lo, h, oid, j_type, 0);
        },
    }
}

proof fn lemma_below_from(
    t: Tree,
    lo: Option<Seq<u8>>,
    h: Seq<u8>,
    oid: u64,
    j_type: u8,
    i: int,
)
    requires
        t is Inner,
        ordered(t, lo, Some(h)),
        h.len() >= 8,
        cat_rank(h, oid, j_type) <= 0,
        single(j_type),
        0 <= i <= t->kids.len(),
    ensures
        picked(recs_from(t->kids, i), oid, j_type) == Seq::<Found>::empty(),
    decreases t, 0int, t->kids.len() - i,
{
    let kids = t->kids;
    let n = t.node();
    if i < kids.len() {
        lemma_child_order(t, lo, Some(h), i);
        if i + 1 < kids.len() {
            lemma_child_order(t, lo, Some(h), i + 1);
            lemma_rank_follows(sep(n, i + 1), h, oid, j_type);
            lemma_below(kids[i], Some(sep(n, i)), sep(n, i + 1), oid, j_type);
        } else {
            lemma_below(kids[i], Some(sep(n, i)), h, oid, j_type);
        }
        lemma_below_from(t, lo, h, oid, j_type, i + 1);
        lemma_picked_add(recs(kids[i]), recs_from(kids, i + 1), oid, j_type);
        assert(Seq::<Found>::empty() + Seq::<Found>::empty() =~= Seq::<Found>::empty());
    } else {
        lemma_picked_none(recs_from(kids, i), oid, j_type);
    }
}

/// The children in front of the one that a search follows hold nothing that is
/// searched.
proof fn lemma_before(
    t: Tree,
    lo: Option<Seq<u8>>,
    hi: Option<Seq<u8>>,
    oid: u64,
    j_type: u8,
    i: int,
    c: int,
)
    requires
        t is Inner,
        ordered(t, lo, hi),
        0 <= i <= c < t->kids.len(),
        cat_rank(sep(t.node(), c), oid, j_type) <= 0,
        single(j_type),
    ensures
        picked(recs_from(t->kids, i), oid, j_type) == picked(
            recs_from(t->kids, c),
            oid,
            j_type,
        ),
    decreases c - i,
{
    let kids = t->kids;
    let n = t.node();
    if i < c {
        lemma_child_order(t, lo, hi, i);
        lemma_child_order(t, lo, hi, i + 1);
        lemma_child_order(t, lo, hi, c);
        if i + 1 < c {
            lemma_rank_follows(sep(n, i + 1), sep(n, c), oid, j_type);
        }
        lemma_below(kids[i], Some(sep(n, i)), sep(n, i + 1), oid, j_type);
        lemma_before(t, lo, hi, oid, j_type, i + 1, c);
        lemma_picked_add(recs(kids[i]), recs_from(kids, i + 1), oid, j_type);
        assert(Seq::<Found>::empty() + picked(recs_from(kids, i + 1), oid, j_type) =~= picked(
            recs_from(kids, i + 1),
            oid,
            j_type,
        ));
    }
}

/// The leaf in which the search for a single record ends holds it if the tree
/// does.
proof fn lemma_search(
    disk: Seq<u8>,
    block_size: u32,
    omap_root: u64,
    t: Tree,
    levels: u32,
    lo: Option<Seq<u8>>,
    hi: Option<Seq<u8>>,
    fks: u32,
    oid: u64,
    j_type: u8,
)
    requires
        planted(disk, block_size, omap_root, t, levels),
        ordered(t, lo, hi),
        single(j_type),
    ensures
        ({
            let r = leaf_for(
                disk,
                block_size,
                fks,
                cat_search(oid, j_type),
                resolver(disk, block_size, Some(omap_root)),
                t.node(),
                t.at(),
                levels,
            );
            match r {
                Err(_) => false,
                Ok(None) => picked(recs(t), oid, j_type) == Seq::<Found>::empty(),
                Ok(Some((n, p))) => good_leaf(n) && picked(recs(t), oid, j_type) == picked(
                    leaf_recs(p, n),
                    oid,
                    j_type,
                ),
            }
        }),
    decreases t,
{
    lemma_planted(disk, block_size, omap_root, t, levels);
    let rank = cat_search(oid, j_type);
    match t {
        Tree::Leaf { p, n } => {
            lemma_leaf_order(p, n, lo, hi);
        },
        Tree::Inner { n, kids, .. } => {
            lemma_choice(disk, block_size, omap_root, t, levels, fks, rank, 0);
            match child_choice(n, fks, rank, 0, None) {
                Err(_) => {},
                Ok(None) => {
                    lemma_above_tail(t, lo, hi, oid, j_type, 0);
                },
                Ok(Some(c)) => {
                    lemma_child(disk, block_size, omap_root, t, levels, c);
                    lemma_child_order(t, lo, hi, c);
                    lemma_planted(disk, block_size, omap_root, kids[c], (levels - 1) as u32);
                    lemma_search(
                        disk,
                        block_size,
                        omap_root,
                        kids[c],
                        (levels - 1) as u32,
                        Some(sep(n, c)),
                        upper(n, c, hi),
                        fks,
                        oid,
                        j_type,
                    );
                    lemma_before(t, lo, hi, oid, j_type, 0, c);
                    lemma_above_tail(t, lo, hi, oid, j_type, c + 1);
                    lemma_picked_add(recs(kids[c]), recs_from(kids, c + 1), oid, j_type);
                    assert(picked(recs(kids[c]), oid, j_type) + Seq::<Found>::empty() =~= picked(
                        recs(kids[c]),
                        oid,
                        j_type,
                    ));
                },
            }
        },
    }
}

impl VolumeView {
    /// Whether `t` is the catalog of the volume, and in order.
    pub open spec fn has_catalog(self, t: Tree) -> bool {
        &&& t.at() == self.catalog_root
        &&& planted(self.disk, self.block_size, self.omap_root, t, TREE_DEPTH_LIMIT)
        &&& ordered(t, None, None)
    }
}

proof fn lemma_picked_leaf(s: Seq<Found>, p: u64, oid: u64, j_type: u8)
    requires
        forall|i: int| 0 <= i < s.len() ==> (#[trigger] s[i]).2 == p,
    ensures
        forall|i: int| 0 <= i < picked(s, oid, j_type).len() ==> (#[trigger] picked(s, oid, j_type)[i]).2 == p,
    decreases s.len(),
{
    reveal(Seq::filter);
    if s.len() > 0 {
        assert forall|i: int| 0 <= i < s.drop_last().len() implies (#[trigger] s.drop_last()[i]).2
            == p by {
            assert(s.drop_last()[i] == s[i]);
        }
        lemma_picked_leaf(s.drop_last(), p, oid, j_type);
        assert(s.last() == s[s.len() - 1]);
        let g = picked(s.drop_last(), oid, j_type);
        let f = picked(s, oid, j_type);
        assert(f == g || f == g.push(s.last()));
        assert forall|i: int| 0 <= i < f.len() implies (#[trigger] f[i]).2 == p by {
            if i < g.len() {
                assert(f[i] == g[i]);
            }
        }
    }
}

/// Lookups find what the catalog holds: all records of an object and type in
/// order, and the one record of a single type.
pub proof fn law_lookups_find_records(v: VolumeView, t: Tree, oid: u64, j_type: u8)
    requires
        v.has_catalog(t),
    ensures
        v.hits(oid, j_type) == Ok::<Seq<Found>, Fault>(picked(recs(t), oid, j_type)),
        single(j_type) ==> v.hit(oid, j_type) == Ok::<Option<(Seq<u8>, u64)>, Fault>(
            first_hit(picked(recs(t), oid, j_type)),
        ),
{
    lemma_planted(v.disk, v.block_size, v.omap_root, t, TREE_DEPTH_LIMIT);
    let (fks, fvs) = tree_sizes(t.node(), 0, 0);
    lemma_scan(
        v.disk,
        v.block_size,
        v.omap_root,
        t,
        TREE_DEPTH_LIMIT,
        None,
        None,
        fks,
        fvs,
        oid,
        j_type,
    );
    if single(j_type) {
        lemma_search(
            v.disk,
            v.block_size,
            v.omap_root,
            t,
            TREE_DEPTH_LIMIT,
            None,
            None,
            fks,
            oid,
            j_type,
        );
        let r = leaf_for(
            v.disk,
            v.block_size,
            fks,
            cat_search(oid, j_type),
            resolver(v.disk, v.block_size, Some(v.omap_root)),
            t.node(),
            t.at(),
            TREE_DEPTH_LIMIT,
        );
        if let Ok(Some((n, p))) = r {
            lemma_leaf_find(p, n, fks, fvs, oid, j_type, 0);
            assert(leaf_recs(p, n).skip(0) =~= leaf_recs(p, n));
            lemma_picked_leaf(leaf_recs(p, n), p, oid, j_type);
        }
    }
}

} // verus!

//! What a change of some blocks leaves alone.

use crate::apfs::btree::node::NodeView;
use crate::apfs::btree::search::{
    child_choice, leaf_for, node_at, through, tree_sizes, Physical, TREE_DEPTH_LIMIT,
};
use crate::apfs::error::Fault;
use crate::apfs::object::block_outcome;
use crate::apfs::omap::{omap_outcome, omap_search, OMAP_KEY_SIZE, OMAP_VAL_SIZE};
use crate::apfs::volume::tree::{lemma_child, lemma_planted, linked, planted, Tree};
use vstd::prelude::*;

verus! {

/// Whether two devices hold the same in these blocks.
pub open spec fn same_blocks(d: Seq<u8>, e: Seq<u8>, block_size: u32, m: Set<u64>) -> bool {
    forall|q: u64|
        m.contains(q) ==> #[trigger] block_outcome(d, q, block_size) == block_outcome(
            e,
            q,
            block_size,
        )
}

/// Whether a search below `n` stays in these blocks.
pub open spec fn search_within(
    disk: Seq<u8>,
    block_size: u32,
    fks: u32,
    rank: spec_fn(Seq<u8>) -> int,
    n: NodeView,
    levels: u32,
    m: Set<u64>,
) -> bool
    decreases levels,
{
    if n.is_leaf() || levels == 0 {
        true
    } else {
        match child_choice(n, fks, rank, 0, None) {
            Ok(Some(i)) => match n.child_oid(i) {
                Ok(p) => m.contains(p) && match node_at(disk, p, block_size) {
                    Ok(child) => search_within(
                        disk,
                        block_size,
                        fks,
                        rank,
                        child,
                        (levels - 1) as u32,
                        m,
                    ),
                    Err(_) => true,
                },
                Err(_) => true,
            },
            _ => true,
        }
    }
}

/// Whether the lookup of `oid` in an object map stays in these blocks.
pub open spec fn omap_within(disk: Seq<u8>, root: u64, block_size: u32, oid: u64, m: Set<u64>) -> bool {
    m.contains(root) && match node_at(disk, root, block_size) {
        Ok(n) => search_within(
            disk,
            block_size,
            tree_sizes(n, OMAP_KEY_SIZE, OMAP_VAL_SIZE).0,
            omap_search(oid),
            n,
            TREE_DEPTH_LIMIT,
            m,
        ),
        Err(_) => true,
    }
}

proof fn lemma_search_frame(
    d: Seq<u8>,
    e: Seq<u8>,
    block_size: u32,
    fks: u32,
    rank: spec_fn(Seq<u8>) -> int,
    n: NodeView,
    paddr: u64,
    levels: u32,
    m: Set<u64>,
)
    requires
        same_blocks(d, e, block_size, m),
        search_within(d, block_size, fks, rank, n, levels, m),
    ensures
        leaf_for(d, block_size, fks, rank, through(Physical, d), n, paddr, levels) == leaf_for(
            e,
            block_size,
            fks,
            rank,
            through(Physical, e),
            n,
            paddr,
            levels,
        ),
        search_within(e, block_size, fks, rank, n, levels, m),
    decreases levels,
{
    if !n.is_leaf() && levels > 0 {
        if let Ok(Some(i)) = child_choice(n, fks, rank, 0, None) {
            if let Ok(p) = n.child_oid(i) {
                assert(block_outcome(d, p, block_size) == block_outcome(e, p, block_size));
                if let Ok(child) = node_at(d, p, block_size) {
                    lemma_search_frame(
                        d,
                        e,
                        block_size,
                        fks,
                        rank,
                        child,
                        p,
                        (levels - 1) as u32,
                        m,
                    );
                }
            }
        }
    }
}

/// A lookup in an object map does not depend on other blocks than those it
/// comes by.
pub proof fn lemma_omap_frame(
    d: Seq<u8>,
    e: Seq<u8>,
    root: u64,
    block_size: u32,
    oid: u64,
    m: Set<u64>,
)
    requires
        same_blocks(d, e, block_size, m),
        omap_within(d, root, block_size, oid, m),
    ensures
        omap_outcome(e, root, block_size, oid) == omap_outcome(d, root, block_size, oid),
        omap_within(e, root, block_size, oid, m),
{
    assert(block_outcome(d, root, block_size) == block_outcome(e, root, block_size));
    if let Ok(n) = node_at(d, root, block_size) {
        lemma_search_frame(
            d,
            e,
            block_size,
            tree_sizes(n, OMAP_KEY_SIZE, OMAP_VAL_SIZE).0,
            omap_search(oid),
            n,
            root,
            TREE_DEPTH_LIMIT,
            m,
        );
    }
}

/// How many leaves of a tree are at `p`.
pub open spec fn leaf_count(t: Tree, p: u64) -> nat
    decreases t, 0int,
{
    match t {
        Tree::Leaf { p: q, .. } => if q == p { 1 } else { 0 },
        Tree::Inner { kids, .. } => leaf_count_from(kids, p, 0),
    }
}

/// How many leaves of the trees from `i` on are at `p`.
pub open spec fn leaf_count_from(kids: Seq<Tree>, p: u64, i: int) -> nat
    decreases kids, kids.len() - i,
{
    if i >= kids.len() || i < 0 {
        0
    } else {
        leaf_count(kids[i], p) + leaf_count_from(kids, p, i + 1)
    }
}

/// Whether an inner node of a tree is at `p`.
pub open spec fn inner_at(t: Tree, p: u64) -> bool
    decreases t,
{
    match t {
        Tree::Leaf { .. } => false,
        Tree::Inner { p: q, kids, .. } => q == p || exists|i: int|
            0 <= i < kids.len() && inner_at(#[trigger] kids[i], p),
    }
}

/// Whether all that the object map is asked on the way through a tree stays in
/// these blocks.
#[verifier::opaque]
pub open spec fn mapped_within(
    disk: Seq<u8>,
    block_size: u32,
    omap_root: u64,
    t: Tree,
    m: Set<u64>,
) -> bool
    decreases t,
{
    match t {
        Tree::Leaf { .. } => true,
        Tree::Inner { n, kids, .. } => {
            &&& forall|i: int|
                0 <= i < kids.len() ==> #[trigger] child_within(
                    disk,
                    block_size,
                    omap_root,
                    n,
                    i,
                    m,
                )
            &&& forall|i: int|
                0 <= i < kids.len() ==> mapped_within(
                    disk,
                    block_size,
                    omap_root,
                    #[trigger] kids[i],
                    m,
                )
        },
    }
}

/// Whether the lookup of the `i`-th child of a node stays in these blocks.
pub open spec fn child_within(
    disk: Seq<u8>,
    block_size: u32,
    omap_root: u64,
    n: NodeView,
    i: int,
    m: Set<u64>,
) -> bool {
    n.child_oid(i) matches Ok(oid) ==> omap_within(disk, omap_root, block_size, oid, m)
}

/// What a tree says of the lookup of a child.
pub proof fn lemma_mapped_child(
    disk: Seq<u8>,
    block_size: u32,
    omap_root: u64,
    t: Tree,
    m: Set<u64>,
    i: int,
)
    requires
        mapped_within(disk, block_size, omap_root, t, m),
        t is Inner,
        0 <= i < t->kids.len(),
    ensures
        child_within(disk, block_size, omap_root, t.node(), i, m),
        mapped_within(disk, block_size, omap_root, t->kids[i], m),
{
    reveal(mapped_within);
    let k = t->kids[i];
    let c = child_within(disk, block_size, omap_root, t.node(), i, m);
}

proof fn lemma_mapped(disk: Seq<u8>, block_size: u32, omap_root: u64, t: Tree, m: Set<u64>)
    requires
        t is Inner ==> forall|i: int|
            0 <= i < t->kids.len() ==> #[trigger] child_within(
                disk,
                block_size,
                omap_root,
                t.node(),
                i,
                m,
            ),
        t is Inner ==> forall|i: int|
            0 <= i < t->kids.len() ==> mapped_within(
                disk,
                block_size,
                omap_root,
                #[trigger] t->kids[i],
                m,
            ),
    ensures
        mapped_within(disk, block_size, omap_root, t, m),
{
    reveal(mapped_within);
}

proof fn lemma_plant(disk: Seq<u8>, block_size: u32, omap_root: u64, t: Tree, levels: u32)
    requires
        t is Inner,
        node_at(disk, t.at(), block_size) == Ok::<NodeView, Fault>(t.node()),
        !t.node().fixed_kv(),
        !t.node().is_leaf(),
        levels > 0,
        t->kids.len() == t.node().toc.len(),
        forall|i: int| 0 <= i < t->kids.len() ==> (#[trigger] t.node().key(i, 0)) is Ok,
        forall|i: int|
            0 <= i < t->kids.len() ==> linked(
                disk,
                block_size,
                omap_root,
                t.node(),
                i,
                (#[trigger] t->kids[i]).at(),
            ),
        forall|i: int|
            0 <= i < t->kids.len() ==> planted(
                disk,
                block_size,
                omap_root,
                #[trigger] t->kids[i],
                (levels - 1) as u32,
            ),
    ensures
        planted(disk, block_size, omap_root, t, levels),
{
    reveal(planted);
}

/// A tree with other leaves: `f` gives the leaf in place of the one at an
/// address.
pub open spec fn releafed(t: Tree, f: spec_fn(u64, NodeView) -> NodeView) -> Tree
    decreases t, 0int,
{
    match t {
        Tree::Leaf { p, n } => Tree::Leaf { p, n: f(p, n) },
        Tree::Inner { p, n, kids } => Tree::Inner { p, n, kids: releafed_from(kids, f, 0) },
    }
}

/// The trees from `i` on with other leaves.
pub open spec fn releafed_from(
    kids: Seq<Tree>,
    f: spec_fn(u64, NodeView) -> NodeView,
    i: int,
) -> Seq<Tree>
    decreases kids, kids.len() - i,
{
    if i >= kids.len() || i < 0 {
        seq![]
    } else {
        seq![releafed(kids[i], f)] + releafed_from(kids, f, i + 1)
    }
}

pub proof fn lemma_releafed_from(
    kids: Seq<Tree>,
    f: spec_fn(u64, NodeView) -> NodeView,
    i: int,
)
    requires
        0 <= i <= kids.len(),
    ensures
        releafed_from(kids, f, i).len() == kids.len() - i,
        forall|j: int|
            0 <= j < kids.len() - i ==> #[trigger] releafed_from(kids, f, i)[j] == releafed(
                kids[i + j],
                f,
            ),
    decreases kids.len() - i,
{
    if i < kids.len() {
        lemma_releafed_from(kids, f, i + 1);
        let r = releafed_from(kids, f, i);
        let s = releafed_from(kids, f, i + 1);
        assert forall|j: int| 0 <= j < kids.len() - i implies #[trigger] r[j] == releafed(
            kids[i + j],
            f,
        ) by {
            if j > 0 {
                assert(r[j] == s[j - 1]);
            }
        }
    }
}

/// Other leaves change neither the addresses nor the inner nodes.
pub proof fn lemma_releafed(t: Tree, f: spec_fn(u64, NodeView) -> NodeView)
    ensures
        releafed(t, f).at() == t.at(),
        (releafed(t, f) is Leaf) == (t is Leaf),
        t is Inner ==> {
            &&& releafed(t, f).node() == t.node()
            &&& releafed(t, f)->kids.len() == t->kids.len()
            &&& forall|i: int|
                0 <= i < t->kids.len() ==> #[trigger] releafed(t, f)->kids[i] == releafed(
                    t->kids[i],
                    f,
                )
        },
{
    if let Tree::Inner { kids, .. } = t {
        lemma_releafed_from(kids, f, 0);
        let r = releafed(t, f)->kids;
        assert forall|i: int| 0 <= i < kids.len() implies #[trigger] r[i] == releafed(kids[i], f) by {
            assert(r[i] == releafed(kids[0 + i], f));
        }
    }
}

/// Trees that differ in their leaves have their addresses in common.
pub proof fn lemma_releafed_places(
    disk: Seq<u8>,
    block_size: u32,
    omap_root: u64,
    t: Tree,
    f: spec_fn(u64, NodeView) -> NodeView,
    m: Set<u64>,
    p: u64,
)
    ensures
        leaf_count(releafed(t, f), p) == leaf_count(t, p),
        inner_at(releafed(t, f), p) == inner_at(t, p),
        mapped_within(disk, block_size, omap_root, t, m) ==> mapped_within(
            disk,
            block_size,
            omap_root,
            releafed(t, f),
            m,
        ),
    decreases t, 1int, 0int,
{
    lemma_releafed(t, f);
    if let Tree::Inner { n, kids, .. } = t {
        let r = releafed(t, f)->kids;
        lemma_releafed_counts(t, f, p, 0);
        assert forall|i: int| 0 <= i < kids.len() implies inner_at(#[trigger] r[i], p) == inner_at(
            kids[i],
            p,
        ) && (mapped_within(disk, block_size, omap_root, kids[i], m) ==> mapped_within(
            disk,
            block_size,
            omap_root,
            r[i],
            m,
        )) by {
            lemma_releafed_places(disk, block_size, omap_root, kids[i], f, m, p);
        }
        if inner_at(t, p) && n == n && exists|i: int|
            0 <= i < kids.len() && inner_at(#[trigger] kids[i], p) {
            let i = choose|i: int| 0 <= i < kids.len() && inner_at(#[trigger] kids[i], p);
            assert(inner_at(r[i], p));
        }
        if exists|i: int| 0 <= i < r.len() && inner_at(#[trigger] r[i], p) {
            let i = choose|i: int| 0 <= i < r.len() && inner_at(#[trigger] r[i], p);
            assert(inner_at(kids[i], p));
        }
        if mapped_within(disk, block_size, omap_root, t, m) {
            let u = releafed(t, f);
            assert forall|i: int| 0 <= i < u->kids.len() implies #[trigger] child_within(
                disk,
                block_size,
                omap_root,
                u.node(),
                i,
                m,
            ) by {
                lemma_mapped_child(disk, block_size, omap_root, t, m, i);
            }
            assert forall|i: int| 0 <= i < u->kids.len() implies mapped_within(
                disk,
                block_size,
                omap_root,
                #[trigger] u->kids[i],
                m,
            ) by {
                lemma_mapped_child(disk, block_size, omap_root, t, m, i);
                assert(u->kids[i] == r[i]);
            }
            lemma_mapped(disk, block_size, omap_root, u, m);
        }
    } else {
        lemma_mapped(disk, block_size, omap_root, releafed(t, f), m);
    }
}

proof fn lemma_releafed_counts(t: Tree, f: spec_fn(u64, NodeView) -> NodeView, p: u64, i: int)
    requires
        t is Inner,
        0 <= i <= t->kids.len(),
    ensures
        leaf_count_from(releafed(t, f)->kids, p, i) == leaf_count_from(t->kids, p, i),
    decreases t, 0int, t->kids.len() - i,
{
    lemma_releafed(t, f);
    let kids = t->kids;
    if i < kids.len() {
        let r = releafed(t, f)->kids;
        assert(r[i] == releafed(kids[i], f));
        lemma_releafed_places(seq![], 1, 0, kids[i], f, Set::empty(), p);
        lemma_releafed_counts(t, f, p, i + 1);
    }
}

/// What a tree with other leaves holds on a device whose inner nodes and whose
/// object map are those of the other.
pub proof fn lemma_replant(
    d: Seq<u8>,
    e: Seq<u8>,
    block_size: u32,
    omap_root: u64,
    t: Tree,
    levels: u32,
    f: spec_fn(u64, NodeView) -> NodeView,
    m: Set<u64>,
)
    requires
        planted(d, block_size, omap_root, t, levels),
        mapped_within(d, block_size, omap_root, t, m),
        same_blocks(d, e, block_size, m),
        forall|q: u64|
            inner_at(t, q) ==> #[trigger] block_outcome(d, q, block_size) == block_outcome(
                e,
                q,
                block_size,
            ),
        forall|q: u64, n: NodeView|
            leaf_count(t, q) > 0 && node_at(d, q, block_size) == Ok::<NodeView, Fault>(n)
                ==> node_at(e, q, block_size) == Ok::<NodeView, Fault>(#[trigger] f(q, n)) && f(
                q,
                n,
            ).is_leaf() && !f(q, n).fixed_kv(),
    ensures
        planted(e, block_size, omap_root, releafed(t, f), levels),
        mapped_within(e, block_size, omap_root, releafed(t, f), m),
    decreases t, 1int,
{
    lemma_releafed(t, f);
    lemma_planted(d, block_size, omap_root, t, levels);
    let u = releafed(t, f);
    match t {
        Tree::Leaf { p, n } => {
            assert(leaf_count(t, p) == 1);
            let g = f(p, n);
            reveal(planted);
            lemma_mapped(e, block_size, omap_root, u, m);
        },
        Tree::Inner { p, .. } => {
            assert(inner_at(t, p));
            assert(block_outcome(d, p, block_size) == block_outcome(e, p, block_size));
            assert forall|i: int| 0 <= i < u->kids.len() implies (#[trigger] u.node().key(
                i,
                0,
            )) is Ok by {
                lemma_replant_child(d, e, block_size, omap_root, t, levels, f, m, i);
            }
            assert forall|i: int| 0 <= i < u->kids.len() implies linked(
                e,
                block_size,
                omap_root,
                u.node(),
                i,
                (#[trigger] u->kids[i]).at(),
            ) by {
                lemma_replant_child(d, e, block_size, omap_root, t, levels, f, m, i);
            }
            assert forall|i: int| 0 <= i < u->kids.len() implies planted(
                e,
                block_size,
                omap_root,
                #[trigger] u->kids[i],
                (levels - 1) as u32,
            ) by {
                lemma_replant_child(d, e, block_size, omap_root, t, levels, f, m, i);
            }
            lemma_plant(e, block_size, omap_root, u, levels);
            assert forall|i: int| 0 <= i < u->kids.len() implies #[trigger] child_within(
                e,
                block_size,
                omap_root,
                u.node(),
                i,
                m,
            ) by {
                lemma_replant_child(d, e, block_size, omap_root, t, levels, f, m, i);
            }
            assert forall|i: int| 0 <= i < u->kids.len() implies mapped_within(
                e,
                block_size,
                omap_root,
                #[trigger] u->kids[i],
                m,
            ) by {
                lemma_replant_child(d, e, block_size, omap_root, t, levels, f, m, i);
            }
            lemma_mapped(e, block_size, omap_root, u, m);
        },
    }
}

proof fn lemma_replant_child(
    d: Seq<u8>,
    e: Seq<u8>,
    block_size: u32,
    omap_root: u64,
    t: Tree,
    levels: u32,
    f: spec_fn(u64, NodeView) -> NodeView,
    m: Set<u64>,
    i: int,
)
    requires
        t is Inner,
        0 <= i < t->kids.len(),
        planted(d, block_size, omap_root, t, levels),
        mapped_within(d, block_size, omap_root, t, m),
        same_blocks(d, e, block_size, m),
        forall|q: u64|
            inner_at(t, q) ==> #[trigger] block_outcome(d, q, block_size) == block_outcome(
                e,
                q,
                block_size,
            ),
        forall|q: u64, n: NodeView|
            leaf_count(t, q) > 0 && node_at(d, q, block_size) == Ok::<NodeView, Fault>(n)
                ==> node_at(e, q, block_size) == Ok::<NodeView, Fault>(#[trigger] f(q, n)) && f(
                q,
                n,
            ).is_leaf() && !f(q, n).fixed_kv(),
    ensures
        t.node().key(i, 0) is Ok,
        linked(e, block_size, omap_root, t.node(), i, releafed(t, f)->kids[i].at()),
        planted(e, block_size, omap_root, releafed(t, f)->kids[i], (levels - 1) as u32),
        child_within(e, block_size, omap_root, t.node(), i, m),
        mapped_within(e, block_size, omap_root, releafed(t, f)->kids[i], m),
    decreases t, 0int,
{
    let k = t->kids[i];
    lemma_child(d, block_size, omap_root, t, levels, i);
    lemma_mapped_child(d, block_size, omap_root, t, m, i);
    lemma_releafed(t, f);
    lemma_releafed(k, f);
    lemma_omap_frame(d, e, omap_root, block_size, t.node().child_oid(i)->Ok_0, m);
    assert forall|q: u64| inner_at(k, q) implies #[trigger] block_outcome(d, q, block_size)
        == block_outcome(e, q, block_size) by {
        assert(inner_at(t, q)) by {
            assert(inner_at(t->kids[i], q));
        }
    }
    assert forall|q: u64, x: NodeView|
        leaf_count(k, q) > 0 && node_at(d, q, block_size) == Ok::<NodeView, Fault>(
            x,
        ) implies node_at(e, q, block_size) == Ok::<NodeView, Fault>(#[trigger] f(q, x)) && f(
        q,
        x,
    ).is_leaf() && !f(q, x).fixed_kv() by {
        lemma_count_child(t, q, i);
    }
    lemma_replant(d, e, block_size, omap_root, k, (levels - 1) as u32, f, m);
}

/// The leaves of a child are leaves of the tree.
pub proof fn lemma_count_child(t: Tree, p: u64, i: int)
    requires
        t is Inner,
        0 <= i < t->kids.len(),
    ensures
        leaf_count(t, p) >= leaf_count(t->kids[i], p),
{
    lemma_count_from(t->kids, p, 0, i);
}

proof fn lemma_count_from(kids: Seq<Tree>, p: u64, from: int, i: int)
    requires
        0 <= from <= i < kids.len(),
    ensures
        leaf_count_from(kids, p, from) >= leaf_count(kids[i], p) + leaf_count_from(kids, p, i + 1),
    decreases i - from,
{
    if from < i {
        lemma_count_from(kids, p, from + 1, i);
    }
}

} // verus!

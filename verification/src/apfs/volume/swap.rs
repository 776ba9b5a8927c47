//! What becomes of the records of a tree when one leaf is exchanged.

use crate::apfs::btree::node::NodeView;
use crate::apfs::btree::records::records;
use crate::apfs::btree::search::{node_at, Found};
use crate::apfs::error::Fault;
use crate::apfs::volume::frame::{
    leaf_count, leaf_count_from, lemma_count_child, lemma_releafed, releafed,
};
use crate::apfs::volume::tree::{
    good_leaf, leaf_recs, lemma_child, lemma_child_order, lemma_leaf_order, lemma_planted, ordered,
    planted, recs, recs_from, sep, upper, Tree,
};
use vstd::prelude::*;

verus! {

/// Whether a tree has the leaf `n` at `p`.
pub open spec fn has_leaf(t: Tree, p: u64, n: NodeView) -> bool
    decreases t,
{
    match t {
        Tree::Leaf { p: q, n: m } => q == p && m == n,
        Tree::Inner { kids, .. } => exists|i: int|
            0 <= i < kids.len() && has_leaf(#[trigger] kids[i], p, n),
    }
}

/// The keys between which the leaf at `p` lies, when the tree lies between
/// `lo` and `hi`.
pub open spec fn bounds(t: Tree, p: u64, lo: Option<Seq<u8>>, hi: Option<Seq<u8>>) -> Option<
    (Option<Seq<u8>>, Option<Seq<u8>>),
>
    decreases t, 0int,
{
    match t {
        Tree::Leaf { p: q, .. } => if q == p { Some((lo, hi)) } else { None },
        Tree::Inner { n, kids, .. } => bounds_from(n, kids, p, hi, 0),
    }
}

/// The keys between which the leaf at `p` lies under the children from `i` on.
pub open spec fn bounds_from(
    n: NodeView,
    kids: Seq<Tree>,
    p: u64,
    hi: Option<Seq<u8>>,
    i: int,
) -> Option<(Option<Seq<u8>>, Option<Seq<u8>>)>
    decreases kids, kids.len() - i,
{
    if i >= kids.len() || i < 0 {
        None
    } else {
        match bounds(kids[i], p, Some(sep(n, i)), upper(n, i, hi)) {
            Some(x) => Some(x),
            None => bounds_from(n, kids, p, hi, i + 1),
        }
    }
}

/// A leaf that a planted tree has is on the device.
pub proof fn lemma_has_leaf(
    disk: Seq<u8>,
    block_size: u32,
    omap_root: u64,
    t: Tree,
    levels: u32,
    p: u64,
    n: NodeView,
)
    requires
        planted(disk, block_size, omap_root, t, levels),
        has_leaf(t, p, n),
    ensures
        node_at(disk, p, block_size) == Ok::<NodeView, Fault>(n),
        n.is_leaf(),
        !n.fixed_kv(),
        leaf_count(t, p) > 0,
    decreases t,
{
    lemma_planted(disk, block_size, omap_root, t, levels);
    if let Tree::Inner { kids, .. } = t {
        let i = choose|i: int| 0 <= i < kids.len() && has_leaf(#[trigger] kids[i], p, n);
        lemma_child(disk, block_size, omap_root, t, levels, i);
        lemma_has_leaf(disk, block_size, omap_root, kids[i], (levels - 1) as u32, p, n);
        lemma_count_child(t, p, i);
    }
}

/// A leaf of an ordered tree is good.
pub proof fn lemma_leaf_good(
    t: Tree,
    lo: Option<Seq<u8>>,
    hi: Option<Seq<u8>>,
    p: u64,
    n: NodeView,
)
    requires
        ordered(t, lo, hi),
        has_leaf(t, p, n),
    ensures
        good_leaf(n),
    decreases t,
{
    match t {
        Tree::Leaf { p, n } => {
            lemma_leaf_order(p, n, lo, hi);
        },
        Tree::Inner { kids, .. } => {
            let i = choose|i: int| 0 <= i < kids.len() && has_leaf(#[trigger] kids[i], p, n);
            lemma_child_order(t, lo, hi, i);
            lemma_leaf_good(kids[i], Some(sep(t.node(), i)), upper(t.node(), i, hi), p, n);
        },
    }
}

/// The parts of an inner node that is in order make it so.
proof fn lemma_order(t: Tree, u: Tree, lo: Option<Seq<u8>>, hi: Option<Seq<u8>>)
    requires
        t is Inner,
        u is Inner,
        ordered(t, lo, hi),
        u.node() == t.node(),
        u->kids.len() == t->kids.len(),
        forall|i: int|
            0 <= i < t->kids.len() ==> ordered(
                #[trigger] u->kids[i],
                Some(sep(t.node(), i)),
                upper(t.node(), i, hi),
            ),
    ensures
        ordered(u, lo, hi),
{
    reveal(ordered);
}

proof fn lemma_leaf_in_order(
    p: u64,
    n: NodeView,
    m: NodeView,
    lo: Option<Seq<u8>>,
    hi: Option<Seq<u8>>,
)
    requires
        ordered(Tree::Leaf { p, n }, lo, hi),
        good_leaf(m),
        records(m, 0, 0) == records(n, 0, 0),
    ensures
        ordered(Tree::Leaf { p, n: m }, lo, hi),
        leaf_recs(p, m) == leaf_recs(p, n),
{
    reveal(ordered);
    assert(m.toc.len() == records(m, 0, 0).len());
    assert(n.toc.len() == records(n, 0, 0).len());
    assert(leaf_recs(p, m) =~= leaf_recs(p, n));
}

/// Leaves with the same records leave the records of a tree, and its order, as
/// they were.
pub proof fn lemma_same_records(
    t: Tree,
    f: spec_fn(u64, NodeView) -> NodeView,
    lo: Option<Seq<u8>>,
    hi: Option<Seq<u8>>,
)
    requires
        ordered(t, lo, hi),
        forall|q: u64, n: NodeView|
            has_leaf(t, q, n) ==> good_leaf(#[trigger] f(q, n)) && records(f(q, n), 0, 0)
                == records(n, 0, 0),
    ensures
        recs(releafed(t, f)) == recs(t),
        ordered(releafed(t, f), lo, hi),
    decreases t, 1int, 0int,
{
    lemma_releafed(t, f);
    match t {
        Tree::Leaf { p, n } => {
            assert(has_leaf(t, p, n));
            lemma_leaf_in_order(p, n, f(p, n), lo, hi);
        },
        Tree::Inner { kids, .. } => {
            let u = releafed(t, f);
            lemma_same_records_from(t, f, lo, hi, 0);
            assert forall|i: int| 0 <= i < kids.len() implies ordered(
                #[trigger] u->kids[i],
                Some(sep(t.node(), i)),
                upper(t.node(), i, hi),
            ) by {
                lemma_same_kid(t, f, lo, hi, i);
            }
            lemma_order(t, u, lo, hi);
        },
    }
}

proof fn lemma_same_kid(
    t: Tree,
    f: spec_fn(u64, NodeView) -> NodeView,
    lo: Option<Seq<u8>>,
    hi: Option<Seq<u8>>,
    i: int,
)
    requires
        t is Inner,
        ordered(t, lo, hi),
        0 <= i < t->kids.len(),
        forall|q: u64, n: NodeView|
            has_leaf(t, q, n) ==> good_leaf(#[trigger] f(q, n)) && records(f(q, n), 0, 0)
                == records(n, 0, 0),
    ensures
        releafed(t, f)->kids[i] == releafed(t->kids[i], f),
        recs(releafed(t, f)->kids[i]) == recs(t->kids[i]),
        ordered(
            releafed(t, f)->kids[i],
            Some(sep(t.node(), i)),
            upper(t.node(), i, hi),
        ),
    decreases t, 0int, 0int,
{
    lemma_releafed(t, f);
    lemma_child_order(t, lo, hi, i);
    let k = t->kids[i];
    assert(releafed(t, f)->kids[i] == releafed(k, f));
    assert forall|q: u64, n: NodeView| has_leaf(k, q, n) implies good_leaf(#[trigger] f(q, n))
        && records(f(q, n), 0, 0) == records(n, 0, 0) by {
        assert(has_leaf(t->kids[i], q, n));
        assert(has_leaf(t, q, n));
    }
    lemma_same_records(k, f, Some(sep(t.node(), i)), upper(t.node(), i, hi));
}

proof fn lemma_same_records_from(
    t: Tree,
    f: spec_fn(u64, NodeView) -> NodeView,
    lo: Option<Seq<u8>>,
    hi: Option<Seq<u8>>,
    i: int,
)
    requires
        t is Inner,
        ordered(t, lo, hi),
        0 <= i <= t->kids.len(),
        forall|q: u64, n: NodeView|
            has_leaf(t, q, n) ==> good_leaf(#[trigger] f(q, n)) && records(f(q, n), 0, 0)
                == records(n, 0, 0),
    ensures
        recs_from(releafed(t, f)->kids, i) == recs_from(t->kids, i),
    decreases t, 0int, t->kids.len() - i + 1,
{
    lemma_releafed(t, f);
    if i < t->kids.len() {
        lemma_same_kid(t, f, lo, hi, i);
        lemma_same_records_from(t, f, lo, hi, i + 1);
    }
}

/// A tree without a leaf at `p` stays as it is when only leaves at `p` are
/// exchanged.
proof fn lemma_untouched(t: Tree, f: spec_fn(u64, NodeView) -> NodeView, p: u64)
    requires
        leaf_count(t, p) == 0,
        forall|q: u64, n: NodeView| q != p ==> #[trigger] f(q, n) == n,
    ensures
        releafed(t, f) == t,
    decreases t,
{
    lemma_releafed(t, f);
    if let Tree::Inner { p: q, n, kids } = t {
        let r = releafed(t, f)->kids;
        assert forall|i: int| 0 <= i < kids.len() implies r[i] == kids[i] by {
            lemma_count_child(t, p, i);
            lemma_untouched(kids[i], f, p);
            assert(r[i] == releafed(kids[i], f));
        }
        assert(r =~= kids);
    }
}

/// The child with the one leaf at `p`.
proof fn lemma_kid_with(kids: Seq<Tree>, p: u64, i: int) -> (c: int)
    requires
        0 <= i <= kids.len(),
        leaf_count_from(kids, p, i) == 1,
    ensures
        i <= c < kids.len(),
        leaf_count(kids[c], p) == 1,
        forall|j: int| i <= j < kids.len() && j != c ==> leaf_count(#[trigger] kids[j], p) == 0,
    decreases kids.len() - i,
{
    if leaf_count(kids[i], p) == 1 {
        assert(leaf_count_from(kids, p, i + 1) == 0);
        assert forall|j: int| i < j < kids.len() implies leaf_count(#[trigger] kids[j], p) == 0 by {
            lemma_count_none(kids, p, i + 1, j);
        }
        i
    } else {
        let c = lemma_kid_with(kids, p, i + 1);
        c
    }
}

proof fn lemma_count_none(kids: Seq<Tree>, p: u64, i: int, j: int)
    requires
        0 <= i <= j < kids.len(),
        leaf_count_from(kids, p, i) == 0,
    ensures
        leaf_count(kids[j], p) == 0,
    decreases j - i,
{
    if i < j {
        lemma_count_none(kids, p, i + 1, j);
    }
}

/// The records of trees around one of them.
proof fn lemma_recs_around(kids: Seq<Tree>, i: int, c: int)
    requires
        0 <= i <= c < kids.len(),
    ensures
        recs_from(kids, i) == recs_from(kids.take(c), i) + recs(kids[c]) + recs_from(kids, c + 1),
    decreases c - i,
{
    if i < c {
        lemma_recs_around(kids, i + 1, c);
        assert(kids.take(c)[i] == kids[i]);
        assert(recs(kids[i]) + (recs_from(kids.take(c), i + 1) + recs(kids[c]) + recs_from(
            kids,
            c + 1,
        )) =~= (recs(kids[i]) + recs_from(kids.take(c), i + 1)) + recs(kids[c]) + recs_from(
            kids,
            c + 1,
        ));
    } else {
        assert(recs_from(kids.take(c), i) =~= seq![]);
        assert(seq![] + recs(kids[c]) + recs_from(kids, c + 1) =~= recs(kids[c]) + recs_from(
            kids,
            c + 1,
        ));
    }
}

proof fn lemma_recs_same(a: Seq<Tree>, b: Seq<Tree>, i: int)
    requires
        a.len() == b.len(),
        0 <= i <= a.len(),
        forall|j: int| i <= j < a.len() ==> #[trigger] a[j] == b[j],
    ensures
        recs_from(a, i) == recs_from(b, i),
    decreases a.len() - i,
{
    if i < a.len() {
        lemma_recs_same(a, b, i + 1);
    }
}

/// What holds of the bounds of a tree's one leaf at `p`.
pub proof fn lemma_bounds_from(
    n: NodeView,
    kids: Seq<Tree>,
    p: u64,
    hi: Option<Seq<u8>>,
    i: int,
    c: int,
)
    requires
        0 <= i <= c < kids.len(),
        forall|j: int| i <= j < c ==> leaf_count(#[trigger] kids[j], p) == 0,
        bounds(kids[c], p, Some(sep(n, c)), upper(n, c, hi)) is Some,
    ensures
        bounds_from(n, kids, p, hi, i) == bounds(kids[c], p, Some(sep(n, c)), upper(n, c, hi)),
    decreases c - i,
{
    if i < c {
        lemma_no_bounds(kids[i], p, Some(sep(n, i)), upper(n, i, hi));
        lemma_bounds_from(n, kids, p, hi, i + 1, c);
    }
}

proof fn lemma_no_bounds(t: Tree, p: u64, lo: Option<Seq<u8>>, hi: Option<Seq<u8>>)
    requires
        leaf_count(t, p) == 0,
    ensures
        bounds(t, p, lo, hi) is None,
    decreases t, 1int, 0int,
{
    if let Tree::Inner { n, kids, .. } = t {
        lemma_no_bounds_from(t, p, hi, 0);
    }
}

proof fn lemma_no_bounds_from(t: Tree, p: u64, hi: Option<Seq<u8>>, i: int)
    requires
        t is Inner,
        leaf_count(t, p) == 0,
        0 <= i <= t->kids.len(),
    ensures
        bounds_from(t.node(), t->kids, p, hi, i) is None,
    decreases t, 0int, t->kids.len() - i,
{
    if i < t->kids.len() {
        lemma_count_child(t, p, i);
        lemma_no_bounds(t->kids[i], p, Some(sep(t.node(), i)), upper(t.node(), i, hi));
        lemma_no_bounds_from(t, p, hi, i + 1);
    }
}

/// A record lies in a leaf of the tree.
pub proof fn lemma_recs_leaf(t: Tree, i: int)
    requires
        0 <= i < recs(t).len(),
    ensures
        leaf_count(t, recs(t)[i].2) > 0,
    decreases t, 1int, 0int,
{
    if t is Inner {
        lemma_recs_leaf_from(t, 0, i);
    }
}

proof fn lemma_recs_leaf_from(t: Tree, k: int, i: int)
    requires
        t is Inner,
        0 <= k <= t->kids.len(),
        0 <= i < recs_from(t->kids, k).len(),
    ensures
        leaf_count(t, recs_from(t->kids, k)[i].2) > 0,
    decreases t, 0int, t->kids.len() - k,
{
    let kids = t->kids;
    let a = recs(kids[k]);
    if i < a.len() {
        lemma_recs_leaf(kids[k], i);
        lemma_count_child(t, a[i].2, k);
    } else {
        lemma_recs_leaf_from(t, k + 1, i - a.len());
    }
}

/// Trees without a leaf at `p` have no records there.
proof fn lemma_recs_elsewhere(kids: Seq<Tree>, p: u64, i: int)
    requires
        0 <= i <= kids.len(),
        forall|j: int| i <= j < kids.len() ==> leaf_count(#[trigger] kids[j], p) == 0,
    ensures
        forall|k: int|
            0 <= k < recs_from(kids, i).len() ==> (#[trigger] recs_from(kids, i)[k]).2 != p,
    decreases kids.len() - i,
{
    if i < kids.len() {
        lemma_recs_elsewhere(kids, p, i + 1);
        let a = recs(kids[i]);
        let r = recs_from(kids, i);
        assert forall|k: int| 0 <= k < r.len() implies (#[trigger] r[k]).2 != p by {
            if k < a.len() {
                assert(r[k] == a[k]);
                lemma_recs_leaf(kids[i], k);
            } else {
                assert(r[k] == recs_from(kids, i + 1)[k - a.len()]);
            }
        }
    }
}

/// A tree with one leaf at `p`, and the same tree with that leaf exchanged:
/// the records before and behind the leaf, the leaf itself and the keys it
/// lies between.
pub proof fn lemma_one_leaf(
    t: Tree,
    f: spec_fn(u64, NodeView) -> NodeView,
    p: u64,
    lo: Option<Seq<u8>>,
    hi: Option<Seq<u8>>,
) -> (r: (Seq<Found>, NodeView, Seq<Found>))
    requires
        ordered(t, lo, hi),
        leaf_count(t, p) == 1,
        forall|q: u64, n: NodeView| q != p ==> #[trigger] f(q, n) == n,
    ensures
        has_leaf(t, p, r.1),
        recs(t) == r.0 + leaf_recs(p, r.1) + r.2,
        recs(releafed(t, f)) == r.0 + leaf_recs(p, f(p, r.1)) + r.2,
        has_leaf(releafed(t, f), p, f(p, r.1)),
        ({
            &&& bounds(t, p, lo, hi) matches Some((l, h))
            &&& ordered(Tree::Leaf { p, n: r.1 }, l, h)
            &&& ordered(Tree::Leaf { p, n: f(p, r.1) }, l, h) ==> ordered(releafed(t, f), lo, hi)
        }),
        bounds(releafed(t, f), p, lo, hi) == bounds(t, p, lo, hi),
        forall|k: int| 0 <= k < r.0.len() ==> (#[trigger] r.0[k]).2 != p,
        forall|k: int| 0 <= k < r.2.len() ==> (#[trigger] r.2[k]).2 != p,
    decreases t,
{
    lemma_releafed(t, f);
    match t {
        Tree::Leaf { p: q, n } => {
            assert(seq![] + leaf_recs(p, n) + seq![] =~= leaf_recs(p, n));
            assert(seq![] + leaf_recs(p, f(p, n)) + seq![] =~= leaf_recs(p, f(p, n)));
            (seq![], n, seq![])
        },
        Tree::Inner { n, kids, .. } => {
            let u = releafed(t, f);
            let r = u->kids;
            let c = lemma_kid_with(kids, p, 0);
            lemma_child_order(t, lo, hi, c);
            let l = Some(sep(n, c));
            let h = upper(n, c, hi);
            let (a, m, b) = lemma_one_leaf(kids[c], f, p, l, h);
            assert forall|j: int| 0 <= j < kids.len() && j != c implies r[j] == kids[j] by {
                lemma_untouched(kids[j], f, p);
                assert(r[j] == releafed(kids[j], f));
            }
            assert(r[c] == releafed(kids[c], f));
            lemma_recs_around(kids, 0, c);
            lemma_recs_around(r, 0, c);
            assert(r.take(c) =~= kids.take(c));
            lemma_recs_same(r, kids, c + 1);
            let before = recs_from(kids.take(c), 0);
            let behind = recs_from(kids, c + 1);
            assert(before + (a + leaf_recs(p, m) + b) + behind =~= (before + a) + leaf_recs(p, m)
                + (b + behind));
            assert(before + (a + leaf_recs(p, f(p, m)) + b) + behind =~= (before + a) + leaf_recs(
                p,
                f(p, m),
            ) + (b + behind));
            lemma_bounds_from(n, kids, p, hi, 0, c);
            assert forall|j: int| 0 <= j < c implies leaf_count(#[trigger] kids.take(c)[j], p)
                == 0 by {
                assert(kids.take(c)[j] == kids[j]);
            }
            lemma_recs_elsewhere(kids.take(c), p, 0);
            lemma_recs_elsewhere(kids, p, c + 1);
            assert forall|j: int| 0 <= j < c implies leaf_count(#[trigger] r[j], p) == 0 by {
                assert(r[j] == kids[j]);
            }
            lemma_bounds_from(n, r, p, hi, 0, c);
            assert(has_leaf(kids[c], p, m));
            assert(has_leaf(r[c], p, f(p, m)));
            if ordered(r[c], l, h) {
                assert forall|j: int| 0 <= j < kids.len() implies ordered(
                    #[trigger] u->kids[j],
                    Some(sep(t.node(), j)),
                    upper(t.node(), j, hi),
                ) by {
                    lemma_child_order(t, lo, hi, j);
                    if j != c {
                        assert(r[j] == kids[j]);
                    }
                }
                lemma_order(t, u, lo, hi);
            }
            let front = before + a;
            let back = b + behind;
            assert forall|k: int| 0 <= k < front.len() implies (#[trigger] front[k]).2 != p by {
                if k < before.len() {
                    assert(front[k] == before[k]);
                } else {
                    assert(front[k] == a[k - before.len()]);
                }
            }
            assert forall|k: int| 0 <= k < back.len() implies (#[trigger] back[k]).2 != p by {
                if k < b.len() {
                    assert(back[k] == b[k]);
                } else {
                    assert(back[k] == behind[k - b.len()]);
                }
            }
            (front, m, back)
        },
    }
}

/// A tree that counts a leaf at `p` has one there.
pub proof fn lemma_leaf_there(t: Tree, p: u64) -> (n: NodeView)
    requires
        leaf_count(t, p) > 0,
    ensures
        has_leaf(t, p, n),
    decreases t, 1int, 0int,
{
    match t {
        Tree::Leaf { n, .. } => n,
        Tree::Inner { .. } => lemma_leaf_among(t, p, 0),
    }
}

proof fn lemma_leaf_among(t: Tree, p: u64, i: int) -> (n: NodeView)
    requires
        t is Inner,
        0 <= i <= t->kids.len(),
        leaf_count_from(t->kids, p, i) > 0,
    ensures
        has_leaf(t, p, n),
    decreases t, 0int, t->kids.len() - i,
{
    if leaf_count(t->kids[i], p) > 0 {
        let n = lemma_leaf_there(t->kids[i], p);
        assert(has_leaf(t->kids[i], p, n));
        n
    } else {
        lemma_leaf_among(t, p, i + 1)
    }
}

/// Where a tree has a leaf, the tree with other leaves has the one in its
/// place.
pub proof fn lemma_has_releafed(
    t: Tree,
    f: spec_fn(u64, NodeView) -> NodeView,
    p: u64,
    n: NodeView,
)
    requires
        has_leaf(t, p, n),
    ensures
        has_leaf(releafed(t, f), p, f(p, n)),
    decreases t,
{
    lemma_releafed(t, f);
    if let Tree::Inner { kids, .. } = t {
        let i = choose|i: int| 0 <= i < kids.len() && has_leaf(#[trigger] kids[i], p, n);
        lemma_has_releafed(kids[i], f, p, n);
        let u = releafed(t, f);
        assert(u->kids[i] == releafed(kids[i], f));
        assert(has_leaf(u->kids[i], p, f(p, n)));
    }
}

/// Leaves that are exchanged twice.
pub proof fn lemma_releafed_twice(
    t: Tree,
    f: spec_fn(u64, NodeView) -> NodeView,
    g: spec_fn(u64, NodeView) -> NodeView,
    h: spec_fn(u64, NodeView) -> NodeView,
)
    requires
        forall|q: u64, n: NodeView| #[trigger] h(q, n) == g(q, f(q, n)),
    ensures
        releafed(releafed(t, f), g) == releafed(t, h),
    decreases t,
{
    lemma_releafed(t, f);
    lemma_releafed(t, h);
    lemma_releafed(releafed(t, f), g);
    match t {
        Tree::Leaf { p, n } => {
            assert(h(p, n) == g(p, f(p, n)));
        },
        Tree::Inner { kids, .. } => {
            let u = releafed(t, f);
            let a = releafed(u, g)->kids;
            let b = releafed(t, h)->kids;
            assert forall|i: int| 0 <= i < kids.len() implies a[i] == b[i] by {
                assert(u->kids[i] == releafed(kids[i], f));
                assert(a[i] == releafed(u->kids[i], g));
                assert(b[i] == releafed(kids[i], h));
                lemma_releafed_twice(kids[i], f, g, h);
            }
            assert(a =~= b);
        },
    }
}

} // verus!

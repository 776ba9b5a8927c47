//! What the single steps of an operation do to the records of the catalog.

use crate::apfs::btree::node::NodeView;
use crate::apfs::btree::records::{
    entry_ok, law_delete_removes_record, law_entries_are_records, law_insert_var_adds_record,
    law_replace_updates_record, records, storable,
};
use crate::apfs::btree::search::{Found, TREE_DEPTH_LIMIT};
use crate::apfs::catalog::order::key_sign;
use crate::apfs::catalog::query::cat_rank;
use crate::apfs::error::Fault;
use crate::apfs::volume::commit::{kept, lemma_held, lemma_not_held, spot_ok, tree_with};
use crate::apfs::volume::frame::{
    leaf_count, leaf_count_from, lemma_count_child, lemma_releafed, lemma_releafed_places, releafed,
};
use crate::apfs::volume::leaves::{
    ascending, held_leaf, leaf_pos, lemma_leaf_pos, lemma_pos_at, lemma_put_leaf, put_leaf,
};
use crate::apfs::volume::model::{lemma_one_single, lemma_patch, lemma_recs_sorted};
use crate::apfs::volume::state::VolumeView;
use crate::apfs::volume::swap::{
    bounds, bounds_from, has_leaf, lemma_has_leaf, lemma_has_releafed, lemma_leaf_good,
    lemma_leaf_there, lemma_one_leaf, lemma_releafed_twice,
};
use crate::apfs::volume::tree::{
    good_leaf, leaf_recs, lemma_leaf_order, ordered, picked, recs, sep, single, upper, within, Tree,
};
use vstd::prelude::*;

verus! {

/// Touched leaves that are leaves of the catalog and keep it in order.
pub open spec fn touched_ok(t: Tree, s: Seq<(u64, NodeView)>) -> bool {
    &&& ascending(s)
    &&& forall|i: int| 0 <= i < s.len() ==> leaf_count(t, (#[trigger] s[i]).0) > 0
    &&& ordered(tree_with(t, s), None, None)
}

/// The records of the catalog with the touched leaves in it.
pub open spec fn recs_with(t: Tree, s: Seq<(u64, NodeView)>) -> Seq<Found> {
    recs(tree_with(t, s))
}

/// A leaf that is put among the touched ones leaves the others as they were.
pub proof fn lemma_put_other(s: Seq<(u64, NodeView)>, p: u64, n: NodeView, q: u64)
    requires
        ascending(s),
        p != q,
    ensures
        held_leaf(put_leaf(s, p, n), q) == held_leaf(s, q),
{
    lemma_put_leaf(s, p, n);
    lemma_leaf_pos(s, p, 0);
    let u = put_leaf(s, p, n);
    let c = leaf_pos(s, p, 0);
    if held_leaf(s, q) is Some {
        let i = lemma_held(s, q);
        let j = if i < c || u.len() == s.len() {
            i
        } else {
            i + 1
        };
        assert(u[j] == s[i]);
        lemma_pos_at(u, q, 0, j);
    } else if held_leaf(u, q) is Some {
        let j = lemma_held(u, q);
        let i = if j < c || u.len() == s.len() {
            j
        } else {
            j - 1
        };
        assert(j != c);
        assert(s[i] == u[j]);
        lemma_not_held(s, q);
    }
}

/// The leaf `x` in place of the one at `p`.
pub open spec fn swap_at(p: u64, x: NodeView) -> spec_fn(u64, NodeView) -> NodeView {
    |q: u64, n: NodeView|
        if q == p {
            x
        } else {
            n
        }
}

/// Putting a leaf among the touched ones exchanges it in the tree.
proof fn lemma_put_tree(t: Tree, s: Seq<(u64, NodeView)>, p: u64, x: NodeView)
    requires
        ascending(s),
    ensures
        tree_with(t, put_leaf(s, p, x)) == releafed(tree_with(t, s), swap_at(p, x)),
        ascending(put_leaf(s, p, x)),
        held_leaf(put_leaf(s, p, x), p) == Some(x),
{
    let u = put_leaf(s, p, x);
    lemma_put_leaf(s, p, x);
    assert forall|q: u64, n: NodeView| #[trigger] kept(u)(q, n) == swap_at(p, x)(
        q,
        kept(s)(q, n),
    ) by {
        if q != p {
            lemma_put_other(s, p, x, q);
        }
    }
    lemma_releafed_twice(t, kept(s), swap_at(p, x), kept(u));
}

proof fn lemma_put_addrs(t: Tree, s: Seq<(u64, NodeView)>, p: u64, x: NodeView)
    requires
        forall|i: int| 0 <= i < s.len() ==> leaf_count(t, (#[trigger] s[i]).0) > 0,
        leaf_count(t, p) > 0,
    ensures
        forall|i: int|
            0 <= i < put_leaf(s, p, x).len() ==> leaf_count(
                t,
                (#[trigger] put_leaf(s, p, x)[i]).0,
            ) > 0,
{
    lemma_leaf_pos(s, p, 0);
    let u = put_leaf(s, p, x);
    let c = leaf_pos(s, p, 0);
    assert forall|i: int| 0 <= i < u.len() implies leaf_count(t, (#[trigger] u[i]).0) > 0 by {
        if i != c {
            let j = if i < c || u.len() == s.len() {
                i
            } else {
                i - 1
            };
            assert(u[i] == s[j]);
        }
    }
}

/// What exchanging the leaf at `p` does to the records: the leaf that was
/// there, and the records before and behind it.
pub proof fn lemma_put(
    v: VolumeView,
    t: Tree,
    m: Set<u64>,
    s: Seq<(u64, NodeView)>,
    p: u64,
    x: NodeView,
) -> (r: (Seq<Found>, NodeView, Seq<Found>))
    requires
        v.sound(t, m),
        touched_ok(t, s),
        leaf_count(t, p) > 0,
    ensures
        good_leaf(r.1),
        v.load(s, p).0 == Ok::<NodeView, Fault>(r.1),
        put_leaf(v.load(s, p).1, p, x) == put_leaf(s, p, x),
        recs_with(t, s) == r.0 + leaf_recs(p, r.1) + r.2,
        recs_with(t, put_leaf(s, p, x)) == r.0 + leaf_recs(p, x) + r.2,
        forall|k: int| 0 <= k < r.0.len() ==> (#[trigger] r.0[k]).2 != p,
        forall|k: int| 0 <= k < r.2.len() ==> (#[trigger] r.2[k]).2 != p,
        ({
            &&& bounds(t, p, None, None) matches Some((l, h))
            &&& ordered(Tree::Leaf { p, n: r.1 }, l, h)
            &&& ordered(Tree::Leaf { p, n: x }, l, h) ==> touched_ok(t, put_leaf(s, p, x))
        }),
{
    let u = tree_with(t, s);
    let f = swap_at(p, x);
    assert(spot_ok(t, m, v.nx, p));
    lemma_releafed_places(v.disk, v.block_size, v.omap_root, t, kept(s), m, p);
    let (a, n, b) = lemma_one_leaf(u, f, p, None, None);
    lemma_put_tree(t, s, p, x);
    lemma_put_addrs(t, s, p, x);
    lemma_leaf_good(u, None, None, p, n);
    // The leaf is the touched one, or the one on the device.
    let k = lemma_leaf_there(t, p);
    lemma_has_leaf(v.disk, v.block_size, v.omap_root, t, TREE_DEPTH_LIMIT, p, k);
    lemma_has_releafed(t, kept(s), p, k);
    lemma_unique_leaf(u, p, n, kept(s)(p, k));
    lemma_bounds_kept(t, kept(s), p, None, None);
    if held_leaf(s, p) is None {
        lemma_put_twice(s, p, n, x);
    }
    (a, n, b)
}

/// A leaf that is put in twice is the one that was put in last.
proof fn lemma_put_twice(s: Seq<(u64, NodeView)>, p: u64, n: NodeView, x: NodeView)
    requires
        ascending(s),
    ensures
        put_leaf(put_leaf(s, p, n), p, x) == put_leaf(s, p, x),
{
    lemma_put_leaf(s, p, n);
    lemma_leaf_pos(s, p, 0);
    assert(put_leaf(put_leaf(s, p, n), p, x) =~= put_leaf(s, p, x));
}

/// Where a tree has one leaf, it has no other.
proof fn lemma_unique_leaf(t: Tree, p: u64, a: NodeView, b: NodeView)
    requires
        leaf_count(t, p) == 1,
        has_leaf(t, p, a),
        has_leaf(t, p, b),
    ensures
        a == b,
    decreases t,
{
    if let Tree::Inner { kids, .. } = t {
        let i = choose|i: int| 0 <= i < kids.len() && has_leaf(#[trigger] kids[i], p, a);
        let j = choose|j: int| 0 <= j < kids.len() && has_leaf(#[trigger] kids[j], p, b);
        lemma_has_counts(kids[i], p, a);
        lemma_has_counts(kids[j], p, b);
        lemma_two_kids(kids, p, 0, i, j);
        lemma_unique_leaf(kids[i], p, a, b);
    }
}

proof fn lemma_has_counts(t: Tree, p: u64, n: NodeView)
    requires
        has_leaf(t, p, n),
    ensures
        leaf_count(t, p) > 0,
    decreases t,
{
    if let Tree::Inner { kids, .. } = t {
        let i = choose|i: int| 0 <= i < kids.len() && has_leaf(#[trigger] kids[i], p, n);
        lemma_has_counts(kids[i], p, n);
        lemma_count_child(t, p, i);
    }
}

proof fn lemma_two_kids(kids: Seq<Tree>, p: u64, from: int, i: int, j: int)
    requires
        0 <= from <= i < kids.len(),
        from <= j < kids.len(),
        leaf_count_from(kids, p, from) == 1,
        leaf_count(kids[i], p) > 0,
        leaf_count(kids[j], p) > 0,
    ensures
        i == j,
        leaf_count(kids[i], p) == 1,
    decreases kids.len() - from,
{
    if i == from && j == from {
    } else if i != from && j != from {
        lemma_rest_counts(kids, p, from + 1, i);
        lemma_two_kids(kids, p, from + 1, i, j);
    } else if i == from {
        lemma_rest_counts(kids, p, from + 1, j);
    } else {
        lemma_rest_counts(kids, p, from + 1, i);
    }
}

proof fn lemma_rest_counts(kids: Seq<Tree>, p: u64, from: int, i: int)
    requires
        0 <= from <= i < kids.len(),
        leaf_count(kids[i], p) > 0,
    ensures
        leaf_count_from(kids, p, from) > 0,
    decreases i - from,
{
    if from < i {
        lemma_rest_counts(kids, p, from + 1, i);
    }
}

/// Other leaves lie between the same keys.
pub proof fn lemma_bounds_kept(
    t: Tree,
    f: spec_fn(u64, NodeView) -> NodeView,
    p: u64,
    lo: Option<Seq<u8>>,
    hi: Option<Seq<u8>>,
)
    ensures
        bounds(releafed(t, f), p, lo, hi) == bounds(t, p, lo, hi),
    decreases t, 1int, 0int,
{
    lemma_releafed(t, f);
    if t is Inner {
        lemma_bounds_kept_from(t, f, p, hi, 0);
    }
}

proof fn lemma_bounds_kept_from(
    t: Tree,
    f: spec_fn(u64, NodeView) -> NodeView,
    p: u64,
    hi: Option<Seq<u8>>,
    i: int,
)
    requires
        t is Inner,
        0 <= i <= t->kids.len(),
    ensures
        bounds_from(t.node(), releafed(t, f)->kids, p, hi, i)
            == bounds_from(t.node(), t->kids, p, hi, i),
    decreases t, 0int, t->kids.len() - i,
{
    lemma_releafed(t, f);
    if i < t->kids.len() {
        let r = releafed(t, f)->kids;
        assert(r[i] == releafed(t->kids[i], f));
        lemma_bounds_kept(
            t->kids[i],
            f,
            p,
            Some(sep(t.node(), i)),
            upper(t.node(), i, hi),
        );
        lemma_bounds_kept_from(t, f, p, hi, i + 1);
    }
}

/// A good leaf with keys between two others is in order there.
proof fn lemma_leaf_fits(p: u64, n: NodeView, lo: Option<Seq<u8>>, hi: Option<Seq<u8>>)
    requires
        good_leaf(n),
        forall|i: int|
            0 <= i < n.toc.len() ==> within((#[trigger] records(n, 0, 0)[i]).0, lo, hi),
    ensures
        ordered(Tree::Leaf { p, n }, lo, hi),
{
    reveal(ordered);
}

/// Replacing a value of a leaf in order.
proof fn lemma_leaf_replace(
    p: u64,
    n: NodeView,
    lo: Option<Seq<u8>>,
    hi: Option<Seq<u8>>,
    i: int,
    w: Seq<u8>,
)
    requires
        ordered(Tree::Leaf { p, n }, lo, hi),
        0 <= i < n.toc.len(),
        n.replace(i, w, 0).0 is Ok,
    ensures
        ordered(Tree::Leaf { p, n: n.replace(i, w, 0).1 }, lo, hi),
        w.len() == records(n, 0, 0)[i].1.len(),
        leaf_recs(p, n.replace(i, w, 0).1) == leaf_recs(p, n).update(
            i,
            (records(n, 0, 0)[i].0, w, p),
        ),
{
    lemma_leaf_order(p, n, lo, hi);
    law_entries_are_records(n, i, 0, 0);
    assert(entry_ok(n, i, 0, 0));
    let x = n.replace(i, w, 0).1;
    law_replace_updates_record(n, i, w, 0, 0);
    let r = records(n, 0, 0);
    let q = records(x, 0, 0);
    assert forall|j: int| 0 <= j < n.toc.len() implies (#[trigger] q[j]).0 == r[j].0 by {}
    assert forall|a: int, b: int| 0 <= a < b < q.len() implies key_sign(
        (#[trigger] q[a]).0,
        (#[trigger] q[b]).0,
    ) < 0 by {
        assert(key_sign(r[a].0, r[b].0) < 0);
    }
    assert forall|j: int| 0 <= j < x.toc.len() implies within((#[trigger] q[j]).0, lo, hi)
        && q[j].0.len() >= 8 by {
        assert(within(r[j].0, lo, hi));
    }
    assert(good_leaf(x));
    lemma_leaf_fits(p, x, lo, hi);
    assert(leaf_recs(p, x) =~= leaf_recs(p, n).update(i, (r[i].0, w, p)));
}

/// Taking a record out of a leaf in order.
pub proof fn lemma_leaf_delete(p: u64, n: NodeView, lo: Option<Seq<u8>>, hi: Option<Seq<u8>>, i: int)
    requires
        ordered(Tree::Leaf { p, n }, lo, hi),
        0 <= i < n.toc.len(),
    ensures
        n.delete_var(i).0 is Ok,
        ordered(Tree::Leaf { p, n: n.delete_var(i).1 }, lo, hi),
        leaf_recs(p, n.delete_var(i).1) == leaf_recs(p, n).remove(i),
{
    lemma_leaf_order(p, n, lo, hi);
    law_delete_removes_record(n, i, 0, 0);
    let x = n.delete_var(i).1;
    let r = records(n, 0, 0);
    let q = records(x, 0, 0);
    assert forall|a: int, b: int| 0 <= a < b < q.len() implies key_sign(
        (#[trigger] q[a]).0,
        (#[trigger] q[b]).0,
    ) < 0 by {
        let c = if a < i { a } else { a + 1 };
        let d = if b < i { b } else { b + 1 };
        assert(q[a] == r[c] && q[b] == r[d]);
        assert(key_sign(r[c].0, r[d].0) < 0);
    }
    assert forall|j: int| 0 <= j < x.toc.len() implies within((#[trigger] q[j]).0, lo, hi)
        && q[j].0.len() >= 8 by {
        let c = if j < i { j } else { j + 1 };
        assert(q[j] == r[c]);
        assert(within(r[c].0, lo, hi));
    }
    assert forall|a: int, b: int|
        #![trigger x.toc[a], x.toc[b]]
        0 <= a < x.toc.len() && 0 <= b < x.toc.len() && a != b implies x.toc[a].val_off
        - x.val_len(a, 0) >= x.toc[b].val_off || x.toc[b].val_off - x.val_len(b, 0)
        >= x.toc[a].val_off by {
        let c = if a < i { a } else { a + 1 };
        let d = if b < i { b } else { b + 1 };
        assert(x.toc[a] == n.toc[c] && x.toc[b] == n.toc[d]);
    }
    assert(8 * (n.toc.len() - 1) >= 0);
    assert(storable(x));
    assert(good_leaf(x));
    lemma_leaf_fits(p, x, lo, hi);
    assert(leaf_recs(p, x) =~= leaf_recs(p, n).remove(i));
}

/// Putting a record into a leaf in order, at a position that keeps the order.
pub proof fn lemma_leaf_insert(
    p: u64,
    n: NodeView,
    lo: Option<Seq<u8>>,
    hi: Option<Seq<u8>>,
    i: int,
    key: Seq<u8>,
    val: Seq<u8>,
)
    requires
        ordered(Tree::Leaf { p, n }, lo, hi),
        0 <= i <= n.toc.len(),
        within(key, lo, hi),
        forall|j: int| 0 <= j < i ==> key_sign((#[trigger] records(n, 0, 0)[j]).0, key) < 0,
        forall|j: int|
            i <= j < n.toc.len() ==> key_sign(key, (#[trigger] records(n, 0, 0)[j]).0) < 0,
        key.len() <= u16::MAX,
        val.len() <= u16::MAX,
        n.insert_var(i, key, val).0 is Ok,
    ensures
        ordered(Tree::Leaf { p, n: n.insert_var(i, key, val).1 }, lo, hi),
        leaf_recs(p, n.insert_var(i, key, val).1) == leaf_recs(p, n).insert(i, (key, val, p)),
{
    lemma_leaf_order(p, n, lo, hi);
    law_insert_var_adds_record(n, i, key, val);
    let x = n.insert_var(i, key, val).1;
    let r = records(n, 0, 0);
    let q = records(x, 0, 0);
    assert forall|a: int, b: int| 0 <= a < b < q.len() implies key_sign(
        (#[trigger] q[a]).0,
        (#[trigger] q[b]).0,
    ) < 0 by {
        if a == i {
            assert(q[b] == r[b - 1]);
        } else if b == i {
            assert(q[a] == r[a]);
        } else {
            let c = if a < i { a } else { a - 1 };
            let d = if b < i { b } else { b - 1 };
            assert(q[a] == r[c] && q[b] == r[d]);
            assert(key_sign(r[c].0, r[d].0) < 0);
        }
    }
    assert forall|j: int| 0 <= j < x.toc.len() implies within((#[trigger] q[j]).0, lo, hi)
        && q[j].0.len() >= 8 by {
        if j != i {
            let c = if j < i { j } else { j - 1 };
            assert(q[j] == r[c]);
            assert(within(r[c].0, lo, hi));
        }
    }
    assert(x.toc.len() == n.toc.len() + 1);
    assert(storable(x));
    assert(good_leaf(x));
    lemma_leaf_fits(p, x, lo, hi);
    assert(leaf_recs(p, x) =~= leaf_recs(p, n).insert(i, (key, val, p)));
}

/// Whether records differ in those of `(oid, j_type)` only.
pub open spec fn only(r: Seq<Found>, q: Seq<Found>, oid: u64, j_type: u8) -> bool {
    forall|o: u64, j: u8|
        (o, j) != (oid, j_type) ==> #[trigger] picked(q, o, j) == picked(r, o, j)
}

/// Records around the `i`-th of a leaf.
pub proof fn lemma_around(
    a: Seq<Found>,
    l: Seq<Found>,
    b: Seq<Found>,
    i: int,
)
    requires
        0 <= i < l.len(),
    ensures
        a + l + b == (a + l.take(i)) + seq![l[i]] + (l.skip(i + 1) + b),
        a + l.remove(i) + b == (a + l.take(i)) + seq![] + (l.skip(i + 1) + b),
        forall|y: Found|
            #![trigger l.update(i, y)]
            a + l.update(i, y) + b == (a + l.take(i)) + seq![y] + (l.skip(i + 1) + b),
{
    assert(a + l + b =~= (a + l.take(i)) + seq![l[i]] + (l.skip(i + 1) + b));
    assert(a + l.remove(i) + b =~= (a + l.take(i)) + seq![] + (l.skip(i + 1) + b));
    assert forall|y: Found|
        #![trigger l.update(i, y)]
        a + l.update(i, y) + b == (a + l.take(i)) + seq![y] + (l.skip(i + 1) + b) by {
        assert(a + l.update(i, y) + b =~= (a + l.take(i)) + seq![y] + (l.skip(i + 1) + b));
    }
}

/// A value of `(oid, j_type)` is replaced in a touched leaf. Gives the records
/// of `(oid, j_type)` before and behind it, its key and its old value.
pub proof fn lemma_step_replace(
    v: VolumeView,
    t: Tree,
    m: Set<u64>,
    s: Seq<(u64, NodeView)>,
    p: u64,
    i: int,
    w: Seq<u8>,
    oid: u64,
    j_type: u8,
) -> (r: (Seq<Found>, Found, Seq<Found>))
    requires
        v.sound(t, m),
        touched_ok(t, s),
        leaf_count(t, p) > 0,
        v.load(s, p).0 matches Ok(n) && 0 <= i < n.toc.len() && n.replace(i, w, 0).0 is Ok
            && cat_rank(records(n, 0, 0)[i].0, oid, j_type) == 0,
    ensures
        ({
            let n = v.load(s, p).0->Ok_0;
            let u = put_leaf(v.load(s, p).1, p, n.replace(i, w, 0).1);
            let was = recs_with(t, s);
            let now = recs_with(t, u);
            &&& touched_ok(t, u)
            &&& only(was, now, oid, j_type)
            &&& r.1.0 == records(n, 0, 0)[i].0
            &&& n.value(i, 0) == Ok::<Seq<u8>, Fault>(r.1.1)
            &&& w.len() == r.1.1.len()
            &&& r.1.2 == p
            &&& picked(was, oid, j_type) == r.0 + seq![r.1] + r.2
            &&& picked(now, oid, j_type) == r.0 + seq![(r.1.0, w, p)] + r.2
            &&& single(j_type) ==> r.0.len() == 0 && r.2.len() == 0
        }),
{
    let n = v.load(s, p).0->Ok_0;
    let x = n.replace(i, w, 0).1;
    let (a, n0, b) = lemma_put(v, t, m, s, p, x);
    let (l, h) = bounds(t, p, None, None)->0;
    law_entries_are_records(n, i, 0, 0);
    lemma_leaf_replace(p, n, l, h, i, w);
    let lr = leaf_recs(p, n);
    let old = lr[i];
    let new = (old.0, w, p);
    lemma_around(a, lr, b, i);
    assert(leaf_recs(p, x) == lr.update(i, new));
    let c = a + lr.take(i);
    let d = lr.skip(i + 1) + b;
    lemma_patch(c, seq![old], seq![new], d, oid, j_type);
    if single(j_type) {
        lemma_recs_sorted(tree_with(t, s), None, None);
        lemma_one_single(c, old, d, oid, j_type);
    }
    (picked(c, oid, j_type), old, picked(d, oid, j_type))
}

/// A record of `(oid, j_type)` is taken out of a touched leaf. Gives the
/// records of `(oid, j_type)` before and behind it, and the record.
pub proof fn lemma_step_delete(
    v: VolumeView,
    t: Tree,
    m: Set<u64>,
    s: Seq<(u64, NodeView)>,
    p: u64,
    i: int,
    oid: u64,
    j_type: u8,
) -> (r: (Seq<Found>, Found, Seq<Found>))
    requires
        v.sound(t, m),
        touched_ok(t, s),
        leaf_count(t, p) > 0,
        v.load(s, p).0 matches Ok(n) && 0 <= i < n.toc.len() && cat_rank(
            records(n, 0, 0)[i].0,
            oid,
            j_type,
        ) == 0,
    ensures
        ({
            let n = v.load(s, p).0->Ok_0;
            let u = put_leaf(v.load(s, p).1, p, n.delete_var(i).1);
            let was = recs_with(t, s);
            let now = recs_with(t, u);
            &&& n.delete_var(i).0 is Ok
            &&& touched_ok(t, u)
            &&& only(was, now, oid, j_type)
            &&& r.1 == (records(n, 0, 0)[i].0, records(n, 0, 0)[i].1, p)
            &&& picked(was, oid, j_type) == r.0 + seq![r.1] + r.2
            &&& picked(now, oid, j_type) == r.0 + r.2
            &&& single(j_type) ==> r.0.len() == 0 && r.2.len() == 0
        }),
{
    let n = v.load(s, p).0->Ok_0;
    let x = n.delete_var(i).1;
    let (a, n0, b) = lemma_put(v, t, m, s, p, x);
    let (l, h) = bounds(t, p, None, None)->0;
    lemma_leaf_delete(p, n, l, h, i);
    let lr = leaf_recs(p, n);
    let old = lr[i];
    lemma_around(a, lr, b, i);
    let c = a + lr.take(i);
    let d = lr.skip(i + 1) + b;
    lemma_patch(c, seq![old], seq![], d, oid, j_type);
    if single(j_type) {
        lemma_recs_sorted(tree_with(t, s), None, None);
        lemma_one_single(c, old, d, oid, j_type);
    }
    assert(picked(c, oid, j_type) + seq![] + picked(d, oid, j_type) =~= picked(c, oid, j_type)
        + picked(d, oid, j_type));
    (picked(c, oid, j_type), old, picked(d, oid, j_type))
}

/// A record of `(oid, j_type)` is put into a touched leaf. Gives the records
/// of `(oid, j_type)` before and behind it.
pub proof fn lemma_step_insert(
    v: VolumeView,
    t: Tree,
    m: Set<u64>,
    s: Seq<(u64, NodeView)>,
    p: u64,
    i: int,
    key: Seq<u8>,
    val: Seq<u8>,
    oid: u64,
    j_type: u8,
) -> (r: (Seq<Found>, Seq<Found>))
    requires
        v.sound(t, m),
        touched_ok(t, s),
        leaf_count(t, p) > 0,
        bounds(t, p, None, None) matches Some((l, h)) && within(key, l, h),
        key.len() <= u16::MAX,
        val.len() <= u16::MAX,
        cat_rank(key, oid, j_type) == 0,
        v.load(s, p).0 matches Ok(n) && 0 <= i <= n.toc.len() && n.insert_var(
            i,
            key,
            val,
        ).0 is Ok && (forall|j: int|
            0 <= j < i ==> key_sign((#[trigger] records(n, 0, 0)[j]).0, key) < 0) && (forall|
            j: int,
        |
            i <= j < n.toc.len() ==> key_sign(key, (#[trigger] records(n, 0, 0)[j]).0) < 0),
    ensures
        ({
            let n = v.load(s, p).0->Ok_0;
            let u = put_leaf(v.load(s, p).1, p, n.insert_var(i, key, val).1);
            let was = recs_with(t, s);
            let now = recs_with(t, u);
            &&& touched_ok(t, u)
            &&& only(was, now, oid, j_type)
            &&& picked(was, oid, j_type) == r.0 + r.1
            &&& picked(now, oid, j_type) == r.0 + seq![(key, val, p)] + r.1
            &&& single(j_type) ==> r.0.len() == 0 && r.1.len() == 0
        }),
{
    let n = v.load(s, p).0->Ok_0;
    let x = n.insert_var(i, key, val).1;
    let (a, n0, b) = lemma_put(v, t, m, s, p, x);
    let (l, h) = bounds(t, p, None, None)->0;
    lemma_leaf_insert(p, n, l, h, i, key, val);
    let u = put_leaf(v.load(s, p).1, p, x);
    let lr = leaf_recs(p, n);
    let lx = leaf_recs(p, x);
    let new = (key, val, p);
    lemma_around(a, lx, b, i);
    assert(lx.remove(i) =~= lr);
    assert(lx[i] == new);
    let c = a + lx.take(i);
    let d = lx.skip(i + 1) + b;
    lemma_patch(c, seq![], seq![new], d, oid, j_type);
    if single(j_type) {
        lemma_recs_sorted(tree_with(t, u), None, None);
        lemma_one_single(c, new, d, oid, j_type);
    }
    assert(picked(c, oid, j_type) + seq![] + picked(d, oid, j_type) =~= picked(c, oid, j_type)
        + picked(d, oid, j_type));
    (picked(c, oid, j_type), picked(d, oid, j_type))
}

/// Bringing a leaf among the touched ones changes nothing.
pub proof fn lemma_load(
    v: VolumeView,
    t: Tree,
    m: Set<u64>,
    s: Seq<(u64, NodeView)>,
    p: u64,
)
    requires
        v.sound(t, m),
        touched_ok(t, s),
        leaf_count(t, p) > 0,
    ensures
        v.load(s, p).0 is Ok,
        good_leaf(v.load(s, p).0->Ok_0),
        touched_ok(t, v.load(s, p).1),
        recs_with(t, v.load(s, p).1) == recs_with(t, s),
        v.load(v.load(s, p).1, p) == (v.load(s, p).0, v.load(s, p).1),
{
    let (a, n, b) = lemma_put(v, t, m, s, p, v.load(s, p).0->Ok_0);
    lemma_put_leaf(s, p, n);
}

} // verus!

//! The leaf that a new record goes to.

use crate::apfs::btree::node::NodeView;
use crate::apfs::btree::records::{law_entries_are_records, records};
use crate::apfs::btree::search::{child_choice, Found, TREE_DEPTH_LIMIT};
use crate::apfs::catalog::edit::{
    insert_index, insert_record, keys_sorted, law_insert_index_keeps_order,
};
use crate::apfs::catalog::order::{key_sign, law_key_order_flips};
use crate::apfs::catalog::query::cat_rank;
use crate::apfs::error::Fault;
use crate::apfs::volume::commit::spot_ok;
use crate::apfs::volume::frame::{
    leaf_count, leaf_count_from, lemma_count_child, lemma_releafed, releafed,
};
use crate::apfs::volume::leaves::child_for;
use crate::apfs::volume::state::VolumeView;
use crate::apfs::volume::steps::{lemma_put, lemma_step_insert, only, recs_with, touched_ok};
use crate::apfs::volume::swap::{bounds, lemma_bounds_from};
use crate::apfs::volume::tree::{
    good_leaf, lemma_child, lemma_child_order, lemma_choice, lemma_planted, ordered, picked,
    planted, sep, single, upper, within, Tree,
};
use vstd::prelude::*;

verus! {

/// Whether the search for the place of a key finds, in every node that it
/// comes to, a separator that is not above the key.
#[verifier::opaque]
pub open spec fn reaches(t: Tree, key: Seq<u8>) -> bool
    decreases t,
{
    match t {
        Tree::Leaf { .. } => true,
        Tree::Inner { n, kids, .. } => {
            &&& kids.len() > 0
            &&& key_sign(sep(n, 0), key) <= 0
            &&& forall|i: int|
                0 <= i < kids.len() && key_sign(sep(n, i), key) <= 0 && (i + 1 < kids.len()
                    ==> key_sign(key, sep(n, i + 1)) < 0) ==> reaches(#[trigger] kids[i], key)
        },
    }
}

proof fn lemma_reaches_kid(t: Tree, key: Seq<u8>, i: int)
    requires
        t is Inner,
        reaches(t, key),
        0 <= i < t->kids.len(),
        key_sign(sep(t.node(), i), key) <= 0,
        i + 1 < t->kids.len() ==> key_sign(key, sep(t.node(), i + 1)) < 0,
    ensures
        reaches(t->kids[i], key),
{
    reveal(reaches);
    let k = t->kids[i];
}

proof fn lemma_reaches_first(t: Tree, key: Seq<u8>)
    requires
        t is Inner,
        reaches(t, key),
    ensures
        t->kids.len() > 0,
        key_sign(sep(t.node(), 0), key) <= 0,
{
    reveal(reaches);
}

/// The child in which the search for the place of a key goes on.
pub proof fn lemma_key_child(
    v: VolumeView,
    t: Tree,
    levels: u32,
    key: Seq<u8>,
    lo: Option<Seq<u8>>,
    hi: Option<Seq<u8>>,
) -> (c: int)
    requires
        t is Inner,
        planted(v.disk, v.block_size, v.omap_root, t, levels),
        ordered(t, lo, hi),
        within(key, lo, hi),
        reaches(t, key),
    ensures
        levels > 0,
        0 <= c < t->kids.len(),
        v.key_leaf_from(key, t.at(), levels) == v.key_leaf_from(
            key,
            t->kids[c].at(),
            (levels - 1) as u32,
        ),
        within(key, Some(sep(t.node(), c)), upper(t.node(), c, hi)),
        reaches(t->kids[c], key),
        child_for(t.node(), key) == Ok::<int, Fault>(c),
{
    let n = t.node();
    let kids = t->kids;
    lemma_planted(v.disk, v.block_size, v.omap_root, t, levels);
    let rank = |k: Seq<u8>| key_sign(k, key);
    lemma_choice(v.disk, v.block_size, v.omap_root, t, levels, 0, rank, 0);
    lemma_reaches_first(t, key);
    let choice = child_choice(n, 0, rank, 0, None);
    assert(rank(sep(n, 0)) <= 0);
    let c = choice->Ok_0->0;
    assert(choice == Ok::<Option<int>, Fault>(Some(c)));
    assert(child_for(n, key) == Ok::<int, Fault>(c));
    lemma_child(v.disk, v.block_size, v.omap_root, t, levels, c);
    assert(rank(sep(n, c)) <= 0);
    if c + 1 < kids.len() {
        assert(rank(sep(n, c + 1)) > 0);
        law_key_order_flips(key, sep(n, c + 1));
    }
    lemma_reaches_kid(t, key, c);
    c
}

/// Before the one child with the leaf no child has it.
proof fn lemma_lone(kids: Seq<Tree>, p: u64, from: int, c: int)
    requires
        0 <= from <= c < kids.len(),
        leaf_count_from(kids, p, from) <= 1,
        leaf_count(kids[c], p) == 1,
    ensures
        forall|j: int| from <= j < c ==> leaf_count(#[trigger] kids[j], p) == 0,
    decreases c - from,
{
    if from < c {
        lemma_lone_rest(kids, p, from + 1, c);
        lemma_lone(kids, p, from + 1, c);
    }
}

proof fn lemma_lone_rest(kids: Seq<Tree>, p: u64, from: int, c: int)
    requires
        0 <= from <= c < kids.len(),
        leaf_count(kids[c], p) == 1,
    ensures
        leaf_count_from(kids, p, from) >= 1,
    decreases c - from,
{
    if from < c {
        lemma_lone_rest(kids, p, from + 1, c);
    }
}

/// The search for the place of a key ends in a leaf between whose bounds the
/// key lies.
pub proof fn lemma_key_leaf(
    v: VolumeView,
    t: Tree,
    levels: u32,
    key: Seq<u8>,
    lo: Option<Seq<u8>>,
    hi: Option<Seq<u8>>,
)
    requires
        planted(v.disk, v.block_size, v.omap_root, t, levels),
        ordered(t, lo, hi),
        within(key, lo, hi),
        reaches(t, key),
        forall|q: u64| #[trigger] leaf_count(t, q) <= 1,
    ensures
        ({
            let r = v.key_leaf_from(key, t.at(), levels);
            &&& r matches Ok(p)
            &&& leaf_count(t, p) == 1
            &&& bounds(t, p, lo, hi) matches Some((l, h))
            &&& within(key, l, h)
        }),
    decreases t,
{
    lemma_planted(v.disk, v.block_size, v.omap_root, t, levels);
    match t {
        Tree::Leaf { p, .. } => {
            assert(leaf_count(t, p) == 1);
        },
        Tree::Inner { n, kids, .. } => {
            let c = lemma_key_child(v, t, levels, key, lo, hi);
            lemma_child(v.disk, v.block_size, v.omap_root, t, levels, c);
            lemma_child_order(t, lo, hi, c);
            assert forall|q: u64| #[trigger] leaf_count(kids[c], q) <= 1 by {
                lemma_count_child(t, q, c);
                assert(leaf_count(t, q) <= 1);
            }
            let l = Some(sep(n, c));
            let h = upper(n, c, hi);
            lemma_key_leaf(v, kids[c], (levels - 1) as u32, key, l, h);
            let p = v.key_leaf_from(key, kids[c].at(), (levels - 1) as u32)->Ok_0;
            lemma_count_child(t, p, c);
            assert(leaf_count(t, p) <= 1);
            lemma_lone(kids, p, 0, c);
            lemma_bounds_from(n, kids, p, hi, 0, c);
        },
    }
}

/// The keys of a good leaf are sorted.
pub proof fn lemma_good_sorted(n: NodeView)
    requires
        good_leaf(n),
    ensures
        keys_sorted(n),
        forall|i: int|
            0 <= i < n.toc.len() ==> #[trigger] n.key(i, 0) == Ok::<Seq<u8>, Fault>(
                records(n, 0, 0)[i].0,
            ),
{
    assert forall|i: int| 0 <= i < n.toc.len() implies #[trigger] n.key(i, 0) == Ok::<
        Seq<u8>,
        Fault,
    >(records(n, 0, 0)[i].0) by {
        law_entries_are_records(n, i, 0, 0);
    }
    assert forall|i: int, j: int| 0 <= i < j < n.toc.len() implies key_sign(
        (#[trigger] n.key(i, 0))->Ok_0,
        (#[trigger] n.key(j, 0))->Ok_0,
    ) < 0 by {
        assert(key_sign(records(n, 0, 0)[i].0, records(n, 0, 0)[j].0) < 0);
    }
}

/// A record is put at its place. Gives the records of `(oid, j_type)` before
/// and behind it.
pub proof fn lemma_insert_record(
    v: VolumeView,
    t: Tree,
    m: Set<u64>,
    s: Seq<(u64, NodeView)>,
    p: u64,
    key: Seq<u8>,
    val: Seq<u8>,
    oid: u64,
    j_type: u8,
    f: spec_fn(NodeView) -> (Result<int, Fault>, NodeView),
) -> (r: (Seq<Found>, Seq<Found>))
    requires
        v.sound(t, m),
        touched_ok(t, s),
        v.key_leaf(key) == Ok::<u64, Fault>(p),
        reaches(t, key),
        8 <= key.len() <= u16::MAX,
        val.len() <= u16::MAX,
        cat_rank(key, oid, j_type) == 0,
        forall|n: NodeView| #[trigger] f(n) == insert_record(n, key, val),
        v.change(s, p, f).0 is Ok,
    ensures
        touched_ok(t, v.change(s, p, f).1),
        only(recs_with(t, s), recs_with(t, v.change(s, p, f).1), oid, j_type),
        picked(recs_with(t, s), oid, j_type) == r.0 + r.1,
        picked(recs_with(t, v.change(s, p, f).1), oid, j_type) == r.0 + seq![(key, val, p)] + r.1,
        single(j_type) ==> r.0.len() == 0 && r.1.len() == 0,
{
    assert forall|q: u64| #[trigger] leaf_count(t, q) <= 1 by {
        assert(spot_ok(t, m, v.nx, q));
    }
    lemma_key_leaf(v, t, TREE_DEPTH_LIMIT, key, None, None);
    let n = v.load(s, p).0->Ok_0;
    let (a0, n0, b0) = lemma_put(v, t, m, s, p, n);
    assert(f(n) == insert_record(n, key, val));
    lemma_good_sorted(n);
    law_insert_index_keeps_order(n, key);
    let i = insert_index(n, key)->Ok_0;
    assert forall|j: int| 0 <= j < i implies key_sign((#[trigger] records(n, 0, 0)[j]).0, key)
        < 0 by {
        assert(n.key(j, 0) == Ok::<Seq<u8>, Fault>(records(n, 0, 0)[j].0));
    }
    assert forall|j: int| i <= j < n.toc.len() implies key_sign(
        key,
        (#[trigger] records(n, 0, 0)[j]).0,
    ) < 0 by {
        assert(n.key(j, 0) == Ok::<Seq<u8>, Fault>(records(n, 0, 0)[j].0));
    }
    lemma_step_insert(v, t, m, s, p, i, key, val, oid, j_type)
}

/// Other leaves are reached as before.
pub proof fn lemma_reaches_kept(t: Tree, f: spec_fn(u64, NodeView) -> NodeView, key: Seq<u8>)
    requires
        reaches(t, key),
    ensures
        reaches(releafed(t, f), key),
    decreases t,
{
    lemma_releafed(t, f);
    reveal(reaches);
    if let Tree::Inner { n, kids, .. } = t {
        let u = releafed(t, f);
        let r = u->kids;
        assert forall|i: int|
            0 <= i < r.len() && key_sign(sep(n, i), key) <= 0 && (i + 1 < r.len() ==> key_sign(
                key,
                sep(n, i + 1),
            ) < 0) implies reaches(#[trigger] r[i], key) by {
            assert(reaches(kids[i], key));
            lemma_reaches_kept(kids[i], f, key);
            assert(r[i] == releafed(kids[i], f));
        }
    }
}

} // verus!

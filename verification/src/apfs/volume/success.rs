//! When a change of the catalog succeeds.

use crate::apfs::btree::node::{node_outcome, NodeView};
use crate::apfs::btree::records::{
    law_delete_removes_record, law_entries_are_records, law_insert_var_succeeds,
    law_replace_updates_record, leaf_ok, records,
};
use crate::apfs::btree::search::{node_at, Found, TREE_DEPTH_LIMIT};
use crate::apfs::bytes::splice;
use crate::apfs::catalog::edit::{
    delete_records, edit_inode, inode_entry, insert_index, insert_record, key_matches,
    law_insert_index_keeps_order, lemma_with_fixed, matching_entry, record_entry, reparent, sweep,
    with_fixed,
};
use crate::apfs::catalog::order::key_sign;
use crate::apfs::catalog::query::cat_rank;
use crate::apfs::catalog::records::{
    drec_name_outcome, inode_of, inode_outcome, InodeVal, J_TYPE_DIR_REC, J_TYPE_FILE_EXTENT,
    J_TYPE_INODE,
};
use crate::apfs::device::in_range;
use crate::apfs::error::Fault;
use crate::apfs::fletcher::sealed;
use crate::apfs::object::block_outcome;
use crate::apfs::superblock::law_nx_write_then_parse;
use crate::apfs::transaction::{
    can_rotate, in_ring, next_commit_xid, next_nx, slot_contents, stamp_staged, stamped, write_staged,
};
use crate::apfs::volume::commit::{lemma_landed, lemma_stamped_blocks, next_slot, spot_ok};
use crate::apfs::volume::effects::{lemma_hit_leaf, lemma_picked_from};
use crate::apfs::volume::frame::leaf_count;
use crate::apfs::volume::law_remove::{lemma_delete_records, lemma_leaf_addrs, lemma_matching};
use crate::apfs::volume::leaves::{
    ascending, blocks_from, held_leaf, lemma_pos_at, lemma_put_leaf, put_leaf,
};
use crate::apfs::volume::place::lemma_good_sorted;
use crate::apfs::volume::remove::{leaf_addrs, record_out};
use crate::apfs::volume::state::VolumeView;
use crate::apfs::volume::steps::{lemma_load, lemma_put, lemma_put_other, recs_with, touched_ok};
use crate::apfs::volume::swap::{lemma_has_leaf, lemma_leaf_there, lemma_recs_leaf};
use crate::apfs::volume::tree::{
    good_leaf, is_of, law_lookups_find_records, leaf_recs, picked, recs, single, Tree,
};
use vstd::prelude::*;

verus! {

/// Whether a leaf takes `slots` more records, with `bytes` bytes of keys and
/// values between them, without a larger table.
pub open spec fn room(n: NodeView, bytes: int, slots: int) -> bool {
    &&& 8 + bytes <= n.free_space.len
    &&& 8 * (n.toc.len() + slots) <= n.table_space.len
    &&& n.block.len() <= 0x1_0000
}

/// Whether the leaf at `p`, in the state in which it was touched, has such
/// room.
pub open spec fn room_at(
    v: VolumeView,
    s: Seq<(u64, NodeView)>,
    p: u64,
    bytes: int,
    slots: int,
) -> bool {
    v.load(s, p).0 matches Ok(n) && room(n, bytes, slots)
}

/// Whether every leaf fills one block.
#[verifier::opaque]
pub open spec fn sized(v: VolumeView, t: Tree, s: Seq<(u64, NodeView)>) -> bool {
    forall|p: u64| #[trigger]
        leaf_count(t, p) > 0 ==> (v.load(s, p).0 matches Ok(n) && n.block.len() == v.block_size)
}

/// Whether no leaf has less room than before.
#[verifier::opaque]
pub open spec fn no_worse(
    v: VolumeView,
    t: Tree,
    s: Seq<(u64, NodeView)>,
    u: Seq<(u64, NodeView)>,
) -> bool {
    forall|p: u64| #[trigger]
        leaf_count(t, p) > 0 ==> {
            &&& v.load(s, p).0 matches Ok(a)
            &&& v.load(u, p).0 matches Ok(b)
            &&& as_roomy(a, b)
        }
}

/// Whether a leaf has the room that another one has.
pub open spec fn as_roomy(a: NodeView, b: NodeView) -> bool {
    &&& b.block.len() == a.block.len()
    &&& b.free_space == a.free_space
    &&& b.table_space == a.table_space
    &&& b.toc.len() <= a.toc.len()
}

/// Whether the superblock of the next commit has a place on the device.
pub open spec fn can_commit(v: VolumeView) -> bool {
    &&& can_rotate(v.nx)
    &&& v.disk.len() <= u64::MAX
    &&& in_range(v.disk.len(), next_slot(v.nx) * v.block_size, v.block_size as int)
}

/// Whether no record of `(oid, j_type)` has the key.
pub open spec fn unused(r: Seq<Found>, oid: u64, j_type: u8, key: Seq<u8>) -> bool {
    forall|i: int|
        0 <= i < picked(r, oid, j_type).len() ==> key_sign(
            (#[trigger] picked(r, oid, j_type)[i]).0,
            key,
        ) != 0
}

/// The leaves on the device fill one block each.
pub proof fn lemma_sized(v: VolumeView, t: Tree, m: Set<u64>)
    requires
        v.sound(t, m),
    ensures
        sized(v, t, seq![]),
{
    reveal(sized);
    assert forall|p: u64| #[trigger] leaf_count(t, p) > 0 implies (v.load(seq![], p).0 matches Ok(n)
        && n.block.len() == v.block_size) by {
        let n = lemma_leaf_there(t, p);
        lemma_has_leaf(v.disk, v.block_size, v.omap_root, t, TREE_DEPTH_LIMIT, p, n);
        assert(node_at(v.disk, p, v.block_size) == Ok::<NodeView, Fault>(n));
        let b = block_outcome(v.disk, p, v.block_size)->Ok_0;
        assert(p * v.block_size >= 0) by (nonlinear_arith);
        assert(b.len() == v.block_size);
        assert(node_outcome(b)->Ok_0.block == b);
    }
}

/// The touched leaves have their blocks, of the size of a block.
proof fn lemma_blocks(v: VolumeView, t: Tree, m: Set<u64>, s: Seq<(u64, NodeView)>, i: int)
    requires
        v.sound(t, m),
        touched_ok(t, s),
        sized(v, t, s),
        0 <= i <= s.len(),
    ensures
        blocks_from(s, v.block_size, i) is Ok,
        forall|k: int|
            0 <= k < s.len() ==> (#[trigger] s[k]).1.serialize().0 is Ok
                && s[k].1.serialize().0->Ok_0.len() == v.block_size,
    decreases s.len() - i,
{
    reveal(sized);
    assert forall|k: int| 0 <= k < s.len() implies (#[trigger] s[k]).1.serialize().0 is Ok
        && s[k].1.serialize().0->Ok_0.len() == v.block_size by {
        let p = s[k].0;
        assert(leaf_count(t, p) > 0);
        lemma_load(v, t, m, s, p);
        lemma_pos_at(s, p, 0, k);
        assert(held_leaf(s, p) == Some(s[k].1));
        lemma_landed(s[k].1, 0);
    }
    if i < s.len() {
        lemma_blocks(v, t, m, s, i + 1);
    }
}

/// Blocks whose places are on the device are written.
proof fn lemma_written(disk: Seq<u8>, st: Seq<(u64, Seq<u8>)>, block_size: u64, i: int)
    requires
        0 <= i,
        block_size >= 8,
        block_size % 4 == 0,
        disk.len() <= u64::MAX,
        forall|k: int|
            0 <= k < st.len() ==> (#[trigger] st[k]).1.len() == block_size && in_range(
                disk.len(),
                st[k].0 * block_size,
                block_size as int,
            ),
    ensures
        write_staged(disk, st, block_size, i).0 is Ok,
        write_staged(disk, st, block_size, i).1.len() == disk.len(),
    decreases st.len() - i,
{
    if i < st.len() {
        let (p, b) = st[i];
        assert(st[i].1.len() == block_size);
        lemma_written(
            splice(disk, p * block_size, sealed(b)),
            st,
            block_size,
            i + 1,
        );
    }
}

/// What was touched can be committed.
pub proof fn lemma_commit_succeeds(v: VolumeView, t: Tree, m: Set<u64>, s: Seq<(u64, NodeView)>)
    requires
        v.sound(t, m),
        touched_ok(t, s),
        sized(v, t, s),
        can_commit(v),
    ensures
        v.commit(s).0 is Ok,
{
    let bs = v.block_size as u64;
    let xid = next_commit_xid(v.nx) as u64;
    lemma_blocks(v, t, m, s, 0);
    let b = blocks_from(s, v.block_size, 0)->Ok_0;
    assert forall|i: int| 0 <= i < s.len() implies !in_ring(v.nx, (#[trigger] s[i]).0) by {
        assert(spot_ok(t, m, v.nx, s[i].0));
        assert(leaf_count(t, s[i].0) > 0);
    }
    lemma_stamped_blocks(s, v.block_size, v.nx, xid);
    let st = stamp_staged(b, v.nx, xid);
    assert forall|k: int| 0 <= k < st.len() implies (#[trigger] st[k]).1.len() == bs && in_range(
        v.disk.len(),
        st[k].0 * bs,
        bs as int,
    ) by {
        let p = s[k].0;
        assert(st[k] == (p, stamped(s[k].1.serialize().0->Ok_0, xid)));
        assert(leaf_count(t, p) > 0);
        let n = lemma_leaf_there(t, p);
        lemma_has_leaf(v.disk, v.block_size, v.omap_root, t, TREE_DEPTH_LIMIT, p, n);
    }
    lemma_written(v.disk, st, bs, 0);
    let d = write_staged(v.disk, st, bs, 0).1;
    let p = next_slot(v.nx);
    let slot = slot_contents(d, p, v.nx.block_size);
    assert(p * v.block_size >= 0) by (nonlinear_arith);
    assert(slot.len() == v.nx.block_size);
    law_nx_write_then_parse(next_nx(v.nx), slot);
    let w = next_nx(v.nx).write_outcome(slot).1;
    let at = p * v.nx.block_size;
    assert(w.len() == v.nx.block_size);
    let out = splice(d, at, w);
    assert(out.subrange(at, at + v.nx.block_size) =~= w);
    assert(block_outcome(out, p, v.block_size) == Ok::<Seq<u8>, Fault>(w));
}

/// A leaf with room takes a record, and has what is left of it afterwards.
proof fn lemma_record_fits(n: NodeView, key: Seq<u8>, val: Seq<u8>, bytes: int, slots: int)
    requires
        good_leaf(n),
        room(n, bytes, slots),
        slots >= 1,
        0 < key.len(),
        0 < val.len(),
        key.len() + val.len() <= bytes,
        insert_index(n, key) is Ok,
    ensures
        insert_record(n, key, val).0 is Ok,
        room(insert_record(n, key, val).1, bytes - key.len() - val.len(), slots - 1),
        insert_record(n, key, val).1.block.len() == n.block.len(),
{
    lemma_good_sorted(n);
    law_insert_index_keeps_order(n, key);
    let i = insert_index(n, key)->Ok_0;
    law_insert_var_succeeds(n, i, key, val);
    assert(8 * (n.toc.len() + 1) <= u16::MAX);
}

/// A record whose key is not in use goes into a leaf with room.
pub proof fn lemma_insert_succeeds(
    v: VolumeView,
    t: Tree,
    m: Set<u64>,
    s: Seq<(u64, NodeView)>,
    p: u64,
    key: Seq<u8>,
    val: Seq<u8>,
    oid: u64,
    j_type: u8,
    f: spec_fn(NodeView) -> (Result<int, Fault>, NodeView),
    bytes: int,
    slots: int,
)
    requires
        v.sound(t, m),
        touched_ok(t, s),
        sized(v, t, s),
        room_at(v, s, p, bytes, slots),
        leaf_count(t, p) > 0,
        slots >= 1,
        8 <= key.len(),
        0 < val.len(),
        key.len() + val.len() <= bytes,
        cat_rank(key, oid, j_type) == 0,
        unused(recs_with(t, s), oid, j_type, key),
        forall|n: NodeView| #[trigger] f(n) == insert_record(n, key, val),
    ensures
        v.change(s, p, f).0 is Ok,
        sized(v, t, v.change(s, p, f).1),
        room_at(v, v.change(s, p, f).1, p, bytes - key.len() - val.len(), slots - 1),
        forall|q: u64|
            q != p ==> #[trigger] v.load(v.change(s, p, f).1, q).0 == v.load(s, q).0,
{
    reveal(sized);
    lemma_load(v, t, m, s, p);
    let n = v.load(s, p).0->Ok_0;
    let x = f(n).1;
    let (a, n0, b) = lemma_put(v, t, m, s, p, x);
    assert(f(n) == insert_record(n, key, val));
    lemma_good_sorted(n);
    law_insert_index_keeps_order(n, key);
    if insert_index(n, key) is Err {
        let j = choose|j: int|
            0 <= j < n.toc.len() && key_sign((#[trigger] n.key(j, 0))->Ok_0, key) == 0;
        assert(n.key(j, 0) == Ok::<Seq<u8>, Fault>(records(n, 0, 0)[j].0));
        let r = recs_with(t, s);
        let k = a.len() + j;
        assert(r[k] == leaf_recs(p, n)[j]);
        assert(records(n, 0, 0)[j].0.len() >= 8);
        assert(cat_rank(r[k].0, oid, j_type) == 0);
        r.lemma_filter_contains(is_of(oid, j_type), k);
        assert(picked(r, oid, j_type).contains(r[k]));
    }
    lemma_record_fits(n, key, val, bytes, slots);
    lemma_changed(v, s, p, x);
}

/// A leaf that was put in leaves the others as they were.
pub proof fn lemma_changed(v: VolumeView, s: Seq<(u64, NodeView)>, p: u64, x: NodeView)
    requires
        ascending(s),
    ensures
        v.load(put_leaf(s, p, x), p).0 == Ok::<NodeView, Fault>(x),
        forall|q: u64| q != p ==> #[trigger] v.load(put_leaf(s, p, x), q).0 == v.load(s, q).0,
{
    lemma_put_leaf(s, p, x);
    assert forall|q: u64| q != p implies #[trigger] v.load(put_leaf(s, p, x), q).0 == v.load(
        s,
        q,
    ).0 by {
        lemma_put_other(s, p, x, q);
    }
}

/// The inode at the `i`-th place of a leaf is found in it.
pub proof fn lemma_inode_there(n: NodeView, oid: u64, from: int, i: int)
    requires
        good_leaf(n),
        0 <= from <= i < n.toc.len(),
        cat_rank(records(n, 0, 0)[i].0, oid, J_TYPE_INODE) == 0,
    ensures
        inode_entry(n, oid, from) == Ok::<Option<int>, Fault>(Some(i)),
    decreases i - from,
{
    lemma_good_sorted(n);
    let r = records(n, 0, 0);
    assert(n.key(from, 0) == Ok::<Seq<u8>, Fault>(r[from].0));
    assert(r[from].0.len() >= 8);
    if from < i {
        assert(key_sign(r[from].0, r[i].0) < 0);
        lemma_inode_there(n, oid, from + 1, i);
    }
}

/// An inode is changed in the leaf that has it, when its value can be.
pub proof fn lemma_edit_succeeds(
    v: VolumeView,
    t: Tree,
    m: Set<u64>,
    s: Seq<(u64, NodeView)>,
    p: u64,
    oid: u64,
    not_a_leaf: Seq<char>,
    e: spec_fn(Seq<u8>) -> Result<Seq<u8>, Fault>,
    f: spec_fn(NodeView) -> (Result<int, Fault>, NodeView),
)
    requires
        v.sound(t, m),
        touched_ok(t, s),
        leaf_count(t, p) > 0,
        forall|n: NodeView| #[trigger] f(n) == edit_inode(n, oid, not_a_leaf, e),
        picked(recs_with(t, s), oid, J_TYPE_INODE).len() > 0,
        ({
            let was = picked(recs_with(t, s), oid, J_TYPE_INODE)[0];
            was.2 == p && (e(was.1) matches Ok(w) && w.len() == was.1.len())
        }),
    ensures
        v.change(s, p, f).0 is Ok,
        no_worse(v, t, s, v.change(s, p, f).1),
{
    lemma_load(v, t, m, s, p);
    let n = v.load(s, p).0->Ok_0;
    let x = f(n).1;
    let (a, n0, b) = lemma_put(v, t, m, s, p, x);
    let r = recs_with(t, s);
    let was = picked(r, oid, J_TYPE_INODE)[0];
    let i = lemma_in_leaf(v, t, m, s, p, oid, J_TYPE_INODE, 0);
    lemma_inode_there(n, oid, 0, i);
    law_entries_are_records(n, i, 0, 0);
    assert(f(n) == edit_inode(n, oid, not_a_leaf, e));
    law_replace_updates_record(n, i, e(was.1)->Ok_0, 0, 0);
    lemma_swapped(v, t, m, s, p, x);
}

/// An inode is given another parent in the leaf that has it.
pub proof fn lemma_reparent_succeeds(
    v: VolumeView,
    t: Tree,
    m: Set<u64>,
    s: Seq<(u64, NodeView)>,
    p: u64,
    oid: u64,
    dir: u64,
    now: i64,
    f: spec_fn(NodeView) -> (Result<int, Fault>, NodeView),
)
    requires
        v.sound(t, m),
        touched_ok(t, s),
        leaf_count(t, p) > 0,
        forall|n: NodeView| #[trigger] f(n) == reparent(n, oid, dir, now),
        picked(recs_with(t, s), oid, J_TYPE_INODE).len() > 0,
        ({
            let was = picked(recs_with(t, s), oid, J_TYPE_INODE)[0];
            was.2 == p && inode_outcome(was.1) is Ok
        }),
    ensures
        v.change(s, p, f).0 is Ok,
        no_worse(v, t, s, v.change(s, p, f).1),
{
    lemma_load(v, t, m, s, p);
    let n = v.load(s, p).0->Ok_0;
    let x = f(n).1;
    let (a, n0, b) = lemma_put(v, t, m, s, p, x);
    let was = picked(recs_with(t, s), oid, J_TYPE_INODE)[0];
    let i = lemma_in_leaf(v, t, m, s, p, oid, J_TYPE_INODE, 0);
    lemma_match(n, oid, J_TYPE_INODE, None, 0);
    assert(key_matches(records(n, 0, 0)[i].0, oid, J_TYPE_INODE, None));
    lemma_matching(n, oid, J_TYPE_INODE, None, 0);
    let k = record_entry(n, oid, J_TYPE_INODE, None)->Ok_0->0;
    law_entries_are_records(n, k, 0, 0);
    law_entries_are_records(n, i, 0, 0);
    if k != i {
        let (c, d) = if k < i {
            (k, i)
        } else {
            (i, k)
        };
        assert(key_sign(records(n, 0, 0)[c].0, records(n, 0, 0)[d].0) < 0);
    }
    assert(f(n) == reparent(n, oid, dir, now));
    let new = InodeVal { parent_id: dir, change_time: now, ..inode_of(was.1) };
    lemma_with_fixed(was.1, new);
    law_replace_updates_record(n, i, with_fixed(was.1, new), 0, 0);
    lemma_swapped(v, t, m, s, p, x);
}

/// A leaf that takes the place of one with no more room makes nothing worse.
pub proof fn lemma_swapped(
    v: VolumeView,
    t: Tree,
    m: Set<u64>,
    s: Seq<(u64, NodeView)>,
    p: u64,
    x: NodeView,
)
    requires
        v.sound(t, m),
        touched_ok(t, s),
        leaf_count(t, p) > 0,
        v.load(s, p).0 matches Ok(n) && as_roomy(n, x),
    ensures
        no_worse(v, t, s, put_leaf(s, p, x)),
{
    reveal(no_worse);
    lemma_changed(v, s, p, x);
    assert forall|q: u64| #[trigger] leaf_count(t, q) > 0 implies {
        &&& v.load(s, q).0 matches Ok(a)
        &&& v.load(put_leaf(s, p, x), q).0 matches Ok(b)
        &&& as_roomy(a, b)
    } by {
        lemma_load(v, t, m, s, q);
    }
}

/// What is no worse is of the same size.
pub proof fn lemma_still(
    v: VolumeView,
    t: Tree,
    s: Seq<(u64, NodeView)>,
    u: Seq<(u64, NodeView)>,
)
    requires
        no_worse(v, t, s, u),
        sized(v, t, s),
    ensures
        sized(v, t, u),
{
    reveal(no_worse);
    reveal(sized);
}

/// What is no worse has the same room.
pub proof fn lemma_still_room(
    v: VolumeView,
    t: Tree,
    s: Seq<(u64, NodeView)>,
    u: Seq<(u64, NodeView)>,
    p: u64,
    bytes: int,
    slots: int,
)
    requires
        no_worse(v, t, s, u),
        leaf_count(t, p) > 0,
        room_at(v, s, p, bytes, slots),
    ensures
        room_at(v, u, p, bytes, slots),
{
    reveal(no_worse);
}

/// What is no worse than what is no worse is no worse.
pub proof fn lemma_chain(
    v: VolumeView,
    t: Tree,
    s: Seq<(u64, NodeView)>,
    a: Seq<(u64, NodeView)>,
    u: Seq<(u64, NodeView)>,
)
    requires
        no_worse(v, t, s, a),
        no_worse(v, t, a, u),
    ensures
        no_worse(v, t, s, u),
{
    reveal(no_worse);
}

/// A search through a leaf in order ends, with an entry if there is one that
/// matches.
pub proof fn lemma_match(
    n: NodeView,
    oid: u64,
    j_type: u8,
    name: Option<Seq<char>>,
    from: int,
)
    requires
        good_leaf(n),
        0 <= from,
    ensures
        matching_entry(n, oid, j_type, name, from) matches Ok(found) && (found matches Some(k)
            ==> from <= k < n.toc.len()),
        forall|i: int|
            from <= i < n.toc.len() && key_matches(
                (#[trigger] records(n, 0, 0)[i]).0,
                oid,
                j_type,
                name,
            ) ==> matching_entry(n, oid, j_type, name, from) matches Ok(Some(_)),
    decreases n.toc.len() - from,
{
    if from < n.toc.len() {
        lemma_good_sorted(n);
        assert(n.key(from, 0) == Ok::<Seq<u8>, Fault>(records(n, 0, 0)[from].0));
        lemma_match(n, oid, j_type, name, from + 1);
    }
}

/// The leaf at `p` holds the records that are said to be in it.
pub proof fn lemma_in_leaf(
    v: VolumeView,
    t: Tree,
    m: Set<u64>,
    s: Seq<(u64, NodeView)>,
    p: u64,
    oid: u64,
    j_type: u8,
    k: int,
) -> (i: int)
    requires
        v.sound(t, m),
        touched_ok(t, s),
        leaf_count(t, p) > 0,
        0 <= k < picked(recs_with(t, s), oid, j_type).len(),
        picked(recs_with(t, s), oid, j_type)[k].2 == p,
    ensures
        v.load(s, p).0 matches Ok(n) && 0 <= i < n.toc.len() && leaf_recs(p, n)[i] == picked(
            recs_with(t, s),
            oid,
            j_type,
        )[k] && cat_rank(records(n, 0, 0)[i].0, oid, j_type) == 0,
{
    let n = v.load(s, p).0->Ok_0;
    let (a, n0, b) = lemma_put(v, t, m, s, p, n);
    let r = recs_with(t, s);
    let j = lemma_picked_from(r, oid, j_type, k);
    let i = j - a.len();
    if j < a.len() {
        assert(r[j] == a[j]);
    }
    if i >= n.toc.len() {
        assert(r[j] == b[i - n.toc.len()]);
    }
    assert(r[j] == leaf_recs(p, n)[i]);
    i
}

/// The directory record of a name is taken out, if the `j`-th has the name.
pub proof fn lemma_drop_drec_succeeds(
    v: VolumeView,
    t: Tree,
    m: Set<u64>,
    s: Seq<(u64, NodeView)>,
    found: Seq<Found>,
    i: int,
    j: int,
    dir: u64,
    name: Seq<char>,
)
    requires
        v.sound(t, m),
        touched_ok(t, s),
        found == picked(recs_with(t, s), dir, J_TYPE_DIR_REC),
        0 <= i <= j < found.len(),
        drec_name_outcome(found[j].0) == Ok::<Seq<char>, Fault>(name),
        forall|k: int| 0 <= k < found.len() ==> leaf_count(t, (#[trigger] found[k]).2) > 0,
    ensures
        v.without_drec(s, found, i, dir, name) matches Ok(Some(u)) && no_worse(v, t, s, u),
    decreases j - i,
{
    reveal(no_worse);
    let p = found[i].2;
    lemma_load(v, t, m, s, p);
    let n = v.load(s, p).0->Ok_0;
    let l = v.load(s, p).1;
    lemma_match(n, dir, J_TYPE_DIR_REC, Some(name), 0);
    match record_entry(n, dir, J_TYPE_DIR_REC, Some(name))->Ok_0 {
        None => {
            if i == j {
                let k = lemma_in_leaf(v, t, m, s, p, dir, J_TYPE_DIR_REC, i);
                assert(records(n, 0, 0)[k].0 == found[i].0);
                assert(key_matches(records(n, 0, 0)[k].0, dir, J_TYPE_DIR_REC, Some(name)));
            }
            lemma_drop_drec_succeeds(v, t, m, l, found, i + 1, j, dir, name);
            if held_leaf(s, p) is None {
                lemma_swapped(v, t, m, s, p, n);
            } else {
                lemma_same(v, t, m, s);
            }
        },
        Some(k) => {
            let x = n.delete_var(k).1;
            let (a, n0, b) = lemma_put(v, t, m, s, p, x);
            lemma_swapped(v, t, m, s, p, x);
        },
    }
}

/// Nothing is worse than it is.
proof fn lemma_same(v: VolumeView, t: Tree, m: Set<u64>, s: Seq<(u64, NodeView)>)
    requires
        v.sound(t, m),
        touched_ok(t, s),
    ensures
        no_worse(v, t, s, s),
{
    reveal(no_worse);
    assert forall|q: u64| #[trigger] leaf_count(t, q) > 0 implies v.load(s, q).0 is Ok by {
        lemma_load(v, t, m, s, q);
    }
}

/// A record that is there once is taken out.
pub proof fn lemma_delete_succeeds(
    v: VolumeView,
    t: Tree,
    m: Set<u64>,
    s: Seq<(u64, NodeView)>,
    oid: u64,
    j_type: u8,
)
    requires
        v.sound(t, m),
        touched_ok(t, s),
        single(j_type),
        picked(recs(t), oid, j_type).len() > 0,
        picked(recs_with(t, s), oid, j_type) == picked(recs(t), oid, j_type),
    ensures
        v.delete_record(s, oid, j_type).0 is Ok,
        no_worse(v, t, s, v.delete_record(s, oid, j_type).1),
{
    law_lookups_find_records(v, t, oid, j_type);
    let p = picked(recs(t), oid, j_type)[0].2;
    lemma_hit_leaf(v, t, oid, j_type, p);
    lemma_load(v, t, m, s, p);
    let n = v.load(s, p).0->Ok_0;
    let i = lemma_in_leaf(v, t, m, s, p, oid, j_type, 0);
    lemma_match(n, oid, j_type, None, 0);
    assert(key_matches(records(n, 0, 0)[i].0, oid, j_type, None));
    let x = record_out(n, oid, j_type).1;
    let (a, n0, b) = lemma_put(v, t, m, s, p, x);
    lemma_swapped(v, t, m, s, p, x);
}

/// Taking all records of `(oid, j_type)` out of a leaf in order succeeds.
proof fn lemma_sweep_succeeds(n: NodeView, oid: u64, j_type: u8, i: int, removed: int)
    requires
        leaf_ok(n, 0, 0),
        !n.fixed_kv(),
        0 <= i,
    ensures
        sweep(n, oid, j_type, i, removed).0 is Ok,
        as_roomy(n, sweep(n, oid, j_type, i, removed).1),
    decreases n.toc.len() - i,
{
    if i < n.toc.len() {
        law_entries_are_records(n, i, 0, 0);
        if key_matches(n.key(i, 0)->Ok_0, oid, j_type, None) {
            law_delete_removes_record(n, i, 0, 0);
            lemma_sweep_succeeds(n.delete_var(i).1, oid, j_type, i, removed + 1);
        } else {
            lemma_sweep_succeeds(n, oid, j_type, i + 1, removed);
        }
    }
}

/// The extents of a file are taken out of the leaves at some addresses.
proof fn lemma_without_extents_succeeds(
    v: VolumeView,
    t: Tree,
    m: Set<u64>,
    s: Seq<(u64, NodeView)>,
    addrs: Seq<u64>,
    i: int,
    oid: u64,
)
    requires
        v.sound(t, m),
        touched_ok(t, s),
        0 <= i <= addrs.len(),
        forall|k: int| 0 <= k < addrs.len() ==> leaf_count(t, #[trigger] addrs[k]) > 0,
    ensures
        v.without_extents(s, addrs, i, oid) matches Ok(u) && no_worse(v, t, s, u),
    decreases addrs.len() - i,
{
    reveal(no_worse);
    if i < addrs.len() {
        let p = addrs[i];
        let f = |n: NodeView| delete_records(n, oid, J_TYPE_FILE_EXTENT);
        lemma_load(v, t, m, s, p);
        let n = v.load(s, p).0->Ok_0;
        lemma_sweep_succeeds(n, oid, J_TYPE_FILE_EXTENT, 0, 0);
        let x = delete_records(n, oid, J_TYPE_FILE_EXTENT).1;
        let (a, n0, b) = lemma_put(v, t, m, s, p, x);
        lemma_swapped(v, t, m, s, p, x);
        lemma_delete_records(v, t, m, s, p, oid, J_TYPE_FILE_EXTENT, f);
        lemma_without_extents_succeeds(v, t, m, v.change(s, p, f).1, addrs, i + 1, oid);
    } else {
        lemma_same(v, t, m, s);
    }
}

/// All extents of a file are taken out.
pub proof fn lemma_drop_extents_succeeds(
    v: VolumeView,
    t: Tree,
    m: Set<u64>,
    s: Seq<(u64, NodeView)>,
    oid: u64,
)
    requires
        v.sound(t, m),
        touched_ok(t, s),
    ensures
        v.drop_extents(s, oid) matches Ok(u) && no_worse(v, t, s, u),
{
    let ext = J_TYPE_FILE_EXTENT;
    law_lookups_find_records(v, t, oid, ext);
    let found = picked(recs(t), oid, ext);
    let addrs = leaf_addrs(found, 0, seq![]);
    assert forall|k: int| 0 <= k < addrs.len() implies leaf_count(t, #[trigger] addrs[k]) > 0 by {
        assert(addrs.contains(addrs[k]));
        lemma_leaf_addrs(found, 0, seq![], addrs[k]);
        let i = choose|i: int| 0 <= i < found.len() && (#[trigger] found[i]).2 == addrs[k];
        let j = lemma_picked_from(recs(t), oid, ext, i);
        lemma_recs_leaf(t, j);
    }
    lemma_without_extents_succeeds(v, t, m, s, addrs, 0, oid);
}

} // verus!

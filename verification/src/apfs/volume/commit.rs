//! What a commit leaves on the device.

use crate::apfs::btree::node::{node_outcome, NodeView};
use crate::apfs::btree::records::{
    entry_ok, law_serialize_keeps_records, law_serialize_then_parse, records, storable, stored,
};
use crate::apfs::btree::search::{node_at, TREE_DEPTH_LIMIT};
use crate::apfs::bytes::{bytes_u64, group_bytes_len};
use crate::apfs::error::Fault;
use crate::apfs::fletcher::{checkable, law_sealed_is_intact, sealed};
use crate::apfs::object::{block_outcome, HeaderView};
use crate::apfs::superblock::{nx_storable, NxView};
use crate::apfs::transaction::{
    in_block, in_ring, law_rotation_publishes_newer_superblock, lemma_blocks_apart,
    lemma_write_staged, next_commit_xid, publish, staged_ok, stamp_staged, stamped, write_staged,
};
use crate::apfs::volume::frame::{
    inner_at, leaf_count, lemma_releafed, lemma_releafed_places, lemma_replant, mapped_within,
    releafed,
};
use crate::apfs::volume::leaves::{
    ascending, blocks_from, held_leaf, leaf_pos, lemma_leaf_pos, lemma_pos_at,
};
use crate::apfs::volume::state::VolumeView;
use crate::apfs::volume::swap::{
    has_leaf, lemma_has_leaf, lemma_has_releafed, lemma_leaf_good, lemma_leaf_there,
    lemma_releafed_twice, lemma_same_records,
};
use crate::apfs::volume::tree::{good_leaf, ordered, recs, Tree};
use vstd::prelude::*;

verus! {

/// A node with another transaction id.
pub open spec fn restamped(n: NodeView, xid: u64) -> NodeView {
    NodeView { header: HeaderView { xid, ..n.header }, ..n }
}

/// The leaf that is read back after a commit with this transaction id.
pub open spec fn landed(n: NodeView, xid: u64) -> NodeView {
    stored(restamped(n, xid), restamped(n, xid).serialize().0->Ok_0)
}

proof fn lemma_seal_payload(a: Seq<u8>, b: Seq<u8>)
    requires
        a.len() == b.len(),
        a.len() >= 8,
        forall|x: int| 8 <= x < a.len() ==> #[trigger] a[x] == b[x],
    ensures
        sealed(a) == sealed(b),
{
    broadcast use group_bytes_len;

    let n = a.len() as int;
    assert(a.subrange(8, n) =~= b.subrange(8, n));
    assert(sealed(a) =~= sealed(b));
}

proof fn lemma_restamped_bytes(n: NodeView, xid: u64)
    requires
        storable(n),
        n.block.len() >= 56,
    ensures
        restamped(n, xid).written().len() == n.block.len(),
        n.written().len() == n.block.len(),
        forall|x: int|
            8 <= x < n.block.len() ==> #[trigger] restamped(n, xid).written()[x] == stamped(
                n.written(),
                xid,
            )[x],
{
    broadcast use group_bytes_len;

    let m = restamped(n, xid);
    let w = n.written();
    let s = stamped(w, xid);
    let e = m.header.encode();
    let f = n.header.encode();
    assert(e.len() == 32 && f.len() == 32);
    assert(n.prefix_bytes() == m.prefix_bytes());
    assert(n.prefix_bytes().len() == 24);
    assert forall|x: int| 8 <= x < n.block.len() implies #[trigger] m.written()[x] == s[x] by {
        if x < 32 {
            if 16 <= x < 24 {
                assert(e[x] == bytes_u64(xid)[x - 16]);
            } else {
                assert(e[x] == f[x]);
            }
        }
    }
}

/// A leaf that was committed is read back with the records that it had.
pub proof fn lemma_landed(n: NodeView, xid: u64)
    requires
        good_leaf(n),
    ensures
        n.serialize().0 is Ok,
        n.serialize().0->Ok_0.len() == n.block.len(),
        sealed(stamped(n.serialize().0->Ok_0, xid)).len() == n.block.len(),
        node_outcome(sealed(stamped(n.serialize().0->Ok_0, xid))) == Ok::<NodeView, Fault>(
            landed(n, xid),
        ),
        good_leaf(landed(n, xid)),
        records(landed(n, xid), 0, 0) == records(n, 0, 0),
        landed(n, xid).block.len() == n.block.len(),
{
    broadcast use group_bytes_len;

    let m = restamped(n, xid);
    law_serialize_then_parse(n);
    assert(storable(m));
    law_serialize_then_parse(m);
    lemma_restamped_bytes(n, xid);
    let w = n.written();
    law_sealed_is_intact(w);
    let a = stamped(sealed(w), xid);
    let b = m.written();
    assert forall|x: int| 8 <= x < a.len() implies #[trigger] a[x] == b[x] by {
        assert(sealed(w).subrange(8, w.len() as int)[x - 8] == w.subrange(8, w.len() as int)[x - 8]);
        assert(b[x] == stamped(w, xid)[x]);
    }
    lemma_seal_payload(a, b);
    law_sealed_is_intact(a);
    let l = landed(n, xid);
    assert forall|i: int| 0 <= i < m.toc.len() implies entry_ok(
        m,
        i,
        0,
        0,
    ) by {
        assert(entry_ok(n, i, 0, 0));
    }
    assert(records(m, 0, 0) =~= records(n, 0, 0));
    law_serialize_keeps_records(m, 0, 0);
    assert(l.toc =~= n.toc);
}

/// The blocks of leaves that are written back.
proof fn lemma_blocks(s: Seq<(u64, NodeView)>, block_size: u32, i: int)
    requires
        0 <= i <= s.len(),
        blocks_from(s, block_size, i) is Ok,
    ensures
        blocks_from(s, block_size, i)->Ok_0.len() == s.len() - i,
        forall|j: int|
            0 <= j < s.len() - i ==> {
                &&& (#[trigger] blocks_from(s, block_size, i)->Ok_0[j]).0 == s[i + j].0
                &&& s[i + j].1.serialize().0 == Ok::<Seq<u8>, Fault>(
                    blocks_from(s, block_size, i)->Ok_0[j].1,
                )
                &&& blocks_from(s, block_size, i)->Ok_0[j].1.len() == block_size
            },
    decreases s.len() - i,
{
    if i < s.len() {
        lemma_blocks(s, block_size, i + 1);
        let r = blocks_from(s, block_size, i)->Ok_0;
        let q = blocks_from(s, block_size, i + 1)->Ok_0;
        assert forall|j: int| 0 <= j < s.len() - i implies {
            &&& (#[trigger] r[j]).0 == s[i + j].0
            &&& s[i + j].1.serialize().0 == Ok::<Seq<u8>, Fault>(r[j].1)
            &&& r[j].1.len() == block_size
        } by {
            if j > 0 {
                assert(r[j] == q[j - 1]);
            }
        }
    }
}

/// A leaf that is not held stands nowhere among the touched ones.
pub proof fn lemma_not_held(s: Seq<(u64, NodeView)>, p: u64)
    requires
        ascending(s),
        held_leaf(s, p) is None,
    ensures
        forall|i: int| 0 <= i < s.len() ==> (#[trigger] s[i]).0 != p,
{
    assert forall|i: int| 0 <= i < s.len() implies (#[trigger] s[i]).0 != p by {
        if s[i].0 == p {
            lemma_pos_at(s, p, 0, i);
        }
    }
}

/// A leaf that is held stands among the touched ones.
pub proof fn lemma_held(s: Seq<(u64, NodeView)>, p: u64) -> (i: int)
    requires
        held_leaf(s, p) is Some,
    ensures
        0 <= i < s.len(),
        s[i] == (p, held_leaf(s, p)->0),
{
    lemma_leaf_pos(s, p, 0);
    leaf_pos(s, p, 0)
}

/// Bytes outside a block do not matter to it.
pub proof fn lemma_other_block(d: Seq<u8>, e: Seq<u8>, q: u64, block_size: u32)
    requires
        d.len() == e.len(),
        forall|x: int|
            0 <= x < d.len() && in_block(x, q, block_size as u64) ==> #[trigger] d[x] == e[x],
    ensures
        block_outcome(d, q, block_size) == block_outcome(e, q, block_size),
{
    let at = q * block_size;
    assert(at >= 0) by (nonlinear_arith)
        requires
            at == q * block_size,
    ;
    if at + block_size <= d.len() {
        assert(d.subrange(at, at + block_size) =~= e.subrange(at, at + block_size));
    }
}

/// Where the next superblock goes.
pub open spec fn next_slot(nx: NxView) -> u64 {
    (nx.xp_desc_base + nx.xp_desc_next) as u64
}

/// A superblock from which a commit can go on.
pub open spec fn nx_sound(nx: NxView) -> bool {
    &&& nx_storable(nx)
    &&& nx.xp_desc_next < nx.xp_desc_blocks
    &&& nx.xp_desc_base + nx.xp_desc_blocks <= u64::MAX
}

/// What holds of the stamped blocks of leaves outside the rings.
pub proof fn lemma_stamped_blocks(s: Seq<(u64, NodeView)>, block_size: u32, nx: NxView, xid: u64)
    requires
        ascending(s),
        blocks_from(s, block_size, 0) is Ok,
        forall|i: int| 0 <= i < s.len() ==> !in_ring(nx, (#[trigger] s[i]).0),
    ensures
        staged_ok(blocks_from(s, block_size, 0)->Ok_0, block_size as u64),
        ({
            let st = stamp_staged(blocks_from(s, block_size, 0)->Ok_0, nx, xid);
            &&& staged_ok(st, block_size as u64)
            &&& st.len() == s.len()
            &&& forall|i: int|
                0 <= i < s.len() ==> #[trigger] st[i] == (
                    s[i].0,
                    stamped(s[i].1.serialize().0->Ok_0, xid),
                )
        }),
{
    broadcast use group_bytes_len;

    lemma_blocks(s, block_size, 0);
    let b = blocks_from(s, block_size, 0)->Ok_0;
    let st = stamp_staged(b, nx, xid);
    assert forall|i: int| 0 <= i < s.len() implies #[trigger] st[i] == (
        s[i].0,
        stamped(s[i].1.serialize().0->Ok_0, xid),
    ) && st[i].1.len() == block_size && b[i].0 == s[i].0 && b[i].1.len() == block_size by {
        assert(b[i].0 == s[0 + i].0);
        assert(!in_ring(nx, s[i].0));
    }
    assert forall|i: int, j: int| 0 <= i < j < b.len() implies (#[trigger] b[i]).0 < (
    #[trigger] b[j]).0 by {
        assert(st[i].0 == s[i].0 && st[j].0 == s[j].0);
        assert(s[i].0 < s[j].0);
    }
    assert forall|i: int, j: int| 0 <= i < j < st.len() implies (#[trigger] st[i]).0 < (
    #[trigger] st[j]).0 by {
        assert(s[i].0 < s[j].0);
    }
}

/// Writing blocks and then the superblock slot leaves other blocks alone.
proof fn lemma_rotate_disk(
    disk: Seq<u8>,
    st: Seq<(u64, Seq<u8>)>,
    block_size: u32,
    slot: u64,
    e: Seq<u8>,
)
    requires
        staged_ok(st, block_size as u64),
        checkable(block_size as nat),
        write_staged(disk, st, block_size as u64, 0).0 is Ok,
        e.len() == disk.len(),
        forall|x: int|
            0 <= x < disk.len() && !in_block(x, slot, block_size as u64) ==> #[trigger] e[x]
                == write_staged(disk, st, block_size as u64, 0).1[x],
        forall|i: int| 0 <= i < st.len() ==> (#[trigger] st[i]).0 != slot,
    ensures
        forall|q: u64|
            q != slot && (forall|i: int| 0 <= i < st.len() ==> (#[trigger] st[i]).0 != q)
                ==> #[trigger] block_outcome(e, q, block_size) == block_outcome(
                disk,
                q,
                block_size,
            ),
        forall|i: int|
            0 <= i < st.len() ==> block_outcome(e, (#[trigger] st[i]).0, block_size) == Ok::<
                Seq<u8>,
                Fault,
            >(sealed(st[i].1)),
{
    let bs = block_size as u64;
    let d = write_staged(disk, st, bs, 0).1;
    lemma_write_staged(disk, st, bs, 0);
    assert forall|q: u64|
        q != slot && (forall|i: int| 0 <= i < st.len() ==> (#[trigger] st[i]).0
            != q) implies #[trigger] block_outcome(e, q, block_size) == block_outcome(
        disk,
        q,
        block_size,
    ) by {
        assert forall|x: int|
            0 <= x < e.len() && in_block(x, q, bs) implies #[trigger] e[x] == disk[x] by {
            lemma_apart(q, slot, bs, x);
            assert forall|j: int| 0 <= j < st.len() implies !in_block(
                x,
                (#[trigger] st[j]).0,
                bs,
            ) by {
                lemma_apart(q, st[j].0, bs, x);
            }
            assert(d[x] == disk[x]);
        }
        lemma_other_block(e, disk, q, block_size);
    }
    assert forall|i: int| 0 <= i < st.len() implies block_outcome(
        e,
        (#[trigger] st[i]).0,
        block_size,
    ) == Ok::<Seq<u8>, Fault>(sealed(st[i].1)) by {
        let q = st[i].0;
        assert forall|x: int| 0 <= x < e.len() && in_block(x, q, bs) implies #[trigger] e[x]
            == d[x] by {
            lemma_apart(q, slot, bs, x);
        }
        lemma_other_block(e, d, q, block_size);
    }
}

/// What a commit that succeeds does to the device, in steps.
proof fn lemma_commit_steps(v: VolumeView, s: Seq<(u64, NodeView)>)
    requires
        nx_sound(v.nx),
        v.nx.block_size == v.block_size,
        ascending(s),
        forall|i: int| 0 <= i < s.len() ==> !in_ring(v.nx, (#[trigger] s[i]).0),
        v.commit(s).0 is Ok,
    ensures
        ({
            let w = v.commit(s).1;
            let xid = next_commit_xid(v.nx) as u64;
            let bs = v.block_size as u64;
            let st = stamp_staged(blocks_from(s, v.block_size, 0)->Ok_0, v.nx, xid);
            &&& blocks_from(s, v.block_size, 0) is Ok
            &&& w == (VolumeView { disk: w.disk, nx: w.nx, ..v })
            &&& w.disk.len() == v.disk.len()
            &&& write_staged(v.disk, st, bs, 0).0 is Ok
            &&& forall|x: int|
                0 <= x < v.disk.len() && !in_block(x, next_slot(v.nx), bs) ==> #[trigger] w.disk[x]
                    == write_staged(v.disk, st, bs, 0).1[x]
            &&& nx_sound(w.nx)
            &&& w.nx.block_size == v.nx.block_size
            &&& forall|q: u64| in_ring(w.nx, q) == in_ring(v.nx, q)
        }),
{
    let bs = v.block_size as u64;
    let w = v.commit(s).1;
    let xid = next_commit_xid(v.nx) as u64;
    let b = blocks_from(s, v.block_size, 0)->Ok_0;
    let st = stamp_staged(b, v.nx, xid);
    lemma_stamped_blocks(s, v.block_size, v.nx, xid);
    law_rotation_publishes_newer_superblock(v.disk, b, bs, v.nx);
    let d = write_staged(v.disk, st, bs, 0).1;
    lemma_write_staged(v.disk, st, bs, 0);
    let slot = next_slot(v.nx);
    assert(w.disk == publish(d, v.nx).1);
    assert(w.disk.len() == d.len());
}

/// A commit puts the touched leaves on the device, with the new transaction
/// id, and a superblock in the next slot; other blocks stay.
pub proof fn lemma_commit_disk(v: VolumeView, s: Seq<(u64, NodeView)>)
    requires
        nx_sound(v.nx),
        v.nx.block_size == v.block_size,
        ascending(s),
        forall|i: int| 0 <= i < s.len() ==> !in_ring(v.nx, (#[trigger] s[i]).0),
        v.commit(s).0 is Ok,
    ensures
        ({
            let w = v.commit(s).1;
            let xid = next_commit_xid(v.nx) as u64;
            &&& w == (VolumeView { disk: w.disk, nx: w.nx, ..v })
            &&& w.disk.len() == v.disk.len()
            &&& nx_sound(w.nx)
            &&& w.nx.block_size == v.nx.block_size
            &&& forall|q: u64| in_ring(w.nx, q) == in_ring(v.nx, q)
            &&& forall|q: u64|
                held_leaf(s, q) is None && q != next_slot(v.nx) ==> #[trigger] block_outcome(
                    w.disk,
                    q,
                    v.block_size,
                ) == block_outcome(v.disk, q, v.block_size)
            &&& forall|i: int|
                0 <= i < s.len() ==> block_outcome(w.disk, (#[trigger] s[i]).0, v.block_size) == Ok::<
                    Seq<u8>,
                    Fault,
                >(sealed(stamped(s[i].1.serialize().0->Ok_0, xid)))
        }),
{
    lemma_commit_steps(v, s);
    let w = v.commit(s).1;
    let xid = next_commit_xid(v.nx) as u64;
    let b = blocks_from(s, v.block_size, 0)->Ok_0;
    let st = stamp_staged(b, v.nx, xid);
    lemma_stamped_blocks(s, v.block_size, v.nx, xid);
    let slot = next_slot(v.nx);
    assert(in_ring(v.nx, slot));
    assert forall|i: int| 0 <= i < st.len() implies (#[trigger] st[i]).0 != slot by {
        assert(!in_ring(v.nx, s[i].0));
    }
    lemma_rotate_disk(v.disk, st, v.block_size, slot, w.disk);
    assert forall|q: u64|
        held_leaf(s, q) is None && q != slot implies #[trigger] block_outcome(
        w.disk,
        q,
        v.block_size,
    ) == block_outcome(v.disk, q, v.block_size) by {
        lemma_not_held(s, q);
        assert forall|j: int| 0 <= j < st.len() implies (#[trigger] st[j]).0 != q by {
            assert(s[j].0 != q);
        }
    }
    assert forall|i: int| 0 <= i < s.len() implies block_outcome(
        w.disk,
        (#[trigger] s[i]).0,
        v.block_size,
    ) == Ok::<Seq<u8>, Fault>(sealed(stamped(s[i].1.serialize().0->Ok_0, xid))) by {
        assert(st[i].0 == s[i].0);
    }
}

/// A byte of one block is not a byte of another.
proof fn lemma_apart(p: u64, q: u64, block_size: u64, x: int)
    requires
        p != q,
        in_block(x, p, block_size),
    ensures
        !in_block(x, q, block_size),
{
    if p < q {
        lemma_blocks_apart(p, q, block_size);
    } else {
        lemma_blocks_apart(q, p, block_size);
    }
}

/// What of a tree an address is: at most one leaf; and leaves, inner nodes and
/// blocks of the object map, and the checkpoint rings, do not overlap.
pub open spec fn spot_ok(t: Tree, m: Set<u64>, nx: NxView, q: u64) -> bool {
    &&& leaf_count(t, q) <= 1
    &&& leaf_count(t, q) > 0 ==> !inner_at(t, q) && !m.contains(q) && !in_ring(nx, q)
    &&& in_ring(nx, q) ==> !inner_at(t, q) && !m.contains(q)
}

impl VolumeView {
    /// Whether `t` is the catalog of a volume on which changes can be made.
    /// The object map is looked up in the blocks of `m`.
    pub open spec fn sound(self, t: Tree, m: Set<u64>) -> bool {
        &&& self.has_catalog(t)
        &&& mapped_within(self.disk, self.block_size, self.omap_root, t, m)
        &&& nx_sound(self.nx)
        &&& self.nx.block_size == self.block_size
        &&& forall|q: u64| #[trigger] spot_ok(t, m, self.nx, q)
    }
}

/// The touched leaf in place of the one at an address.
pub open spec fn kept(s: Seq<(u64, NodeView)>) -> spec_fn(u64, NodeView) -> NodeView {
    |q: u64, n: NodeView|
        match held_leaf(s, q) {
            Some(x) => x,
            None => n,
        }
}

/// The leaf that is read back after a commit, where it was touched.
pub open spec fn landing(s: Seq<(u64, NodeView)>, xid: u64) -> spec_fn(u64, NodeView) -> NodeView {
    |q: u64, n: NodeView|
        if held_leaf(s, q) is Some {
            landed(n, xid)
        } else {
            n
        }
}

/// The leaf that is on the device after a commit.
pub open spec fn settled(s: Seq<(u64, NodeView)>, xid: u64) -> spec_fn(
    u64,
    NodeView,
) -> NodeView {
    |q: u64, n: NodeView| landing(s, xid)(q, kept(s)(q, n))
}

/// A tree with the touched leaves in it.
pub open spec fn tree_with(t: Tree, s: Seq<(u64, NodeView)>) -> Tree {
    releafed(t, kept(s))
}

/// The catalog after the touched leaves were committed.
pub open spec fn tree_after(t: Tree, s: Seq<(u64, NodeView)>, nx: NxView) -> Tree {
    releafed(t, settled(s, next_commit_xid(nx) as u64))
}

proof fn lemma_after_records(t: Tree, s: Seq<(u64, NodeView)>, xid: u64)
    requires
        ordered(tree_with(t, s), None, None),
    ensures
        recs(releafed(t, settled(s, xid))) == recs(tree_with(t, s)),
        ordered(releafed(t, settled(s, xid)), None, None),
{
    let u = tree_with(t, s);
    let g = landing(s, xid);
    assert forall|q: u64, n: NodeView| has_leaf(u, q, n) implies good_leaf(#[trigger] g(q, n))
        && records(g(q, n), 0, 0) == records(n, 0, 0) by {
        lemma_leaf_good(u, None, None, q, n);
        lemma_landed(n, xid);
    }
    lemma_same_records(u, g, None, None);
    lemma_releafed_twice(t, kept(s), g, settled(s, xid));
}

/// The touched leaves of a tree in order are good.
pub proof fn lemma_touched_good(t: Tree, s: Seq<(u64, NodeView)>, i: int)
    requires
        ordered(tree_with(t, s), None, None),
        ascending(s),
        0 <= i < s.len(),
        leaf_count(t, s[i].0) > 0,
    ensures
        good_leaf(s[i].1),
        held_leaf(s, s[i].0) == Some(s[i].1),
{
    let p = s[i].0;
    lemma_pos_at(s, p, 0, i);
    let n = lemma_leaf_there(t, p);
    lemma_has_releafed(t, kept(s), p, n);
    lemma_leaf_good(tree_with(t, s), None, None, p, s[i].1);
}

/// After a commit the catalog has the records of the touched leaves in place
/// of the old ones, and further changes can be made. Blocks that are no leaf
/// of the catalog and not in the checkpoint rings stay.
pub proof fn lemma_commit(v: VolumeView, t: Tree, m: Set<u64>, s: Seq<(u64, NodeView)>)
    requires
        v.sound(t, m),
        ascending(s),
        forall|i: int| 0 <= i < s.len() ==> leaf_count(t, (#[trigger] s[i]).0) > 0,
        ordered(tree_with(t, s), None, None),
        v.commit(s).0 is Ok,
    ensures
        ({
            let w = v.commit(s).1;
            let u = tree_after(t, s, v.nx);
            &&& w == (VolumeView { disk: w.disk, nx: w.nx, ..v })
            &&& w.disk.len() == v.disk.len()
            &&& w.sound(u, m)
            &&& recs(u) == recs(tree_with(t, s))
            &&& forall|q: u64| in_ring(w.nx, q) == in_ring(v.nx, q)
            &&& forall|q: u64| leaf_count(u, q) == leaf_count(t, q)
            &&& forall|q: u64|
                leaf_count(t, q) == 0 && !in_ring(v.nx, q) ==> #[trigger] block_outcome(
                    w.disk,
                    q,
                    v.block_size,
                ) == block_outcome(v.disk, q, v.block_size)
        }),
{
    let w = v.commit(s).1;
    let xid = next_commit_xid(v.nx) as u64;
    let f = settled(s, xid);
    let u = tree_after(t, s, v.nx);
    let slot = next_slot(v.nx);
    assert forall|i: int| 0 <= i < s.len() implies !in_ring(v.nx, (#[trigger] s[i]).0) by {
        assert(spot_ok(t, m, v.nx, s[i].0));
    }
    lemma_commit_disk(v, s);
    assert(in_ring(v.nx, slot));
    lemma_after_records(t, s, xid);
    assert forall|q: u64| leaf_count(t, q) == 0 implies held_leaf(s, q) is None by {
        if held_leaf(s, q) is Some {
            let i = lemma_held(s, q);
        }
    }
    assert forall|q: u64| leaf_count(t, q) == 0 && !in_ring(v.nx, q) implies #[trigger] block_outcome(
        w.disk,
        q,
        v.block_size,
    ) == block_outcome(v.disk, q, v.block_size) by {}
    assert forall|q: u64| m.contains(q) implies #[trigger] block_outcome(v.disk, q, v.block_size)
        == block_outcome(w.disk, q, v.block_size) by {
        assert(spot_ok(t, m, v.nx, q));
    }
    assert forall|q: u64| inner_at(t, q) implies #[trigger] block_outcome(v.disk, q, v.block_size)
        == block_outcome(w.disk, q, v.block_size) by {
        assert(spot_ok(t, m, v.nx, q));
    }
    assert forall|q: u64, n: NodeView|
        leaf_count(t, q) > 0 && node_at(v.disk, q, v.block_size) == Ok::<NodeView, Fault>(
            n,
        ) implies node_at(w.disk, q, v.block_size) == Ok::<NodeView, Fault>(#[trigger] f(q, n))
        && f(q, n).is_leaf() && !f(q, n).fixed_kv() by {
        lemma_settled_leaf(v, t, m, s, q, n);
    }
    lemma_replant(v.disk, w.disk, v.block_size, v.omap_root, t, TREE_DEPTH_LIMIT, f, m);
    lemma_releafed(t, f);
    assert forall|q: u64| #[trigger] spot_ok(u, m, w.nx, q) by {
        assert(spot_ok(t, m, v.nx, q));
        lemma_releafed_places(v.disk, v.block_size, v.omap_root, t, f, m, q);
    }
    assert forall|q: u64| leaf_count(u, q) == leaf_count(t, q) by {
        lemma_releafed_places(v.disk, v.block_size, v.omap_root, t, f, m, q);
    }
}

proof fn lemma_settled_leaf(
    v: VolumeView,
    t: Tree,
    m: Set<u64>,
    s: Seq<(u64, NodeView)>,
    q: u64,
    n: NodeView,
)
    requires
        v.sound(t, m),
        ascending(s),
        forall|i: int| 0 <= i < s.len() ==> leaf_count(t, (#[trigger] s[i]).0) > 0,
        ordered(tree_with(t, s), None, None),
        v.commit(s).0 is Ok,
        leaf_count(t, q) > 0,
        node_at(v.disk, q, v.block_size) == Ok::<NodeView, Fault>(n),
    ensures
        ({
            let x = settled(s, next_commit_xid(v.nx) as u64)(q, n);
            &&& node_at(v.commit(s).1.disk, q, v.block_size) == Ok::<NodeView, Fault>(x)
            &&& x.is_leaf()
            &&& !x.fixed_kv()
        }),
{
    let xid = next_commit_xid(v.nx) as u64;
    assert forall|i: int| 0 <= i < s.len() implies !in_ring(v.nx, (#[trigger] s[i]).0) by {
        assert(spot_ok(t, m, v.nx, s[i].0));
    }
    lemma_commit_disk(v, s);
    assert(spot_ok(t, m, v.nx, q));
    assert(in_ring(v.nx, next_slot(v.nx)));
    if held_leaf(s, q) is Some {
        let i = lemma_held(s, q);
        lemma_touched_good(t, s, i);
        lemma_landed(s[i].1, xid);
    } else {
        let k = lemma_leaf_there(t, q);
        lemma_has_leaf(v.disk, v.block_size, v.omap_root, t, TREE_DEPTH_LIMIT, q, k);
        assert(block_outcome(v.commit(s).1.disk, q, v.block_size) == block_outcome(
            v.disk,
            q,
            v.block_size,
        ));
    }
}

/// A byte that lies in no leaf of the catalog and not in the checkpoint rings
/// stays through a commit.
pub proof fn lemma_commit_byte(
    v: VolumeView,
    t: Tree,
    m: Set<u64>,
    s: Seq<(u64, NodeView)>,
    x: int,
)
    requires
        v.sound(t, m),
        ascending(s),
        forall|i: int| 0 <= i < s.len() ==> leaf_count(t, (#[trigger] s[i]).0) > 0,
        v.commit(s).0 is Ok,
        0 <= x < v.disk.len(),
        forall|q: u64|
            #[trigger] in_block(x, q, v.block_size as u64) ==> leaf_count(t, q) == 0 && !in_ring(
                v.nx,
                q,
            ),
    ensures
        v.commit(s).1.disk.len() == v.disk.len(),
        v.commit(s).1.disk[x] == v.disk[x],
{
    let xid = next_commit_xid(v.nx) as u64;
    assert forall|i: int| 0 <= i < s.len() implies !in_ring(v.nx, (#[trigger] s[i]).0) by {
        assert(spot_ok(t, m, v.nx, s[i].0));
    }
    lemma_commit_steps(v, s);
    let bs = v.block_size as u64;
    let st = stamp_staged(blocks_from(s, v.block_size, 0)->Ok_0, v.nx, xid);
    lemma_stamped_blocks(s, v.block_size, v.nx, xid);
    lemma_write_staged(v.disk, st, bs, 0);
    let slot = next_slot(v.nx);
    assert(in_ring(v.nx, slot));
    assert(!in_block(x, slot, bs));
    assert forall|j: int| 0 <= j < st.len() implies !in_block(x, (#[trigger] st[j]).0, bs) by {
        assert(st[j].0 == s[j].0);
    }
}

} // verus!

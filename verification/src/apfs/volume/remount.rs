//! What a later mount of a changed volume comes to.

use crate::apfs::btree::node::{node_outcome, NodeView};
use crate::apfs::checkpoint::{better_mapping, newest_mapping, ring_map};
use crate::apfs::error::Fault;
use crate::apfs::fletcher::{intact, law_sealed_is_intact};
use crate::apfs::object::{block_outcome, header_of, HeaderView, OBJECT_TYPE_NX_SUPERBLOCK};
use crate::apfs::omap::{omap_outcome, omap_tree_root};
use crate::apfs::superblock::{
    first_nx, law_latest_nx_is_newest, newest_nx, nx_outcome, ring_nx, NxView, NX_PROBE,
};
use crate::apfs::transaction::{
    in_ring, law_rotation_publishes_newer_superblock, next_commit_xid, next_nx, stamped,
};
use crate::apfs::volume::commit::{
    lemma_commit, lemma_commit_disk, lemma_held, lemma_landed, lemma_stamped_blocks,
    lemma_touched_good, next_slot, nx_sound, spot_ok, tree_after, tree_with,
};
use crate::apfs::volume::data::metadata_kept;
use crate::apfs::volume::effects::no_metadata;
use crate::apfs::volume::frame::{leaf_count, lemma_omap_frame, omap_within, same_blocks};
use crate::apfs::volume::leaves::{ascending, blocks_from, held_leaf};
use crate::apfs::volume::state::{
    first_volume, mount_outcome, open_outcome, volume_superblock, VolumeView,
};
use crate::apfs::volume::tree::{ordered, Tree};
use vstd::prelude::*;

verus! {

/// Whether a block is kept by a commit to a volume: it is one of these or in
/// the checkpoint rings, and not where the next superblock goes.
pub open spec fn stays(v: VolumeView, m: Set<u64>, q: u64) -> bool {
    q != next_slot(v.nx) && (m.contains(q) || in_ring(v.nx, q))
}

/// Whether a block is as it was, or an intact leaf.
pub open spec fn leaf_kept(v: VolumeView, w: VolumeView, q: u64) -> bool {
    block_outcome(w.disk, q, v.block_size) == block_outcome(v.disk, q, v.block_size) || (
    block_outcome(w.disk, q, v.block_size) matches Ok(b) && intact(b) && (node_outcome(
        b,
    ) matches Ok(n) && n.is_leaf()))
}

/// Whether the superblock of `w` is the one after that of `v`, and stands
/// where the next superblock of `v` goes.
pub open spec fn renewed(v: VolumeView, w: VolumeView) -> bool {
    &&& ring_nx(w.disk, v.nx, v.nx.xp_desc_next as int) == Some(w.nx)
    &&& w.nx == (NxView {
        header: HeaderView { checksum: w.nx.header.checksum, ..next_nx(v.nx).header },
        ..next_nx(v.nx)
    })
    &&& w.nx.header.xid > v.nx.header.xid
}

/// Whether a volume `w` with catalog `u` came from a volume `v` with catalog
/// `t` by at most one commit: leaves were rewritten and a superblock was
/// published, or neither, and other metadata stayed.
pub open spec fn follows(v: VolumeView, t: Tree, w: VolumeView, u: Tree, m: Set<u64>) -> bool {
    &&& w.disk.len() == v.disk.len()
    &&& w.block_size == v.block_size
    &&& w.omap_root == v.omap_root
    &&& w.catalog_root == v.catalog_root
    &&& w.spaceman_paddr == v.spaceman_paddr
    &&& w.case_insensitive == v.case_insensitive
    &&& forall|q: u64|
        stays(v, m, q) ==> #[trigger] block_outcome(w.disk, q, v.block_size) == block_outcome(
            v.disk,
            q,
            v.block_size,
        )
    &&& forall|q: u64| leaf_count(t, q) > 0 ==> #[trigger] leaf_kept(v, w, q)
    &&& forall|q: u64| #[trigger] leaf_count(u, q) == leaf_count(t, q)
    &&& renewed(v, w) || (w.nx == v.nx && block_outcome(w.disk, next_slot(v.nx), v.block_size)
        == block_outcome(v.disk, next_slot(v.nx), v.block_size))
}

/// A commit is one step.
pub proof fn lemma_commit_follows(v: VolumeView, t: Tree, m: Set<u64>, s: Seq<(u64, NodeView)>)
    requires
        v.sound(t, m),
        ascending(s),
        forall|i: int| 0 <= i < s.len() ==> leaf_count(t, (#[trigger] s[i]).0) > 0,
        ordered(tree_with(t, s), None, None),
        v.commit(s).0 is Ok,
    ensures
        follows(v, t, v.commit(s).1, tree_after(t, s, v.nx), m),
{
    let w = v.commit(s).1;
    let xid = next_commit_xid(v.nx) as u64;
    let slot = next_slot(v.nx);
    lemma_commit(v, t, m, s);
    assert forall|i: int| 0 <= i < s.len() implies !in_ring(v.nx, (#[trigger] s[i]).0) by {
        assert(spot_ok(t, m, v.nx, s[i].0));
    }
    lemma_commit_disk(v, s);
    assert(in_ring(v.nx, slot));
    assert forall|q: u64| stays(v, m, q) implies #[trigger] block_outcome(
        w.disk,
        q,
        v.block_size,
    ) == block_outcome(v.disk, q, v.block_size) by {
        assert(spot_ok(t, m, v.nx, q));
        if held_leaf(s, q) is Some {
            let i = lemma_held(s, q);
        }
    }
    assert forall|q: u64| leaf_count(t, q) > 0 implies #[trigger] leaf_kept(v, w, q) by {
        assert(spot_ok(t, m, v.nx, q));
        if held_leaf(s, q) is Some {
            let i = lemma_held(s, q);
            lemma_touched_good(t, s, i);
            lemma_landed(s[i].1, xid);
            let b = stamped(s[i].1.serialize().0->Ok_0, xid);
            law_sealed_is_intact(b);
        }
    }
    lemma_commit_renews(v, s);
}

proof fn lemma_commit_renews(v: VolumeView, s: Seq<(u64, NodeView)>)
    requires
        nx_sound(v.nx),
        v.nx.block_size == v.block_size,
        ascending(s),
        forall|i: int| 0 <= i < s.len() ==> !in_ring(v.nx, (#[trigger] s[i]).0),
        v.commit(s).0 is Ok,
    ensures
        renewed(v, v.commit(s).1),
{
    let b = blocks_from(s, v.block_size, 0)->Ok_0;
    lemma_stamped_blocks(s, v.block_size, v.nx, next_commit_xid(v.nx) as u64);
    law_rotation_publishes_newer_superblock(v.disk, b, v.block_size as u64, v.nx);
}

/// A change of data alone is one step.
pub proof fn lemma_data_follows(v: VolumeView, e: Seq<u8>, t: Tree, m: Set<u64>)
    requires
        v.sound(t, m),
        metadata_kept(v, e, t, m),
    ensures
        follows(v, t, VolumeView { disk: e, ..v }, t, m),
{
    let w = VolumeView { disk: e, ..v };
    assert forall|q: u64| stays(v, m, q) implies #[trigger] block_outcome(
        w.disk,
        q,
        v.block_size,
    ) == block_outcome(v.disk, q, v.block_size) by {
        assert(!no_metadata(t, m, v.nx, q));
    }
    assert forall|q: u64| leaf_count(t, q) > 0 implies #[trigger] leaf_kept(v, w, q) by {
        assert(!no_metadata(t, m, v.nx, q));
    }
    let slot = next_slot(v.nx);
    assert(in_ring(v.nx, slot));
    assert(!no_metadata(t, m, v.nx, slot));
}

/// A change of data, or of what is not on the device, and then a commit is one
/// step.
pub proof fn lemma_data_then(
    v: VolumeView,
    x: VolumeView,
    w: VolumeView,
    t: Tree,
    u: Tree,
    m: Set<u64>,
)
    requires
        v.sound(t, m),
        metadata_kept(v, x.disk, t, m),
        x == (VolumeView { disk: x.disk, space: x.space, next_obj_id: x.next_obj_id, ..v }),
        follows(x, t, w, u, m),
    ensures
        follows(v, t, w, u, m),
{
    assert forall|q: u64| stays(v, m, q) implies #[trigger] block_outcome(
        w.disk,
        q,
        v.block_size,
    ) == block_outcome(v.disk, q, v.block_size) by {
        assert(stays(x, m, q));
        assert(!no_metadata(t, m, v.nx, q));
        assert(block_outcome(x.disk, q, v.block_size) == block_outcome(v.disk, q, v.block_size));
    }
    assert forall|q: u64| leaf_count(t, q) > 0 implies #[trigger] leaf_kept(v, w, q) by {
        assert(!no_metadata(t, m, v.nx, q));
        assert(leaf_kept(x, w, q));
        assert(block_outcome(x.disk, q, v.block_size) == block_outcome(v.disk, q, v.block_size));
    }
    let slot = next_slot(v.nx);
    assert(in_ring(v.nx, slot));
    assert(!no_metadata(t, m, v.nx, slot));
    assert(block_outcome(x.disk, slot, v.block_size) == block_outcome(
        v.disk,
        slot,
        v.block_size,
    ));
}

/// Whether the front of the device, where the first superblock is looked for,
/// lies in these blocks.
pub open spec fn front_within(disk: Seq<u8>, block_size: u32, m: Set<u64>) -> bool {
    &&& m.contains(0)
    &&& forall|q: u64|
        q * block_size < NX_PROBE ==> m.contains(q) && #[trigger] block_outcome(
            disk,
            q,
            block_size,
        ) is Ok
}

/// Whether a block lies in the ring of checkpoint data, and not in that of the
/// descriptors.
pub open spec fn in_data_ring(nx: NxView, p: u64) -> bool {
    in_ring(nx, p) && !(nx.xp_desc_base <= p < nx.xp_desc_base + nx.xp_desc_blocks)
}

/// Whether what a mount with this superblock reads outside the rings lies in
/// these blocks.
pub open spec fn mount_within(disk: Seq<u8>, nx: NxView, spaceman_paddr: u64, m: Set<u64>) -> bool {
    let bs = nx.block_size;
    &&& m.contains(nx.omap_oid)
    &&& m.contains(spaceman_paddr) || in_data_ring(nx, spaceman_paddr)
    &&& omap_tree_root(disk, nx.omap_oid, bs) matches Ok(root)
    &&& first_volume(nx.fs_oids, 0) matches Some(oid)
    &&& omap_within(disk, root, bs, oid, m)
    &&& omap_outcome(disk, root, bs, oid) matches Ok(p)
    &&& m.contains(p)
    &&& volume_superblock(disk, nx) matches Ok(vol)
    &&& m.contains(vol.omap_oid)
    &&& omap_tree_root(disk, vol.omap_oid, bs) matches Ok(omap_root)
    &&& omap_within(disk, omap_root, bs, vol.root_tree_oid, m)
}

/// Whether a search of the device of `v` comes to its superblock, by way of
/// the first one and the ring, and the first one lies in these blocks.
pub open spec fn rooted(v: VolumeView, m: Set<u64>) -> bool {
    &&& first_nx(v.disk) matches Ok(seed)
    &&& seed.block_size == v.block_size
    &&& seed.xp_desc_base == v.nx.xp_desc_base
    &&& seed.xp_desc_blocks == v.nx.xp_desc_blocks
    &&& newest_nx(v.disk, seed, 0, seed) == v.nx
    &&& front_within(v.disk, v.block_size, m)
}

/// Whether a mount of the device of `v` comes to this volume, and reads none
/// but these blocks and the rings.
pub open spec fn mounted(v: VolumeView, m: Set<u64>) -> bool {
    &&& rooted(v, m)
    &&& mount_within(v.disk, v.nx, v.spaceman_paddr, m)
    &&& mount_outcome(v.disk, v.nx) matches Ok(x)
    &&& x.omap_root == v.omap_root
    &&& x.catalog_root == v.catalog_root
    &&& x.spaceman_paddr == v.spaceman_paddr
    &&& x.case_insensitive == v.case_insensitive
}

/// The newest mapping of `oid` among `best` and the ring slots from `i` on, with
/// one slot passed over.
pub open spec fn mapping_beside(
    disk: Seq<u8>,
    nx: NxView,
    oid: u64,
    slot: u32,
    i: int,
    best: Option<(u64, u64)>,
) -> Option<(u64, u64)>
    decreases nx.xp_desc_blocks - i,
{
    if i >= nx.xp_desc_blocks {
        best
    } else {
        mapping_beside(
            disk,
            nx,
            oid,
            slot,
            i + 1,
            if i == slot {
                best
            } else {
                better_mapping(ring_map(disk, nx, i), oid, best)
            },
        )
    }
}

/// Whether the checkpoint maps lead to the space manager for the next superblock
/// too, without what is in its slot now. A commit that overwrites the only map
/// that leads there leaves a container that cannot be mounted any more.
pub open spec fn slot_spare(v: VolumeView) -> bool {
    mapping_beside(
        v.disk,
        next_nx(v.nx),
        v.nx.spaceman_oid,
        v.nx.xp_desc_next,
        0,
        None,
    ) matches Some((_, p)) && p == v.spaceman_paddr
}

/// The front of the device is the same on both when the blocks are.
proof fn lemma_front(d: Seq<u8>, e: Seq<u8>, block_size: u32, m: Set<u64>)
    requires
        d.len() == e.len(),
        block_size > 0,
        front_within(d, block_size, m),
        same_blocks(d, e, block_size, m),
        first_nx(d) matches Ok(seed) && seed.block_size == block_size,
    ensures
        first_nx(e) == first_nx(d),
        front_within(e, block_size, m),
{
    let probe = d.subrange(0, NX_PROBE as int);
    let bs = block_size as int;
    assert forall|x: int| 0 <= x < NX_PROBE implies #[trigger] e[x] == d[x] by {
        let b = x / bs;
        vstd::arithmetic::div_mod::lemma_fundamental_div_mod(x, bs);
        assert(b * bs == bs * b) by (nonlinear_arith);
        assert(0 <= b <= x) by (nonlinear_arith)
            requires
                b == x / bs,
                bs > 0,
                x >= 0,
        ;
        let q = b as u64;
        let k = x - b * bs;
        assert(q * block_size < NX_PROBE);
        assert(block_outcome(d, q, block_size) is Ok);
        let y = block_outcome(d, q, block_size)->Ok_0;
        assert(y[k] == d[x]);
        assert(block_outcome(e, q, block_size)->Ok_0[k] == e[x]);
    }
    assert(e.subrange(0, NX_PROBE as int) =~= probe);
    assert(block_outcome(e, 0, block_size) == block_outcome(d, 0, block_size));
    let sb = nx_outcome(probe)->Ok_0;
    if sb.block_size != NX_PROBE {
        let b = block_outcome(d, 0, sb.block_size)->Ok_0;
        assert(b.subrange(36, 40) =~= probe.subrange(36, 40));
    }
    assert(sb.block_size == block_size);
    assert forall|q: u64| q * block_size < NX_PROBE implies m.contains(q)
        && #[trigger] block_outcome(e, q, block_size) is Ok by {
        assert(block_outcome(d, q, block_size) is Ok);
    }
}

/// A superblock that no slot surpasses stays the newest.
proof fn lemma_newest_stays(d: Seq<u8>, seed: NxView, at: int, best: NxView)
    requires
        forall|i: int|
            at <= i < seed.xp_desc_blocks ==> (#[trigger] ring_nx(d, seed, i) matches Some(sb)
                ==> sb.header.xid <= best.header.xid),
    ensures
        newest_nx(d, seed, at, best) == best,
    decreases seed.xp_desc_blocks - at,
{
    if at < seed.xp_desc_blocks {
        let here = ring_nx(d, seed, at);
        lemma_newest_stays(d, seed, at + 1, best);
    }
}

/// A superblock that is newer than all others is found to be the newest.
proof fn lemma_newest_found(d: Seq<u8>, seed: NxView, at: int, best: NxView, k: int, x: NxView)
    requires
        at <= k < seed.xp_desc_blocks,
        ring_nx(d, seed, k) == Some(x),
        best.header.xid < x.header.xid,
        forall|i: int|
            at <= i < seed.xp_desc_blocks && i != k ==> (#[trigger] ring_nx(
                d,
                seed,
                i,
            ) matches Some(sb) ==> sb.header.xid < x.header.xid),
    ensures
        newest_nx(d, seed, at, best) == x,
    decreases seed.xp_desc_blocks - at,
{
    let here = ring_nx(d, seed, at);
    if at == k {
        lemma_newest_stays(d, seed, at + 1, x);
    } else {
        let next = match here {
            Some(sb) => if sb.header.xid > best.header.xid {
                sb
            } else {
                best
            },
            None => best,
        };
        lemma_newest_found(d, seed, at + 1, next, k, x);
    }
}

/// Rings with the same superblocks have the same newest one.
proof fn lemma_newest_same(d: Seq<u8>, e: Seq<u8>, seed: NxView, at: int, best: NxView)
    requires
        forall|i: int|
            at <= i < seed.xp_desc_blocks ==> #[trigger] ring_nx(e, seed, i) == ring_nx(
                d,
                seed,
                i,
            ),
    ensures
        newest_nx(e, seed, at, best) == newest_nx(d, seed, at, best),
    decreases seed.xp_desc_blocks - at,
{
    if at < seed.xp_desc_blocks {
        let here = ring_nx(e, seed, at);
        let next = match here {
            Some(sb) => if sb.header.xid > best.header.xid {
                sb
            } else {
                best
            },
            None => best,
        };
        lemma_newest_same(d, e, seed, at + 1, next);
    }
}

/// A slot of the ring other than that of the next superblock is kept.
proof fn lemma_ring_slot(v: VolumeView, t: Tree, w: VolumeView, u: Tree, m: Set<u64>, i: int)
    requires
        nx_sound(v.nx),
        v.nx.block_size == v.block_size,
        follows(v, t, w, u, m),
        0 <= i < v.nx.xp_desc_blocks,
        i != v.nx.xp_desc_next,
    ensures
        block_outcome(w.disk, (v.nx.xp_desc_base + i) as u64, v.block_size) == block_outcome(
            v.disk,
            (v.nx.xp_desc_base + i) as u64,
            v.block_size,
        ),
{
    let q = (v.nx.xp_desc_base + i) as u64;
    assert(stays(v, m, q));
}

/// A step leads to the superblock that a search of the ring comes to.
proof fn lemma_newest_after(v: VolumeView, t: Tree, w: VolumeView, u: Tree, m: Set<u64>, seed: NxView)
    requires
        nx_sound(v.nx),
        v.nx.block_size == v.block_size,
        follows(v, t, w, u, m),
        seed.block_size == v.block_size,
        seed.xp_desc_base == v.nx.xp_desc_base,
        seed.xp_desc_blocks == v.nx.xp_desc_blocks,
        newest_nx(v.disk, seed, 0, seed) == v.nx,
    ensures
        newest_nx(w.disk, seed, 0, seed) == w.nx,
{
    let k = v.nx.xp_desc_next as int;
    assert forall|i: int| 0 <= i < seed.xp_desc_blocks && i != k implies #[trigger] ring_nx(
        w.disk,
        seed,
        i,
    ) == ring_nx(v.disk, seed, i) by {
        lemma_ring_slot(v, t, w, u, m, i);
    }
    if renewed(v, w) {
        assert(ring_nx(w.disk, seed, k) == Some(w.nx));
        law_latest_nx_is_newest(v.disk, seed, k);
        assert forall|i: int| 0 <= i < seed.xp_desc_blocks && i != k implies (#[trigger] ring_nx(
            w.disk,
            seed,
            i,
        ) matches Some(sb) ==> sb.header.xid < w.nx.header.xid) by {
            law_latest_nx_is_newest(v.disk, seed, i);
        }
        lemma_newest_found(w.disk, seed, 0, seed, k, w.nx);
    } else {
        assert(ring_nx(w.disk, seed, k) == ring_nx(v.disk, seed, k));
        lemma_newest_same(v.disk, w.disk, seed, 0, seed);
    }
}

/// The checkpoint map in a slot of the ring after a step.
proof fn lemma_ring_map(v: VolumeView, t: Tree, w: VolumeView, u: Tree, m: Set<u64>, i: int)
    requires
        nx_sound(v.nx),
        v.nx.block_size == v.block_size,
        follows(v, t, w, u, m),
        0 <= i < v.nx.xp_desc_blocks,
    ensures
        renewed(v, w) ==> ring_map(w.disk, w.nx, i) == if i == v.nx.xp_desc_next {
            None
        } else {
            ring_map(v.disk, next_nx(v.nx), i)
        },
        !renewed(v, w) ==> ring_map(w.disk, w.nx, i) == ring_map(v.disk, v.nx, i),
{
    if i == v.nx.xp_desc_next {
        if renewed(v, w) {
            assert(ring_nx(w.disk, v.nx, i) == Some(w.nx));
            let q = (v.nx.xp_desc_base + i) as u64;
            let b = block_outcome(w.disk, q, v.block_size)->Ok_0;
            assert(nx_outcome(b) is Ok);
            assert(header_of(b).object_type() == OBJECT_TYPE_NX_SUPERBLOCK);
        }
    } else {
        lemma_ring_slot(v, t, w, u, m, i);
    }
}

/// The newest mapping of the space manager after a step: where a superblock was
/// published, what was in its slot counts no more.
proof fn lemma_mapping_after(
    v: VolumeView,
    t: Tree,
    w: VolumeView,
    u: Tree,
    m: Set<u64>,
    at: int,
    best: Option<(u64, u64)>,
)
    requires
        nx_sound(v.nx),
        v.nx.block_size == v.block_size,
        follows(v, t, w, u, m),
        0 <= at,
    ensures
        newest_mapping(w.disk, w.nx, v.nx.spaceman_oid, at, best) == if renewed(v, w) {
            mapping_beside(
                v.disk,
                next_nx(v.nx),
                v.nx.spaceman_oid,
                v.nx.xp_desc_next,
                at,
                best,
            )
        } else {
            newest_mapping(v.disk, v.nx, v.nx.spaceman_oid, at, best)
        },
    decreases v.nx.xp_desc_blocks - at,
{
    assert(w.nx.xp_desc_blocks == v.nx.xp_desc_blocks);
    if at < v.nx.xp_desc_blocks {
        lemma_ring_map(v, t, w, u, m, at);
        let oid = v.nx.spaceman_oid;
        let next = better_mapping(ring_map(w.disk, w.nx, at), oid, best);
        lemma_mapping_after(v, t, w, u, m, at + 1, next);
    }
}

/// A step leaves these blocks alone.
pub proof fn lemma_kept_blocks(v: VolumeView, t: Tree, w: VolumeView, u: Tree, m: Set<u64>)
    requires
        v.sound(t, m),
        follows(v, t, w, u, m),
    ensures
        same_blocks(v.disk, w.disk, v.block_size, m),
{
    assert forall|q: u64| m.contains(q) implies #[trigger] block_outcome(v.disk, q, v.block_size)
        == block_outcome(w.disk, q, v.block_size) by {
        assert(spot_ok(t, m, v.nx, q));
        assert(in_ring(v.nx, next_slot(v.nx)));
        assert(stays(v, m, q));
        assert(block_outcome(w.disk, q, v.block_size) == block_outcome(
            v.disk,
            q,
            v.block_size,
        ));
    }
}

/// A step leads to a superblock that a search of the device comes to.
pub proof fn lemma_rooted_after(v: VolumeView, t: Tree, w: VolumeView, u: Tree, m: Set<u64>)
    requires
        v.sound(t, m),
        follows(v, t, w, u, m),
        rooted(v, m),
    ensures
        rooted(w, m),
        first_nx(w.disk) == first_nx(v.disk),
{
    let seed = first_nx(v.disk)->Ok_0;
    lemma_kept_blocks(v, t, w, u, m);
    lemma_front(v.disk, w.disk, v.block_size, m);
    lemma_newest_after(v, t, w, u, m, seed);
}

/// What the mount with the superblock of `w` comes to.
proof fn lemma_mount_after(v: VolumeView, t: Tree, w: VolumeView, u: Tree, m: Set<u64>)
    requires
        v.sound(t, m),
        follows(v, t, w, u, m),
        mounted(v, m),
        renewed(v, w) ==> slot_spare(v),
    ensures
        mount_outcome(v.disk, v.nx) matches Ok(x) && mount_outcome(w.disk, w.nx) == Ok::<
            VolumeView,
            Fault,
        >(VolumeView { disk: w.disk, nx: w.nx, ..x }),
        mount_within(w.disk, w.nx, w.spaceman_paddr, m),
{
    let bs = v.block_size;
    lemma_kept_blocks(v, t, w, u, m);
    let root = omap_tree_root(v.disk, v.nx.omap_oid, bs)->Ok_0;
    let oid = first_volume(v.nx.fs_oids, 0)->0;
    let vol = volume_superblock(v.disk, v.nx)->Ok_0;
    let p = omap_outcome(v.disk, root, bs, oid)->Ok_0;
    assert(block_outcome(w.disk, v.nx.omap_oid, bs) == block_outcome(v.disk, v.nx.omap_oid, bs));
    lemma_omap_frame(v.disk, w.disk, root, bs, oid, m);
    assert(block_outcome(w.disk, p, bs) == block_outcome(v.disk, p, bs));
    assert(volume_superblock(w.disk, w.nx) == volume_superblock(v.disk, v.nx));
    assert(block_outcome(w.disk, vol.omap_oid, bs) == block_outcome(v.disk, vol.omap_oid, bs));
    lemma_omap_frame(v.disk, w.disk, v.omap_root, bs, vol.root_tree_oid, m);
    lemma_mapping_after(v, t, w, u, m, 0, None);
    if !m.contains(v.spaceman_paddr) {
        assert(stays(v, m, v.spaceman_paddr));
    }
    assert(block_outcome(w.disk, v.spaceman_paddr, bs) == block_outcome(
        v.disk,
        v.spaceman_paddr,
        bs,
    ));
}

/// What a step left on the device is there after a later mount: the mount
/// comes to the superblock of the step, and paths, directories and files show
/// what they showed. Where the step publishes a superblock, checkpoint maps in
/// other slots have to lead to the space manager.
pub proof fn law_changes_survive_remount(
    v: VolumeView,
    t: Tree,
    w: VolumeView,
    u: Tree,
    m: Set<u64>,
)
    requires
        v.sound(t, m),
        follows(v, t, w, u, m),
        mounted(v, m),
        renewed(v, w) ==> slot_spare(v),
    ensures
        mounted(w, m),
        open_outcome(w.disk) matches Ok(x) && {
            &&& x.disk == w.disk
            &&& x.nx == w.nx
            &&& x.case_insensitive == w.case_insensitive
            &&& x.spaceman_paddr == w.spaceman_paddr
            &&& forall|path: Seq<char>| #[trigger] x.resolve(path) == w.resolve(path)
            &&& forall|path: Seq<char>| #[trigger] x.contents(path) == w.contents(path)
            &&& forall|o: u64| #[trigger] x.directory(o) == w.directory(o)
            &&& forall|o: u64| #[trigger] x.extents(o) == w.extents(o)
            &&& x.has_catalog(u) == w.has_catalog(u)
            &&& x.sound(u, m) == w.sound(u, m)
        },
{
    lemma_rooted_after(v, t, w, u, m);
    lemma_mount_after(v, t, w, u, m);
}

} // verus!

//! That files can be made longer when there is room for it.

use crate::apfs::btree::node::NodeView;
use crate::apfs::btree::records::{
    law_delete_removes_record, law_entries_are_records, law_insert_var_succeeds, records,
};
use crate::apfs::btree::search::{Found, TREE_DEPTH_LIMIT};
use crate::apfs::bytes::{bytes_u32, group_bytes_len};
use crate::apfs::catalog::edit::{
    edit_inode, extent_key, fresh_dstream, insert_record, install_dstream, key_matches,
    law_size_and_alloc_edit, no_dstream, record_entry, size_and_alloc_edit,
};
use crate::apfs::catalog::order::{key_logical, key_sign};
use crate::apfs::catalog::query::cat_rank;
use crate::apfs::catalog::records::{
    extent_bytes, extent_with, inode_outcome, inode_size, inode_value, key_head,
    law_key_head_roundtrip, mode_kind, EXTENT_LENGTH_LIMIT, FileExtentVal, InodeVal,
    INODE_FILE_TYPE, J_TYPE_DSTREAM_ID, J_TYPE_FILE_EXTENT, J_TYPE_INODE,
};
use crate::apfs::error::Fault;
use crate::apfs::extents::{lemma_total_length, sat, spans_of, total_length};
use crate::apfs::packed::KIND_UNIT;
use crate::apfs::spaceman::laws::{
    balanced, covered, law_balanced_allocation, lemma_total_nonneg, runs_apart, total,
};
use crate::apfs::volume::commit::spot_ok;
use crate::apfs::volume::data::sound_file;
use crate::apfs::volume::effects::{lemma_hit_leaf, lemma_picked_from, lemma_untouched};
use crate::apfs::volume::frame::leaf_count;
use crate::apfs::volume::grow::{blocks_short, round_up, within_first};
use crate::apfs::volume::law_append::{
    can_grow, grow_call, lemma_blocks_short, lemma_grow_writes, lemma_reserve, runs_spare, spare,
};
use crate::apfs::volume::law_grow::{
    lemma_extent_key, lemma_put_extent, lemma_put_extents, lemma_put_size, lemma_put_stream_id,
    lemma_starts_before, starts_before,
};
use crate::apfs::volume::law_remove::lemma_matching;
use crate::apfs::volume::law_success::lemma_place;
use crate::apfs::volume::laws::lemma_resolve_inode;
use crate::apfs::volume::leaves::put_leaf;
use crate::apfs::volume::model::{extents_in, inode_in, law_volume_shows_records};
use crate::apfs::volume::place::{lemma_good_sorted, lemma_key_child, lemma_key_leaf, reaches};
use crate::apfs::volume::state::VolumeView;
use crate::apfs::volume::steps::{lemma_load, lemma_put, recs_with, touched_ok};
use crate::apfs::volume::success::{
    can_commit, lemma_changed, lemma_commit_succeeds, lemma_edit_succeeds, lemma_in_leaf,
    lemma_inode_there, lemma_insert_succeeds, lemma_match, lemma_sized, lemma_still, lemma_swapped,
    no_worse, room, room_at, sized, unused,
};
use crate::apfs::volume::swap::{lemma_has_leaf, lemma_leaf_there};
use crate::apfs::volume::tree::{
    good_leaf, law_lookups_find_records, lemma_child, lemma_child_order, lemma_planted, ordered,
    picked, planted, recs, sep, upper, within, Tree,
};
use vstd::prelude::*;

verus! {

/// How many bytes of keys and values go to the leaf at `p`, by a plan from its
/// `i`-th step on. A step names a leaf, bytes and table slots.
pub open spec fn bytes_for(plan: Seq<(u64, int, int)>, i: int, p: u64) -> int
    decreases plan.len() - i,
{
    if i >= plan.len() || i < 0 {
        0
    } else {
        (if plan[i].0 == p {
            plan[i].1
        } else {
            0
        }) + bytes_for(plan, i + 1, p)
    }
}

/// How many table slots the leaf at `p` gives, by a plan from its `i`-th step
/// on.
pub open spec fn slots_for(plan: Seq<(u64, int, int)>, i: int, p: u64) -> int
    decreases plan.len() - i,
{
    if i >= plan.len() || i < 0 {
        0
    } else {
        (if plan[i].0 == p {
            plan[i].2
        } else {
            0
        }) + slots_for(plan, i + 1, p)
    }
}

/// Whether every leaf has room for what goes to it by a plan from its `i`-th
/// step on.
#[verifier::opaque]
pub open spec fn planned(
    v: VolumeView,
    s: Seq<(u64, NodeView)>,
    plan: Seq<(u64, int, int)>,
    i: int,
) -> bool {
    forall|p: u64| #[trigger]
        bytes_for(plan, i, p) > 0 ==> room_at(
            v,
            s,
            p,
            bytes_for(plan, i, p),
            slots_for(plan, i, p),
        )
}

/// Whether a plan takes bytes and slots at every step, from leaves of a
/// catalog.
pub open spec fn plan_ok(t: Tree, plan: Seq<(u64, int, int)>) -> bool {
    forall|k: int|
        0 <= k < plan.len() ==> (#[trigger] plan[k]).1 > 0 && plan[k].2 >= 0 && leaf_count(
            t,
            plan[k].0,
        ) > 0
}

proof fn lemma_for(t: Tree, plan: Seq<(u64, int, int)>, i: int, p: u64)
    requires
        plan_ok(t, plan),
        0 <= i,
    ensures
        bytes_for(plan, i, p) >= 0,
        slots_for(plan, i, p) >= 0,
        bytes_for(plan, i, p) > 0 ==> leaf_count(t, p) > 0,
        i < plan.len() && plan[i].0 == p ==> bytes_for(plan, i, p) >= plan[i].1
            && slots_for(plan, i, p) >= plan[i].2,
    decreases plan.len() - i,
{
    if i < plan.len() {
        lemma_for(t, plan, i + 1, p);
        assert(plan[i].1 > 0);
    }
}

/// A step of a plan was taken.
proof fn lemma_plan_step(
    v: VolumeView,
    t: Tree,
    s: Seq<(u64, NodeView)>,
    u: Seq<(u64, NodeView)>,
    plan: Seq<(u64, int, int)>,
    i: int,
)
    requires
        plan_ok(t, plan),
        0 <= i < plan.len(),
        planned(v, s, plan, i),
        room_at(
            v,
            u,
            plan[i].0,
            bytes_for(plan, i, plan[i].0) - plan[i].1,
            slots_for(plan, i, plan[i].0) - plan[i].2,
        ),
        forall|q: u64| q != plan[i].0 ==> #[trigger] v.load(u, q).0 == v.load(s, q).0,
    ensures
        planned(v, u, plan, i + 1),
{
    reveal(planned);
    assert forall|p: u64| #[trigger] bytes_for(plan, i + 1, p) > 0 implies room_at(
        v,
        u,
        p,
        bytes_for(plan, i + 1, p),
        slots_for(plan, i + 1, p),
    ) by {
        assert(plan[i].1 > 0);
        assert(bytes_for(plan, i, p) > 0);
    }
}

/// What is no worse has the room of a plan.
proof fn lemma_plan_still(
    v: VolumeView,
    t: Tree,
    s: Seq<(u64, NodeView)>,
    u: Seq<(u64, NodeView)>,
    plan: Seq<(u64, int, int)>,
    i: int,
)
    requires
        plan_ok(t, plan),
        0 <= i,
        planned(v, s, plan, i),
        no_worse(v, t, s, u),
    ensures
        planned(v, u, plan, i),
{
    reveal(planned);
    reveal(no_worse);
    assert forall|p: u64| #[trigger] bytes_for(plan, i, p) > 0 implies room_at(
        v,
        u,
        p,
        bytes_for(plan, i, p),
        slots_for(plan, i, p),
    ) by {
        lemma_for(t, plan, i, p);
        assert(leaf_count(t, p) > 0);
    }
}

/// The room that the next step of a plan has.
proof fn lemma_plan_room(
    v: VolumeView,
    t: Tree,
    s: Seq<(u64, NodeView)>,
    plan: Seq<(u64, int, int)>,
    i: int,
)
    requires
        plan_ok(t, plan),
        0 <= i < plan.len(),
        planned(v, s, plan, i),
    ensures
        room_at(
            v,
            s,
            plan[i].0,
            bytes_for(plan, i, plan[i].0),
            slots_for(plan, i, plan[i].0),
        ),
        bytes_for(plan, i, plan[i].0) >= plan[i].1,
        slots_for(plan, i, plan[i].0) >= plan[i].2,
{
    reveal(planned);
    lemma_for(t, plan, i, plan[i].0);
    assert(plan[i].1 > 0);
}

/// The steps of putting in extents for the runs from `i` on.
pub open spec fn extent_plan(
    v: VolumeView,
    runs: Seq<(u64, u64)>,
    i: int,
    sid: u64,
    log: int,
) -> Seq<(u64, int, int)>
    decreases runs.len() - i,
{
    if i >= runs.len() || i < 0 {
        seq![]
    } else {
        seq![(v.key_leaf(extent_key(sid, log as u64))->Ok_0, 40int, 1int)] + extent_plan(
            v,
            runs,
            i + 1,
            sid,
            log + runs[i].1 * v.block_size,
        )
    }
}

/// The steps of putting in the records of a longer file: extents for its new
/// blocks, an inode with a data stream field if it had none, and a data stream
/// record if there was none.
pub open spec fn growth_plan(
    v: VolumeView,
    oid: u64,
    inode: InodeVal,
    runs: Seq<(u64, u64)>,
    log: int,
) -> Seq<(u64, int, int)> {
    let sid = inode.private_id;
    extent_plan(v, runs, 0, sid, log) + (if inode.dstream_size is Some {
        seq![]
    } else {
        seq![(v.record_leaf(oid, J_TYPE_INODE)->Ok_0, 148int, 0int)]
    }) + (if v.record_leaf(sid, J_TYPE_DSTREAM_ID) is Ok {
        seq![]
    } else {
        seq![(v.key_leaf(key_head(sid, J_TYPE_DSTREAM_ID))->Ok_0, 12int, 1int)]
    })
}

/// A record goes in as a plan has it.
proof fn lemma_insert_planned(
    v: VolumeView,
    t: Tree,
    m: Set<u64>,
    s: Seq<(u64, NodeView)>,
    key: Seq<u8>,
    val: Seq<u8>,
    oid: u64,
    j_type: u8,
    f: spec_fn(NodeView) -> (Result<int, Fault>, NodeView),
    plan: Seq<(u64, int, int)>,
    i: int,
)
    requires
        v.sound(t, m),
        touched_ok(t, s),
        sized(v, t, s),
        plan_ok(t, plan),
        planned(v, s, plan, i),
        0 <= i < plan.len(),
        plan[i].1 == key.len() + val.len(),
        plan[i].2 == 1,
        8 <= key.len(),
        0 < val.len(),
        cat_rank(key, oid, j_type) == 0,
        unused(recs_with(t, s), oid, j_type, key),
        forall|n: NodeView| #[trigger] f(n) == insert_record(n, key, val),
    ensures
        v.change(s, plan[i].0, f).0 is Ok,
        sized(v, t, v.change(s, plan[i].0, f).1),
        planned(v, v.change(s, plan[i].0, f).1, plan, i + 1),
{
    let p = plan[i].0;
    assert(plan[i].1 > 0);
    lemma_plan_room(v, t, s, plan, i);
    lemma_insert_succeeds(
        v,
        t,
        m,
        s,
        p,
        key,
        val,
        oid,
        j_type,
        f,
        bytes_for(plan, i, p),
        slots_for(plan, i, p),
    );
    lemma_plan_step(v, t, s, v.change(s, p, f).1, plan, i);
}

/// A key behind all extents is not in use.
proof fn lemma_behind_is_unused(r: Seq<Found>, oid: u64, log: u64)
    requires
        oid < KIND_UNIT,
        starts_before(picked(r, oid, J_TYPE_FILE_EXTENT), log as int),
    ensures
        unused(r, oid, J_TYPE_FILE_EXTENT, extent_key(oid, log)),
{
    let ext = J_TYPE_FILE_EXTENT;
    lemma_extent_key(oid, log);
    assert forall|i: int| 0 <= i < picked(r, oid, ext).len() implies key_sign(
        (#[trigger] picked(r, oid, ext)[i]).0,
        extent_key(oid, log),
    ) != 0 by {
        let f = picked(r, oid, ext)[i];
        let j = lemma_picked_from(r, oid, ext, i);
        assert(key_logical(f.0) < log);
    }
}

/// Extents for runs go in as a plan has it.
#[verifier::rlimit(40)]
proof fn lemma_extents_planned(
    v: VolumeView,
    t: Tree,
    m: Set<u64>,
    s: Seq<(u64, NodeView)>,
    runs: Seq<(u64, u64)>,
    i: int,
    sid: u64,
    log: int,
    base: int,
    plan: Seq<(u64, int, int)>,
)
    requires
        v.sound(t, m),
        v.block_size > 0,
        touched_ok(t, s),
        sized(v, t, s),
        sid < KIND_UNIT,
        0 <= i <= runs.len(),
        0 <= base <= log,
        forall|k: int|
            0 <= k < runs.len() ==> (#[trigger] runs[k]).1 > 0 && runs[k].1 * v.block_size
                < EXTENT_LENGTH_LIMIT,
        i < runs.len() ==> log + runs_bytes(runs, i, v.block_size) <= u64::MAX,
        forall|l: u64| base <= l ==> reaches(t, #[trigger] extent_key(sid, l)),
        extents_in(recs_with(t, s), sid) is Ok,
        i < runs.len() ==> starts_before(
            picked(recs_with(t, s), sid, J_TYPE_FILE_EXTENT),
            log,
        ),
        plan_ok(t, plan),
        planned(v, s, plan, i),
        runs.len() <= plan.len(),
        plan.subrange(i, runs.len() as int) == extent_plan(v, runs, i, sid, log),
    ensures
        v.put_extents(s, runs, i, sid, log) matches Ok(u) && touched_ok(t, u) && sized(v, t, u)
            && planned(v, u, plan, runs.len() as int),
    decreases runs.len() - i,
{
    broadcast use group_bytes_len;

    if i < runs.len() {
        let length = runs[i].1 * v.block_size;
        assert(runs[i].1 > 0);
        assert(length > 0) by (nonlinear_arith)
            requires
                length == runs[i].1 * v.block_size,
                runs[i].1 > 0,
                v.block_size > 0,
        ;
        lemma_runs_bytes(runs, i + 1, v.block_size);
        let key = extent_key(sid, log as u64);
        let e = extent_with(length as u64, 0, runs[i].0, 0);
        let f = |n: NodeView|
            insert_record(
                n,
                extent_key(sid, log as u64),
                extent_bytes(extent_with(length as u64, 0, runs[i].0, 0)),
            );
        let rest = extent_plan(v, runs, i + 1, sid, log + length);
        let here = extent_plan(v, runs, i, sid, log);
        assert(here[0] == plan[i]);
        assert(plan.subrange(i + 1, runs.len() as int) =~= here.skip(1));
        assert(here.skip(1) =~= rest);
        let p = plan[i].0;
        lemma_extent_key(sid, log as u64);
        assert(reaches(t, key));
        assert forall|q: u64| #[trigger] leaf_count(t, q) <= 1 by {
            assert(spot_ok(t, m, v.nx, q));
        }
        lemma_key_leaf(v, t, TREE_DEPTH_LIMIT, key, None, None);
        lemma_behind_is_unused(recs_with(t, s), sid, log as u64);
        lemma_insert_planned(
            v,
            t,
            m,
            s,
            key,
            extent_bytes(e),
            sid,
            J_TYPE_FILE_EXTENT,
            f,
            plan,
            i,
        );
        lemma_put_extent(v, t, m, s, p, sid, log as u64, e, f);
        let u = v.change(s, p, f).1;
        let mid = picked(recs_with(t, u), sid, J_TYPE_FILE_EXTENT);
        assert forall|k: int| 0 <= k < mid.len() implies key_logical((#[trigger] mid[k]).0) < log
            + length by {
            assert(key_logical(mid[k].0) < log + 1);
        }
        lemma_extents_planned(v, t, m, u, runs, i + 1, sid, log + length, base, plan);
    }
}

/// The bytes of the runs from `i` on.
pub open spec fn runs_bytes(runs: Seq<(u64, u64)>, i: int, block_size: u32) -> int
    decreases runs.len() - i,
{
    if i >= runs.len() || i < 0 {
        0
    } else {
        runs[i].1 * block_size + runs_bytes(runs, i + 1, block_size)
    }
}

proof fn lemma_runs_bytes(runs: Seq<(u64, u64)>, i: int, block_size: u32)
    requires
        0 <= i,
    ensures
        runs_bytes(runs, i, block_size) >= 0,
    decreases runs.len() - i,
{
    if i < runs.len() {
        lemma_runs_bytes(runs, i + 1, block_size);
        assert(runs[i].1 * block_size >= 0) by (nonlinear_arith);
    }
}

/// A record is exchanged for one that a leaf has room for.
proof fn lemma_exchange_fits(
    n: NodeView,
    k: int,
    key: Seq<u8>,
    val: Seq<u8>,
    bytes: int,
    slots: int,
)
    requires
        good_leaf(n),
        room(n, bytes, slots),
        0 <= slots,
        0 <= k < n.toc.len(),
        0 < key.len(),
        0 < val.len(),
        key.len() + val.len() <= bytes,
    ensures
        n.delete_var(k).0 is Ok,
        n.delete_var(k).1.insert_var(k, key, val).0 is Ok,
        room(
            n.delete_var(k).1.insert_var(k, key, val).1,
            bytes - key.len() - val.len(),
            slots,
        ),
        n.delete_var(k).1.insert_var(k, key, val).1.block.len() == n.block.len(),
{
    lemma_good_sorted(n);
    law_delete_removes_record(n, k, 0, 0);
    let d = n.delete_var(k).1;
    law_insert_var_succeeds(d, k, key, val);
    assert(8 * (d.toc.len() + 1) <= u16::MAX);
}

/// The inode in a leaf is exchanged for one with a data stream field, if there
/// is room for it.
proof fn lemma_install_fits(
    n: NodeView,
    i: int,
    oid: u64,
    size: u64,
    alloced: u64,
    now: i64,
    bytes: int,
    slots: int,
)
    requires
        good_leaf(n),
        room(n, bytes, slots),
        0 <= slots,
        148 <= bytes,
        0 <= i < n.toc.len(),
        cat_rank(records(n, 0, 0)[i].0, oid, J_TYPE_INODE) == 0,
        inode_outcome(records(n, 0, 0)[i].1) is Ok,
    ensures
        install_dstream(n, oid, size, alloced, now).0 is Ok,
        room(install_dstream(n, oid, size, alloced, now).1, bytes - 148, slots),
        install_dstream(n, oid, size, alloced, now).1.block.len() == n.block.len(),
{
    broadcast use group_bytes_len;

    lemma_match(n, oid, J_TYPE_INODE, None, 0);
    assert(key_matches(records(n, 0, 0)[i].0, oid, J_TYPE_INODE, None));
    lemma_matching(n, oid, J_TYPE_INODE, None, 0);
    let k = record_entry(n, oid, J_TYPE_INODE, None)->Ok_0->0;
    law_entries_are_records(n, k, 0, 0);
    law_entries_are_records(n, i, 0, 0);
    if k != i {
        let (c, d) = if k < i {
            (k, i)
        } else {
            (i, k)
        };
        lemma_good_sorted(n);
        assert(key_sign(records(n, 0, 0)[c].0, records(n, 0, 0)[d].0) < 0);
    }
    let inode = inode_outcome(n.value(k, 0)->Ok_0)->Ok_0;
    let grown = InodeVal {
        dstream_size: Some(size),
        modify_time: now,
        change_time: now,
        ..inode
    };
    let key = key_head(oid, J_TYPE_INODE);
    let val = inode_value(grown, Some(fresh_dstream(size, alloced)));
    assert(key.len() == 8);
    assert(val.len() == 140);
    lemma_exchange_fits(n, k, key, val, bytes, slots);
}

/// The inode of a file is exchanged for one with a data stream field, as a plan
/// has it.
proof fn lemma_install_planned(
    v: VolumeView,
    t: Tree,
    m: Set<u64>,
    s: Seq<(u64, NodeView)>,
    oid: u64,
    size: u64,
    alloced: u64,
    now: i64,
    plan: Seq<(u64, int, int)>,
    i: int,
)
    requires
        v.sound(t, m),
        touched_ok(t, s),
        sized(v, t, s),
        plan_ok(t, plan),
        planned(v, s, plan, i),
        0 <= i < plan.len(),
        plan[i].1 == 148,
        plan[i].2 == 0,
        picked(recs_with(t, s), oid, J_TYPE_INODE).len() > 0,
        ({
            let was = picked(recs_with(t, s), oid, J_TYPE_INODE)[0];
            was.2 == plan[i].0 && inode_outcome(was.1) is Ok
        }),
    ensures
        v.put_stream(s, plan[i].0, oid, size, alloced, now) matches Ok(u) && sized(v, t, u)
            && planned(v, u, plan, i + 1),
{
    let p = plan[i].0;
    let bytes = bytes_for(plan, i, p);
    let slots = slots_for(plan, i, p);
    assert(plan[i].1 > 0);
    lemma_plan_room(v, t, s, plan, i);
    lemma_load(v, t, m, s, p);
    let n = v.load(s, p).0->Ok_0;
    let k = lemma_in_leaf(v, t, m, s, p, oid, J_TYPE_INODE, 0);
    lemma_install_fits(n, k, oid, size, alloced, now, bytes, slots);
    let y = install_dstream(n, oid, size, alloced, now).1;
    let (a, n0, b) = lemma_put(v, t, m, s, p, y);
    lemma_changed(v, s, p, y);
    let u = put_leaf(s, p, y);
    assert(v.put_stream(s, p, oid, size, alloced, now) == Ok::<Seq<(u64, NodeView)>, Fault>(u));
    lemma_plan_step(v, t, s, u, plan, i);
    reveal(sized);
}

/// The size of a file is put into its inode, as a plan has it.
#[verifier::rlimit(40)]
proof fn lemma_size_planned(
    v: VolumeView,
    t: Tree,
    m: Set<u64>,
    s: Seq<(u64, NodeView)>,
    oid: u64,
    inode: InodeVal,
    size: u64,
    alloced: u64,
    now: i64,
    plan: Seq<(u64, int, int)>,
    i: int,
)
    requires
        v.sound(t, m),
        touched_ok(t, s),
        sized(v, t, s),
        plan_ok(t, plan),
        planned(v, s, plan, i),
        0 <= i <= plan.len(),
        picked(recs_with(t, s), oid, J_TYPE_INODE) == picked(recs(t), oid, J_TYPE_INODE),
        inode_in(recs(t), oid) == Ok::<InodeVal, Fault>(inode),
        inode.dstream_size is None ==> i < plan.len() && plan[i] == (
            v.record_leaf(oid, J_TYPE_INODE)->Ok_0,
            148int,
            0int,
        ),
    ensures
        v.put_size(s, oid, size, alloced, now) matches Ok(u) && sized(v, t, u) && planned(
            v,
            u,
            plan,
            if inode.dstream_size is Some {
                i
            } else {
                i + 1
            },
        ),
{
    law_lookups_find_records(v, t, oid, J_TYPE_INODE);
    let was = picked(recs(t), oid, J_TYPE_INODE)[0];
    let p = was.2;
    lemma_hit_leaf(v, t, oid, J_TYPE_INODE, p);
    lemma_load(v, t, m, s, p);
    let n = v.load(s, p).0->Ok_0;
    let l = v.load(s, p).1;
    let not_a_leaf = "set_inode_dstream_size_and_alloc_in_node: target is not a leaf"@;
    let e = size_and_alloc_edit(oid, size, alloced);
    let f = |n: NodeView| edit_inode(n, oid, not_a_leaf, e);
    law_size_and_alloc_edit(was.1, oid, size, alloced);
    if inode.dstream_size is Some {
        assert(e(was.1) is Ok);
        lemma_edit_succeeds(v, t, m, s, p, oid, not_a_leaf, e, f);
        assert(f(n) == edit_inode(n, oid, not_a_leaf, e));
        let u = v.change(s, p, f).1;
        assert(v.put_size(s, oid, size, alloced, now) == Ok::<Seq<(u64, NodeView)>, Fault>(u));
        lemma_still(v, t, s, u);
        lemma_plan_still(v, t, s, u, plan, i);
    } else {
        let i0 = lemma_in_leaf(v, t, m, s, p, oid, J_TYPE_INODE, 0);
        lemma_inode_there(n, oid, 0, i0);
        law_entries_are_records(n, i0, 0, 0);
        assert(e(was.1) == Err::<Seq<u8>, Fault>(no_dstream(oid)));
        assert(edit_inode(n, oid, not_a_leaf, e).0 matches Err(Fault::BadCatalog(_)));
        assert(edit_inode(n, oid, not_a_leaf, e).1 == n);
        let (a, n0, b) = lemma_put(v, t, m, s, p, n);
        let s1 = put_leaf(s, p, n);
        assert(put_leaf(l, p, n) == s1);
        assert(touched_ok(t, s1) && recs_with(t, s1) == recs_with(t, s));
        lemma_swapped(v, t, m, s, p, n);
        lemma_still(v, t, s, s1);
        lemma_plan_still(v, t, s, s1, plan, i);
        lemma_install_planned(v, t, m, s1, oid, size, alloced, now, plan, i);
    }
}

/// A data stream record goes in where there is none, as a plan has it.
proof fn lemma_stream_planned(
    v: VolumeView,
    t: Tree,
    m: Set<u64>,
    s: Seq<(u64, NodeView)>,
    sid: u64,
    plan: Seq<(u64, int, int)>,
    i: int,
)
    requires
        v.sound(t, m),
        touched_ok(t, s),
        sized(v, t, s),
        sid < KIND_UNIT,
        plan_ok(t, plan),
        planned(v, s, plan, i),
        0 <= i <= plan.len(),
        picked(recs_with(t, s), sid, J_TYPE_DSTREAM_ID) == picked(
            recs(t),
            sid,
            J_TYPE_DSTREAM_ID,
        ),
        reaches(t, key_head(sid, J_TYPE_DSTREAM_ID)),
        v.record_leaf(sid, J_TYPE_DSTREAM_ID) is Err ==> i < plan.len() && plan[i] == (
            v.key_leaf(key_head(sid, J_TYPE_DSTREAM_ID))->Ok_0,
            12int,
            1int,
        ),
    ensures
        v.put_stream_id(s, sid) matches Ok(u) && sized(v, t, u),
{
    broadcast use group_bytes_len;

    law_lookups_find_records(v, t, sid, J_TYPE_DSTREAM_ID);
    if v.record_leaf(sid, J_TYPE_DSTREAM_ID) is Err {
        let key = key_head(sid, J_TYPE_DSTREAM_ID);
        let f = |n: NodeView|
            insert_record(n, key_head(sid, J_TYPE_DSTREAM_ID), bytes_u32(1));
        assert(key =~= key + Seq::<u8>::empty());
        law_key_head_roundtrip(sid, J_TYPE_DSTREAM_ID, Seq::<u8>::empty());
        lemma_place(v, t, m, key);
        lemma_insert_planned(
            v,
            t,
            m,
            s,
            key,
            bytes_u32(1),
            sid,
            J_TYPE_DSTREAM_ID,
            f,
            plan,
            i,
        );
    }
}

/// The steps for extents take from leaves of the catalog.
proof fn lemma_extent_plan(
    v: VolumeView,
    t: Tree,
    m: Set<u64>,
    runs: Seq<(u64, u64)>,
    i: int,
    sid: u64,
    log: int,
    base: int,
)
    requires
        v.sound(t, m),
        0 <= i <= runs.len(),
        0 <= base <= log,
        i < runs.len() ==> log + runs_bytes(runs, i, v.block_size) <= u64::MAX,
        forall|l: u64| base <= l ==> reaches(t, #[trigger] extent_key(sid, l)),
    ensures
        plan_ok(t, extent_plan(v, runs, i, sid, log)),
        extent_plan(v, runs, i, sid, log).len() == runs.len() - i,
    decreases runs.len() - i,
{
    broadcast use group_bytes_len;

    if i < runs.len() {
        lemma_runs_bytes(runs, i + 1, v.block_size);
        assert(runs[i].1 * v.block_size >= 0) by (nonlinear_arith);
        let key = extent_key(sid, log as u64);
        assert(reaches(t, key));
        assert(key.len() == 16);
        lemma_place(v, t, m, key);
        lemma_extent_plan(v, t, m, runs, i + 1, sid, log + runs[i].1 * v.block_size, base);
    }
}

/// The steps for a longer file take from leaves of the catalog.
proof fn lemma_growth_plan(
    v: VolumeView,
    t: Tree,
    m: Set<u64>,
    oid: u64,
    inode: InodeVal,
    runs: Seq<(u64, u64)>,
    log: int,
)
    requires
        v.sound(t, m),
        inode_in(recs(t), oid) is Ok,
        0 <= log,
        runs.len() > 0 ==> log + runs_bytes(runs, 0, v.block_size) <= u64::MAX,
        forall|l: u64| log <= l ==> reaches(t, #[trigger] extent_key(inode.private_id, l)),
        reaches(t, key_head(inode.private_id, J_TYPE_DSTREAM_ID)),
    ensures
        plan_ok(t, growth_plan(v, oid, inode, runs, log)),
{
    broadcast use group_bytes_len;

    let sid = inode.private_id;
    let plan = growth_plan(v, oid, inode, runs, log);
    let part = extent_plan(v, runs, 0, sid, log);
    lemma_extent_plan(v, t, m, runs, 0, sid, log, log);
    law_lookups_find_records(v, t, oid, J_TYPE_INODE);
    lemma_hit_leaf(v, t, oid, J_TYPE_INODE, v.record_leaf(oid, J_TYPE_INODE)->Ok_0);
    let key = key_head(sid, J_TYPE_DSTREAM_ID);
    assert(key.len() == 8);
    lemma_place(v, t, m, key);
    assert forall|k: int| 0 <= k < plan.len() implies (#[trigger] plan[k]).1 > 0 && plan[k].2 >= 0
        && leaf_count(t, plan[k].0) > 0 by {
        if k < part.len() {
            assert(plan[k] == part[k]);
        }
    }
}

/// The records of a longer file go in where there is room for them.
#[verifier::rlimit(40)]
proof fn lemma_grown_succeeds(
    v: VolumeView,
    t: Tree,
    m: Set<u64>,
    oid: u64,
    inode: InodeVal,
    runs: Seq<(u64, u64)>,
    log: int,
    new_size: u64,
    now: i64,
)
    requires
        v.sound(t, m),
        v.block_size > 0,
        oid < KIND_UNIT,
        inode.private_id < KIND_UNIT,
        inode_in(recs(t), oid) == Ok::<InodeVal, Fault>(inode),
        0 <= log,
        forall|k: int|
            0 <= k < runs.len() ==> (#[trigger] runs[k]).1 > 0 && runs[k].1 * v.block_size
                < EXTENT_LENGTH_LIMIT,
        runs.len() > 0 ==> log + runs_bytes(runs, 0, v.block_size) <= u64::MAX,
        forall|l: u64| log <= l ==> reaches(t, #[trigger] extent_key(inode.private_id, l)),
        reaches(t, key_head(inode.private_id, J_TYPE_DSTREAM_ID)),
        extents_in(recs(t), inode.private_id) is Ok,
        runs.len() > 0 ==> starts_before(
            picked(recs(t), inode.private_id, J_TYPE_FILE_EXTENT),
            log,
        ),
        planned(v, seq![], growth_plan(v, oid, inode, runs, log), 0),
    ensures
        v.grown(oid, inode.private_id, runs, log, new_size, now) matches Ok(s) && touched_ok(t, s)
            && sized(v, t, s),
{
    broadcast use group_bytes_len;

    let sid = inode.private_id;
    let plan = growth_plan(v, oid, inode, runs, log);
    let part = extent_plan(v, runs, 0, sid, log);
    let none: Seq<(u64, NodeView)> = seq![];
    let alloced = round_up(new_size, v.block_size) as u64;
    lemma_untouched(v, t, m);
    lemma_sized(v, t, m);
    lemma_extent_plan(v, t, m, runs, 0, sid, log, log);
    lemma_growth_plan(v, t, m, oid, inode, runs, log);
    law_lookups_find_records(v, t, oid, J_TYPE_INODE);
    law_lookups_find_records(v, t, sid, J_TYPE_DSTREAM_ID);
    assert(plan.subrange(0, runs.len() as int) =~= part);
    lemma_extents_planned(v, t, m, none, runs, 0, sid, log, log, plan);
    let s1 = v.put_extents(none, runs, 0, sid, log)->Ok_0;
    lemma_put_extents(v, t, m, none, runs, 0, sid, log, log);
    let r1 = recs_with(t, s1);
    assert(picked(r1, oid, J_TYPE_INODE) == picked(recs(t), oid, J_TYPE_INODE));
    let c = runs.len() as int;
    lemma_size_planned(v, t, m, s1, oid, inode, new_size, alloced, now, plan, c);
    let s2 = v.put_size(s1, oid, new_size, alloced, now)->Ok_0;
    lemma_put_size(v, t, m, s1, oid, new_size, alloced, now);
    let r2 = recs_with(t, s2);
    assert(picked(r2, sid, J_TYPE_DSTREAM_ID) == picked(r1, sid, J_TYPE_DSTREAM_ID));
    assert(picked(r1, sid, J_TYPE_DSTREAM_ID) == picked(recs(t), sid, J_TYPE_DSTREAM_ID));
    let d = if inode.dstream_size is Some {
        c
    } else {
        c + 1
    };
    lemma_stream_planned(v, t, m, s2, sid, plan, d);
    lemma_put_stream_id(v, t, m, s2, sid);
}

/// The leaf for a key is the same for two volumes with the same catalog.
#[verifier::spinoff_prover]
#[verifier::rlimit(60)]
proof fn lemma_same_place(
    v: VolumeView,
    w: VolumeView,
    t: Tree,
    levels: u32,
    key: Seq<u8>,
    lo: Option<Seq<u8>>,
    hi: Option<Seq<u8>>,
)
    requires
        planted(v.disk, v.block_size, v.omap_root, t, levels),
        planted(w.disk, w.block_size, w.omap_root, t, levels),
        ordered(t, lo, hi),
        within(key, lo, hi),
        reaches(t, key),
    ensures
        w.key_leaf_from(key, t.at(), levels) == v.key_leaf_from(key, t.at(), levels),
    decreases t,
{
    lemma_planted(v.disk, v.block_size, v.omap_root, t, levels);
    lemma_planted(w.disk, w.block_size, w.omap_root, t, levels);
    if let Tree::Inner { n, kids, .. } = t {
        let c = lemma_key_child(v, t, levels, key, lo, hi);
        let d = lemma_key_child(w, t, levels, key, lo, hi);
        assert(c == d);
        lemma_child(v.disk, v.block_size, v.omap_root, t, levels, c);
        lemma_child(w.disk, w.block_size, w.omap_root, t, levels, c);
        lemma_child_order(t, lo, hi, c);
        lemma_same_place(
            v,
            w,
            kids[c],
            (levels - 1) as u32,
            key,
            Some(sep(n, c)),
            upper(n, c, hi),
        );
    }
}

/// Extents go to the same leaves for two volumes with the same catalog.
proof fn lemma_same_extent_plan(
    v: VolumeView,
    w: VolumeView,
    t: Tree,
    runs: Seq<(u64, u64)>,
    i: int,
    sid: u64,
    log: int,
    base: int,
)
    requires
        v.has_catalog(t),
        w.has_catalog(t),
        w.block_size == v.block_size,
        0 <= i <= runs.len(),
        0 <= base <= log,
        i < runs.len() ==> log + runs_bytes(runs, i, v.block_size) <= u64::MAX,
        forall|l: u64| base <= l ==> reaches(t, #[trigger] extent_key(sid, l)),
    ensures
        extent_plan(w, runs, i, sid, log) == extent_plan(v, runs, i, sid, log),
    decreases runs.len() - i,
{
    broadcast use group_bytes_len;

    if i < runs.len() {
        lemma_runs_bytes(runs, i + 1, v.block_size);
        assert(runs[i].1 * v.block_size >= 0) by (nonlinear_arith);
        let key = extent_key(sid, log as u64);
        assert(reaches(t, key));
        assert(key.len() == 16);
        lemma_same_place(v, w, t, TREE_DEPTH_LIMIT, key, None, None);
        lemma_same_extent_plan(
            v,
            w,
            t,
            runs,
            i + 1,
            sid,
            log + runs[i].1 * v.block_size,
            base,
        );
    }
}

/// A plan has its room in two volumes with the same catalog.
proof fn lemma_same_room(v: VolumeView, w: VolumeView, t: Tree, plan: Seq<(u64, int, int)>)
    requires
        v.has_catalog(t),
        w.has_catalog(t),
        plan_ok(t, plan),
        planned(v, seq![], plan, 0),
    ensures
        planned(w, seq![], plan, 0),
{
    reveal(planned);
    let none: Seq<(u64, NodeView)> = seq![];
    assert forall|p: u64| #[trigger] bytes_for(plan, 0, p) > 0 implies room_at(
        w,
        none,
        p,
        bytes_for(plan, 0, p),
        slots_for(plan, 0, p),
    ) by {
        lemma_for(t, plan, 0, p);
        let n = lemma_leaf_there(t, p);
        lemma_has_leaf(v.disk, v.block_size, v.omap_root, t, TREE_DEPTH_LIMIT, p, n);
        lemma_has_leaf(w.disk, w.block_size, w.omap_root, t, TREE_DEPTH_LIMIT, p, n);
    }
}

/// The records of a longer file go to leaves of the catalog, the same ones for
/// two volumes with the same catalog.
proof fn lemma_same_plan(
    v: VolumeView,
    w: VolumeView,
    t: Tree,
    m: Set<u64>,
    oid: u64,
    inode: InodeVal,
    runs: Seq<(u64, u64)>,
    log: int,
)
    requires
        v.sound(t, m),
        w.sound(t, m),
        w.block_size == v.block_size,
        inode_in(recs(t), oid) == Ok::<InodeVal, Fault>(inode),
        0 <= log,
        runs.len() > 0 ==> log + runs_bytes(runs, 0, v.block_size) <= u64::MAX,
        forall|l: u64| log <= l ==> reaches(t, #[trigger] extent_key(inode.private_id, l)),
        reaches(t, key_head(inode.private_id, J_TYPE_DSTREAM_ID)),
        planned(v, seq![], growth_plan(v, oid, inode, runs, log), 0),
    ensures
        planned(w, seq![], growth_plan(w, oid, inode, runs, log), 0),
{
    broadcast use group_bytes_len;

    let sid = inode.private_id;
    let plan = growth_plan(v, oid, inode, runs, log);
    lemma_same_extent_plan(v, w, t, runs, 0, sid, log, log);
    let key = key_head(sid, J_TYPE_DSTREAM_ID);
    assert(key.len() == 8);
    lemma_same_place(v, w, t, TREE_DEPTH_LIMIT, key, None, None);
    law_lookups_find_records(v, t, oid, J_TYPE_INODE);
    law_lookups_find_records(w, t, oid, J_TYPE_INODE);
    law_lookups_find_records(v, t, sid, J_TYPE_DSTREAM_ID);
    law_lookups_find_records(w, t, sid, J_TYPE_DSTREAM_ID);
    assert(growth_plan(w, oid, inode, runs, log) == plan);
    lemma_growth_plan(v, t, m, oid, inode, runs, log);
    lemma_same_room(v, w, t, plan);
}

/// The bytes of runs are those of their blocks.
proof fn lemma_runs_total(runs: Seq<(u64, u64)>, i: int, block_size: u32)
    requires
        0 <= i <= runs.len(),
    ensures
        runs_bytes(runs, i, block_size) == (total(runs, runs.len() as int) - total(runs, i))
            * block_size,
        0 <= total(runs, i) <= total(runs, runs.len() as int),
        i < runs.len() ==> runs[i].1 <= total(runs, runs.len() as int),
    decreases runs.len() - i,
{
    lemma_total_nonneg(runs, i);
    if i < runs.len() {
        lemma_runs_total(runs, i + 1, block_size);
        let a = runs[i].1 as int;
        let b = total(runs, runs.len() as int) - total(runs, i + 1);
        let c = block_size as int;
        assert(total(runs, i + 1) == total(runs, i) + a);
        assert((a + b) * c == a * c + b * c) by (nonlinear_arith);
    } else {
        assert(0 * (block_size as int) == 0);
    }
}

/// A size that is rounded up stays less than a block above.
proof fn lemma_round_up(n: u64, block_size: u32)
    requires
        block_size > 0,
    ensures
        round_up(n, block_size) < n + block_size,
{
    let bs = block_size as int;
    let q = (n + bs - 1) / bs;
    vstd::arithmetic::div_mod::lemma_fundamental_div_mod(n + bs - 1, bs);
    assert(q * bs == bs * q) by (nonlinear_arith);
}

/// Whether there is room to make a file as long as `new_size`: blocks that its
/// extents are short of, logical positions for them behind those extents, and
/// room in leaves for the records that go in.
pub open spec fn room_to_grow(v: VolumeView, oid: u64, inode: InodeVal, new_size: u64) -> bool {
    let sid = inode.private_id;
    &&& v.extents(sid) matches Ok(exts)
    &&& v.stream_end(sid) matches Ok(log)
    &&& {
        let have = sat(total_length(exts, 0));
        let blocks = blocks_short(new_size, have, v.block_size);
        let runs = v.reserve(blocks as u64).0->Ok_0;
        &&& blocks > 0 ==> (v.space_loaded() matches Ok(sp) && balanced(sp) && blocks <= sp.free())
        &&& blocks * v.block_size < EXTENT_LENGTH_LIMIT
        &&& log + blocks * v.block_size <= u64::MAX
        &&& planned(v, seq![], growth_plan(v, oid, inode, runs, log as int), 0)
    }
    &&& can_commit(v)
}

/// A file is made longer where there is room for it, when its blocks are
/// reserved.
#[verifier::rlimit(40)]
proof fn lemma_grow_into_succeeds(
    v: VolumeView,
    t: Tree,
    m: Set<u64>,
    oid: u64,
    inode: InodeVal,
    exts: Seq<FileExtentVal>,
    log: u64,
    runs: Seq<(u64, u64)>,
    new_size: u64,
    data: Option<Seq<u8>>,
    now: i64,
)
    requires
        v.sound(t, m),
        v.block_size > 0,
        v.disk.len() % (v.block_size as nat) == 0,
        v.disk.len() <= u64::MAX,
        oid < KIND_UNIT,
        inode.private_id < KIND_UNIT,
        inode_in(recs(t), oid) == Ok::<InodeVal, Fault>(inode),
        v.extents(inode.private_id) == Ok::<Seq<FileExtentVal>, Fault>(exts),
        total_length(exts, 0) <= u64::MAX,
        sound_file(v, t, m, spans_of(exts, v.block_size), 0),
        runs.len() > 0 ==> starts_before(
            picked(recs(t), inode.private_id, J_TYPE_FILE_EXTENT),
            log as int,
        ),
        forall|l: u64| log <= l ==> reaches(t, #[trigger] extent_key(inode.private_id, l)),
        reaches(t, key_head(inode.private_id, J_TYPE_DSTREAM_ID)),
        runs_apart(runs),
        runs_spare(v, t, m, spans_of(exts, v.block_size), runs),
        total(runs, runs.len() as int) * v.block_size < EXTENT_LENGTH_LIMIT,
        log + total(runs, runs.len() as int) * v.block_size <= u64::MAX,
        inode_size(inode) < new_size,
        data matches Some(d) ==> d.len() == new_size - inode_size(inode),
        planned(v, seq![], growth_plan(v, oid, inode, runs, log as int), 0),
        can_commit(v),
    ensures
        grow_call(v, runs, oid, inode, exts, log, new_size, data, now).0 is Ok,
{
    let bs = v.block_size;
    let sid = inode.private_id;
    let cur = inode_size(inode);
    let have = total_length(exts, 0);
    let all = total(runs, runs.len() as int);
    lemma_total_length(exts, 0);
    let base = within_first(cur, have as u64);
    let n = within_first(new_size, have as u64) - base;
    reveal(VolumeView::grow_into);
    let (v2, v3) = lemma_grow_writes(v, t, m, exts, runs, cur, new_size, base, n, data);
    law_volume_shows_records(v, t, seq![], sid);
    lemma_runs_total(runs, 0, bs);
    assert forall|k: int| 0 <= k < runs.len() implies (#[trigger] runs[k]).1 > 0 && runs[k].1 * bs
        < EXTENT_LENGTH_LIMIT by {
        lemma_runs_total(runs, k, bs);
        let a = runs[k].1 as int;
        let b = bs as int;
        assert(a * b <= all * b) by (nonlinear_arith)
            requires
                a <= all,
                0 <= b,
        ;
    }
    lemma_same_plan(v, v3, t, m, oid, inode, runs, log as int);
    lemma_grown_succeeds(v3, t, m, oid, inode, runs, log as int, new_size, now);
    lemma_commit_succeeds(v3, t, m, v3.grown(oid, sid, runs, log as int, new_size, now)->Ok_0);
}

/// A file is made longer where there is room for it.
#[verifier::rlimit(40)]
proof fn lemma_grow_to_succeeds(
    v: VolumeView,
    t: Tree,
    m: Set<u64>,
    oid: u64,
    inode: InodeVal,
    new_size: u64,
    data: Option<Seq<u8>>,
    now: i64,
)
    requires
        v.sound(t, m),
        can_grow(v, t, m, oid, inode),
        inode_in(recs(t), oid) == Ok::<InodeVal, Fault>(inode),
        inode_size(inode) < new_size,
        new_size + v.block_size <= u64::MAX,
        data matches Some(d) ==> d.len() == new_size - inode_size(inode),
        room_to_grow(v, oid, inode, new_size),
    ensures
        v.grow_to(oid, inode, new_size, data, now).0 is Ok,
{
    let bs = v.block_size;
    let sid = inode.private_id;
    let exts = v.extents(sid)->Ok_0;
    let spans = spans_of(exts, bs);
    let log = v.stream_end(sid)->Ok_0;
    let have = total_length(exts, 0);
    lemma_total_length(exts, 0);
    lemma_blocks_short(new_size, have as u64, bs);
    let blocks = blocks_short(new_size, have as u64, bs) as u64;
    if blocks > 0 {
        law_balanced_allocation(v.space_loaded()->Ok_0, blocks);
    }
    lemma_reserve(v, t, m, spans, blocks);
    let (taken, v1) = v.reserve(blocks);
    let runs = taken->Ok_0;
    assert(runs_spare(v1, t, m, spans, runs)) by {
        assert forall|p: u64| #[trigger] covered(runs, p as int) implies spare(
            v1,
            t,
            m,
            spans,
            p,
        ) by {
            assert(spare(v, t, m, spans, p));
        }
    }
    law_volume_shows_records(v, t, seq![], sid);
    law_volume_shows_records(v1, t, seq![], sid);
    law_lookups_find_records(v, t, sid, J_TYPE_FILE_EXTENT);
    if runs.len() > 0 {
        lemma_runs_total(runs, 0, bs);
        assert(runs[0].1 > 0);
        assert(blocks * bs > 0) by (nonlinear_arith)
            requires
                blocks > 0,
                bs > 0,
        ;
        lemma_starts_before(picked(recs(t), sid, J_TYPE_FILE_EXTENT), 0);
    }
    lemma_runs_total(runs, 0, bs);
    lemma_same_plan(v, v1, t, m, oid, inode, runs, log as int);
    lemma_grow_into_succeeds(v1, t, m, oid, inode, exts, log, runs, new_size, data, now);
    lemma_round_up(new_size, bs);
    reveal(VolumeView::grow_to);
}

/// Data is appended to a file where there is room for it.
pub proof fn law_append_succeeds(
    v: VolumeView,
    t: Tree,
    m: Set<u64>,
    path: Seq<char>,
    data: Seq<u8>,
    now: i64,
)
    requires
        v.sound(t, m),
        v.resolve(path) matches Ok((oid, inode)) && can_grow(v, t, m, oid, inode) && mode_kind(
            inode.mode,
        ) == INODE_FILE_TYPE && inode_size(inode) + data.len() + v.block_size <= u64::MAX
            && room_to_grow(v, oid, inode, (inode_size(inode) + data.len()) as u64),
    ensures
        v.append(path, data, now).0 == Ok::<u64, Fault>(data.len() as u64),
{
    let (oid, inode) = v.resolve(path)->Ok_0;
    lemma_resolve_inode(v, t, path);
    if data.len() > 0 {
        let new_size = (inode_size(inode) + data.len()) as u64;
        lemma_grow_to_succeeds(v, t, m, oid, inode, new_size, Some(data), now);
    }
}

/// A file grows where there is room for it.
pub proof fn law_grow_succeeds(
    v: VolumeView,
    t: Tree,
    m: Set<u64>,
    path: Seq<char>,
    new_size: u64,
    now: i64,
)
    requires
        v.sound(t, m),
        v.resolve(path) matches Ok((oid, inode)) && can_grow(v, t, m, oid, inode) && mode_kind(
            inode.mode,
        ) == INODE_FILE_TYPE && inode_size(inode) < new_size && room_to_grow(
            v,
            oid,
            inode,
            new_size,
        ),
        new_size + v.block_size <= u64::MAX,
    ensures
        v.grow(path, new_size, now).0 is Ok,
{
    let (oid, inode) = v.resolve(path)->Ok_0;
    lemma_resolve_inode(v, t, path);
    lemma_grow_to_succeeds(v, t, m, oid, inode, new_size, None, now);
}

} // verus!

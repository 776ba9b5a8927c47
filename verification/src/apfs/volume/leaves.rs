//! Catalog leaves that an operation changes, from the first touch to the
//! commit.

use crate::apfs::btree::BTreeNode;
use crate::apfs::btree::node::NodeView;
use crate::apfs::btree::search::{
    child_choice, found_list_view, hit_view, node_at, read_node, TREE_DEPTH_LIMIT,
};
use crate::apfs::bytes::{copy_range, group_bytes_len, splice};
use crate::apfs::catalog::order::{key_order, key_sign};
use crate::apfs::catalog::query::{find_catalog_record, scan_catalog_records};
use crate::apfs::device::{ReadAt, WriteAt};
use crate::apfs::error::{bad_btree, outcome, plain, ApfsError, Fault};
use crate::apfs::fletcher::{law_sealed_is_intact, sealed};
use crate::apfs::object::{agrees, block_outcome, read_block};
use crate::apfs::omap::{index_view, omap_lookup, omap_outcome};
use crate::apfs::superblock::{nx_outcome, NxSuperblock, NxView};
use crate::apfs::text::{msg2, text2};
use crate::apfs::transaction::{
    can_rotate, next_commit_xid, next_nx, rotate, rotated_over, slot_contents, stamp_staged,
    write_staged, Transaction,
};
use crate::apfs::volume::state::{ApfsVolume, VolumeView};
use vstd::prelude::*;

verus! {

/// Leaves by address, taken by view.
pub open spec fn leaves_view(s: Seq<(u64, BTreeNode)>) -> Seq<(u64, NodeView)> {
    s.map_values(|x: (u64, BTreeNode)| (x.0, x.1@))
}

/// Addresses stand in ascending order.
pub open spec fn ascending(s: Seq<(u64, NodeView)>) -> bool {
    forall|i: int, j: int| 0 <= i < j < s.len() ==> (#[trigger] s[i]).0 < (#[trigger] s[j]).0
}

/// The position of the first leaf from `i` on whose address is not below `p`.
pub open spec fn leaf_pos(s: Seq<(u64, NodeView)>, p: u64, i: int) -> int
    decreases s.len() - i,
{
    if i >= s.len() || i < 0 {
        s.len() as int
    } else if s[i].0 >= p {
        i
    } else {
        leaf_pos(s, p, i + 1)
    }
}

/// The leaf at `p`, if it was touched before.
pub open spec fn held_leaf(s: Seq<(u64, NodeView)>, p: u64) -> Option<NodeView> {
    let i = leaf_pos(s, p, 0);
    if i < s.len() && s[i].0 == p {
        Some(s[i].1)
    } else {
        None
    }
}

/// The leaves with `n` at `p`.
pub open spec fn put_leaf(s: Seq<(u64, NodeView)>, p: u64, n: NodeView) -> Seq<(u64, NodeView)> {
    let i = leaf_pos(s, p, 0);
    if i < s.len() && s[i].0 == p {
        s.update(i, (p, n))
    } else {
        s.insert(i, (p, n))
    }
}

pub proof fn lemma_leaf_pos(s: Seq<(u64, NodeView)>, p: u64, i: int)
    requires
        0 <= i <= s.len(),
    ensures
        i <= leaf_pos(s, p, i) <= s.len(),
        forall|k: int| i <= k < leaf_pos(s, p, i) ==> (#[trigger] s[k]).0 < p,
        leaf_pos(s, p, i) < s.len() ==> s[leaf_pos(s, p, i)].0 >= p,
    decreases s.len() - i,
{
    if i < s.len() && s[i].0 < p {
        lemma_leaf_pos(s, p, i + 1);
    }
}

/// A touched leaf is held at its place among the others.
pub proof fn lemma_put_leaf(s: Seq<(u64, NodeView)>, p: u64, n: NodeView)
    requires
        ascending(s),
    ensures
        ascending(put_leaf(s, p, n)),
        leaf_pos(put_leaf(s, p, n), p, 0) == leaf_pos(s, p, 0),
        leaf_pos(s, p, 0) < put_leaf(s, p, n).len(),
        put_leaf(s, p, n)[leaf_pos(s, p, 0)] == (p, n),
        held_leaf(put_leaf(s, p, n), p) == Some(n),
{
    lemma_leaf_pos(s, p, 0);
    let i = leaf_pos(s, p, 0);
    let t = put_leaf(s, p, n);
    if i < s.len() && s[i].0 > p {
        assert forall|k: int| i <= k < s.len() implies (#[trigger] s[k]).0 > p by {
            if k > i {
                assert(s[i].0 < s[k].0);
            }
        }
    }
    assert forall|a: int, b: int| 0 <= a < b < t.len() implies (#[trigger] t[a]).0 < (
    #[trigger] t[b]).0 by {
        if i < s.len() && s[i].0 == p {
            assert(s[a].0 < s[b].0);
        } else {
            let sa = if a < i {
                a
            } else {
                a - 1
            };
            let sb = if b < i {
                b
            } else {
                b - 1
            };
            if a != i && b != i {
                assert(t[a] == s[sa] && t[b] == s[sb]);
                assert(s[sa].0 < s[sb].0);
            }
        }
    }
    lemma_pos_at(t, p, 0, i);
}

pub proof fn lemma_pos_at(s: Seq<(u64, NodeView)>, p: u64, from: int, i: int)
    requires
        0 <= from <= i < s.len(),
        s[i].0 == p,
        ascending(s),
    ensures
        leaf_pos(s, p, from) == i,
    decreases i - from,
{
    if from < i {
        assert(s[from].0 < s[i].0);
        lemma_pos_at(s, p, from + 1, i);
    }
}

/// What is said when a record is not in the catalog.
pub open spec fn missing_record(oid: u64, j_type: u8) -> Fault {
    Fault::NotFound(
        msg2("catalog record (oid="@, oid as nat, ", type="@, j_type as nat, ") not found"@),
    )
}

/// The child that a search for the place of `target` follows: the last one
/// whose key is not above it, or the first.
pub open spec fn child_for(n: NodeView, target: Seq<u8>) -> Result<int, Fault> {
    match child_choice(n, 0, |k: Seq<u8>| key_sign(k, target), 0, None) {
        Err(e) => Err(e),
        Ok(Some(i)) => Ok(i),
        Ok(None) => Ok(0),
    }
}

/// The outcome of writing leaves back, and their blocks, from leaf `i` on.
pub open spec fn blocks_from(s: Seq<(u64, NodeView)>, block_size: u32, i: int) -> Result<
    Seq<(u64, Seq<u8>)>,
    Fault,
>
    decreases s.len() - i,
{
    if i >= s.len() || i < 0 {
        Ok(seq![])
    } else {
        match s[i].1.serialize().0 {
            Err(e) => Err(e),
            Ok(b) => if b.len() != block_size {
                Err(
                    Fault::Internal(
                        msg2(
                            "tx stage: block len "@,
                            b.len(),
                            " != block_size "@,
                            block_size as nat,
                            ""@,
                        ),
                    ),
                )
            } else {
                blocks_after(seq![(s[i].0, b)], blocks_from(s, block_size, i + 1))
            },
        }
    }
}

/// Blocks in front of what the rest gives.
pub open spec fn blocks_after(
    seen: Seq<(u64, Seq<u8>)>,
    rest: Result<Seq<(u64, Seq<u8>)>, Fault>,
) -> Result<Seq<(u64, Seq<u8>)>, Fault> {
    match rest {
        Err(e) => Err(e),
        Ok(more) => Ok(seen + more),
    }
}

impl VolumeView {
    /// The outcome of bringing the leaf at `p` among the touched ones, and the
    /// touched leaves afterwards.
    pub open spec fn load(self, s: Seq<(u64, NodeView)>, p: u64) -> (
        Result<NodeView, Fault>,
        Seq<(u64, NodeView)>,
    ) {
        match held_leaf(s, p) {
            Some(n) => (Ok(n), s),
            None => match node_at(self.disk, p, self.block_size) {
                Err(e) => (Err(e), s),
                Ok(n) => (Ok(n), put_leaf(s, p, n)),
            },
        }
    }

    /// The outcome of changing the leaf at `p` by `f`, and the touched leaves
    /// afterwards.
    pub open spec fn change(
        self,
        s: Seq<(u64, NodeView)>,
        p: u64,
        f: spec_fn(NodeView) -> (Result<int, Fault>, NodeView),
    ) -> (Result<int, Fault>, Seq<(u64, NodeView)>) {
        match self.load(s, p) {
            (Err(e), t) => (Err(e), t),
            (Ok(n), t) => (f(n).0, put_leaf(t, p, f(n).1)),
        }
    }

    /// The address of the leaf that holds the first record of `(oid, j_type)`.
    pub open spec fn record_leaf(self, oid: u64, j_type: u8) -> Result<u64, Fault> {
        match self.hit(oid, j_type) {
            Err(e) => Err(e),
            Ok(None) => Err(missing_record(oid, j_type)),
            Ok(Some((_, p))) => Ok(p),
        }
    }

    /// The address of the leaf that a key belongs in, searched from the node
    /// at `p`.
    pub open spec fn key_leaf_from(self, target: Seq<u8>, p: u64, levels: u32) -> Result<u64, Fault>
        decreases levels,
    {
        match node_at(self.disk, p, self.block_size) {
            Err(e) => Err(e),
            Ok(n) => if n.is_leaf() {
                Ok(p)
            } else if levels == 0 {
                Err(Fault::BadBTree("tree is too deep"@))
            } else {
                match child_for(n, target) {
                    Err(e) => Err(e),
                    Ok(i) => match n.child_oid(i) {
                        Err(e) => Err(e),
                        Ok(oid) => match omap_outcome(
                            self.disk,
                            self.omap_root,
                            self.block_size,
                            oid,
                        ) {
                            Err(e) => Err(e),
                            Ok(child) => self.key_leaf_from(target, child, (levels - 1) as u32),
                        },
                    },
                }
            },
        }
    }

    /// The address of the leaf that a key belongs in.
    pub open spec fn key_leaf(self, target: Seq<u8>) -> Result<u64, Fault> {
        self.key_leaf_from(target, self.catalog_root, TREE_DEPTH_LIMIT)
    }

    /// The outcome of committing the touched leaves, and the volume
    /// afterwards.
    pub open spec fn commit(self, s: Seq<(u64, NodeView)>) -> (Result<(), Fault>, VolumeView) {
        match blocks_from(s, self.block_size, 0) {
            Err(e) => (Err(e), self),
            Ok(blocks) => match rotate(self.disk, blocks, self.block_size as u64, self.nx) {
                (Err(e), d) => (Err(e), VolumeView { disk: d, ..self }),
                (Ok((_, p)), d) => match block_outcome(d, p, self.block_size) {
                    Err(e) => (Err(e), VolumeView { disk: d, ..self }),
                    Ok(b) => match nx_outcome(b) {
                        Err(e) => (Err(e), VolumeView { disk: d, ..self }),
                        Ok(nx) => (Ok(()), VolumeView { disk: d, nx, ..self }),
                    },
                },
            },
        }
    }

    /// The volume with the superblock behind `nx` published over what its slot
    /// is taken to hold.
    pub open spec fn published_over(self, nx: NxView, slot: Seq<u8>) -> VolumeView {
        let b = next_nx(nx).write_outcome(slot).1;
        VolumeView {
            disk: splice(self.disk, (nx.xp_desc_base + nx.xp_desc_next) * nx.block_size, b),
            nx: nx_outcome(b)->Ok_0,
            ..self
        }
    }

    /// The outcome of an operation that ends in a commit, when the touched
    /// leaves are or are not to be had.
    pub open spec fn finish(self, r: Result<Seq<(u64, NodeView)>, Fault>) -> (
        Result<(), Fault>,
        VolumeView,
    ) {
        match r {
            Err(e) => (Err(e), self),
            Ok(s) => self.commit(s),
        }
    }
}

/// The touched leaves, if the change succeeded.
pub open spec fn changed(r: (Result<int, Fault>, Seq<(u64, NodeView)>)) -> Result<
    Seq<(u64, NodeView)>,
    Fault,
> {
    match r.0 {
        Err(e) => Err(e),
        Ok(_) => Ok(r.1),
    }
}

/// The touched leaves after a call, if it succeeded.
pub open spec fn touched_outcome(
    r: Result<(), ApfsError>,
    touched: Seq<(u64, BTreeNode)>,
) -> Result<Seq<(u64, NodeView)>, Fault> {
    match r {
        Ok(_) => Ok(leaves_view(touched)),
        Err(e) => Err(e@),
    }
}

/// The outcome of gathering leaves, taken by view.
pub open spec fn leaves_outcome(r: Result<Vec<(u64, BTreeNode)>, ApfsError>) -> Result<
    Seq<(u64, NodeView)>,
    Fault,
> {
    match r {
        Ok(t) => Ok(leaves_view(t@)),
        Err(e) => Err(e@),
    }
}

impl<D: ReadAt> ApfsVolume<D> {
    /// Bring the leaf at `paddr` among the touched ones. Returns its position.
    pub(crate) fn load_leaf(&self, touched: &mut Vec<(u64, BTreeNode)>, paddr: u64) -> (r: Result<
        usize,
        ApfsError,
    >)
        requires
            ascending(leaves_view(old(touched)@)),
        ensures
            ascending(leaves_view(final(touched)@)),
            match r {
                Ok(i) => {
                    &&& i < final(touched)@.len()
                    &&& i == leaf_pos(leaves_view(final(touched)@), paddr, 0)
                    &&& leaves_view(final(touched)@)[i as int].0 == paddr
                    &&& self@.load(leaves_view(old(touched)@), paddr) == (
                        Ok::<NodeView, Fault>(leaves_view(final(touched)@)[i as int].1),
                        leaves_view(final(touched)@),
                    )
                },
                Err(e) => {
                    &&& final(touched)@ == old(touched)@
                    &&& agrees(
                        Err::<NodeView, Fault>(e@),
                        self@.load(leaves_view(old(touched)@), paddr).0,
                        self.dev.reliable(),
                    )
                },
            },
    {
        let ghost before = leaves_view(touched@);
        let mut i: usize = 0;
        while i < touched.len() && touched[i].0 < paddr
            invariant
                i <= touched.len(),
                touched@ == old(touched)@,
                before == leaves_view(touched@),
                leaf_pos(before, paddr, 0) == leaf_pos(before, paddr, i as int),
            decreases touched.len() - i,
        {
            assert(before[i as int].0 == touched@[i as int].0);
            i += 1;
        }
        proof {
            lemma_leaf_pos(before, paddr, 0);
            if i < touched.len() {
                assert(before[i as int].0 == touched@[i as int].0);
            }
        }
        if i < touched.len() && touched[i].0 == paddr {
            return Ok(i);
        }
        let node = read_node(&self.dev, paddr, self.block_size)?;
        proof {
            lemma_put_leaf(before, paddr, node@);
        }
        touched.insert(i, (paddr, node));
        assert(leaves_view(touched@) =~= put_leaf(before, paddr, node@));
        Ok(i)
    }

    pub(crate) fn find_record(&self, oid: u64, j_type: u8) -> (r: Result<
        Option<(Vec<u8>, u64)>,
        ApfsError,
    >)
        ensures
            agrees(
                hit_view(r),
                self@.hit(oid, j_type),
                self.dev.reliable(),
            ),
    {
        find_catalog_record(
            &self.dev,
            self.catalog_root_block,
            self.vol_omap_root_block,
            self.block_size,
            oid,
            j_type,
        )
    }

    pub(crate) fn find_records(&self, oid: u64, j_type: u8) -> (r: Result<
        Vec<(Vec<u8>, Vec<u8>, u64)>,
        ApfsError,
    >)
        ensures
            agrees(
                found_list_view(r),
                self@.hits(oid, j_type),
                self.dev.reliable(),
            ),
    {
        scan_catalog_records(
            &self.dev,
            self.catalog_root_block,
            self.vol_omap_root_block,
            self.block_size,
            oid,
            j_type,
        )
    }

    /// Locate the leaf that holds the catalog record for `(oid, j_type)`.
    pub(crate) fn locate_record_leaf(&self, oid: u64, j_type: u8) -> (r: Result<u64, ApfsError>)
        ensures
            agrees(plain(r), self@.record_leaf(oid, j_type), self.dev.reliable()),
    {
        match self.find_record(oid, j_type)? {
            Some((_, p)) => Ok(p),
            None => Err(
                ApfsError::NotFound(
                    text2(
                        "catalog record (oid=",
                        oid,
                        ", type=",
                        j_type as u64,
                        ") not found",
                    ),
                ),
            ),
        }
    }

    /// Locate the leaf that holds (or would hold) a record with the given
    /// key. Walks the catalog from its root, descending into the child whose
    /// key is the largest not above it. Used to pick the leaf for an insert.
    pub(crate) fn locate_leaf_for_key(&self, target_key: &[u8]) -> (r: Result<u64, ApfsError>)
        ensures
            agrees(plain(r), self@.key_leaf(target_key@), self.dev.reliable()),
    {
        let ghost goal = self@.key_leaf(target_key@);
        let mut paddr: u64 = self.catalog_root_block;
        let mut levels: u32 = TREE_DEPTH_LIMIT;
        loop
            invariant
                goal == self@.key_leaf(target_key@),
                goal == self@.key_leaf_from(target_key@, paddr, levels),
            decreases levels,
        {
            let node = read_node(&self.dev, paddr, self.block_size)?;
            if node.is_leaf() {
                return Ok(paddr);
            }
            if levels == 0 {
                return Err(bad_btree("tree is too deep"));
            }
            let idx: usize = choose_for_key(&node, target_key)?;
            let child_oid: u64 = node.child_oid_at(idx)?;
            paddr = omap_lookup(
                &self.dev,
                self.vol_omap_root_block,
                self.block_size,
                child_oid,
            )?;
            levels = levels - 1;
        }
    }
}

fn choose_for_key(node: &BTreeNode, target: &[u8]) -> (r: Result<usize, ApfsError>)
    ensures
        index_view(r) == child_for(node@, target@),
{
    let ghost rank = |k: Seq<u8>| key_sign(k, target@);
    let mut chosen: Option<usize> = None;
    let mut i: usize = 0;
    let count: usize = node.nkeys();
    while i < count
        invariant
            i <= count,
            count == node@.toc.len(),
            rank == (|k: Seq<u8>| key_sign(k, target@)),
            child_choice(node@, 0, rank, 0, None) == child_choice(
                node@,
                0,
                rank,
                i as int,
                match chosen {
                    Some(c) => Some(c as int),
                    None => None,
                },
            ),
        decreases count - i,
    {
        let key = node.key_at(i, 0)?;
        if key_order(key, target) > 0 {
            return Ok(first_unless(chosen));
        }
        chosen = Some(i);
        i += 1;
    }
    Ok(first_unless(chosen))
}

fn first_unless(chosen: Option<usize>) -> (i: usize)
    ensures
        i == (match chosen {
            Some(c) => c,
            None => 0,
        }),
{
    match chosen {
        Some(c) => c,
        None => 0,
    }
}

/// Stage a set of leaves into a transaction.
fn stage_leaves(touched: Vec<(u64, BTreeNode)>, block_size: u32) -> (r: Result<
    Transaction,
    ApfsError,
>)
    requires
        ascending(leaves_view(touched@)),
    ensures
        match r {
            Ok(tx) => tx.wf() && tx.block_size == block_size && blocks_from(
                leaves_view(touched@),
                block_size,
                0,
            ) == Ok::<Seq<(u64, Seq<u8>)>, Fault>(tx.staged()),
            Err(e) => blocks_from(leaves_view(touched@), block_size, 0) == Err::<
                Seq<(u64, Seq<u8>)>,
                Fault,
            >(e@),
        },
{
    let ghost leaves = leaves_view(touched@);
    let ghost goal = blocks_from(leaves, block_size, 0);
    let mut work = touched;
    let mut tx = Transaction::new(block_size as u64);
    let mut i: usize = 0;
    proof {
        if goal is Ok {
            assert(tx.staged() + goal->Ok_0 =~= goal->Ok_0);
        }
    }
    while i < work.len()
        invariant
            i <= work.len(),
            leaves == leaves_view(touched@),
            ascending(leaves),
            leaves.len() == work@.len(),
            forall|k: int|
                i <= k < work@.len() ==> #[trigger] leaf_of(work@[k]) == leaves[k],
            tx.wf(),
            tx.block_size == block_size,
            tx.staged().len() == i,
            i > 0 ==> tx.staged().last().0 == leaves[i - 1].0,
            goal == blocks_from(leaves, block_size, 0),
            goal == blocks_after(tx.staged(), blocks_from(leaves, block_size, i as int)),
        decreases work.len() - i,
    {
        assert(leaf_of(work@[i as int]) == leaves[i as int]);
        let ghost was = work@;
        let paddr: u64 = work[i].0;
        let block = leaf_bytes(&mut work[i].1)?;
        assert forall|k: int| i < k < work@.len() implies #[trigger] leaf_of(work@[k])
            == leaves[k] by {
            assert(work@[k] == was[k]);
            assert(leaf_of(was[k]) == leaves[k]);
        }
        proof {
            if i > 0 {
                assert(leaves[i - 1].0 < leaves[i as int].0);
            }
        }
        let ghost before = tx.staged();
        tx.stage(paddr, block)?;
        proof {
            lemma_blocks_step(leaves, block_size, i as int, before, paddr, block@);
        }
        i += 1;
    }
    assert(tx.staged() + Seq::<(u64, Seq<u8>)>::empty() =~= tx.staged());
    Ok(tx)
}

/// A leaf by address, taken by view.
spec fn leaf_of(x: (u64, BTreeNode)) -> (u64, NodeView) {
    (x.0, x.1@)
}

fn leaf_bytes(node: &mut BTreeNode) -> (r: Result<Vec<u8>, ApfsError>)
    ensures
        outcome(r) == old(node)@.serialize().0,
{
    let bytes = node.serialize()?;
    let copy = copy_range(bytes, 0, bytes.len());
    assert(copy@ =~= bytes@);
    Ok(copy)
}

proof fn lemma_blocks_step(
    s: Seq<(u64, NodeView)>,
    block_size: u32,
    i: int,
    seen: Seq<(u64, Seq<u8>)>,
    p: u64,
    b: Seq<u8>,
)
    requires
        0 <= i < s.len(),
        s[i].0 == p,
        s[i].1.serialize().0 == Ok::<Seq<u8>, Fault>(b),
        b.len() == block_size,
    ensures
        blocks_after(seen, blocks_from(s, block_size, i)) == blocks_after(
            seen.push((p, b)),
            blocks_from(s, block_size, i + 1),
        ),
{
    let rest = blocks_from(s, block_size, i + 1);
    if rest is Ok {
        assert(seen + (seq![(p, b)] + rest->Ok_0) =~= seen.push((p, b)) + rest->Ok_0);
    }
}

/// Whether `u` is `w` but for what the superblock that was published behind
/// `nx` kept of its slot.
#[verifier::opaque]
pub open spec fn but_for_slot(nx: NxView, w: VolumeView, u: VolumeView) -> bool {
    exists|slot: Seq<u8>|
        slot.len() == nx.block_size && u == #[trigger] w.published_over(nx, slot)
}

/// What an operation tells and what it leaves behind, as the contents of the
/// device call for. A device that is not reliable may refuse a request. Where
/// it does and the operation succeeds all the same, what was refused is a look
/// at the slot of the new superblock.
pub open spec fn comes_of<T>(
    nx: NxView,
    r: Result<T, Fault>,
    u: VolumeView,
    called_for: (Result<T, Fault>, VolumeView),
    reliable: bool,
) -> bool {
    &&& reliable ==> (r, u) == called_for
    &&& r is Ok ==> r == called_for.0 && (u == called_for.1 || but_for_slot(nx, called_for.1, u))
}

/// What a superblock is written over does not decide whether it can be read
/// back.
proof fn lemma_slot_is_free(nx: NxView, a: Seq<u8>, b: Seq<u8>)
    requires
        nx.header.checksum.len() == 8,
        a.len() == b.len(),
        nx.write_outcome(a).0 is Ok,
        nx_outcome(nx.write_outcome(a).1) is Ok,
    ensures
        nx.write_outcome(b).0 is Ok,
        nx_outcome(nx.write_outcome(b).1) is Ok,
        nx.write_outcome(a).1.len() == a.len(),
        nx.write_outcome(b).1.len() == a.len(),
{
    broadcast use group_bytes_len;

    let x = nx.body_written(a);
    let y = nx.body_written(b);
    law_sealed_is_intact(x);
    law_sealed_is_intact(y);
    let n = a.len() as int;
    let p = sealed(x);
    let q = sealed(y);
    assert(x.len() == n && y.len() == n);
    assert forall|i: int| 8 <= i < 36 implies p[i] == q[i] by {
        assert(p.subrange(8, n)[i - 8] == x.subrange(8, n)[i - 8]);
        assert(q.subrange(8, n)[i - 8] == y.subrange(8, n)[i - 8]);
        assert(x[i] == y[i]);
    }
    assert(p.subrange(24, 28) =~= q.subrange(24, 28));
    assert(p.subrange(32, 36) =~= q.subrange(32, 36));
}

/// A commit over a slot that could not be looked at is a commit but for that.
proof fn lemma_commit_over(
    v: VolumeView,
    s: Seq<(u64, NodeView)>,
    blocks: Seq<(u64, Seq<u8>)>,
    slot: Seq<u8>,
    after: Seq<u8>,
)
    requires
        blocks_from(s, v.block_size, 0) == Ok::<Seq<(u64, Seq<u8>)>, Fault>(blocks),
        v.nx.header.checksum.len() == 8,
        v.block_size == v.nx.block_size,
        v.nx.xp_desc_blocks > 0,
        can_rotate(v.nx),
        rotated_over(v.disk, blocks, v.block_size as u64, v.nx, slot, after),
        ({
            let p = (v.nx.xp_desc_base + v.nx.xp_desc_next) as u64;
            block_outcome(after, p, v.block_size) matches Ok(b) && nx_outcome(b) is Ok
        }),
    ensures
        ({
            let p = (v.nx.xp_desc_base + v.nx.xp_desc_next) as u64;
            let b = block_outcome(after, p, v.block_size)->Ok_0;
            let u = VolumeView { disk: after, nx: nx_outcome(b)->Ok_0, ..v };
            &&& v.commit(s).0 is Ok
            &&& but_for_slot(v.nx, v.commit(s).1, u)
        }),
{
    let nx = v.nx;
    let p = (nx.xp_desc_base + nx.xp_desc_next) as u64;
    let bs = v.block_size as int;
    let mid = write_staged(
        v.disk,
        stamp_staged(blocks, nx, next_commit_xid(nx) as u64),
        v.block_size as u64,
        0,
    ).1;
    let held = slot_contents(mid, p, v.block_size);
    let next = next_nx(nx);
    let a = next.write_outcome(slot).1;
    let c = next.write_outcome(held).1;
    let at = p * v.block_size;
    assert(at >= 0) by (nonlinear_arith)
        requires
            at == p * v.block_size,
    ;
    assert(block_outcome(after, p, v.block_size)->Ok_0 =~= a);
    lemma_slot_is_free(next, slot, held);
    let w = v.commit(s).1;
    let d = splice(mid, at, c);
    assert(block_outcome(d, p, v.block_size)->Ok_0 =~= c);
    assert(w.disk == d);
    assert(splice(d, at, a) =~= after);
    let u = VolumeView { disk: after, nx: nx_outcome(a)->Ok_0, ..v };
    assert(u =~= w.published_over(nx, slot));
    reveal(but_for_slot);
}

impl<D: WriteAt> ApfsVolume<D> {
    /// Stage a set of leaves into a transaction and commit through NXSB
    /// rotation.
    pub(crate) fn commit_leaves(&mut self, touched: Vec<(u64, BTreeNode)>) -> (r: Result<
        (),
        ApfsError,
    >)
        requires
            ascending(leaves_view(touched@)),
            old(self)@.wf(),
        ensures
            final(self).dev.reliable() == old(self).dev.reliable(),
            final(self)@.wf(),
            comes_of(
                old(self)@.nx,
                plain(r),
                final(self)@,
                old(self)@.commit(leaves_view(touched@)),
                old(self).dev.reliable(),
            ),
    {
        let ghost v = self@;
        let ghost s = leaves_view(touched@);
        let tx = stage_leaves(touched, self.block_size)?;
        let ghost blocks = tx.staged();
        let (_, p) = tx.commit_with_nxsb_rotation(&mut self.dev, &self.nxsb)?;
        let ghost after = self.dev.bytes();
        let b = read_block(&self.dev, p, self.block_size)?;
        let nxsb = NxSuperblock::parse(b.as_slice())?;
        proof {
            let slot = choose|slot: Seq<u8>| #[trigger]
                rotated_over(v.disk, blocks, v.block_size as u64, v.nx, slot, after);
            lemma_commit_over(v, s, blocks, slot, after);
        }
        self.nxsb = nxsb;
        assert(self@ =~= (VolumeView { disk: after, nx: nxsb@, ..v }));
        Ok(())
    }
}

} // verus!

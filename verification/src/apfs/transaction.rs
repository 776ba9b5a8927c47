//! Transaction commit pipeline.
//!
//! Two commit modes: `commit_in_place` (no rotation, opt-in) and
//! `commit_with_nxsb_rotation` (publishes a fresh NXSB into the descriptor
//! ring).

use crate::apfs::bytes::{
    bytes_u64, copy_range, group_bytes_len, lemma_read_u64, push_u64, put_bytes, splice, zero_bytes,
    zeroed,
};
use crate::apfs::device::{in_range, WriteAt};
use crate::apfs::error::{internal, plain, ApfsError, Fault, IoError};
use crate::apfs::fletcher::{
    bad_size, checkable, intact, law_sealed_is_intact, refresh_object_checksum, sealed,
};
use crate::apfs::object::{block_outcome, header_of, HeaderView};
use crate::apfs::superblock::{
    law_latest_nx_is_newest, law_nx_write_then_parse, newest_nx, nx_storable, ring_nx, NxSuperblock,
    NxView,
};
use crate::apfs::text::{msg1, msg2, text1, text2};
use vstd::prelude::*;

verus! {

/// Blocks that wait to be written, in ascending order of address.
pub struct Transaction {
    pub block_size: u64,
    pub dirty: Vec<(u64, Vec<u8>)>,
    /// Opt-in latch for `commit_in_place`; that path skips NXSB rotation and
    /// is unsafe when a concurrent reader may observe the volume.
    pub allow_in_place_commit: bool,
}

/// Staged blocks, taken by view.
pub open spec fn staged_view(s: Seq<(u64, Vec<u8>)>) -> Seq<(u64, Seq<u8>)> {
    s.map_values(|x: (u64, Vec<u8>)| (x.0, x.1@))
}

/// Addresses stand in ascending order and every block has the right size.
pub open spec fn staged_ok(s: Seq<(u64, Seq<u8>)>, block_size: u64) -> bool {
    &&& forall|i: int, j: int| 0 <= i < j < s.len() ==> (#[trigger] s[i]).0 < (#[trigger] s[j]).0
    &&& forall|i: int| 0 <= i < s.len() ==> (#[trigger] s[i]).1.len() == block_size
}

/// The block staged for each address.
pub open spec fn staged_map(s: Seq<(u64, Seq<u8>)>) -> Map<u64, Seq<u8>>
    decreases s.len(),
{
    if s.len() == 0 {
        Map::empty()
    } else {
        staged_map(s.drop_last()).insert(s.last().0, s.last().1)
    }
}

/// What is said when the address of a block does not fit an offset.
pub open spec fn offset_overflow(paddr: u64) -> Fault {
    Fault::Internal(msg1("paddr "@, paddr as nat, " overflows offset"@))
}

/// The outcome of writing the staged blocks from `i` on, each with a fresh
/// checksum, and the device afterwards.
pub open spec fn write_staged(disk: Seq<u8>, s: Seq<(u64, Seq<u8>)>, block_size: u64, i: int) -> (
    Result<(), Fault>,
    Seq<u8>,
)
    decreases s.len() - i,
{
    if i >= s.len() || i < 0 {
        (Ok(()), disk)
    } else {
        let (paddr, block) = s[i];
        if paddr * block_size > u64::MAX {
            (Err(offset_overflow(paddr)), disk)
        } else if !checkable(block.len()) {
            (Err(bad_size(block.len())), disk)
        } else if !in_range(disk.len(), paddr * block_size, block.len() as int) {
            (Err(Fault::Io(IoError::WriteZero)), disk)
        } else {
            write_staged(
                splice(disk, paddr * block_size, sealed(block)),
                s,
                block_size,
                i + 1,
            )
        }
    }
}

/// The block with the transaction id of its header replaced, if it is long
/// enough to have one.
pub open spec fn stamped(block: Seq<u8>, xid: u64) -> Seq<u8> {
    if block.len() < 32 { block } else { splice(block, 16, bytes_u64(xid)) }
}

/// Whether an address lies in one of the two checkpoint rings.
pub open spec fn in_ring(nx: NxView, p: u64) -> bool {
    (nx.xp_desc_base <= p < nx.xp_desc_base + nx.xp_desc_blocks) || (nx.xp_data_base <= p
        < nx.xp_data_base + nx.xp_data_blocks)
}

/// The staged blocks with the new transaction id, except those in the rings.
pub open spec fn stamp_staged(s: Seq<(u64, Seq<u8>)>, nx: NxView, xid: u64) -> Seq<(u64, Seq<u8>)> {
    s.map_values(
        |x: (u64, Seq<u8>)| if in_ring(nx, x.0) { x } else { (x.0, stamped(x.1, xid)) },
    )
}

/// The transaction id of the next commit.
pub open spec fn next_commit_xid(nx: NxView) -> int {
    if nx.next_xid > nx.header.xid { nx.next_xid as int } else { nx.header.xid + 1 }
}

/// The superblock of the next commit.
pub open spec fn next_nx(nx: NxView) -> NxView {
    let xid = next_commit_xid(nx);
    NxView {
        header: HeaderView { xid: xid as u64, ..nx.header },
        next_xid: (xid + 1) as u64,
        xp_desc_next: ((nx.xp_desc_next + 1) % (nx.xp_desc_blocks as int)) as u32,
        xp_desc_len: if nx.xp_desc_len + 1 < nx.xp_desc_blocks {
            (nx.xp_desc_len + 1) as u32
        } else {
            nx.xp_desc_blocks
        },
        ..nx
    }
}

/// Whether the counters of a superblock leave room for another commit.
pub open spec fn can_rotate(nx: NxView) -> bool {
    &&& next_commit_xid(nx) < u64::MAX
    &&& nx.xp_desc_next < u32::MAX
    &&& nx.xp_desc_len < u32::MAX
    &&& (nx.xp_desc_base + nx.xp_desc_next) * nx.block_size <= u64::MAX
    &&& nx.xp_desc_base + nx.xp_desc_next <= u64::MAX
}

/// What the slot for the next superblock holds, or zeros if it cannot be read.
pub open spec fn slot_contents(disk: Seq<u8>, paddr: u64, block_size: u32) -> Seq<u8> {
    match block_outcome(disk, paddr, block_size) {
        Ok(b) => b,
        Err(_) => zero_bytes(block_size as nat),
    }
}

/// The outcome of publishing the next superblock, and the device afterwards.
pub open spec fn publish(disk: Seq<u8>, nx: NxView) -> (Result<u64, Fault>, Seq<u8>) {
    let paddr = (nx.xp_desc_base + nx.xp_desc_next) as u64;
    publish_over(disk, nx, slot_contents(disk, paddr, nx.block_size))
}

/// The outcome of publishing the next superblock over what its slot is taken
/// to hold, and the device afterwards.
pub open spec fn publish_over(disk: Seq<u8>, nx: NxView, slot: Seq<u8>) -> (
    Result<u64, Fault>,
    Seq<u8>,
) {
    let paddr = (nx.xp_desc_base + nx.xp_desc_next) as u64;
    match next_nx(nx).write_outcome(slot) {
        (Err(e), _) => (Err(e), disk),
        (Ok(_), b) => if !in_range(disk.len(), paddr * nx.block_size, b.len() as int) {
            (Err(Fault::Io(IoError::WriteZero)), disk)
        } else {
            (Ok(paddr), splice(disk, paddr * nx.block_size, b))
        },
    }
}

/// Whether a commit left the device like this, with the next superblock
/// published over what its slot is taken to hold.
pub open spec fn rotated_over(
    disk: Seq<u8>,
    s: Seq<(u64, Seq<u8>)>,
    block_size: u64,
    nx: NxView,
    slot: Seq<u8>,
    after: Seq<u8>,
) -> bool {
    let (w, mid) = write_staged(
        disk,
        stamp_staged(s, nx, next_commit_xid(nx) as u64),
        block_size,
        0,
    );
    &&& w is Ok
    &&& slot.len() == nx.block_size
    &&& publish_over(mid, nx, slot) == (
        Ok::<u64, Fault>((nx.xp_desc_base + nx.xp_desc_next) as u64),
        after,
    )
}

/// The outcome of committing staged blocks with a fresh superblock, and the
/// device afterwards.
pub open spec fn rotate(disk: Seq<u8>, s: Seq<(u64, Seq<u8>)>, block_size: u64, nx: NxView) -> (
    Result<(nat, u64), Fault>,
    Seq<u8>,
) {
    if block_size != nx.block_size {
        (
            Err(
                Fault::Internal(
                    msg2(
                        "block_size mismatch: tx="@,
                        block_size as nat,
                        " nxsb="@,
                        nx.block_size as nat,
                        ""@,
                    ),
                ),
            ),
            disk,
        )
    } else if nx.xp_desc_blocks == 0 {
        (Err(Fault::Internal("xp_desc_blocks is zero; cannot rotate NXSB"@)), disk)
    } else if !can_rotate(nx) {
        (Err(Fault::Internal("checkpoint counters overflow; cannot rotate NXSB"@)), disk)
    } else {
        match write_staged(
            disk,
            stamp_staged(s, nx, next_commit_xid(nx) as u64),
            block_size,
            0,
        ) {
            (Err(e), d) => (Err(e), d),
            (Ok(_), d) => match publish(d, nx) {
                (Err(e), d2) => (Err(e), d2),
                (Ok(p), d2) => (Ok((s.len(), p)), d2),
            },
        }
    }
}

/// A commit, taken by view.
pub open spec fn commit_view(r: Result<(usize, u64), ApfsError>) -> Result<(nat, u64), Fault> {
    match r {
        Ok((n, p)) => Ok((n as nat, p)),
        Err(e) => Err(e@),
    }
}

fn write_one<W: WriteAt>(dev: &mut W, paddr: u64, block: &[u8], block_size: u64) -> (r: Result<
    (),
    ApfsError,
>)
    ensures
        final(dev).reliable() == old(dev).reliable(),
        final(dev).bytes().len() == old(dev).bytes().len(),
        old(dev).reliable() || r is Ok ==> (plain(r), final(dev).bytes()) == (if paddr * block_size
            > u64::MAX {
            (Err(offset_overflow(paddr)), old(dev).bytes())
        } else if !checkable(block@.len()) {
            (Err(bad_size(block@.len())), old(dev).bytes())
        } else if !in_range(old(dev).bytes().len(), paddr * block_size, block.len() as int) {
            (Err(Fault::Io(IoError::WriteZero)), old(dev).bytes())
        } else {
            (Ok(()), splice(old(dev).bytes(), paddr * block_size, sealed(block@)))
        }),
{
    let offset: u64 = match paddr.checked_mul(block_size) {
        Some(o) => o,
        None => {
            return Err(ApfsError::Internal(text1("paddr ", paddr, " overflows offset")));
        },
    };
    let mut tmp = copy_range(block, 0, block.len());
    assert(tmp@ =~= block@);
    refresh_object_checksum(tmp.as_mut_slice())?;
    proof {
        law_sealed_is_intact(block@);
        assert(paddr * block_size >= 0) by (nonlinear_arith);
    }
    match dev.write_at(offset, tmp.as_slice()) {
        Ok(_) => Ok(()),
        Err(e) => Err(ApfsError::Io(e)),
    }
}

fn write_all<W: WriteAt>(dev: &mut W, s: &Vec<(u64, Vec<u8>)>, block_size: u64) -> (r: Result<
    (),
    ApfsError,
>)
    ensures
        final(dev).reliable() == old(dev).reliable(),
        final(dev).bytes().len() == old(dev).bytes().len(),
        old(dev).reliable() || r is Ok ==> (plain(r), final(dev).bytes()) == write_staged(
            old(dev).bytes(),
            staged_view(s@),
            block_size,
            0,
        ),
{
    let ghost v = staged_view(s@);
    let ghost start = dev.bytes();
    let mut i: usize = 0;
    while i < s.len()
        invariant
            i <= s.len(),
            v == staged_view(s@),
            dev.reliable() == old(dev).reliable(),
            dev.bytes().len() == old(dev).bytes().len(),
            start == old(dev).bytes(),
            write_staged(start, v, block_size, 0) == write_staged(
                dev.bytes(),
                v,
                block_size,
                i as int,
            ),
        decreases s.len() - i,
    {
        let (paddr, block) = &s[i];
        assert(v[i as int] == (*paddr, block@));
        write_one(dev, *paddr, block.as_slice(), block_size)?;
        i += 1;
    }
    Ok(())
}

fn flush<W: WriteAt>(dev: &mut W) -> (r: Result<(), ApfsError>)
    ensures
        final(dev).reliable() == old(dev).reliable(),
        final(dev).bytes() == old(dev).bytes(),
        old(dev).reliable() ==> r is Ok,
{
    match dev.flush() {
        Ok(_) => Ok(()),
        Err(e) => Err(ApfsError::Io(e)),
    }
}

impl Transaction {
    /// The staged blocks in ascending order of address.
    pub open spec fn staged(&self) -> Seq<(u64, Seq<u8>)> {
        staged_view(self.dirty@)
    }

    pub open spec fn wf(&self) -> bool {
        staged_ok(self.staged(), self.block_size)
    }

    pub fn new(block_size: u64) -> (t: Self)
        ensures
            t.wf(),
            t.block_size == block_size,
            t.staged() == Seq::<(u64, Seq<u8>)>::empty(),
            !t.allow_in_place_commit,
    {
        let t = Transaction { block_size, dirty: Vec::new(), allow_in_place_commit: false };
        assert(t.staged() =~= Seq::empty());
        t
    }

    /// Stage a block for `paddr`. A block that was staged for the same
    /// address before is replaced.
    pub fn stage(&mut self, paddr: u64, block: Vec<u8>) -> (r: Result<(), ApfsError>)
        requires
            old(self).wf(),
        ensures
            final(self).wf(),
            final(self).block_size == old(self).block_size,
            final(self).allow_in_place_commit == old(self).allow_in_place_commit,
            block@.len() != old(self).block_size ==> plain(r) == Err::<(), Fault>(
                Fault::Internal(
                    msg2(
                        "tx stage: block len "@,
                        block@.len(),
                        " != block_size "@,
                        old(self).block_size as nat,
                        ""@,
                    ),
                ),
            ) && final(self).staged() == old(self).staged(),
            block@.len() == old(self).block_size ==> r is Ok && staged_map(final(self).staged())
                == staged_map(old(self).staged()).insert(paddr, block@),
            block@.len() == old(self).block_size && (old(self).staged().len() == 0 || old(
                self,
            ).staged().last().0 < paddr) ==> final(self).staged() == old(self).staged().push(
                (paddr, block@),
            ),
    {
        if block.len() as u64 != self.block_size {
            return Err(
                ApfsError::Internal(
                    text2(
                        "tx stage: block len ",
                        block.len() as u64,
                        " != block_size ",
                        self.block_size,
                        "",
                    ),
                ),
            );
        }
        let ghost before = self.staged();
        let mut i: usize = 0;
        while i < self.dirty.len() && self.dirty[i].0 < paddr
            invariant
                i <= self.dirty.len(),
                before == self.staged(),
                forall|k: int| 0 <= k < i ==> (#[trigger] before[k]).0 < paddr,
            decreases self.dirty.len() - i,
        {
            assert(before[i as int].0 == self.dirty@[i as int].0);
            i += 1;
        }
        proof {
            if i < before.len() {
                assert(before[i as int].0 == self.dirty@[i as int].0);
                assert(before[i as int].0 <= before.last().0);
            }
        }
        if i < self.dirty.len() && self.dirty[i].0 == paddr {
            assert(before[i as int].0 == paddr);
            let ghost d0 = self.dirty@;
            self.dirty[i] = (paddr, block);
            proof {
                assert(self.staged() =~= before.update(i as int, (paddr, block@)));
                lemma_staged_update(before, i as int, block@);
            }
        } else {
            let ghost d0 = self.dirty@;
            self.dirty.insert(i, (paddr, block));
            proof {
                assert(self.staged() =~= before.insert(i as int, (paddr, block@)));
                assert forall|k: int| i <= k < before.len() implies paddr < (#[trigger] before[k]).0 by {
                    assert(before[i as int].0 == d0[i as int].0);
                }
                lemma_staged_insert(before, i as int, paddr, block@);
                if i == before.len() {
                    assert(before.insert(i as int, (paddr, block@)) =~= before.push(
                        (paddr, block@),
                    ));
                }
            }
        }
        Ok(())
    }

    pub fn dirty_count(&self) -> (n: usize)
        ensures
            n == self.staged().len(),
    {
        self.dirty.len()
    }

    /// The staged blocks in ascending order of address.
    pub fn iter_dirty(&self) -> (s: &[(u64, Vec<u8>)])
        ensures
            staged_view(s@) == self.staged(),
    {
        self.dirty.as_slice()
    }

    /// Commit all staged blocks to their own addresses (no NXSB
    /// rotation). Returns how many there were.
    pub fn commit_in_place<W: WriteAt>(self, dev: &mut W) -> (r: Result<usize, ApfsError>)
        ensures
            final(dev).reliable() == old(dev).reliable(),
            final(dev).bytes().len() == old(dev).bytes().len(),
            !self.allow_in_place_commit ==> plain(r) == Err::<usize, Fault>(
                Fault::Internal("Transaction::commit_in_place: not enabled"@),
            ) && final(dev).bytes() == old(dev).bytes(),
            self.allow_in_place_commit && (old(dev).reliable() || r is Ok) ==> ({
                let (w, disk) = write_staged(
                    old(dev).bytes(),
                    self.staged(),
                    self.block_size,
                    0,
                );
                &&& final(dev).bytes() == disk
                &&& match w {
                    Ok(_) => r matches Ok(n) && n == self.staged().len(),
                    Err(e) => plain(r) == Err::<usize, Fault>(e),
                }
            }),
    {
        if !self.allow_in_place_commit {
            return Err(internal("Transaction::commit_in_place: not enabled"));
        }
        write_all(dev, &self.dirty, self.block_size)?;
        flush(dev)?;
        Ok(self.dirty.len())
    }

    /// Commit staged blocks and publish a fresh NXSB into the next slot of the
    /// descriptor ring. Returns how many blocks there were and the address of
    /// the slot. A slot that cannot be read is taken to hold zeros.
    pub fn commit_with_nxsb_rotation<W: WriteAt>(self, dev: &mut W, nxsb: &NxSuperblock) -> (r:
        Result<(usize, u64), ApfsError>)
        ensures
            final(dev).reliable() == old(dev).reliable(),
            final(dev).bytes().len() == old(dev).bytes().len(),
            old(dev).reliable() ==> (commit_view(r), final(dev).bytes()) == rotate(
                old(dev).bytes(),
                self.staged(),
                self.block_size,
                nxsb@,
            ),
            r matches Ok((n, p)) ==> n == self.staged().len() && p == nxsb.xp_desc_base
                + nxsb.xp_desc_next && self.block_size == nxsb.block_size && nxsb.xp_desc_blocks
                > 0 && can_rotate(nxsb@) && exists|slot: Seq<u8>| #[trigger]
                rotated_over(
                    old(dev).bytes(),
                    self.staged(),
                    self.block_size,
                    nxsb@,
                    slot,
                    final(dev).bytes(),
                ),
    {
        if self.block_size != nxsb.block_size as u64 {
            return Err(
                ApfsError::Internal(
                    text2(
                        "block_size mismatch: tx=",
                        self.block_size,
                        " nxsb=",
                        nxsb.block_size as u64,
                        "",
                    ),
                ),
            );
        }
        if nxsb.xp_desc_blocks == 0 {
            return Err(internal("xp_desc_blocks is zero; cannot rotate NXSB"));
        }
        let xid: u128 = if nxsb.next_xid > nxsb.header.xid {
            nxsb.next_xid as u128
        } else {
            nxsb.header.xid as u128 + 1
        };
        let slot: u128 = nxsb.xp_desc_base as u128 + nxsb.xp_desc_next as u128;
        let slot_end: Option<u128> = slot.checked_mul(nxsb.block_size as u128);
        assert(slot * nxsb.block_size <= 0x2_0000_0000_0000_0000 * 0x1_0000_0000)
            by (nonlinear_arith)
            requires
                slot <= 0x2_0000_0000_0000_0000,
                nxsb.block_size <= 0x1_0000_0000,
        ;
        let target: u128 = match slot_end {
            Some(t) => t,
            None => u128::MAX,
        };
        if xid >= u64::MAX as u128 || nxsb.xp_desc_next == u32::MAX || nxsb.xp_desc_len == u32::MAX
            || target > u64::MAX as u128 || slot > u64::MAX as u128 {
            return Err(internal("checkpoint counters overflow; cannot rotate NXSB"));
        }
        let new_xid: u64 = xid as u64;
        let paddr: u64 = slot as u64;

        let mut stamped_blocks: Vec<(u64, Vec<u8>)> = Vec::new();
        let ghost want = stamp_staged(self.staged(), nxsb@, new_xid);
        let mut i: usize = 0;
        while i < self.dirty.len()
            invariant
                i <= self.dirty.len(),
                want == stamp_staged(self.staged(), nxsb@, new_xid),
                staged_view(stamped_blocks@) == want.subrange(0, i as int),
            decreases self.dirty.len() - i,
        {
            let (p, block) = &self.dirty[i];
            let copy = stamp_block(*p, block.as_slice(), nxsb, new_xid);
            let ghost before = stamped_blocks@;
            stamped_blocks.push((*p, copy));
            proof {
                assert(staged_view(stamped_blocks@) =~= staged_view(before).push((*p, copy@)));
                assert(self.staged()[i as int] == (*p, block@));
                assert(staged_view(stamped_blocks@) =~= want.subrange(0, i + 1));
            }
            i += 1;
        }
        assert(want.subrange(0, i as int) =~= want);
        write_all(dev, &stamped_blocks, self.block_size)?;
        flush(dev)?;

        let ghost mid = dev.bytes();
        let new_nxsb = rotated(nxsb, new_xid);
        let offset: u64 = target as u64;
        let size: usize = nxsb.block_size as usize;
        let mut buf: Vec<u8> = match dev.read_at(offset, size) {
            Ok(v) => v,
            Err(_) => zeroed(size),
        };
        assert(dev.reliable() ==> buf@ == slot_contents(mid, paddr, nxsb.block_size));
        let ghost slot = buf@;
        new_nxsb.write_to_block(buf.as_mut_slice())?;
        match dev.write_at(offset, buf.as_slice()) {
            Ok(_) => {},
            Err(e) => {
                return Err(ApfsError::Io(e));
            },
        }
        flush(dev)?;
        assert(rotated_over(
            old(dev).bytes(),
            self.staged(),
            self.block_size,
            nxsb@,
            slot,
            dev.bytes(),
        ));
        Ok((self.dirty.len(), paddr))
    }
}

fn rotated(nxsb: &NxSuperblock, new_xid: u64) -> (n: NxSuperblock)
    requires
        nxsb.xp_desc_blocks > 0,
        can_rotate(nxsb@),
        new_xid == next_commit_xid(nxsb@),
    ensures
        n@ == next_nx(nxsb@),
{
    let mut n = nxsb.clone();
    n.header.xid = new_xid;
    n.next_xid = new_xid + 1;
    n.xp_desc_next = (nxsb.xp_desc_next + 1) % nxsb.xp_desc_blocks;
    n.xp_desc_len = if nxsb.xp_desc_len + 1 < nxsb.xp_desc_blocks {
        nxsb.xp_desc_len + 1
    } else {
        nxsb.xp_desc_blocks
    };
    assert(n@ =~= next_nx(nxsb@));
    n
}

fn stamp_block(paddr: u64, block: &[u8], nxsb: &NxSuperblock, xid: u64) -> (v: Vec<u8>)
    ensures
        v@ == (if in_ring(nxsb@, paddr) {
            block@
        } else {
            stamped(block@, xid)
        }),
{
    broadcast use group_bytes_len;

    let mut copy = copy_range(block, 0, block.len());
    assert(copy@ =~= block@);
    let desc = paddr >= nxsb.xp_desc_base && paddr - nxsb.xp_desc_base < nxsb.xp_desc_blocks as u64;
    let data = paddr >= nxsb.xp_data_base && paddr - nxsb.xp_data_base < nxsb.xp_data_blocks as u64;
    if !desc && !data && copy.len() >= 32 {
        let mut field: Vec<u8> = Vec::new();
        push_u64(&mut field, xid);
        assert(field@ =~= bytes_u64(xid));
        put_bytes(copy.as_mut_slice(), 16, field.as_slice());
    }
    copy
}

proof fn lemma_staged_map_dom(s: Seq<(u64, Seq<u8>)>, p: u64)
    ensures
        staged_map(s).contains_key(p) == exists|i: int| 0 <= i < s.len() && (#[trigger] s[i]).0 == p,
    decreases s.len(),
{
    if s.len() > 0 {
        let r = s.drop_last();
        lemma_staged_map_dom(r, p);
        if staged_map(s).contains_key(p) {
            if p == s.last().0 {
                assert(s[s.len() - 1].0 == p);
            } else {
                let i = choose|i: int| 0 <= i < r.len() && (#[trigger] r[i]).0 == p;
                assert(s[i].0 == p);
            }
        }
        if exists|i: int| 0 <= i < s.len() && (#[trigger] s[i]).0 == p {
            let i = choose|i: int| 0 <= i < s.len() && (#[trigger] s[i]).0 == p;
            if i < s.len() - 1 {
                assert(r[i].0 == p);
            }
        }
    }
}

/// The block staged for an address of the list.
pub proof fn lemma_staged_map_at(s: Seq<(u64, Seq<u8>)>, i: int)
    requires
        forall|a: int, b: int| 0 <= a < b < s.len() ==> (#[trigger] s[a]).0 < (#[trigger] s[b]).0,
        0 <= i < s.len(),
    ensures
        staged_map(s).contains_key(s[i].0),
        staged_map(s)[s[i].0] == s[i].1,
    decreases s.len(),
{
    let r = s.drop_last();
    if i < s.len() - 1 {
        assert forall|a: int, b: int| 0 <= a < b < r.len() implies (#[trigger] r[a]).0 < (
        #[trigger] r[b]).0 by {
            assert(s[a].0 < s[b].0);
        }
        lemma_staged_map_at(r, i);
        assert(r[i] == s[i]);
        assert(s[i].0 < s[s.len() - 1].0);
    }
}

/// What holds of lists of staged blocks that differ in the block at `p` only.
spec fn restaged(s: Seq<(u64, Seq<u8>)>, t: Seq<(u64, Seq<u8>)>, p: u64, b: Seq<u8>, bs: u64) -> bool {
    &&& staged_ok(s, bs)
    &&& staged_ok(t, bs)
    &&& exists|i: int| 0 <= i < t.len() && #[trigger] t[i] == (p, b)
    &&& forall|i: int|
        0 <= i < s.len() && (#[trigger] s[i]).0 != p ==> exists|j: int|
            0 <= j < t.len() && #[trigger] t[j] == s[i]
    &&& forall|i: int|
        0 <= i < t.len() && (#[trigger] t[i]).0 != p ==> exists|j: int|
            0 <= j < s.len() && #[trigger] s[j] == t[i]
}

proof fn lemma_restaged_at(
    s: Seq<(u64, Seq<u8>)>,
    t: Seq<(u64, Seq<u8>)>,
    p: u64,
    b: Seq<u8>,
    bs: u64,
    q: u64,
)
    requires
        restaged(s, t, p, b, bs),
    ensures
        staged_map(t).contains_key(q) == staged_map(s).insert(p, b).contains_key(q),
        staged_map(t).contains_key(q) ==> staged_map(t)[q] == staged_map(s).insert(p, b)[q],
{
    lemma_staged_map_dom(s, q);
    lemma_staged_map_dom(t, q);
    if q == p {
        let i = choose|i: int| 0 <= i < t.len() && #[trigger] t[i] == (p, b);
        assert(t[i].0 == p);
        lemma_staged_map_at(t, i);
    } else {
        if staged_map(t).contains_key(q) {
            let i = choose|i: int| 0 <= i < t.len() && (#[trigger] t[i]).0 == q;
            let j = choose|j: int| 0 <= j < s.len() && #[trigger] s[j] == t[i];
            lemma_staged_map_at(t, i);
            lemma_staged_map_at(s, j);
        }
        if staged_map(s).contains_key(q) {
            let i = choose|i: int| 0 <= i < s.len() && (#[trigger] s[i]).0 == q;
            let j = choose|j: int| 0 <= j < t.len() && #[trigger] t[j] == s[i];
            assert(t[j].0 == q);
        }
    }
}

proof fn lemma_restaged(
    s: Seq<(u64, Seq<u8>)>,
    t: Seq<(u64, Seq<u8>)>,
    p: u64,
    b: Seq<u8>,
    bs: u64,
)
    requires
        restaged(s, t, p, b, bs),
    ensures
        staged_map(t) == staged_map(s).insert(p, b),
{
    let m = staged_map(s).insert(p, b);
    let n = staged_map(t);
    assert forall|q: u64| #[trigger] n.contains_key(q) == m.contains_key(q) by {
        lemma_restaged_at(s, t, p, b, bs, q);
    }
    assert forall|q: u64| #[trigger] n.contains_key(q) implies n[q] == m[q] by {
        lemma_restaged_at(s, t, p, b, bs, q);
    }
    assert(n.dom() =~= m.dom());
    assert(n =~= m);
}

proof fn lemma_staged_update(s: Seq<(u64, Seq<u8>)>, i: int, b: Seq<u8>)
    requires
        0 <= i < s.len(),
        staged_ok(s, b.len() as u64),
        b.len() <= u64::MAX,
    ensures
        staged_ok(s.update(i, (s[i].0, b)), b.len() as u64),
        staged_map(s.update(i, (s[i].0, b))) == staged_map(s).insert(s[i].0, b),
{
    let p = s[i].0;
    let t = s.update(i, (p, b));
    assert forall|x: int, y: int| 0 <= x < y < t.len() implies (#[trigger] t[x]).0 < (
    #[trigger] t[y]).0 by {
        assert(s[x].0 < s[y].0);
    }
    assert(t[i] == (p, b));
    assert forall|x: int| 0 <= x < s.len() && (#[trigger] s[x]).0 != p implies exists|j: int|
        0 <= j < t.len() && #[trigger] t[j] == s[x] by {
        assert(t[x] == s[x]);
    }
    assert forall|x: int| 0 <= x < t.len() && (#[trigger] t[x]).0 != p implies exists|j: int|
        0 <= j < s.len() && #[trigger] s[j] == t[x] by {
        assert(s[x] == t[x]);
    }
    lemma_restaged(s, t, p, b, b.len() as u64);
}

proof fn lemma_staged_insert(s: Seq<(u64, Seq<u8>)>, i: int, p: u64, b: Seq<u8>)
    requires
        0 <= i <= s.len(),
        staged_ok(s, b.len() as u64),
        b.len() <= u64::MAX,
        forall|k: int| 0 <= k < i ==> (#[trigger] s[k]).0 < p,
        forall|k: int| i <= k < s.len() ==> p < (#[trigger] s[k]).0,
    ensures
        staged_ok(s.insert(i, (p, b)), b.len() as u64),
        staged_map(s.insert(i, (p, b))) == staged_map(s).insert(p, b),
{
    let t = s.insert(i, (p, b));
    assert forall|x: int, y: int| 0 <= x < y < t.len() implies (#[trigger] t[x]).0 < (
    #[trigger] t[y]).0 by {
        let x0 = if x < i { x } else { x - 1 };
        let y0 = if y < i { y } else { y - 1 };
        if x != i {
            assert(t[x] == s[x0]);
        }
        if y != i {
            assert(t[y] == s[y0]);
        }
    }
    assert forall|x: int| 0 <= x < t.len() implies (#[trigger] t[x]).1.len() == b.len() by {
        if x != i {
            let x0 = if x < i { x } else { x - 1 };
            assert(t[x] == s[x0]);
        }
    }
    assert(t[i] == (p, b));
    assert forall|x: int| 0 <= x < s.len() && (#[trigger] s[x]).0 != p implies exists|j: int|
        0 <= j < t.len() && #[trigger] t[j] == s[x] by {
        let j = if x < i { x } else { x + 1 };
        assert(t[j] == s[x]);
    }
    assert forall|x: int| 0 <= x < t.len() && (#[trigger] t[x]).0 != p implies exists|j: int|
        0 <= j < s.len() && #[trigger] s[j] == t[x] by {
        let j = if x < i { x } else { x - 1 };
        assert(s[j] == t[x]);
    }
    lemma_restaged(s, t, p, b, b.len() as u64);
}

/// The bytes of block `paddr`.
pub open spec fn in_block(x: int, paddr: u64, block_size: u64) -> bool {
    paddr * block_size <= x < paddr * block_size + block_size
}

pub proof fn lemma_blocks_apart(p: u64, q: u64, block_size: u64)
    requires
        p < q,
    ensures
        p * block_size + block_size <= q * block_size,
        p * block_size >= 0,
{
    assert(p * block_size + block_size <= q * block_size) by (nonlinear_arith)
        requires
            p + 1 <= q,
            block_size >= 0,
    ;
    assert(p * block_size >= 0) by (nonlinear_arith);
}

pub proof fn lemma_write_staged(disk: Seq<u8>, s: Seq<(u64, Seq<u8>)>, block_size: u64, i: int)
    requires
        staged_ok(s, block_size),
        checkable(block_size as nat),
        0 <= i <= s.len(),
        write_staged(disk, s, block_size, i).0 is Ok,
    ensures
        write_staged(disk, s, block_size, i).1.len() == disk.len(),
        forall|x: int|
            0 <= x < disk.len() && (forall|j: int|
                i <= j < s.len() ==> !in_block(x, (#[trigger] s[j]).0, block_size))
                ==> #[trigger] write_staged(disk, s, block_size, i).1[x] == disk[x],
        forall|j: int|
            i <= j < s.len() ==> 0 <= (#[trigger] s[j]).0 * block_size && s[j].0 * block_size
                + block_size <= disk.len() && write_staged(disk, s, block_size, i).1.subrange(
                s[j].0 * block_size,
                s[j].0 * block_size + block_size,
            ) == sealed(s[j].1),
    decreases s.len() - i,
{
    if i < s.len() {
        let (paddr, block) = s[i];
        let at = paddr * block_size;
        assert(at >= 0) by (nonlinear_arith)
            requires
                at == paddr * block_size,
        ;
        law_sealed_is_intact(block);
        let d1 = splice(disk, at, sealed(block));
        let d = write_staged(disk, s, block_size, i).1;
        lemma_write_staged(d1, s, block_size, i + 1);
        assert(d == write_staged(d1, s, block_size, i + 1).1);
        assert forall|x: int|
            0 <= x < disk.len() && (forall|j: int|
                i <= j < s.len() ==> !in_block(x, (#[trigger] s[j]).0, block_size)) implies #[trigger] d[x]
            == disk[x] by {
            assert(!in_block(x, s[i].0, block_size));
            assert(d[x] == d1[x]);
        }
        assert forall|j: int| i <= j < s.len() implies 0 <= (#[trigger] s[j]).0 * block_size
            && s[j].0 * block_size + block_size <= disk.len() && d.subrange(
            s[j].0 * block_size,
            s[j].0 * block_size + block_size,
        ) == sealed(s[j].1) by {
            if j == i {
                assert forall|x: int| at <= x < at + block_size implies d[x] == d1[x] by {
                    assert forall|k: int| i + 1 <= k < s.len() implies !in_block(
                        x,
                        (#[trigger] s[k]).0,
                        block_size,
                    ) by {
                        assert(s[i].0 < s[k].0);
                        lemma_blocks_apart(s[i].0, s[k].0, block_size);
                    }
                }
                assert(d.subrange(at, at + block_size) =~= sealed(block));
            }
        }
    }
}

/// A commit writes every staged block with a fresh checksum at its address
/// and leaves all other bytes as they were.
pub proof fn law_commit_writes_staged_blocks(
    disk: Seq<u8>,
    s: Seq<(u64, Seq<u8>)>,
    block_size: u64,
)
    requires
        staged_ok(s, block_size),
        checkable(block_size as nat),
        write_staged(disk, s, block_size, 0).0 is Ok,
    ensures
        write_staged(disk, s, block_size, 0).1.len() == disk.len(),
        forall|x: int|
            0 <= x < disk.len() && (forall|j: int|
                0 <= j < s.len() ==> !in_block(x, (#[trigger] s[j]).0, block_size))
                ==> #[trigger] write_staged(disk, s, block_size, 0).1[x] == disk[x],
        forall|j: int|
            0 <= j < s.len() ==> write_staged(disk, s, block_size, 0).1.subrange(
                (#[trigger] s[j]).0 * block_size,
                s[j].0 * block_size + block_size,
            ) == sealed(s[j].1) && intact(sealed(s[j].1)),
{
    lemma_write_staged(disk, s, block_size, 0);
    assert forall|j: int| 0 <= j < s.len() implies intact(sealed((#[trigger] s[j]).1)) by {
        law_sealed_is_intact(s[j].1);
    }
}

/// A stamped block carries the new transaction id, with or without a fresh
/// checksum.
pub proof fn law_stamp_sets_xid(block: Seq<u8>, xid: u64)
    requires
        block.len() >= 32,
        checkable(block.len()),
    ensures
        header_of(stamped(block, xid)).xid == xid,
        header_of(sealed(stamped(block, xid))).xid == xid,
{
    broadcast use group_bytes_len;

    let b = stamped(block, xid);
    let c = sealed(b);
    law_sealed_is_intact(b);
    assert(b.subrange(16, 24) =~= bytes_u64(xid));
    let n = b.len() as int;
    assert(c.subrange(16, 24) =~= c.subrange(8, n).subrange(8, 16));
    assert(b.subrange(16, 24) =~= b.subrange(8, n).subrange(8, 16));
    lemma_read_u64(b, 16, xid);
    lemma_read_u64(c, 16, xid);
}

/// A commit with rotation publishes the next superblock in the slot that the
/// old one names. It is intact, newer than the old one, and the one that a
/// later search of the ring comes to; the next slot follows in the ring, and
/// the first comes after the last.
pub proof fn law_rotation_publishes_newer_superblock(
    disk: Seq<u8>,
    s: Seq<(u64, Seq<u8>)>,
    block_size: u64,
    nx: NxView,
)
    requires
        staged_ok(s, block_size),
        nx_storable(nx),
        nx.xp_desc_next < nx.xp_desc_blocks,
        rotate(disk, s, block_size, nx).0 is Ok,
    ensures
        rotate(disk, s, block_size, nx).0->Ok_0 == (s.len(), (nx.xp_desc_base
            + nx.xp_desc_next) as u64),
        next_nx(nx).header.xid > nx.header.xid,
        next_nx(nx).next_xid > next_nx(nx).header.xid,
        next_nx(nx).xp_desc_next == (if nx.xp_desc_next + 1 == nx.xp_desc_blocks {
            0
        } else {
            nx.xp_desc_next + 1
        }),
        ring_nx(rotate(disk, s, block_size, nx).1, nx, nx.xp_desc_next as int) matches Some(sb)
            && sb == (NxView {
            header: HeaderView { checksum: sb.header.checksum, ..next_nx(nx).header },
            ..next_nx(nx)
        }),
        newest_nx(rotate(disk, s, block_size, nx).1, nx, 0, nx).header.xid >= next_nx(
            nx,
        ).header.xid,
{
    let xid = next_commit_xid(nx) as u64;
    let st = stamp_staged(s, nx, xid);
    let (w, d) = write_staged(disk, st, block_size, 0);
    lemma_write_len(disk, st, block_size, 0);
    let paddr = (nx.xp_desc_base + nx.xp_desc_next) as u64;
    let slot = slot_contents(d, paddr, nx.block_size);
    let new = next_nx(nx);
    assert(nx_storable(new));
    assert(slot.len() == nx.block_size) by {
        assert(paddr * nx.block_size >= 0) by (nonlinear_arith);
    }
    law_nx_write_then_parse(new, slot);
    let b = new.write_outcome(slot).1;
    let at = paddr * nx.block_size;
    let out = splice(d, at, b);
    assert(b.len() == nx.block_size);
    assert(out.subrange(at, at + nx.block_size) =~= b);
    assert(block_outcome(out, paddr, nx.block_size) == Ok::<Seq<u8>, Fault>(b));
    law_latest_nx_is_newest(out, nx, nx.xp_desc_next as int);
    let m = nx.xp_desc_blocks as int;
    let k = nx.xp_desc_next + 1;
    assert(k % m == (if k == m { 0 } else { k })) by (nonlinear_arith)
        requires
            0 < k <= m,
    ;
}

proof fn lemma_write_len(disk: Seq<u8>, s: Seq<(u64, Seq<u8>)>, block_size: u64, i: int)
    ensures
        write_staged(disk, s, block_size, i).1.len() == disk.len(),
    decreases s.len() - i,
{
    if 0 <= i < s.len() {
        let (paddr, block) = s[i];
        lemma_write_len(splice(disk, paddr * block_size, sealed(block)), s, block_size, i + 1);
    }
}

/// The next superblock differs from the one before it in four numbers: the
/// transaction is the next one, the one after that follows it, the slot for the
/// superblock after that is the next in the ring, and the ring is one block
/// fuller, until it is full.
pub proof fn law_next_superblock(nx: NxView)
    requires
        can_rotate(nx),
        nx.xp_desc_next < nx.xp_desc_blocks,
    ensures
        ({
            let n = next_nx(nx);
            &&& nx.next_xid > nx.header.xid ==> n.header.xid == nx.next_xid
            &&& nx.next_xid <= nx.header.xid ==> n.header.xid == nx.header.xid + 1
            &&& n.next_xid == n.header.xid + 1
            &&& n.xp_desc_next == nx.xp_desc_next + 1 || (n.xp_desc_next == 0 && nx.xp_desc_next + 1
                == nx.xp_desc_blocks)
            &&& nx.xp_desc_len < nx.xp_desc_blocks ==> n.xp_desc_len == nx.xp_desc_len + 1
            &&& nx.xp_desc_len >= nx.xp_desc_blocks ==> n.xp_desc_len == nx.xp_desc_blocks
            &&& n == (NxView {
                header: HeaderView { xid: n.header.xid, ..nx.header },
                next_xid: n.next_xid,
                xp_desc_next: n.xp_desc_next,
                xp_desc_len: n.xp_desc_len,
                ..nx
            })
        }),
{
    let m = nx.xp_desc_blocks as int;
    let k = nx.xp_desc_next + 1;
    assert(k % m == (if k == m { 0 } else { k })) by (nonlinear_arith)
        requires
            0 < k <= m,
    ;
}

} // verus!

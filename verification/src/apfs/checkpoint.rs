//! Checkpoint descriptor and data ring helpers.
//!
//! At commit time the container rotates through two on-disk ring buffers
//! anchored at `nx_xp_desc_base` and `nx_xp_data_base`. Each transaction
//! writes a fresh NXSB plus a `checkpoint_map_phys_t` that maps every
//! ephemeral OID to its freshly placed address. To resolve an OID the
//! descriptor ring of the latest NXSB is searched for the most recent
//! checkpoint map that covers it.

use crate::apfs::fletcher;
use crate::apfs::bytes::{le_u32, le_u64, rd_u32, rd_u64};
use crate::apfs::device::ReadAt;
use crate::apfs::error::{bad_catalog, outcome, plain, ApfsError, Fault};
use crate::apfs::fletcher::intact;
use crate::apfs::object::{
    block_outcome, header_of, read_block, ObjectHeader, OBJECT_TYPE_CHECKPOINT_MAP,
};
use crate::apfs::superblock::{NxSuperblock, NxView};
use crate::apfs::text::{hex, hex_string, msg_str, text_str};
use vstd::prelude::*;

verus! {

#[derive(Debug, Clone, Copy, PartialEq, Eq, Structural)]
pub struct CheckpointMapping {
    pub object_type: u32,
    pub subtype: u32,
    pub size: u32,
    pub _pad: u32,
    pub fs_oid: u64,
    pub oid: u64,
    pub paddr: u64,
}

impl CheckpointMapping {
    pub const SIZE: usize = 40;
}

#[derive(Debug)]
pub struct CheckpointMap {
    pub flags: u32,
    pub count: u32,
    pub mappings: Vec<CheckpointMapping>,
    pub xid: u64,
}

/// The contents of a [`CheckpointMap`].
#[verifier::ext_equal]
pub struct CheckpointMapView {
    pub flags: u32,
    pub count: u32,
    pub mappings: Seq<CheckpointMapping>,
    pub xid: u64,
}

impl View for CheckpointMap {
    type V = CheckpointMapView;

    open spec fn view(&self) -> CheckpointMapView {
        CheckpointMapView {
            flags: self.flags,
            count: self.count,
            mappings: self.mappings@,
            xid: self.xid,
        }
    }
}

impl Clone for CheckpointMap {
    fn clone(&self) -> (r: Self)
        ensures
            r@ == self@,
    {
        let r = CheckpointMap {
            flags: self.flags,
            count: self.count,
            mappings: self.mappings.clone(),
            xid: self.xid,
        };
        assert(r.mappings@ =~= self.mappings@);
        r
    }
}

/// The mapping stored at offset `o`.
pub open spec fn mapping_of(b: Seq<u8>, o: int) -> CheckpointMapping {
    CheckpointMapping {
        object_type: le_u32(b, o),
        subtype: le_u32(b, o + 4),
        size: le_u32(b, o + 8),
        _pad: le_u32(b, o + 12),
        fs_oid: le_u64(b, o + 16),
        oid: le_u64(b, o + 24),
        paddr: le_u64(b, o + 32),
    }
}

/// The `n` mappings stored behind the counters of a checkpoint map.
pub open spec fn mappings_of(b: Seq<u8>, n: nat) -> Seq<CheckpointMapping> {
    Seq::new(n, |i: int| mapping_of(b, 40 + 40 * i))
}

/// The checkpoint map that a block holds.
pub open spec fn checkpoint_map_outcome(b: Seq<u8>) -> Result<CheckpointMapView, Fault> {
    if b.len() < 40 {
        Err(Fault::BadCatalog("checkpoint map too short"@))
    } else if b.len() < 40 + 40 * le_u32(b, 36) {
        Err(Fault::BadCatalog("checkpoint map mappings truncated"@))
    } else {
        Ok(
            CheckpointMapView {
                flags: le_u32(b, 32),
                count: le_u32(b, 36),
                mappings: mappings_of(b, le_u32(b, 36) as nat),
                xid: header_of(b).xid,
            },
        )
    }
}

/// The address of the first mapping of `oid` from `i` on.
pub open spec fn mapped_paddr(s: Seq<CheckpointMapping>, oid: u64, i: int) -> Option<u64>
    decreases s.len() - i,
{
    if i >= s.len() || i < 0 {
        None
    } else if s[i].oid == oid {
        Some(s[i].paddr)
    } else {
        mapped_paddr(s, oid, i + 1)
    }
}

impl CheckpointMap {
    pub fn parse(raw: &[u8]) -> (r: Result<Self, ApfsError>)
        ensures
            outcome(r) == checkpoint_map_outcome(raw@),
    {
        if raw.len() < 40 {
            return Err(bad_catalog("checkpoint map too short"));
        }
        let header = ObjectHeader::parse(raw)?;
        let flags: u32 = rd_u32(raw, 32);
        let count: u32 = rd_u32(raw, 36);
        let mut mappings: Vec<CheckpointMapping> = Vec::new();
        let mut i: u32 = 0;
        let mut off: usize = 40;
        assert(mappings@ =~= mappings_of(raw@, 0));
        while i < count
            invariant
                i <= count,
                count == le_u32(raw@, 36),
                raw.len() >= 40,
                off == 40 + 40 * i,
                off <= raw.len(),
                mappings@ == mappings_of(raw@, i as nat),
            decreases count - i,
        {
            if raw.len() - off < 40 {
                return Err(bad_catalog("checkpoint map mappings truncated"));
            }
            mappings.push(
                CheckpointMapping {
                    object_type: rd_u32(raw, off),
                    subtype: rd_u32(raw, off + 4),
                    size: rd_u32(raw, off + 8),
                    _pad: rd_u32(raw, off + 12),
                    fs_oid: rd_u64(raw, off + 16),
                    oid: rd_u64(raw, off + 24),
                    paddr: rd_u64(raw, off + 32),
                },
            );
            assert(mappings@ =~= mappings_of(raw@, (i + 1) as nat));
            off += 40;
            i += 1;
        }
        Ok(CheckpointMap { flags, count, mappings, xid: header.xid })
    }

    pub fn lookup(&self, oid: u64) -> (r: Option<u64>)
        ensures
            r == mapped_paddr(self@.mappings, oid, 0),
    {
        let mut i: usize = 0;
        while i < self.mappings.len()
            invariant
                i <= self.mappings.len(),
                mapped_paddr(self@.mappings, oid, 0) == mapped_paddr(
                    self@.mappings,
                    oid,
                    i as int,
                ),
            decreases self.mappings.len() - i,
        {
            if self.mappings[i].oid == oid {
                return Some(self.mappings[i].paddr);
            }
            i += 1;
        }
        None
    }
}

/// The checkpoint map in slot `i` of the descriptor ring, if the slot holds an
/// intact one that is not newer than the superblock.
pub open spec fn ring_map(disk: Seq<u8>, nx: NxView, i: int) -> Option<CheckpointMapView> {
    if nx.xp_desc_base + i > u64::MAX {
        None
    } else {
        match block_outcome(disk, (nx.xp_desc_base + i) as u64, nx.block_size) {
            Err(_) => None,
            Ok(b) => if !intact(b) || b.len() < 32 || header_of(b).object_type()
                != OBJECT_TYPE_CHECKPOINT_MAP {
                None
            } else {
                match checkpoint_map_outcome(b) {
                    Ok(m) => if m.xid > nx.header.xid { None } else { Some(m) },
                    Err(_) => None,
                }
            },
        }
    }
}

/// The newest mapping of `oid` among `best` and the ring slots from `i` on, as
/// transaction id and address. Of two maps of one transaction the first
/// counts.
pub open spec fn newest_mapping(
    disk: Seq<u8>,
    nx: NxView,
    oid: u64,
    i: int,
    best: Option<(u64, u64)>,
) -> Option<(u64, u64)>
    decreases nx.xp_desc_blocks - i,
{
    if i >= nx.xp_desc_blocks {
        best
    } else {
        newest_mapping(disk, nx, oid, i + 1, better_mapping(ring_map(disk, nx, i), oid, best))
    }
}

/// The newer one of `best` and the mapping of `oid` in a map.
pub open spec fn better_mapping(
    map: Option<CheckpointMapView>,
    oid: u64,
    best: Option<(u64, u64)>,
) -> Option<(u64, u64)> {
    match map {
        None => best,
        Some(m) => match mapped_paddr(m.mappings, oid, 0) {
            None => best,
            Some(p) => match best {
                Some((x, _)) => if x >= m.xid { best } else { Some((m.xid, p)) },
                None => Some((m.xid, p)),
            },
        },
    }
}

/// The address that the checkpoint maps give for an ephemeral OID.
pub open spec fn ephemeral_outcome(disk: Seq<u8>, nx: NxView, oid: u64) -> Result<u64, Fault> {
    match newest_mapping(disk, nx, oid, 0, None) {
        Some((_, p)) => Ok(p),
        None => Err(Fault::NotFound(msg_str("ephemeral oid "@, hex(oid as nat, 0), ""@))),
    }
}

fn read_ring_map<D: ReadAt>(dev: &D, nxsb: &NxSuperblock, i: u32) -> (r: Option<CheckpointMap>)
    ensures
        r matches Some(m) ==> ring_map(dev.bytes(), nxsb@, i as int) == Some(m@),
        dev.reliable() && r is None ==> ring_map(dev.bytes(), nxsb@, i as int) is None,
{
    let paddr: u64 = match nxsb.xp_desc_base.checked_add(i as u64) {
        Some(p) => p,
        None => {
            return None;
        },
    };
    let raw = match read_block(dev, paddr, nxsb.block_size) {
        Ok(b) => b,
        Err(_) => {
            return None;
        },
    };
    if !fletcher::verify_object(raw.as_slice()) {
        return None;
    }
    let header = match ObjectHeader::parse(raw.as_slice()) {
        Ok(h) => h,
        Err(_) => {
            return None;
        },
    };
    if header.object_type() != OBJECT_TYPE_CHECKPOINT_MAP {
        return None;
    }
    match CheckpointMap::parse(raw.as_slice()) {
        Ok(m) => if m.xid > nxsb.header.xid {
            None
        } else {
            Some(m)
        },
        Err(_) => None,
    }
}

/// Locate the latest address for an ephemeral OID by scanning checkpoint
/// maps. Slots that cannot be read are passed over; the address comes from an
/// intact map of the ring in any case.
pub fn resolve_ephemeral<D: ReadAt>(dev: &D, nxsb: &NxSuperblock, oid: u64) -> (r: Result<
    u64,
    ApfsError,
>)
    ensures
        dev.reliable() ==> plain(r) == ephemeral_outcome(dev.bytes(), nxsb@, oid),
        r matches Ok(p) ==> exists|i: int|
            0 <= i < nxsb.xp_desc_blocks && (#[trigger] ring_map(dev.bytes(), nxsb@, i) matches Some(
                m,
            ) && mapped_paddr(m.mappings, oid, 0) == Some(p)),
{
    let mut best: Option<(u64, u64)> = None;
    let mut i: u32 = 0;
    while i < nxsb.xp_desc_blocks
        invariant
            i <= nxsb.xp_desc_blocks,
            dev.reliable() ==> newest_mapping(dev.bytes(), nxsb@, oid, 0, None) == newest_mapping(
                dev.bytes(),
                nxsb@,
                oid,
                i as int,
                best,
            ),
            best matches Some((_, p)) ==> exists|k: int|
                0 <= k < nxsb.xp_desc_blocks && (#[trigger] ring_map(
                    dev.bytes(),
                    nxsb@,
                    k,
                ) matches Some(m) && mapped_paddr(m.mappings, oid, 0) == Some(p)),
        decreases nxsb.xp_desc_blocks - i,
    {
        match read_ring_map(dev, nxsb, i) {
            Some(map) => {
                assert(ring_map(dev.bytes(), nxsb@, i as int) == Some(map@));
                match map.lookup(oid) {
                    Some(paddr) => {
                        let newer = match best {
                            Some((x, _)) => x < map.xid,
                            None => true,
                        };
                        if newer {
                            best = Some((map.xid, paddr));
                        }
                    },
                    None => {},
                }
            },
            None => {},
        }
        i += 1;
    }
    match best {
        Some((_, p)) => Ok(p),
        None => Err(
            ApfsError::NotFound(text_str("ephemeral oid ", hex_string(oid, 0).as_str(), "")),
        ),
    }
}

/// A mapping that is found belongs to the newest map of the ring that covers
/// the OID.
pub proof fn law_newest_mapping_wins(disk: Seq<u8>, nx: NxView, oid: u64, i: int)
    requires
        0 <= i < nx.xp_desc_blocks,
        ring_map(disk, nx, i) is Some,
        mapped_paddr(ring_map(disk, nx, i)->0.mappings, oid, 0) is Some,
    ensures
        newest_mapping(disk, nx, oid, 0, None) matches Some((x, _)) && x >= ring_map(
            disk,
            nx,
            i,
        )->0.xid,
{
    lemma_newest_mapping(disk, nx, oid, 0, None, i);
}

proof fn lemma_newest_mapping(
    disk: Seq<u8>,
    nx: NxView,
    oid: u64,
    at: int,
    best: Option<(u64, u64)>,
    i: int,
)
    ensures
        best matches Some((b, _)) ==> (newest_mapping(disk, nx, oid, at, best) matches Some((x, _))
            && x >= b),
        at <= i < nx.xp_desc_blocks && ring_map(disk, nx, i) is Some && mapped_paddr(
            ring_map(disk, nx, i)->0.mappings,
            oid,
            0,
        ) is Some ==> (newest_mapping(disk, nx, oid, at, best) matches Some((x, _)) && x
            >= ring_map(disk, nx, i)->0.xid),
    decreases nx.xp_desc_blocks - at,
{
    if at < nx.xp_desc_blocks {
        let next = better_mapping(ring_map(disk, nx, at), oid, best);
        lemma_newest_mapping(disk, nx, oid, at + 1, next, i);
    }
}

/// The address of an object is that of its first mapping, and it has none if it
/// is not mapped.
pub proof fn law_first_mapping_counts(s: Seq<CheckpointMapping>, oid: u64, from: int)
    requires
        0 <= from <= s.len(),
    ensures
        match mapped_paddr(s, oid, from) {
            Some(p) => exists|k: int|
                from <= k < s.len() && (#[trigger] s[k]).oid == oid && s[k].paddr == p && (forall|
                    j: int,
                |
                    from <= j < k ==> (#[trigger] s[j]).oid != oid),
            None => forall|k: int| from <= k < s.len() ==> (#[trigger] s[k]).oid != oid,
        },
    decreases s.len() - from,
{
    if from < s.len() {
        if s[from].oid == oid {
            assert(s[from].paddr == mapped_paddr(s, oid, from)->0);
        } else {
            law_first_mapping_counts(s, oid, from + 1);
        }
    }
}

} // verus!

//! The state of a mounted volume and how it comes about.

use crate::apfs::btree::search::Found;
use crate::apfs::catalog::query::{path_outcome, record_hit, record_list};
use crate::apfs::catalog::records::InodeVal;
use crate::apfs::checkpoint::{ephemeral_outcome, mapped_paddr, resolve_ephemeral, ring_map};
use crate::apfs::device::ReadAt;
use crate::apfs::error::{ApfsError, Fault};
use crate::apfs::extents::sat;
use crate::apfs::object::{agrees, block_outcome, read_block};
use crate::apfs::omap::{omap_lookup, omap_outcome, omap_tree_root, read_omap_tree_root};
use crate::apfs::spaceman::{SpaceManager, Spaceman};
use crate::apfs::spaceman::layout::spaceman_at;
use crate::apfs::spaceman::manager::{less, SpaceView};
use crate::apfs::superblock::{
    apfs_outcome, find_latest_nxsb, first_nx, newest_nx, read_nxsb, ring_nx, ApfsSuperblock,
    ApfsView, NxSuperblock, NxView,
};
use crate::apfs::types::{VolumeInfo, VolumeInfoView};
use vstd::prelude::*;

verus! {

/// The feature bit of a volume that does not tell upper from lower case.
pub const CASE_INSENSITIVE: u64 = 0x8;

/// Owning handle to a mounted APFS volume on a device.
pub struct ApfsVolume<D: ReadAt> {
    pub dev: D,
    pub block_size: u32,
    pub vol_omap_root_block: u64,
    pub catalog_root_block: u64,
    pub nxsb: NxSuperblock,
    pub info: VolumeInfo,
    /// Next OID for new files and directories. Taken from the volume
    /// superblock at mount and not written back.
    pub next_obj_id: u64,
    /// Whether filenames are hashed in their lowercase form.
    pub case_insensitive: bool,
    /// The free bitmaps. Loaded on the first allocation; changes to them are
    /// not written back.
    pub spaceman: Option<SpaceManager>,
    pub spaceman_paddr: u64,
}

/// The contents of an [`ApfsVolume`], its device included.
#[verifier::ext_equal]
pub struct VolumeView {
    pub disk: Seq<u8>,
    pub block_size: u32,
    pub omap_root: u64,
    pub catalog_root: u64,
    pub nx: NxView,
    pub info: VolumeInfoView,
    pub next_obj_id: u64,
    pub case_insensitive: bool,
    pub space: Option<SpaceView>,
    pub spaceman_paddr: u64,
}

impl<D: ReadAt> View for ApfsVolume<D> {
    type V = VolumeView;

    open spec fn view(&self) -> VolumeView {
        VolumeView {
            disk: self.dev.bytes(),
            block_size: self.block_size,
            omap_root: self.vol_omap_root_block,
            catalog_root: self.catalog_root_block,
            nx: self.nxsb@,
            info: self.info@,
            next_obj_id: self.next_obj_id,
            case_insensitive: self.case_insensitive,
            space: match self.spaceman {
                Some(m) => Some(m@),
                None => None,
            },
            spaceman_paddr: self.spaceman_paddr,
        }
    }
}

impl VolumeView {
    /// What every volume keeps: blocks have a size, and the bitmaps fit the
    /// chunks.
    pub open spec fn wf(self) -> bool {
        &&& self.block_size > 0
        &&& self.space matches Some(m) ==> m.shaped()
    }

    /// The object that a path names.
    pub open spec fn resolve(self, path: Seq<char>) -> Result<(u64, InodeVal), Fault> {
        path_outcome(self.disk, self.catalog_root, self.omap_root, self.block_size, path)
    }

    /// The first record of `(oid, j_type)` and the address of its leaf.
    pub open spec fn hit(self, oid: u64, j_type: u8) -> Result<Option<(Seq<u8>, u64)>, Fault> {
        record_hit(self.disk, self.catalog_root, self.omap_root, self.block_size, oid, j_type)
    }

    /// All records of `(oid, j_type)` with the addresses of their leaves.
    pub open spec fn hits(self, oid: u64, j_type: u8) -> Result<Seq<Found>, Fault> {
        record_list(self.disk, self.catalog_root, self.omap_root, self.block_size, oid, j_type)
    }
}

/// The first volume that a container names.
pub open spec fn first_volume(fs_oids: Seq<u64>, i: int) -> Option<u64>
    decreases fs_oids.len() - i,
{
    if i >= fs_oids.len() || i < 0 {
        None
    } else if fs_oids[i] != 0 {
        Some(fs_oids[i])
    } else {
        first_volume(fs_oids, i + 1)
    }
}

/// What is said of a volume. Sizes that do not fit 64 bits are held down to
/// the largest number.
pub open spec fn info_of(nx: NxView, vol: ApfsView, free_blocks: u64) -> VolumeInfoView {
    let total = sat(nx.block_count * nx.block_size);
    let free = sat(free_blocks * nx.block_size);
    VolumeInfoView {
        name: vol.volume_name,
        block_size: nx.block_size,
        total_bytes: total,
        free_bytes: free,
        used_bytes: less(total as int, free as int) as u64,
        num_files: vol.num_files,
        num_directories: vol.num_directories,
        num_symlinks: vol.num_symlinks,
    }
}

/// The volume superblock that a container names first.
pub open spec fn volume_superblock(disk: Seq<u8>, nx: NxView) -> Result<ApfsView, Fault> {
    match omap_tree_root(disk, nx.omap_oid, nx.block_size) {
        Err(e) => Err(e),
        Ok(root) => match first_volume(nx.fs_oids, 0) {
            None => Err(Fault::NoVolume),
            Some(oid) => match omap_outcome(disk, root, nx.block_size, oid) {
                Err(e) => Err(e),
                Ok(paddr) => match block_outcome(disk, paddr, nx.block_size) {
                    Err(e) => Err(e),
                    Ok(b) => apfs_outcome(b),
                },
            },
        },
    }
}

/// The outcome of mounting with this superblock.
pub open spec fn mount_outcome(disk: Seq<u8>, nx: NxView) -> Result<VolumeView, Fault> {
    mount_at(disk, nx, ephemeral_outcome(disk, nx, nx.spaceman_oid))
}

/// Whether this is a volume as it is mounted from a disk, with a superblock
/// and a space manager that the disk names.
pub open spec fn mounted(disk: Seq<u8>, v: VolumeView) -> bool {
    &&& mount_at(disk, v.nx, Ok(v.spaceman_paddr)) == Ok::<VolumeView, Fault>(v)
    &&& v.space is None
    &&& names_superblock(disk, v.nx)
    &&& names_mapping(disk, v.nx, v.nx.spaceman_oid, v.spaceman_paddr)
}

/// The outcome of mounting with this superblock when the space manager was
/// looked for and found, or not.
pub open spec fn mount_at(disk: Seq<u8>, nx: NxView, spaceman: Result<u64, Fault>) -> Result<
    VolumeView,
    Fault,
> {
    match volume_superblock(disk, nx) {
        Err(e) => Err(e),
        Ok(vol) => match omap_tree_root(disk, vol.omap_oid, nx.block_size) {
            Err(e) => Err(e),
            Ok(omap_root) => match omap_outcome(
                disk,
                omap_root,
                nx.block_size,
                vol.root_tree_oid,
            ) {
                Err(e) => Err(e),
                Ok(catalog_root) => match spaceman {
                    Err(e) => Err(e),
                    Ok(spaceman_paddr) => match spaceman_at(
                        disk,
                        spaceman_paddr,
                        nx.block_size,
                    ) {
                        Err(e) => Err(e),
                        Ok(sm) => Ok(
                            VolumeView {
                                disk,
                                block_size: nx.block_size,
                                omap_root,
                                catalog_root,
                                nx,
                                info: info_of(nx, vol, sm.dev[0].free_count),
                                next_obj_id: vol.next_obj_id,
                                case_insensitive: vol.incompat_features & CASE_INSENSITIVE != 0,
                                space: None,
                                spaceman_paddr,
                            },
                        ),
                    },
                },
            },
        },
    }
}

/// The outcome of mounting the first volume on a device.
pub open spec fn open_outcome(disk: Seq<u8>) -> Result<VolumeView, Fault> {
    match first_nx(disk) {
        Err(e) => Err(e),
        Ok(seed) => mount_outcome(disk, newest_nx(disk, seed, 0, seed)),
    }
}

/// Whether this is the superblock in block 0 or one of the ring that it names.
pub open spec fn names_superblock(disk: Seq<u8>, nx: NxView) -> bool {
    first_nx(disk) matches Ok(seed) && (nx == seed || exists|i: int|
        0 <= i < seed.xp_desc_blocks && #[trigger] ring_nx(disk, seed, i) == Some(nx))
}

/// Whether a checkpoint map in the ring places an object here.
pub open spec fn names_mapping(disk: Seq<u8>, nx: NxView, oid: u64, paddr: u64) -> bool {
    exists|i: int|
        0 <= i < nx.xp_desc_blocks && (#[trigger] ring_map(disk, nx, i) matches Some(m)
            && mapped_paddr(m.mappings, oid, 0) == Some(paddr))
}

/// A volume, taken by view.
pub open spec fn volume_view<D: ReadAt>(r: Result<ApfsVolume<D>, ApfsError>) -> Result<
    VolumeView,
    Fault,
> {
    match r {
        Ok(v) => Ok(v@),
        Err(e) => Err(e@),
    }
}

fn product(a: u64, b: u32) -> (r: u64)
    ensures
        r == sat(a * b),
{
    assert(a * b >= 0) by (nonlinear_arith);
    match a.checked_mul(b as u64) {
        Some(p) => p,
        None => u64::MAX,
    }
}

fn find_volume(fs_oids: &[u64]) -> (r: Option<u64>)
    ensures
        r == first_volume(fs_oids@, 0),
{
    let mut i: usize = 0;
    while i < fs_oids.len()
        invariant
            i <= fs_oids.len(),
            first_volume(fs_oids@, 0) == first_volume(fs_oids@, i as int),
        decreases fs_oids.len() - i,
    {
        if fs_oids[i] != 0 {
            return Some(fs_oids[i]);
        }
        i += 1;
    }
    None
}

fn read_volume_superblock<D: ReadAt>(dev: &D, nxsb: &NxSuperblock) -> (r: Result<
    ApfsSuperblock,
    ApfsError,
>)
    ensures
        agrees(
            crate::apfs::error::outcome(r),
            volume_superblock(dev.bytes(), nxsb@),
            dev.reliable(),
        ),
        r is Ok ==> nxsb.block_size > 0,
{
    let root: u64 = read_omap_tree_root(dev, nxsb.omap_oid, nxsb.block_size)?;
    let vol_oid: u64 = match find_volume(nxsb.fs_oids.as_slice()) {
        Some(o) => o,
        None => {
            return Err(ApfsError::NoVolume);
        },
    };
    let vol_block: u64 = omap_lookup(dev, root, nxsb.block_size, vol_oid)?;
    let vol_data = read_block(dev, vol_block, nxsb.block_size)?;
    ApfsSuperblock::parse(vol_data.as_slice())
}

impl<D: ReadAt> ApfsVolume<D> {
    /// Mount the first non-empty volume in the container. Superblocks and
    /// checkpoint maps that cannot be read are passed over.
    pub fn open(dev: D) -> (r: Result<Self, ApfsError>)
        ensures
            dev.reliable() ==> volume_view(r) == open_outcome(dev.bytes()),
            r matches Ok(v) ==> v.dev == dev && v@.wf() && mounted(dev.bytes(), v@),
    {
        let seed = read_nxsb(&dev)?;
        let nxsb = find_latest_nxsb(&dev, &seed)?;
        let block_size: u32 = nxsb.block_size;
        let vol_sb = read_volume_superblock(&dev, &nxsb)?;
        let vol_omap_root_block: u64 = read_omap_tree_root(&dev, vol_sb.omap_oid, block_size)?;
        let catalog_root_block: u64 = omap_lookup(
            &dev,
            vol_omap_root_block,
            block_size,
            vol_sb.root_tree_oid,
        )?;
        let case_insensitive = vol_sb.incompat_features & CASE_INSENSITIVE != 0;
        let spaceman_paddr: u64 = resolve_ephemeral(&dev, &nxsb, nxsb.spaceman_oid)?;
        let spaceman = Spaceman::read(&dev, spaceman_paddr, block_size)?;
        let total_bytes: u64 = product(nxsb.block_count, block_size);
        let free_bytes: u64 = product(spaceman.main_free_count(), block_size);
        let used_bytes: u64 = if free_bytes <= total_bytes {
            total_bytes - free_bytes
        } else {
            0
        };
        let info = VolumeInfo {
            name: vol_sb.volume_name.clone(),
            block_size,
            total_bytes,
            free_bytes,
            used_bytes,
            num_files: vol_sb.num_files,
            num_directories: vol_sb.num_directories,
            num_symlinks: vol_sb.num_symlinks,
        };
        let next_obj_id: u64 = vol_sb.next_obj_id;
        Ok(
            ApfsVolume {
                dev,
                block_size,
                vol_omap_root_block,
                catalog_root_block,
                nxsb,
                info,
                next_obj_id,
                case_insensitive,
                spaceman: None,
                spaceman_paddr,
            },
        )
    }

    pub fn nxsb(&self) -> (n: &NxSuperblock)
        ensures
            n@ == self@.nx,
    {
        &self.nxsb
    }

    pub fn catalog_root_block(&self) -> (p: u64)
        ensures
            p == self@.catalog_root,
    {
        self.catalog_root_block
    }

    pub fn vol_omap_root_block(&self) -> (p: u64)
        ensures
            p == self@.omap_root,
    {
        self.vol_omap_root_block
    }

    pub fn volume_info(&self) -> (i: &VolumeInfo)
        ensures
            i@ == self@.info,
    {
        &self.info
    }
}

} // verus!

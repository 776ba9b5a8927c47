//! A partition on a disk that is read by whole sectors.

use crate::apfs::bytes::{copy_range, le_u32, le_u64, put_bytes, rd_u32, rd_u64, splice};
use crate::apfs::device::{in_range, ReadAt, WriteAt};
use crate::apfs::error::IoError;
use crate::apfs::extents::sat;
use crate::error::{settled, Error, Failure};
use vstd::prelude::*;

verus! {

pub const APFS_BLOCK_SIZE: u64 = 4096;

pub const SECTOR_SIZE: u64 = 512;

/// A reader over one partition of a disk. `dev` is the whole disk, on which
/// requests have to start and end at sector boundaries.
pub struct DiskReader<D: ReadAt> {
    pub dev: D,
    pub offset: u64,
    pub device_path: String,
}

/// Those of `count` bytes at `offset` that lie on the disk.
pub open spec fn reach(disk: Seq<u8>, offset: int, count: int) -> Seq<u8> {
    if offset >= disk.len() {
        seq![]
    } else if count <= disk.len() - offset {
        disk.subrange(offset, offset + count)
    } else {
        disk.skip(offset)
    }
}

/// The partition that starts at `offset`.
pub open spec fn partition(disk: Seq<u8>, offset: u64) -> Seq<u8> {
    if offset <= disk.len() { disk.skip(offset as int) } else { seq![] }
}

/// Widen the request for `count` bytes at `offset` to sector boundaries.
/// Returns where the wider request starts and how long it is. It ends at a
/// boundary, or at the end of the disk, whose size is `size`.
pub fn whole_sectors(offset: u64, count: u64, size: u64) -> (r: (u64, u64))
    requires
        offset + count <= size,
    ensures
        r.0 % SECTOR_SIZE == 0,
        r.0 <= offset < r.0 + SECTOR_SIZE,
        (r.0 + r.1) % SECTOR_SIZE as int == 0 || r.0 + r.1 == size,
        offset + count <= r.0 + r.1 <= size,
        r.0 + r.1 < offset + count + SECTOR_SIZE,
{
    let start: u64 = offset - offset % SECTOR_SIZE;
    let end: u64 = offset + count;
    let over: u64 = end % SECTOR_SIZE;
    let pad: u64 = if over == 0 {
        0
    } else {
        SECTOR_SIZE - over
    };
    if pad > size - end {
        (start, size - start)
    } else {
        (start, end + pad - start)
    }
}

/// The paddr that the first plausible record of `target` in a raw tree node
/// gives, looking at every eighth byte from `offset` on. A record is a
/// 16-byte key that starts with the object id, and a 16-byte value that ends
/// with the address.
pub open spec fn node_paddr(node: Seq<u8>, target: u64, offset: int) -> Option<u64>
    decreases node.len() - offset,
{
    if offset + 32 > node.len() || offset < 0 {
        None
    } else if le_u64(node, offset) == target && 0 < le_u64(node, offset + 24) < 1000000000 {
        Some(le_u64(node, offset + 24))
    } else {
        node_paddr(node, target, offset + 8)
    }
}

/// Look up `target` in a raw object map node, without parsing the node.
pub fn search_btree_node(node: &[u8], target: u64) -> (r: Result<u64, Error>)
    ensures
        settled(r) == (match node_paddr(node@, target, 72) {
            Some(p) => Ok::<u64, Failure>(p),
            None => Err(Failure::Apfs("Volume OID not found in object map"@)),
        }),
{
    let mut offset: usize = 72;
    while offset < node.len() && node.len() - offset >= 32
        invariant
            node_paddr(node@, target, 72) == node_paddr(node@, target, offset as int),
        decreases node.len() - offset,
    {
        let oid: u64 = rd_u64(node, offset);
        if oid == target {
            let paddr: u64 = rd_u64(node, offset + 24);
            if paddr > 0 && paddr < 1000000000 {
                return Ok(paddr);
            }
        }
        offset += 8;
    }
    Err(Error::Apfs("Volume OID not found in object map".to_string()))
}

/// The 4096 bytes of a partition at a byte offset.
pub open spec fn page(part: Seq<u8>, offset: int) -> Result<Seq<u8>, Failure> {
    if in_range(part.len(), offset, 4096) {
        Ok(part.subrange(offset, offset + 4096))
    } else {
        Err(Failure::Io(IoError::UnexpectedEof))
    }
}

/// The container size that the first block of a partition tells, held down to
/// what 64 bits can say.
pub open spec fn container_size(part: Seq<u8>) -> Result<u64, Failure> {
    match page(part, 0) {
        Err(e) => Err(e),
        Ok(b) => Ok(sat(le_u64(b, 40) * le_u32(b, 36))),
    }
}

/// The address of the volume that the container names first.
pub open spec fn volume_paddr(part: Seq<u8>, nx: Seq<u8>) -> Result<u64, Failure> {
    let block_size = le_u32(nx, 36);
    if le_u64(nx, 184) == 0 {
        Err(Failure::Apfs("No volume found in container"@))
    } else {
        match page(part, le_u64(nx, 160) * block_size) {
            Err(e) => Err(e),
            Ok(omap) => match page(part, le_u64(omap, 48) * block_size) {
                Err(e) => Err(e),
                Ok(node) => match node_paddr(node, le_u64(nx, 184), 72) {
                    None => Err(Failure::Apfs("Volume OID not found in object map"@)),
                    Some(p) => Ok(p),
                },
            },
        }
    }
}

/// How many blocks the first volume has had allocated and freed.
pub open spec fn volume_space(part: Seq<u8>) -> Result<(u64, u64), Failure> {
    match page(part, 0) {
        Err(e) => Err(e),
        Ok(nx) => match volume_paddr(part, nx) {
            Err(e) => Err(e),
            Ok(p) => match page(part, p * le_u32(nx, 36)) {
                Err(e) => Err(e),
                Ok(b) => Ok((le_u64(b, 224), le_u64(b, 232))),
            },
        },
    }
}

/// Agreement of an outcome with what the disk's contents call for. A disk that
/// is not reliable may fail where success was called for, and no more.
pub open spec fn meets<T>(r: Result<T, Failure>, called_for: Result<T, Failure>, reliable: bool) -> bool {
    r == called_for || (!reliable && r is Err)
}

/// What a page was read as, taken by view.
pub open spec fn page_view(r: Result<Vec<u8>, Error>) -> Result<Seq<u8>, Failure> {
    match r {
        Ok(v) => Ok(v@),
        Err(e) => Err(e@),
    }
}

impl<D: ReadAt> DiskReader<D> {
    /// A reader over the partition of `dev` that starts at `offset`.
    pub fn with_offset(dev: D, offset: u64, device_path: String) -> (d: Self)
        ensures
            d.dev == dev,
            d.offset == offset,
            d.device_path == device_path,
    {
        DiskReader { dev, offset, device_path }
    }

    /// The partition offset in bytes.
    pub fn partition_offset(&self) -> (o: u64)
        ensures
            o == self.offset,
    {
        self.offset
    }

    /// The path that the disk was opened by.
    pub fn device_path(&self) -> (p: &str)
        ensures
            p@ == self.device_path@,
    {
        self.device_path.as_str()
    }

    /// The size of the whole disk.
    pub fn size(&self) -> (n: u64)
        ensures
            n == self.dev.bytes().len(),
    {
        self.dev.size()
    }

    /// The bytes `offset..offset + count` of the disk, by whole sectors.
    fn fetch(&self, offset: u64, count: usize) -> (r: Result<Vec<u8>, IoError>)
        requires
            offset + count <= self.dev.bytes().len(),
        ensures
            match r {
                Ok(v) => v@ == self.dev.bytes().subrange(offset as int, offset + count),
                Err(_) => !self.dev.reliable(),
            },
    {
        let size: u64 = self.dev.size();
        let (start, len) = whole_sectors(offset, count as u64, size);
        if len > usize::MAX as u64 {
            return self.dev.read_at(offset, count);
        }
        let v = self.dev.read_at(start, len as usize)?;
        let lead: usize = (offset - start) as usize;
        proof {
            let disk = self.dev.bytes();
            assert(disk.subrange(start as int, start + len).subrange(lead as int, lead + count)
                =~= disk.subrange(offset as int, offset + count));
        }
        Ok(copy_range(v.as_slice(), lead, lead + count))
    }

    /// Read from an absolute disk offset. Handles sector alignment: disks are
    /// read by whole sectors. Returns how many bytes there were, which are
    /// fewer than `buf` takes only at the end of the disk.
    pub fn read_at_absolute(&self, absolute_offset: u64, buf: &mut [u8]) -> (r: Result<usize, Error>)
        ensures
            final(buf)@.len() == old(buf)@.len(),
            match r {
                Ok(n) => {
                    let there = reach(
                        self.dev.bytes(),
                        absolute_offset as int,
                        old(buf)@.len() as int,
                    );
                    n == there.len() && final(buf)@ == splice(old(buf)@, 0, there)
                },
                Err(_) => !self.dev.reliable() && final(buf)@ == old(buf)@,
            },
    {
        let size: u64 = self.dev.size();
        let want: usize = buf.len();
        if absolute_offset >= size || want == 0 {
            assert(buf@ =~= splice(buf@, 0, seq![]));
            assert(want == 0 && absolute_offset < size ==> reach(
                self.dev.bytes(),
                absolute_offset as int,
                0,
            ) =~= seq![]);
            return Ok(0);
        }
        let n: usize = if want as u64 <= size - absolute_offset {
            want
        } else {
            (size - absolute_offset) as usize
        };
        match self.fetch(absolute_offset, n) {
            Err(e) => Err(Error::Io(e)),
            Ok(v) => {
                assert(v@ =~= reach(self.dev.bytes(), absolute_offset as int, want as int));
                put_bytes(buf, 0, v.as_slice());
                Ok(n)
            },
        }
    }

    /// Read from a partition-relative offset.
    pub fn read_at(&self, physical_offset: u64, buf: &mut [u8]) -> (r: Result<usize, Error>)
        requires
            self.offset + physical_offset <= u64::MAX,
        ensures
            final(buf)@.len() == old(buf)@.len(),
            match r {
                Ok(n) => {
                    let there = reach(
                        self.dev.bytes(),
                        self.offset + physical_offset,
                        old(buf)@.len() as int,
                    );
                    n == there.len() && final(buf)@ == splice(old(buf)@, 0, there)
                },
                Err(_) => !self.dev.reliable() && final(buf)@ == old(buf)@,
            },
    {
        self.read_at_absolute(self.offset + physical_offset, buf)
    }

    /// Read from the start of a block of 4096 bytes of the partition.
    pub fn read_block(&self, block_num: u64, buffer: &mut [u8]) -> (r: Result<usize, Error>)
        requires
            self.offset + block_num * APFS_BLOCK_SIZE <= u64::MAX,
        ensures
            final(buffer)@.len() == old(buffer)@.len(),
            match r {
                Ok(n) => {
                    let there = reach(
                        self.dev.bytes(),
                        self.offset + block_num * APFS_BLOCK_SIZE,
                        old(buffer)@.len() as int,
                    );
                    n == there.len() && final(buffer)@ == splice(old(buffer)@, 0, there)
                },
                Err(_) => !self.dev.reliable() && final(buffer)@ == old(buffer)@,
            },
    {
        self.read_at(block_num * APFS_BLOCK_SIZE, buffer)
    }

    /// The 4096 bytes at `block * block_size` of the partition.
    fn read_page(&self, block: u64, block_size: u32) -> (r: Result<Vec<u8>, Error>)
        ensures
            meets(
                page_view(r),
                page(partition(self.dev.bytes(), self.offset), block * block_size),
                self.dev.reliable(),
            ),
    {
        let size: u64 = self.dev.size();
        assert(block * block_size >= 0) by (nonlinear_arith);
        let at: u64 = match block.checked_mul(block_size as u64) {
            Some(a) => a,
            None => {
                return Err(Error::Io(IoError::UnexpectedEof));
            },
        };
        if self.offset > size || at > size - self.offset || size - self.offset - at < 4096 {
            return Err(Error::Io(IoError::UnexpectedEof));
        }
        match self.fetch(self.offset + at, 4096) {
            Err(e) => Err(Error::Io(e)),
            Ok(v) => {
                proof {
                    let disk = self.dev.bytes();
                    assert(disk.skip(self.offset as int).subrange(at as int, at + 4096)
                        =~= disk.subrange(self.offset + at, self.offset + at + 4096));
                }
                Ok(v)
            },
        }
    }

    /// The container size that the superblock in block 0 of the partition
    /// tells.
    pub fn read_apfs_container_size(&self) -> (r: Result<u64, Error>)
        ensures
            meets(
                settled(r),
                container_size(partition(self.dev.bytes(), self.offset)),
                self.dev.reliable(),
            ),
    {
        let b = self.read_page(0, 4096)?;
        let block_size: u32 = rd_u32(b.as_slice(), 36);
        let block_count: u64 = rd_u64(b.as_slice(), 40);
        assert(block_count * block_size >= 0) by (nonlinear_arith);
        match block_count.checked_mul(block_size as u64) {
            Some(n) => Ok(n),
            None => Ok(u64::MAX),
        }
    }

    fn read_volume_paddr(&self, nx: &[u8]) -> (r: Result<u64, Error>)
        requires
            nx.len() == 4096,
        ensures
            meets(
                settled(r),
                volume_paddr(partition(self.dev.bytes(), self.offset), nx@),
                self.dev.reliable(),
            ),
    {
        let block_size: u32 = rd_u32(nx, 36);
        let nx_omap_oid: u64 = rd_u64(nx, 160);
        let volume_oid: u64 = rd_u64(nx, 184);
        if volume_oid == 0 {
            return Err(Error::Apfs("No volume found in container".to_string()));
        }
        let omap = self.read_page(nx_omap_oid, block_size)?;
        let om_tree_oid: u64 = rd_u64(omap.as_slice(), 48);
        let node = self.read_page(om_tree_oid, block_size)?;
        search_btree_node(node.as_slice(), volume_oid)
    }

    /// How many blocks the first volume has had allocated and freed, as its
    /// superblock tells.
    pub fn read_apfs_volume_space(&self) -> (r: Result<(u64, u64), Error>)
        ensures
            meets(
                settled(r),
                volume_space(partition(self.dev.bytes(), self.offset)),
                self.dev.reliable(),
            ),
    {
        let nx = self.read_page(0, 4096)?;
        let block_size: u32 = rd_u32(nx.as_slice(), 36);
        let paddr: u64 = self.read_volume_paddr(nx.as_slice())?;
        let b = self.read_page(paddr, block_size)?;
        let alloced: u64 = rd_u64(b.as_slice(), 224);
        let freed: u64 = rd_u64(b.as_slice(), 232);
        Ok((alloced, freed))
    }
}

impl<D: ReadAt> ReadAt for DiskReader<D> {
    open spec fn bytes(&self) -> Seq<u8> {
        partition(self.dev.bytes(), self.offset)
    }

    open spec fn reliable(&self) -> bool {
        self.dev.reliable()
    }

    fn size(&self) -> (n: u64) {
        let size: u64 = self.dev.size();
        if self.offset <= size {
            size - self.offset
        } else {
            0
        }
    }

    fn read_at(&self, offset: u64, count: usize) -> (r: Result<Vec<u8>, IoError>) {
        let size: u64 = self.dev.size();
        if self.offset > size || offset > size - self.offset || count as u64 > size - self.offset
            - offset {
            if self.offset > size && offset == 0 && count == 0 {
                let v: Vec<u8> = Vec::new();
                assert(v@ =~= self.bytes().subrange(0, 0));
                return Ok(v);
            }
            return Err(IoError::UnexpectedEof);
        }
        proof {
            let disk = self.dev.bytes();
            assert(disk.skip(self.offset as int).subrange(offset as int, offset + count)
                =~= disk.subrange(self.offset + offset, self.offset + offset + count));
        }
        self.fetch(self.offset + offset, count)
    }
}

impl<D: WriteAt> WriteAt for DiskReader<D> {
    fn write_at(&mut self, offset: u64, data: &[u8]) -> (r: Result<(), IoError>) {
        let size: u64 = self.dev.size();
        if self.offset > size || offset > size - self.offset || data.len() as u64 > size
            - self.offset - offset {
            if self.offset > size && offset == 0 && data.len() == 0 {
                assert(self.bytes() =~= splice(self.bytes(), 0, data@));
                return Ok(());
            }
            return Err(IoError::WriteZero);
        }
        let ghost disk = self.dev.bytes();
        let r = self.dev.write_at(self.offset + offset, data);
        proof {
            if r is Ok {
                assert(splice(disk, self.offset + offset, data@).skip(self.offset as int)
                    =~= splice(disk.skip(self.offset as int), offset as int, data@));
            }
        }
        r
    }

    fn flush(&mut self) -> (r: Result<(), IoError>) {
        self.dev.flush()
    }
}

proof fn lemma_node_paddr(node: Seq<u8>, target: u64, from: int)
    requires
        0 <= from,
    ensures
        match node_paddr(node, target, from) {
            Some(p) => exists|k: int| #[trigger] has_record(node, target, from + 8 * k, p) && k >= 0
                && forall|j: int, q: u64|
                    0 <= j < k ==> !(#[trigger] has_record(node, target, from + 8 * j, q)),
            None => forall|k: int, q: u64|
                k >= 0 ==> !(#[trigger] has_record(node, target, from + 8 * k, q)),
        },
    decreases node.len() - from,
{
    if from + 32 <= node.len() {
        if let Some(p) = node_paddr(node, target, from) {
            if has_record(node, target, from, p) {
                assert(has_record(node, target, from + 8 * 0, p));
            } else {
                lemma_node_paddr(node, target, from + 8);
                let k = choose|k: int| #[trigger]
                    has_record(node, target, from + 8 + 8 * k, p) && k >= 0 && forall|
                        j: int,
                        q: u64,
                    |
                        0 <= j < k ==> !(#[trigger] has_record(
                            node,
                            target,
                            from + 8 + 8 * j,
                            q,
                        ));
                assert(from + 8 + 8 * k == from + 8 * (k + 1));
                assert(has_record(node, target, from + 8 * (k + 1), p));
                assert forall|j: int, q: u64| 0 <= j < k + 1 implies !(#[trigger] has_record(
                    node,
                    target,
                    from + 8 * j,
                    q,
                )) by {
                    if j > 0 {
                        assert(from + 8 * j == from + 8 + 8 * (j - 1));
                        assert(!has_record(node, target, from + 8 + 8 * (j - 1), q));
                    }
                }
            }
        } else {
            lemma_node_paddr(node, target, from + 8);
            assert forall|k: int, q: u64| k >= 0 implies !(#[trigger] has_record(
                node,
                target,
                from + 8 * k,
                q,
            )) by {
                if k > 0 {
                    assert(from + 8 * k == from + 8 + 8 * (k - 1));
                    assert(!has_record(node, target, from + 8 + 8 * (k - 1), q));
                }
            }
        }
    }
}

/// Whether a record of `target` with the address `p` stands at a place of a raw
/// node: the object id, and the address 24 bytes behind it, which is above 0
/// and below 1000000000.
pub open spec fn has_record(node: Seq<u8>, target: u64, o: int, p: u64) -> bool {
    &&& o + 32 <= node.len()
    &&& le_u64(node, o) == target
    &&& le_u64(node, o + 24) == p
    &&& 0 < p < 1000000000
}

/// Looking up an object in a raw node gives the address of its first record, at
/// every eighth byte from byte 72 on, and nothing where it has none.
pub proof fn law_first_record_is_found(node: Seq<u8>, target: u64)
    ensures
        match node_paddr(node, target, 72) {
            Some(p) => exists|k: int| #[trigger] has_record(node, target, 72 + 8 * k, p) && k >= 0
                && forall|j: int, q: u64|
                    0 <= j < k ==> !(#[trigger] has_record(node, target, 72 + 8 * j, q)),
            None => forall|k: int, q: u64|
                k >= 0 ==> !(#[trigger] has_record(node, target, 72 + 8 * k, q)),
        },
{
    lemma_node_paddr(node, target, 72);
}

/// The size of a container is its number of blocks, at byte 40, times their
/// size, at byte 36, as far as 64 bits can say it. A partition of less than
/// 4096 bytes tells none.
pub proof fn law_container_size(part: Seq<u8>)
    ensures
        part.len() < 4096 <==> container_size(part) is Err,
        container_size(part) matches Ok(n) ==> {
            let product = le_u64(part, 40) * le_u32(part, 36);
            &&& product <= u64::MAX ==> n == product
            &&& product > u64::MAX ==> n == u64::MAX
        },
{
    if part.len() >= 4096 {
        let b = part.subrange(0, 4096);
        assert(b.subrange(40, 48) =~= part.subrange(40, 48));
        assert(b.subrange(36, 40) =~= part.subrange(36, 40));
    }
}

/// A read of the disk gives the bytes from its offset on, as many as were asked
/// for or as there are.
pub proof fn law_reach(disk: Seq<u8>, offset: int, count: int, k: int)
    requires
        0 <= offset,
        0 <= count,
    ensures
        offset >= disk.len() ==> reach(disk, offset, count).len() == 0,
        offset + count <= disk.len() ==> reach(disk, offset, count).len() == count,
        offset < disk.len() < offset + count ==> reach(disk, offset, count).len() == disk.len()
            - offset,
        0 <= k < reach(disk, offset, count).len() ==> reach(disk, offset, count)[k] == disk[offset
            + k],
{
}

/// A partition is what lies on the disk from its offset on.
pub proof fn law_partition(disk: Seq<u8>, offset: u64, k: int)
    ensures
        offset <= disk.len() ==> partition(disk, offset).len() == disk.len() - offset,
        0 <= k < partition(disk, offset).len() ==> partition(disk, offset)[k] == disk[offset + k],
{
}

} // verus!

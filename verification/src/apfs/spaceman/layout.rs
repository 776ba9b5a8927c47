//! The on-disk structures of the space manager.

use crate::apfs::bytes::{copy_range, le_u16, le_u32, le_u64, rd_u16, rd_u32, rd_u64};
use crate::apfs::device::ReadAt;
use crate::apfs::error::{bad_catalog, outcome, unsupported, ApfsError, Fault};
use crate::apfs::object::{agrees, block_outcome, read_block};
use crate::apfs::text::{msg2, text2};
use vstd::prelude::*;

verus! {

pub const SD_MAIN: usize = 0;

pub const SD_TIER2: usize = 1;

pub const SD_COUNT: usize = 2;

pub const SFQ_COUNT: usize = 3;

#[derive(Debug, Clone, Copy)]
pub struct SpacemanDevice {
    pub block_count: u64,
    pub chunk_count: u64,
    pub cib_count: u32,
    pub cab_count: u32,
    pub free_count: u64,
    pub addr_offset: u32,
    pub _reserved: u32,
    pub _reserved2: u64,
}

/// The device record at `o`.
pub open spec fn device_at(b: Seq<u8>, o: int) -> SpacemanDevice {
    SpacemanDevice {
        block_count: le_u64(b, o),
        chunk_count: le_u64(b, o + 8),
        cib_count: le_u32(b, o + 16),
        cab_count: le_u32(b, o + 20),
        free_count: le_u64(b, o + 24),
        addr_offset: le_u32(b, o + 32),
        _reserved: le_u32(b, o + 36),
        _reserved2: le_u64(b, o + 40),
    }
}

impl SpacemanDevice {
    pub const SIZE: usize = 48;

    fn parse_at(b: &[u8], o: usize) -> (d: Self)
        requires
            o + 48 <= b@.len(),
        ensures
            d == device_at(b@, o as int),
    {
        let _len: usize = b.len();
        SpacemanDevice {
            block_count: rd_u64(b, o),
            chunk_count: rd_u64(b, o + 8),
            cib_count: rd_u32(b, o + 16),
            cab_count: rd_u32(b, o + 20),
            free_count: rd_u64(b, o + 24),
            addr_offset: rd_u32(b, o + 32),
            _reserved: rd_u32(b, o + 36),
            _reserved2: rd_u64(b, o + 40),
        }
    }
}

#[derive(Debug, Clone, Copy)]
pub struct SpacemanFreeQueue {
    pub count: u64,
    pub tree_oid: u64,
    pub oldest_xid: u64,
    pub tree_node_limit: u16,
    pub _pad16: u16,
    pub _pad32: u32,
    pub _reserved: u64,
}

/// The free queue record at `o`.
pub open spec fn queue_at(b: Seq<u8>, o: int) -> SpacemanFreeQueue {
    SpacemanFreeQueue {
        count: le_u64(b, o),
        tree_oid: le_u64(b, o + 8),
        oldest_xid: le_u64(b, o + 16),
        tree_node_limit: le_u16(b, o + 24),
        _pad16: le_u16(b, o + 26),
        _pad32: le_u32(b, o + 28),
        _reserved: le_u64(b, o + 32),
    }
}

impl SpacemanFreeQueue {
    pub const SIZE: usize = 40;

    fn parse_at(b: &[u8], o: usize) -> (q: Self)
        requires
            o + 40 <= b@.len(),
        ensures
            q == queue_at(b@, o as int),
    {
        let _len: usize = b.len();
        SpacemanFreeQueue {
            count: rd_u64(b, o),
            tree_oid: rd_u64(b, o + 8),
            oldest_xid: rd_u64(b, o + 16),
            tree_node_limit: rd_u16(b, o + 24),
            _pad16: rd_u16(b, o + 26),
            _pad32: rd_u32(b, o + 28),
            _reserved: rd_u64(b, o + 32),
        }
    }
}

/// Space manager object (`spaceman_phys_t`).
#[derive(Debug)]
pub struct Spaceman {
    pub block_size: u32,
    pub blocks_per_chunk: u32,
    pub chunks_per_cib: u32,
    pub cibs_per_cab: u32,
    pub dev: [SpacemanDevice; SD_COUNT],
    pub flags: u32,
    pub ip_bm_tx_multiplier: u32,
    pub ip_block_count: u64,
    pub ip_bm_size_in_blocks: u32,
    pub ip_bm_block_count: u32,
    pub ip_bm_base: u64,
    pub ip_base: u64,
    pub fs_reserve_block_count: u64,
    pub fs_reserve_alloc_count: u64,
    pub fq: [SpacemanFreeQueue; SFQ_COUNT],
    pub main_cib_addrs: Vec<u64>,
    pub raw_block: Vec<u8>,
    pub paddr: u64,
}

/// The contents of a [`Spaceman`].
#[verifier::ext_equal]
pub struct SpacemanView {
    pub block_size: u32,
    pub blocks_per_chunk: u32,
    pub chunks_per_cib: u32,
    pub cibs_per_cab: u32,
    pub dev: Seq<SpacemanDevice>,
    pub flags: u32,
    pub ip_bm_tx_multiplier: u32,
    pub ip_block_count: u64,
    pub ip_bm_size_in_blocks: u32,
    pub ip_bm_block_count: u32,
    pub ip_bm_base: u64,
    pub ip_base: u64,
    pub fs_reserve_block_count: u64,
    pub fs_reserve_alloc_count: u64,
    pub fq: Seq<SpacemanFreeQueue>,
    pub main_cib_addrs: Seq<u64>,
    pub raw_block: Seq<u8>,
    pub paddr: u64,
}

impl View for Spaceman {
    type V = SpacemanView;

    open spec fn view(&self) -> SpacemanView {
        SpacemanView {
            block_size: self.block_size,
            blocks_per_chunk: self.blocks_per_chunk,
            chunks_per_cib: self.chunks_per_cib,
            cibs_per_cab: self.cibs_per_cab,
            dev: self.dev@,
            flags: self.flags,
            ip_bm_tx_multiplier: self.ip_bm_tx_multiplier,
            ip_block_count: self.ip_block_count,
            ip_bm_size_in_blocks: self.ip_bm_size_in_blocks,
            ip_bm_block_count: self.ip_bm_block_count,
            ip_bm_base: self.ip_bm_base,
            ip_base: self.ip_base,
            fs_reserve_block_count: self.fs_reserve_block_count,
            fs_reserve_alloc_count: self.fs_reserve_alloc_count,
            fq: self.fq@,
            main_cib_addrs: self.main_cib_addrs@,
            raw_block: self.raw_block@,
            paddr: self.paddr,
        }
    }
}

impl Clone for Spaceman {
    fn clone(&self) -> (r: Self)
        ensures
            r@ == self@,
    {
        let r = Spaceman {
            block_size: self.block_size,
            blocks_per_chunk: self.blocks_per_chunk,
            chunks_per_cib: self.chunks_per_cib,
            cibs_per_cab: self.cibs_per_cab,
            dev: [self.dev[0], self.dev[1]],
            flags: self.flags,
            ip_bm_tx_multiplier: self.ip_bm_tx_multiplier,
            ip_block_count: self.ip_block_count,
            ip_bm_size_in_blocks: self.ip_bm_size_in_blocks,
            ip_bm_block_count: self.ip_bm_block_count,
            ip_bm_base: self.ip_bm_base,
            ip_base: self.ip_base,
            fs_reserve_block_count: self.fs_reserve_block_count,
            fs_reserve_alloc_count: self.fs_reserve_alloc_count,
            fq: [self.fq[0], self.fq[1], self.fq[2]],
            main_cib_addrs: self.main_cib_addrs.clone(),
            raw_block: self.raw_block.clone(),
            paddr: self.paddr,
        };
        assert(r.dev@ =~= self.dev@);
        assert(r.fq@ =~= self.fq@);
        assert(r.main_cib_addrs@ =~= self.main_cib_addrs@);
        assert(r.raw_block@ =~= self.raw_block@);
        r
    }
}

/// The space manager in a block, which is long enough.
pub open spec fn spaceman_of(raw: Seq<u8>, paddr: u64) -> SpacemanView {
    let main = device_at(raw, 48);
    SpacemanView {
        block_size: le_u32(raw, 32),
        blocks_per_chunk: le_u32(raw, 36),
        chunks_per_cib: le_u32(raw, 40),
        cibs_per_cab: le_u32(raw, 44),
        dev: seq![main, device_at(raw, 96)],
        flags: le_u32(raw, 144),
        ip_bm_tx_multiplier: le_u32(raw, 148),
        ip_block_count: le_u64(raw, 152),
        ip_bm_size_in_blocks: le_u32(raw, 160),
        ip_bm_block_count: le_u32(raw, 164),
        ip_bm_base: le_u64(raw, 168),
        ip_base: le_u64(raw, 176),
        fs_reserve_block_count: le_u64(raw, 184),
        fs_reserve_alloc_count: le_u64(raw, 192),
        fq: seq![queue_at(raw, 200), queue_at(raw, 240), queue_at(raw, 280)],
        main_cib_addrs: Seq::new(
            main.cib_count as nat,
            |i: int| le_u64(raw, main.addr_offset + 8 * i),
        ),
        raw_block: raw,
        paddr,
    }
}

/// The outcome of reading the space manager in a block.
pub open spec fn spaceman_outcome(raw: Seq<u8>, paddr: u64) -> Result<SpacemanView, Fault> {
    let main = device_at(raw, 48);
    if raw.len() < 288 {
        Err(Fault::BadCatalog("spaceman block too short"@))
    } else if raw.len() < 320 {
        Err(Fault::BadCatalog("spaceman fq truncated"@))
    } else if main.cab_count != 0 {
        Err(Fault::Unsupported("spaceman with CAB indirection (large container)"@))
    } else if main.addr_offset + 8 * main.cib_count > raw.len() {
        Err(
            Fault::BadCatalog(
                msg2(
                    "spaceman cib addr_offset "@,
                    main.addr_offset as nat,
                    " oob (block "@,
                    raw.len(),
                    ")"@,
                ),
            ),
        )
    } else {
        Ok(spaceman_of(raw, paddr))
    }
}

impl Spaceman {
    pub fn read<D: ReadAt>(dev: &D, paddr: u64, block_size: u32) -> (r: Result<Self, ApfsError>)
        ensures
            agrees(
                outcome(r),
                spaceman_at(dev.bytes(), paddr, block_size),
                dev.reliable(),
            ),
    {
        let raw = read_block(dev, paddr, block_size)?;
        Self::parse(raw.as_slice(), paddr)
    }

    pub fn parse(raw: &[u8], paddr: u64) -> (r: Result<Self, ApfsError>)
        ensures
            outcome(r) == spaceman_outcome(raw@, paddr),
    {
        if raw.len() < 288 {
            return Err(bad_catalog("spaceman block too short"));
        }
        if raw.len() < 320 {
            return Err(bad_catalog("spaceman fq truncated"));
        }
        let dev = [SpacemanDevice::parse_at(raw, 48), SpacemanDevice::parse_at(raw, 96)];
        let fq = [
            SpacemanFreeQueue::parse_at(raw, 200),
            SpacemanFreeQueue::parse_at(raw, 240),
            SpacemanFreeQueue::parse_at(raw, 280),
        ];
        let main = dev[SD_MAIN];
        if main.cab_count != 0 {
            return Err(unsupported("spaceman with CAB indirection (large container)"));
        }
        let off: u64 = main.addr_offset as u64;
        let count: u64 = main.cib_count as u64;
        if off + 8 * count > raw.len() as u64 {
            return Err(
                ApfsError::BadCatalog(
                    text2("spaceman cib addr_offset ", off, " oob (block ", raw.len() as u64, ")"),
                ),
            );
        }
        let ghost want = spaceman_of(raw@, paddr).main_cib_addrs;
        let len: usize = raw.len();
        let mut main_cib_addrs: Vec<u64> = Vec::new();
        let mut i: u64 = 0;
        while i < count
            invariant
                i <= count,
                len == raw@.len(),
                off + 8 * count <= len,
                off == device_at(raw@, 48).addr_offset,
                want.len() == count,
                want == spaceman_of(raw@, paddr).main_cib_addrs,
                main_cib_addrs@ == want.take(i as int),
            decreases count - i,
        {
            main_cib_addrs.push(rd_u64(raw, (off + 8 * i) as usize));
            assert(main_cib_addrs@ =~= want.take(i + 1));
            i += 1;
        }
        let copy = copy_range(raw, 0, raw.len());
        let sm = Spaceman {
            block_size: rd_u32(raw, 32),
            blocks_per_chunk: rd_u32(raw, 36),
            chunks_per_cib: rd_u32(raw, 40),
            cibs_per_cab: rd_u32(raw, 44),
            dev,
            flags: rd_u32(raw, 144),
            ip_bm_tx_multiplier: rd_u32(raw, 148),
            ip_block_count: rd_u64(raw, 152),
            ip_bm_size_in_blocks: rd_u32(raw, 160),
            ip_bm_block_count: rd_u32(raw, 164),
            ip_bm_base: rd_u64(raw, 168),
            ip_base: rd_u64(raw, 176),
            fs_reserve_block_count: rd_u64(raw, 184),
            fs_reserve_alloc_count: rd_u64(raw, 192),
            fq,
            main_cib_addrs,
            raw_block: copy,
            paddr,
        };
        assert(sm@ =~= spaceman_of(raw@, paddr));
        Ok(sm)
    }

    pub fn main_free_count(&self) -> (n: u64)
        ensures
            n == self@.dev[0].free_count,
    {
        self.dev[SD_MAIN].free_count
    }

    pub fn main_block_count(&self) -> (n: u64)
        ensures
            n == self@.dev[0].block_count,
    {
        self.dev[SD_MAIN].block_count
    }
}

/// The space manager in the block at `paddr`.
pub open spec fn spaceman_at(disk: Seq<u8>, paddr: u64, block_size: u32) -> Result<
    SpacemanView,
    Fault,
> {
    match block_outcome(disk, paddr, block_size) {
        Err(e) => Err(e),
        Ok(raw) => spaceman_outcome(raw, paddr),
    }
}

#[derive(Debug, Clone, Copy)]
pub struct ChunkInfo {
    pub xid: u64,
    pub addr: u64,
    pub block_count: u32,
    pub free_count: u32,
    pub bitmap_addr: u64,
}

/// The chunk record at `o`.
pub open spec fn chunk_info_at(b: Seq<u8>, o: int) -> ChunkInfo {
    ChunkInfo {
        xid: le_u64(b, o),
        addr: le_u64(b, o + 8),
        block_count: le_u32(b, o + 16),
        free_count: le_u32(b, o + 20),
        bitmap_addr: le_u64(b, o + 24),
    }
}

impl ChunkInfo {
    pub const SIZE: usize = 32;

    fn parse_at(b: &[u8], o: usize) -> (c: Self)
        requires
            o + 32 <= b@.len(),
        ensures
            c == chunk_info_at(b@, o as int),
    {
        let _len: usize = b.len();
        ChunkInfo {
            xid: rd_u64(b, o),
            addr: rd_u64(b, o + 8),
            block_count: rd_u32(b, o + 16),
            free_count: rd_u32(b, o + 20),
            bitmap_addr: rd_u64(b, o + 24),
        }
    }
}

/// Chunk info block (`chunk_info_block_t`).
#[derive(Debug)]
pub struct ChunkInfoBlock {
    pub index: u32,
    pub chunk_info_count: u32,
    pub chunks: Vec<ChunkInfo>,
    pub raw_block: Vec<u8>,
    pub paddr: u64,
}

/// The contents of a [`ChunkInfoBlock`].
#[verifier::ext_equal]
pub struct CibView {
    pub index: u32,
    pub chunk_info_count: u32,
    pub chunks: Seq<ChunkInfo>,
    pub raw_block: Seq<u8>,
    pub paddr: u64,
}

impl View for ChunkInfoBlock {
    type V = CibView;

    open spec fn view(&self) -> CibView {
        CibView {
            index: self.index,
            chunk_info_count: self.chunk_info_count,
            chunks: self.chunks@,
            raw_block: self.raw_block@,
            paddr: self.paddr,
        }
    }
}

impl Clone for ChunkInfoBlock {
    fn clone(&self) -> (r: Self)
        ensures
            r@ == self@,
    {
        let r = ChunkInfoBlock {
            index: self.index,
            chunk_info_count: self.chunk_info_count,
            chunks: self.chunks.clone(),
            raw_block: self.raw_block.clone(),
            paddr: self.paddr,
        };
        assert(r.chunks@ =~= self.chunks@);
        assert(r.raw_block@ =~= self.raw_block@);
        r
    }
}

/// The chunk info block in a block, which is long enough.
pub open spec fn cib_of(raw: Seq<u8>, paddr: u64) -> CibView {
    CibView {
        index: le_u32(raw, 32),
        chunk_info_count: le_u32(raw, 36),
        chunks: Seq::new(le_u32(raw, 36) as nat, |i: int| chunk_info_at(raw, 40 + 32 * i)),
        raw_block: raw,
        paddr,
    }
}

/// The outcome of reading the chunk info block in a block.
pub open spec fn cib_outcome(raw: Seq<u8>, paddr: u64) -> Result<CibView, Fault> {
    if raw.len() < 40 {
        Err(Fault::BadCatalog("CIB too short"@))
    } else if 40 + 32 * le_u32(raw, 36) > raw.len() {
        Err(Fault::BadCatalog("chunk_info truncated"@))
    } else {
        Ok(cib_of(raw, paddr))
    }
}

/// The chunk info block in the block at `paddr`.
pub open spec fn cib_at(disk: Seq<u8>, paddr: u64, block_size: u32) -> Result<CibView, Fault> {
    match block_outcome(disk, paddr, block_size) {
        Err(e) => Err(e),
        Ok(raw) => cib_outcome(raw, paddr),
    }
}

impl ChunkInfoBlock {
    pub fn read<D: ReadAt>(dev: &D, paddr: u64, block_size: u32) -> (r: Result<Self, ApfsError>)
        ensures
            agrees(outcome(r), cib_at(dev.bytes(), paddr, block_size), dev.reliable()),
    {
        let raw = read_block(dev, paddr, block_size)?;
        Self::parse(raw.as_slice(), paddr)
    }

    pub fn parse(raw: &[u8], paddr: u64) -> (r: Result<Self, ApfsError>)
        ensures
            outcome(r) == cib_outcome(raw@, paddr),
    {
        if raw.len() < 40 {
            return Err(bad_catalog("CIB too short"));
        }
        let count: u32 = rd_u32(raw, 36);
        if 40 + 32 * (count as u64) > raw.len() as u64 {
            return Err(bad_catalog("chunk_info truncated"));
        }
        let ghost want = cib_of(raw@, paddr).chunks;
        let len: usize = raw.len();
        let mut chunks: Vec<ChunkInfo> = Vec::new();
        let mut i: u32 = 0;
        while i < count
            invariant
                i <= count,
                len == raw@.len(),
                40 + 32 * count <= len,
                want.len() == count,
                want == cib_of(raw@, paddr).chunks,
                chunks@ == want.take(i as int),
            decreases count - i,
        {
            chunks.push(ChunkInfo::parse_at(raw, (40 + 32 * (i as u64)) as usize));
            assert(chunks@ =~= want.take(i + 1));
            i += 1;
        }
        let copy = copy_range(raw, 0, raw.len());
        let cib = ChunkInfoBlock {
            index: rd_u32(raw, 32),
            chunk_info_count: count,
            chunks,
            raw_block: copy,
            paddr,
        };
        assert(cib@ =~= cib_of(raw@, paddr));
        Ok(cib)
    }
}

} // verus!

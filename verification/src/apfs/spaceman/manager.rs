//! The allocator over the chunk bitmaps.

use crate::apfs::bytes::{zero_bytes, zeroed};
use crate::apfs::device::ReadAt;
use crate::apfs::error::{internal, outcome, plain, unsupported, ApfsError, Fault};
use crate::apfs::object::{agrees, block_outcome, read_block};
use crate::apfs::spaceman::bits::{
    any_run, bit, clear_bit, cleared, find_clear_run, find_first_clear_bit, find_first_clear_run,
    first_clear, first_run, get_bit, is_set, lemma_first_clear, lemma_first_run, lemma_run_length,
    lemma_set_length, lemma_without_bit, marked, set_bit, set_length, without_bit,
};
use crate::apfs::spaceman::layout::{
    cib_at, spaceman_at, ChunkInfo, ChunkInfoBlock, CibView, Spaceman, SpacemanDevice, SpacemanView,
    SD_MAIN, SD_TIER2,
};
use crate::apfs::text::{decimal_string_wide, msg1, text1, text_str};
use vstd::prelude::*;

verus! {

/// The allocator: the space manager, its chunk info blocks and one bitmap per
/// chunk. A set bit is a used block. Changes stay in memory.
pub struct SpaceManager {
    pub spaceman: Spaceman,
    pub cibs: Vec<ChunkInfoBlock>,
    pub bitmaps: Vec<Vec<u8>>,
    pub dirty: Vec<bool>,
    pub block_size: u32,
}

/// The contents of a [`SpaceManager`].
#[verifier::ext_equal]
pub struct SpaceView {
    pub spaceman: SpacemanView,
    pub cibs: Seq<CibView>,
    pub bitmaps: Seq<Seq<u8>>,
    pub dirty: Seq<bool>,
    pub block_size: u32,
}

/// Chunk info blocks, taken by view.
pub open spec fn cibs_view(s: Seq<ChunkInfoBlock>) -> Seq<CibView> {
    s.map_values(|c: ChunkInfoBlock| c@)
}

/// Bitmaps, taken by view.
pub open spec fn maps_view(s: Seq<Vec<u8>>) -> Seq<Seq<u8>> {
    s.map_values(|m: Vec<u8>| m@)
}

impl View for SpaceManager {
    type V = SpaceView;

    open spec fn view(&self) -> SpaceView {
        SpaceView {
            spaceman: self.spaceman@,
            cibs: cibs_view(self.cibs@),
            bitmaps: maps_view(self.bitmaps@),
            dirty: self.dirty@,
            block_size: self.block_size,
        }
    }
}

/// The chunks of the blocks from `a` on, one after the other.
pub open spec fn flat_from(cibs: Seq<CibView>, a: int) -> Seq<ChunkInfo>
    decreases cibs.len() - a,
{
    if a >= cibs.len() || a < 0 {
        seq![]
    } else {
        cibs[a].chunks + flat_from(cibs, a + 1)
    }
}

/// The blocks with the `k`-th chunk from block `a` on replaced.
pub open spec fn put_chunk(cibs: Seq<CibView>, a: int, k: int, c: ChunkInfo) -> Seq<CibView>
    decreases cibs.len() - a,
{
    if a >= cibs.len() || a < 0 {
        cibs
    } else if k < cibs[a].chunks.len() {
        cibs.update(a, CibView { chunks: cibs[a].chunks.update(k, c), ..cibs[a] })
    } else {
        put_chunk(cibs, a + 1, k - cibs[a].chunks.len(), c)
    }
}

/// Replacing a chunk replaces it in the list of all chunks, and no more.
pub proof fn lemma_put_chunk(cibs: Seq<CibView>, a: int, k: int, c: ChunkInfo)
    requires
        0 <= a <= cibs.len(),
        0 <= k < flat_from(cibs, a).len(),
    ensures
        flat_from(put_chunk(cibs, a, k, c), a) == flat_from(cibs, a).update(k, c),
        put_chunk(cibs, a, k, c).len() == cibs.len(),
        forall|b: int| 0 <= b < a ==> (#[trigger] put_chunk(cibs, a, k, c)[b]) == cibs[b],
    decreases cibs.len() - a,
{
    if a < cibs.len() {
        let now = put_chunk(cibs, a, k, c);
        if k < cibs[a].chunks.len() {
            lemma_flat_same(cibs, now, a + 1);
            assert(now[a].chunks + flat_from(now, a + 1) =~= flat_from(cibs, a).update(k, c));
        } else {
            lemma_put_chunk(cibs, a + 1, k - cibs[a].chunks.len(), c);
            assert(now[a] == cibs[a]);
            assert(now[a].chunks + flat_from(now, a + 1) =~= flat_from(cibs, a).update(k, c));
        }
    }
}

proof fn lemma_flat_same(x: Seq<CibView>, y: Seq<CibView>, a: int)
    requires
        x.len() == y.len(),
        0 <= a,
        forall|i: int| a <= i < x.len() ==> (#[trigger] x[i]).chunks == y[i].chunks,
    ensures
        flat_from(x, a) == flat_from(y, a),
    decreases x.len() - a,
{
    if a < x.len() {
        assert(x[a].chunks == y[a].chunks);
        lemma_flat_same(x, y, a + 1);
    }
}

/// A difference that does not go below 0.
pub open spec fn less(a: int, b: int) -> int {
    if b <= a {
        a - b
    } else {
        0
    }
}

/// The block that a bit of a chunk stands for. Addresses are 64-bit numbers
/// and wrap.
pub open spec fn block_of(c: ChunkInfo, b: int) -> u64 {
    ((c.addr + b) % 0x1_0000_0000_0000_0000) as u64
}

impl SpaceView {
    /// All chunks, in order.
    pub open spec fn chunks(self) -> Seq<ChunkInfo> {
        flat_from(self.cibs, 0)
    }

    /// One bitmap and one mark per chunk.
    pub open spec fn shaped(self) -> bool {
        &&& self.bitmaps.len() == self.chunks().len()
        &&& self.dirty.len() == self.chunks().len()
        &&& self.spaceman.dev.len() == 2
    }

    /// How many blocks the main device says are free.
    pub open spec fn free(self) -> u64 {
        self.spaceman.dev[0].free_count
    }

    /// How many bits of a chunk can be given out: those that stand for its
    /// blocks and lie in its bitmap.
    pub open spec fn usable(self, k: int) -> int {
        if self.chunks()[k].block_count <= self.bitmaps[k].len() * 8 {
            self.chunks()[k].block_count as int
        } else {
            (self.bitmaps[k].len() * 8) as int
        }
    }

    /// The state with a new count of free blocks on the main device.
    pub open spec fn with_free(self, n: u64) -> SpaceView {
        SpaceView {
            spaceman: SpacemanView {
                dev: self.spaceman.dev.update(
                    0,
                    SpacemanDevice { free_count: n, ..self.spaceman.dev[0] },
                ),
                ..self.spaceman
            },
            ..self
        }
    }

    /// The state with a new bitmap and count of free blocks for chunk `k`.
    pub open spec fn with_chunk(self, k: int, bitmap: Seq<u8>, free_count: u32) -> SpaceView {
        SpaceView {
            cibs: put_chunk(self.cibs, 0, k, ChunkInfo { free_count, ..self.chunks()[k] }),
            bitmaps: self.bitmaps.update(k, bitmap),
            dirty: self.dirty.update(k, true),
            ..self
        }
    }

    /// The state after `n` blocks of chunk `k`, from bit `s` on, were given
    /// out.
    pub open spec fn take(self, k: int, s: int, n: int) -> SpaceView {
        self.with_chunk(
            k,
            marked(self.bitmaps[k], s, n),
            less(self.chunks()[k].free_count as int, n) as u32,
        ).with_free(less(self.free() as int, n) as u64)
    }

    /// The first chunk from `k` on that counts free blocks and has a clear
    /// bit, and that bit.
    pub open spec fn pick_block(self, k: int) -> Option<(int, int)>
        decreases self.chunks().len() - k,
    {
        if k >= self.chunks().len() || k < 0 {
            None
        } else {
            let found = first_clear(self.bitmaps[k], self.chunks()[k].block_count as int, 0);
            if self.chunks()[k].free_count > 0 && found is Some {
                Some((k, found->Some_0))
            } else {
                self.pick_block(k + 1)
            }
        }
    }

    /// The outcome of allocating one block, and the state afterwards.
    pub open spec fn alloc_block(self) -> (Result<u64, Fault>, SpaceView) {
        match self.pick_block(0) {
            None => (Err(Fault::Internal("no free blocks available"@)), self),
            Some((k, b)) => if self.free() == 0 {
                (Err(Fault::Internal("no free blocks available"@)), self)
            } else {
                (Ok(block_of(self.chunks()[k], b)), self.take(k, b, 1))
            },
        }
    }

    /// The first chunk from `k` on that counts `n` free blocks and has a clear
    /// run of `n` bits, and the start of that run.
    pub open spec fn pick_run(self, n: int, k: int) -> Option<(int, int)>
        decreases self.chunks().len() - k,
    {
        if k >= self.chunks().len() || k < 0 {
            None
        } else {
            let found = first_run(self.bitmaps[k], self.usable(k), n, 0);
            if self.chunks()[k].free_count >= n && found is Some {
                Some((k, found->Some_0))
            } else {
                self.pick_run(n, k + 1)
            }
        }
    }

    /// The first chunk from `k` on that counts free blocks and has a clear
    /// bit, with the start and the length of its first clear run.
    pub open spec fn pick_any(self, k: int) -> Option<(int, int, int)>
        decreases self.chunks().len() - k,
    {
        if k >= self.chunks().len() || k < 0 {
            None
        } else {
            match any_run(self.bitmaps[k], self.usable(k)) {
                Some((s, n)) => if self.chunks()[k].free_count > 0 {
                    Some((k, s, n))
                } else {
                    self.pick_any(k + 1)
                },
                None => self.pick_any(k + 1),
            }
        }
    }

    /// The first chunk from `k` on that holds the block `paddr`.
    pub open spec fn chunk_of(self, paddr: u64, k: int) -> Option<int>
        decreases self.chunks().len() - k,
    {
        if k >= self.chunks().len() || k < 0 {
            None
        } else {
            let c = self.chunks()[k];
            if c.addr <= paddr < c.addr + c.block_count {
                Some(k)
            } else {
                self.chunk_of(paddr, k + 1)
            }
        }
    }

    /// The outcome of freeing `length` blocks from `paddr` on, and the state
    /// afterwards. The bits before the first block that is free already are
    /// clear even when the call fails.
    pub open spec fn free_blocks(self, paddr: u64, length: u64) -> (Result<(), Fault>, SpaceView) {
        if length == 0 {
            (Ok(()), self)
        } else {
            match self.chunk_of(paddr, 0) {
                None => (
                    Err(
                        Fault::Internal(
                            msg1("free_blocks: paddr "@, paddr as nat, " not in any chunk"@),
                        ),
                    ),
                    self,
                ),
                Some(k) => {
                    let c = self.chunks()[k];
                    let s = paddr - c.addr;
                    let n = set_length(self.bitmaps[k], s, length as int);
                    if paddr + length > c.addr + c.block_count {
                        (Err(Fault::Internal("free_blocks: range crosses chunk boundary"@)), self)
                    } else if n < length {
                        (
                            Err(
                                Fault::Internal(
                                    msg1(
                                        "free_blocks: block "@,
                                        (paddr + n) as nat,
                                        " already free"@,
                                    ),
                                ),
                            ),
                            SpaceView {
                                bitmaps: self.bitmaps.update(k, cleared(self.bitmaps[k], s, n)),
                                ..self
                            },
                        )
                    } else {
                        (
                            Ok(()),
                            self.with_chunk(
                                k,
                                cleared(self.bitmaps[k], s, n),
                                if c.free_count + length <= u32::MAX {
                                    (c.free_count + length) as u32
                                } else {
                                    u32::MAX
                                },
                            ).with_free(
                                if self.free() + length <= u64::MAX {
                                    (self.free() + length) as u64
                                } else {
                                    u64::MAX
                                },
                            ),
                        )
                    }
                },
            }
        }
    }

    /// The state after the runs from `i` on were freed again.
    pub open spec fn rollback(self, runs: Seq<(u64, u64)>, i: int) -> SpaceView
        decreases runs.len() - i,
    {
        if i >= runs.len() || i < 0 {
            self
        } else {
            self.free_blocks(runs[i].0, runs[i].1).1.rollback(runs, i + 1)
        }
    }

    /// The outcome of gathering `n` more blocks from the first free runs after
    /// `runs`, and the state afterwards.
    pub open spec fn gather(self, n: int, runs: Seq<(u64, u64)>) -> (
        Result<Seq<(u64, u64)>, Fault>,
        SpaceView,
    )
        decreases n,
    {
        if n <= 0 {
            (Ok(runs), self)
        } else {
            match self.pick_any(0) {
                None => (
                    Err(
                        Fault::Internal(
                            "alloc_blocks: fragmentation prevents satisfying request"@,
                        ),
                    ),
                    self.rollback(runs, 0),
                ),
                Some((k, s, len)) => {
                    let t = if len <= n {
                        len
                    } else {
                        n
                    };
                    if t <= 0 {
                        (Ok(runs), self)
                    } else {
                        self.take(k, s, t).gather(
                            n - t,
                            runs.push((block_of(self.chunks()[k], s), t as u64)),
                        )
                    }
                },
            }
        }
    }

    /// The outcome of allocating `count` blocks, and the state afterwards.
    pub open spec fn alloc_blocks(self, count: u64) -> (Result<Seq<(u64, u64)>, Fault>, SpaceView) {
        if count == 0 {
            (Ok(seq![]), self)
        } else if count > self.free() {
            (Err(Fault::Internal("alloc_blocks: not enough free blocks"@)), self)
        } else {
            match self.pick_run(count as int, 0) {
                Some((k, s)) => (
                    Ok(seq![(block_of(self.chunks()[k], s), count)]),
                    self.take(k, s, count as int),
                ),
                None => self.gather(count as int, seq![]),
            }
        }
    }

    /// Whether a block is used, if any chunk holds it.
    pub open spec fn block_used(self, paddr: u64) -> Option<bool> {
        match self.chunk_of(paddr, 0) {
            None => None,
            Some(k) => Some(is_set(self.bitmaps[k], paddr - self.chunks()[k].addr)),
        }
    }
}

/// A list of runs, taken by view.
pub open spec fn runs_view(r: Result<Vec<(u64, u64)>, ApfsError>) -> Result<
    Seq<(u64, u64)>,
    Fault,
> {
    match r {
        Ok(v) => Ok(v@),
        Err(e) => Err(e@),
    }
}

fn address(c: &ChunkInfo, b: usize) -> (p: u64)
    ensures
        p == block_of(*c, b as int),
{
    c.addr.wrapping_add(b as u64)
}

/// The chunk info blocks at the addresses from `i` on.
pub open spec fn cibs_from(disk: Seq<u8>, addrs: Seq<u64>, block_size: u32, i: int) -> Result<
    Seq<CibView>,
    Fault,
>
    decreases addrs.len() - i,
{
    if i >= addrs.len() || i < 0 {
        Ok(seq![])
    } else {
        match cib_at(disk, addrs[i], block_size) {
            Err(e) => Err(e),
            Ok(c) => cibs_after(seq![c], cibs_from(disk, addrs, block_size, i + 1)),
        }
    }
}

/// Chunk info blocks in front of what reading the rest gives.
pub open spec fn cibs_after(seen: Seq<CibView>, rest: Result<Seq<CibView>, Fault>) -> Result<
    Seq<CibView>,
    Fault,
> {
    match rest {
        Err(e) => Err(e),
        Ok(more) => Ok(seen + more),
    }
}

/// The bitmap of a chunk. A chunk without one is free as a whole.
pub open spec fn bitmap_of(disk: Seq<u8>, c: ChunkInfo, block_size: u32) -> Result<Seq<u8>, Fault> {
    if c.bitmap_addr == 0 {
        Ok(zero_bytes(((c.block_count + 7) / 8) as nat))
    } else {
        block_outcome(disk, c.bitmap_addr, block_size)
    }
}

/// The bitmaps of the chunks from `i` on.
pub open spec fn maps_from(disk: Seq<u8>, chunks: Seq<ChunkInfo>, block_size: u32, i: int) -> Result<
    Seq<Seq<u8>>,
    Fault,
>
    decreases chunks.len() - i,
{
    if i >= chunks.len() || i < 0 {
        Ok(seq![])
    } else {
        match bitmap_of(disk, chunks[i], block_size) {
            Err(e) => Err(e),
            Ok(m) => maps_after(seq![m], maps_from(disk, chunks, block_size, i + 1)),
        }
    }
}

/// Bitmaps in front of what reading the rest gives.
pub open spec fn maps_after(seen: Seq<Seq<u8>>, rest: Result<Seq<Seq<u8>>, Fault>) -> Result<
    Seq<Seq<u8>>,
    Fault,
> {
    match rest {
        Err(e) => Err(e),
        Ok(more) => Ok(seen + more),
    }
}

/// The outcome of loading the allocator.
pub open spec fn space_outcome(disk: Seq<u8>, paddr: u64, block_size: u32) -> Result<
    SpaceView,
    Fault,
> {
    match spaceman_at(disk, paddr, block_size) {
        Err(e) => Err(e),
        Ok(sm) => if sm.dev[1].block_count != 0 {
            Err(Fault::Unsupported("Fusion (TIER2) volumes not supported for write"@))
        } else {
            match cibs_from(disk, sm.main_cib_addrs, block_size, 0) {
                Err(e) => Err(e),
                Ok(cibs) => match maps_from(disk, flat_from(cibs, 0), block_size, 0) {
                    Err(e) => Err(e),
                    Ok(bitmaps) => Ok(
                        SpaceView {
                            spaceman: sm,
                            cibs,
                            bitmaps,
                            dirty: Seq::new(bitmaps.len(), |i: int| false),
                            block_size,
                        },
                    ),
                },
            }
        },
    }
}

/// Every chunk gets a bitmap.
proof fn lemma_maps_len(disk: Seq<u8>, chunks: Seq<ChunkInfo>, block_size: u32, i: int)
    requires
        0 <= i <= chunks.len(),
    ensures
        maps_from(disk, chunks, block_size, i) matches Ok(m) ==> m.len() == chunks.len() - i,
    decreases chunks.len() - i,
{
    if i < chunks.len() {
        lemma_maps_len(disk, chunks, block_size, i + 1);
    }
}

fn read_cibs<D: ReadAt>(dev: &D, addrs: &Vec<u64>, block_size: u32) -> (r: Result<
    Vec<ChunkInfoBlock>,
    ApfsError,
>)
    ensures
        agrees(
            match r {
                Ok(v) => Ok(cibs_view(v@)),
                Err(e) => Err(e@),
            },
            cibs_from(dev.bytes(), addrs@, block_size, 0),
            dev.reliable(),
        ),
{
    let ghost goal = cibs_from(dev.bytes(), addrs@, block_size, 0);
    let mut cibs: Vec<ChunkInfoBlock> = Vec::new();
    let mut i: usize = 0;
    proof {
        if goal is Ok {
            assert(cibs_view(cibs@) + goal->Ok_0 =~= goal->Ok_0);
        }
    }
    while i < addrs.len()
        invariant
            i <= addrs.len(),
            goal == cibs_from(dev.bytes(), addrs@, block_size, 0),
            goal == cibs_after(
                cibs_view(cibs@),
                cibs_from(dev.bytes(), addrs@, block_size, i as int),
            ),
        decreases addrs.len() - i,
    {
        let c = ChunkInfoBlock::read(dev, addrs[i], block_size)?;
        let ghost before = cibs@;
        cibs.push(c);
        proof {
            let rest = cibs_from(dev.bytes(), addrs@, block_size, i + 1);
            assert(cibs_view(cibs@) =~= cibs_view(before).push(c@));
            if rest is Ok {
                assert(cibs_view(before) + (seq![c@] + rest->Ok_0) =~= cibs_view(cibs@)
                    + rest->Ok_0);
            }
        }
        i += 1;
    }
    assert(cibs_view(cibs@) + Seq::<CibView>::empty() =~= cibs_view(cibs@));
    Ok(cibs)
}

fn read_bitmap<D: ReadAt>(dev: &D, c: &ChunkInfo, block_size: u32) -> (r: Result<
    Vec<u8>,
    ApfsError,
>)
    ensures
        agrees(outcome(r), bitmap_of(dev.bytes(), *c, block_size), dev.reliable()),
{
    if c.bitmap_addr == 0 {
        let bytes: u64 = (c.block_count as u64 + 7) / 8;
        Ok(zeroed(bytes as usize))
    } else {
        read_block(dev, c.bitmap_addr, block_size)
    }
}

fn read_bitmaps<D: ReadAt>(dev: &D, cibs: &Vec<ChunkInfoBlock>, block_size: u32) -> (r: Result<
    Vec<Vec<u8>>,
    ApfsError,
>)
    ensures
        agrees(
            match r {
                Ok(v) => Ok(maps_view(v@)),
                Err(e) => Err(e@),
            },
            maps_from(dev.bytes(), flat_from(cibs_view(cibs@), 0), block_size, 0),
            dev.reliable(),
        ),
{
    let ghost views = cibs_view(cibs@);
    let ghost chunks = flat_from(views, 0);
    let ghost goal = maps_from(dev.bytes(), chunks, block_size, 0);
    let mut maps: Vec<Vec<u8>> = Vec::new();
    let ghost mut done: int = 0;
    proof {
        if goal is Ok {
            assert(maps_view(maps@) + goal->Ok_0 =~= goal->Ok_0);
        }
    }
    assert(chunks.skip(0) =~= chunks);
    let mut i: usize = 0;
    while i < cibs.len()
        invariant
            i <= cibs.len(),
            views == cibs_view(cibs@),
            chunks == flat_from(views, 0),
            0 <= done <= chunks.len(),
            flat_from(views, i as int) == chunks.skip(done),
            goal == maps_from(dev.bytes(), chunks, block_size, 0),
            goal == maps_after(
                maps_view(maps@),
                maps_from(dev.bytes(), chunks, block_size, done),
            ),
        decreases cibs.len() - i,
    {
        let cib = &cibs[i];
        let mut j: usize = 0;
        let ghost base = done;
        assert(views[i as int].chunks == cib.chunks@);
        assert(flat_from(views, i as int) == cib.chunks@ + flat_from(views, i + 1));
        while j < cib.chunks.len()
            invariant
                j <= cib.chunks.len(),
                0 <= base,
                done == base + j,
                base + cib.chunks@.len() <= chunks.len(),
                chunks.skip(base) == cib.chunks@ + flat_from(views, i + 1),
                goal == maps_from(dev.bytes(), chunks, block_size, 0),
                chunks == flat_from(views, 0),
                views == cibs_view(cibs@),
                goal == maps_after(
                    maps_view(maps@),
                    maps_from(dev.bytes(), chunks, block_size, done),
                ),
            decreases cib.chunks.len() - j,
        {
            assert(chunks[done] == chunks.skip(base)[j as int]);
            assert(chunks[done] == cib.chunks@[j as int]);
            let m = read_bitmap(dev, &cib.chunks[j], block_size)?;
            let ghost before = maps@;
            maps.push(m);
            proof {
                let rest = maps_from(dev.bytes(), chunks, block_size, done + 1);
                assert(maps_view(maps@) =~= maps_view(before).push(m@));
                if rest is Ok {
                    assert(maps_view(before) + (seq![m@] + rest->Ok_0) =~= maps_view(maps@)
                        + rest->Ok_0);
                }
                done = done + 1;
            }
            j += 1;
        }
        proof {
            let n = cib.chunks@.len() as int;
            assert(chunks.skip(done) =~= chunks.skip(base).skip(n));
            assert((cib.chunks@ + flat_from(views, i + 1)).skip(n) =~= flat_from(views, i + 1));
        }
        i += 1;
    }
    assert(maps_view(maps@) + Seq::<Seq<u8>>::empty() =~= maps_view(maps@));
    assert(chunks.skip(done).len() == 0);
    Ok(maps)
}

impl SpaceManager {
    /// Load the space manager at `spaceman_paddr` with its chunk info blocks
    /// and bitmaps.
    pub fn open<D: ReadAt>(dev: &D, spaceman_paddr: u64, block_size: u32) -> (r: Result<
        Self,
        ApfsError,
    >)
        ensures
            agrees(
                outcome(r),
                space_outcome(dev.bytes(), spaceman_paddr, block_size),
                dev.reliable(),
            ),
            r matches Ok(m) ==> m@.shaped(),
    {
        let spaceman = Spaceman::read(dev, spaceman_paddr, block_size)?;
        if spaceman.dev[SD_TIER2].block_count != 0 {
            return Err(unsupported("Fusion (TIER2) volumes not supported for write"));
        }
        let cibs = read_cibs(dev, &spaceman.main_cib_addrs, block_size)?;
        let bitmaps = read_bitmaps(dev, &cibs, block_size)?;
        let mut dirty: Vec<bool> = Vec::new();
        let mut i: usize = 0;
        while i < bitmaps.len()
            invariant
                i <= bitmaps.len(),
                dirty@ == Seq::new(i as nat, |j: int| false),
            decreases bitmaps.len() - i,
        {
            dirty.push(false);
            assert(dirty@ =~= Seq::new((i + 1) as nat, |j: int| false));
            i += 1;
        }
        let m = SpaceManager { spaceman, cibs, bitmaps, dirty, block_size };
        proof {
            lemma_maps_len(dev.bytes(), flat_from(m@.cibs, 0), block_size, 0);
            if space_outcome(dev.bytes(), spaceman_paddr, block_size) is Ok {
                assert(m@ =~= space_outcome(dev.bytes(), spaceman_paddr, block_size)->Ok_0);
            }
        }
        Ok(m)
    }

    /// The place of the `k`-th chunk.
    fn locate(&self, k: usize) -> (r: (usize, usize))
        requires
            k < self@.chunks().len(),
        ensures
            r.0 < self.cibs@.len(),
            r.1 < self.cibs@[r.0 as int].chunks@.len(),
            self.cibs@[r.0 as int].chunks@[r.1 as int] == self@.chunks()[k as int],
            forall|c: ChunkInfo| #[trigger]
                put_chunk(self@.cibs, 0, k as int, c) == self@.cibs.update(
                    r.0 as int,
                    CibView {
                        chunks: self@.cibs[r.0 as int].chunks.update(r.1 as int, c),
                        ..self@.cibs[r.0 as int]
                    },
                ),
    {
        let ghost cibs = self@.cibs;
        let mut i: usize = 0;
        let mut rest: usize = k;
        while i < self.cibs.len()
            invariant
                i <= self.cibs.len(),
                cibs == self@.cibs,
                k < self@.chunks().len(),
                rest < flat_from(cibs, i as int).len(),
                flat_from(cibs, i as int)[rest as int] == self@.chunks()[k as int],
                forall|c: ChunkInfo| #[trigger]
                    put_chunk(cibs, 0, k as int, c) == put_chunk(cibs, i as int, rest as int, c),
            decreases self.cibs.len() - i,
        {
            let n: usize = self.cibs[i].chunks.len();
            assert(cibs[i as int].chunks == self.cibs@[i as int].chunks@);
            if rest < n {
                return (i, rest);
            }
            rest -= n;
            i += 1;
        }
        (0, 0)
    }

    fn chunk_at(&self, k: usize) -> (c: ChunkInfo)
        requires
            k < self@.chunks().len(),
        ensures
            c == self@.chunks()[k as int],
    {
        let (i, j) = self.locate(k);
        self.cibs[i].chunks[j]
    }

    fn set_chunk(&mut self, k: usize, c: ChunkInfo)
        requires
            k < old(self)@.chunks().len(),
        ensures
            final(self)@ == (SpaceView {
                cibs: put_chunk(old(self)@.cibs, 0, k as int, c),
                ..old(self)@
            }),
    {
        let (i, j) = self.locate(k);
        let ghost before = self@;
        let ghost want = put_chunk(before.cibs, 0, k as int, c);
        self.cibs[i].chunks[j] = c;
        assert(self@.cibs =~= want);
    }

    fn set_free(&mut self, n: u64)
        ensures
            final(self)@ == old(self)@.with_free(n),
    {
        self.spaceman.dev[SD_MAIN].free_count = n;
        assert(self@.spaceman =~= old(self)@.with_free(n).spaceman);
    }

    fn mark(&mut self, k: usize, s: usize, n: usize)
        requires
            k < old(self)@.bitmaps.len(),
            s + n <= old(self)@.bitmaps[k as int].len() * 8,
            s + n <= usize::MAX,
        ensures
            final(self)@ == (SpaceView {
                bitmaps: old(self)@.bitmaps.update(
                    k as int,
                    marked(old(self)@.bitmaps[k as int], s as int, n as int),
                ),
                ..old(self)@
            }),
    {
        let ghost first = self@;
        let ghost goal = marked(first.bitmaps[k as int], s as int, n as int);
        let mut b: usize = s;
        assert(first.bitmaps =~= first.bitmaps.update(k as int, first.bitmaps[k as int]));
        while b < s + n
            invariant
                s <= b <= s + n,
                s + n <= usize::MAX,
                k < first.bitmaps.len(),
                self@.bitmaps.len() == first.bitmaps.len(),
                s + n <= self@.bitmaps[k as int].len() * 8,
                self@ == (SpaceView {
                    bitmaps: first.bitmaps.update(k as int, self@.bitmaps[k as int]),
                    ..first
                }),
                goal == marked(self@.bitmaps[k as int], b as int, s + n - b),
            decreases s + n - b,
        {
            let ghost was = self.bitmaps@;
            set_bit(self.bitmaps[k].as_mut_slice(), b);
            assert(self.bitmaps@.len() == was.len());
            assert forall|i: int| 0 <= i < first.bitmaps.len() && i != k implies (
            #[trigger] self@.bitmaps[i]) == first.bitmaps[i] by {
                assert(self.bitmaps@[i] == was[i]);
                assert(maps_view(was)[i] == first.bitmaps[i]);
            }
            assert(self@.bitmaps =~= first.bitmaps.update(k as int, self@.bitmaps[k as int]));
            b += 1;
        }
    }

    fn usable_bits(&self, k: usize) -> (n: usize)
        requires
            self@.shaped(),
            k < self@.chunks().len(),
        ensures
            n == self@.usable(k as int),
            n <= self@.bitmaps[k as int].len() * 8,
            n <= self@.chunks()[k as int].block_count,
    {
        let c = self.chunk_at(k);
        let len: usize = self.bitmaps[k].len();
        assert(self@.bitmaps[k as int] == self.bitmaps@[k as int]@);
        if (c.block_count as u64 + 7) / 8 <= len as u64 {
            c.block_count as usize
        } else {
            len * 8
        }
    }

    /// Give out `n` blocks of chunk `k`, from bit `s` on.
    fn consume_chunk(&mut self, k: usize, s: usize, n: u64)
        requires
            old(self)@.shaped(),
            k < old(self)@.chunks().len(),
            s + n <= old(self)@.bitmaps[k as int].len() * 8,
            s + n <= u32::MAX,
        ensures
            final(self)@ == old(self)@.take(k as int, s as int, n as int),
            final(self)@.shaped(),
            final(self)@.chunks().len() == old(self)@.chunks().len(),
    {
        let ghost before = self@;
        let mut c = self.chunk_at(k);
        self.mark(k, s, n as usize);
        let free: u64 = self.spaceman.main_free_count();
        c.free_count = if n <= c.free_count as u64 {
            c.free_count - n as u32
        } else {
            0
        };
        self.set_chunk(k, c);
        self.dirty[k] = true;
        self.set_free(
            if n <= free {
                free - n
            } else {
                0
            },
        );
        proof {
            lemma_put_chunk(before.cibs, 0, k as int, c);
            assert(self@ =~= before.take(k as int, s as int, n as int));
        }
    }

    /// Allocate a single free block from MAIN.
    pub fn alloc_block(&mut self) -> (r: Result<u64, ApfsError>)
        requires
            old(self)@.shaped(),
        ensures
            (plain(r), final(self)@) == old(self)@.alloc_block(),
            final(self)@.shaped(),
    {
        let count: usize = self.bitmaps.len();
        let mut k: usize = 0;
        while k < count
            invariant
                self@ == old(self)@,
                self@.shaped(),
                count == self@.chunks().len(),
                k <= count,
                self@.pick_block(0) == self@.pick_block(k as int),
            decreases count - k,
        {
            let c = self.chunk_at(k);
            if c.free_count > 0 {
                assert(self@.bitmaps[k as int] == self.bitmaps@[k as int]@);
                if let Some(b) = find_first_clear_bit(
                    self.bitmaps[k].as_slice(),
                    c.block_count as usize,
                ) {
                    proof {
                        lemma_first_clear(self@.bitmaps[k as int], c.block_count as int, 0);
                    }
                    if self.spaceman.main_free_count() == 0 {
                        return Err(internal("no free blocks available"));
                    }
                    self.consume_chunk(k, b, 1);
                    return Ok(address(&c, b));
                }
            }
            k += 1;
        }
        Err(internal("no free blocks available"))
    }

    /// Find a contiguous run of `count` clear bits inside a single chunk's
    /// bitmap. Returns the chunk and the first bit.
    fn find_contiguous_run(&self, count: u64) -> (r: Option<(usize, usize)>)
        requires
            self@.shaped(),
            count > 0,
        ensures
            match r {
                Some((k, s)) => self@.pick_run(count as int, 0) == Some((k as int, s as int)) && k
                    < self@.chunks().len() && s + count <= self@.usable(k as int),
                None => self@.pick_run(count as int, 0) is None,
            },
    {
        let total: usize = self.bitmaps.len();
        let mut k: usize = 0;
        while k < total
            invariant
                self@.shaped(),
                count > 0,
                total == self@.chunks().len(),
                k <= total,
                self@.pick_run(count as int, 0) == self@.pick_run(count as int, k as int),
            decreases total - k,
        {
            let c = self.chunk_at(k);
            if (c.free_count as u64) >= count {
                let usable: usize = self.usable_bits(k);
                assert(self@.bitmaps[k as int] == self.bitmaps@[k as int]@);
                if let Some(s) = find_clear_run(
                    self.bitmaps[k].as_slice(),
                    usable,
                    count as usize,
                ) {
                    proof {
                        lemma_first_run(self@.bitmaps[k as int], usable as int, count as int, 0);
                    }
                    return Some((k, s));
                }
            }
            k += 1;
        }
        None
    }

    /// Find any non-empty contiguous clear run; returns the first run found as
    /// the chunk, the first bit and the length.
    fn find_any_run(&self) -> (r: Option<(usize, usize, usize)>)
        requires
            self@.shaped(),
        ensures
            match r {
                Some((k, s, n)) => self@.pick_any(0) == Some((k as int, s as int, n as int)) && k
                    < self@.chunks().len() && n > 0 && s + n <= self@.usable(k as int),
                None => self@.pick_any(0) is None,
            },
    {
        let total: usize = self.bitmaps.len();
        let mut k: usize = 0;
        while k < total
            invariant
                self@.shaped(),
                total == self@.chunks().len(),
                k <= total,
                self@.pick_any(0) == self@.pick_any(k as int),
            decreases total - k,
        {
            let c = self.chunk_at(k);
            if c.free_count > 0 {
                let usable: usize = self.usable_bits(k);
                assert(self@.bitmaps[k as int] == self.bitmaps@[k as int]@);
                if let Some((s, n)) = find_first_clear_run(self.bitmaps[k].as_slice(), usable) {
                    proof {
                        lemma_first_clear(self@.bitmaps[k as int], usable as int, 0);
                        lemma_run_length(self@.bitmaps[k as int], usable as int, s as int);
                    }
                    return Some((k, s, n));
                }
            }
            k += 1;
        }
        None
    }

    /// Free `length` consecutive blocks starting at `paddr`. The range must
    /// lie entirely within a single chunk and must currently be marked used.
    pub fn free_blocks(&mut self, paddr: u64, length: u64) -> (r: Result<(), ApfsError>)
        requires
            old(self)@.shaped(),
        ensures
            (plain(r), final(self)@) == old(self)@.free_blocks(paddr, length),
            final(self)@.shaped(),
            final(self)@.chunks().len() == old(self)@.chunks().len(),
    {
        if length == 0 {
            return Ok(());
        }
        let (k, c) = match self.find_chunk(paddr) {
            Some(x) => x,
            None => {
                return Err(
                    ApfsError::Internal(text1("free_blocks: paddr ", paddr, " not in any chunk")),
                );
            },
        };
        if paddr as u128 + length as u128 > c.addr as u128 + c.block_count as u128 {
            return Err(internal("free_blocks: range crosses chunk boundary"));
        }
        let s: usize = (paddr - c.addr) as usize;
        let ghost before = self@;
        let n: u64 = self.clear_run(k, s, length);
        proof {
            lemma_set_length(before.bitmaps[k as int], s as int, length as int);
        }
        if n < length {
            let block = decimal_string_wide(paddr as u128 + n as u128);
            return Err(
                ApfsError::Internal(
                    text_str("free_blocks: block ", block.as_str(), " already free"),
                ),
            );
        }
        let mut c = c;
        c.free_count = if length <= (u32::MAX - c.free_count) as u64 {
            c.free_count + length as u32
        } else {
            u32::MAX
        };
        let free: u64 = self.spaceman.main_free_count();
        self.set_chunk(k, c);
        self.dirty[k] = true;
        self.set_free(
            if length <= u64::MAX - free {
                free + length
            } else {
                u64::MAX
            },
        );
        proof {
            lemma_put_chunk(before.cibs, 0, k as int, c);
            assert(self@ =~= before.free_blocks(paddr, length).1);
        }
        Ok(())
    }

    /// The chunk that holds the block `paddr`.
    fn find_chunk(&self, paddr: u64) -> (r: Option<(usize, ChunkInfo)>)
        requires
            self@.shaped(),
        ensures
            match r {
                Some((k, c)) => self@.chunk_of(paddr, 0) == Some(k as int) && k
                    < self@.chunks().len() && c == self@.chunks()[k as int] && c.addr <= paddr
                    < c.addr + c.block_count,
                None => self@.chunk_of(paddr, 0) is None,
            },
    {
        let total: usize = self.bitmaps.len();
        let mut k: usize = 0;
        while k < total
            invariant
                self@.shaped(),
                total == self@.chunks().len(),
                k <= total,
                self@.chunk_of(paddr, 0) == self@.chunk_of(paddr, k as int),
            decreases total - k,
        {
            let c = self.chunk_at(k);
            if paddr >= c.addr && paddr - c.addr < c.block_count as u64 {
                return Some((k, c));
            }
            k += 1;
        }
        None
    }

    /// Clear the bits from `s` on as long as they are set, `length` of them at
    /// most. Returns how many were.
    fn clear_run(&mut self, k: usize, s: usize, length: u64) -> (n: u64)
        requires
            k < old(self)@.bitmaps.len(),
            s + length <= u32::MAX,
        ensures
            n == set_length(old(self)@.bitmaps[k as int], s as int, length as int),
            n <= length,
            final(self)@ == (SpaceView {
                bitmaps: old(self)@.bitmaps.update(
                    k as int,
                    cleared(old(self)@.bitmaps[k as int], s as int, n as int),
                ),
                ..old(self)@
            }),
    {
        let ghost first = self@;
        let ghost bm = first.bitmaps[k as int];
        let ghost goal_n = set_length(bm, s as int, length as int);
        let ghost goal = cleared(bm, s as int, goal_n);
        let len: usize = self.bitmaps[k].len();
        let mut n: u64 = 0;
        assert(first.bitmaps =~= first.bitmaps.update(k as int, bm));
        while n < length
            invariant
                n <= length,
                s + length <= u32::MAX,
                first == old(self)@,
                k < first.bitmaps.len(),
                self@.bitmaps.len() == first.bitmaps.len(),
                len == self@.bitmaps[k as int].len(),
                bm == first.bitmaps[k as int],
                goal_n == set_length(bm, s as int, length as int),
                goal == cleared(bm, s as int, goal_n),
                self@ == (SpaceView {
                    bitmaps: first.bitmaps.update(k as int, self@.bitmaps[k as int]),
                    ..first
                }),
                goal_n == n + set_length(self@.bitmaps[k as int], s + n, length - n),
                goal == cleared(
                    self@.bitmaps[k as int],
                    s + n,
                    set_length(self@.bitmaps[k as int], s + n, length - n),
                ),
            decreases length - n,
        {
            let b: usize = s + n as usize;
            assert(self@.bitmaps[k as int] == self.bitmaps@[k as int]@);
            if b / 8 >= len || !get_bit(self.bitmaps[k].as_slice(), b) {
                return n;
            }
            let ghost was = self.bitmaps@;
            proof {
                lemma_clear_step(self@.bitmaps[k as int], b as int, length - n);
            }
            clear_bit(self.bitmaps[k].as_mut_slice(), b);
            assert forall|i: int| 0 <= i < first.bitmaps.len() && i != k implies (
            #[trigger] self@.bitmaps[i]) == first.bitmaps[i] by {
                assert(self.bitmaps@[i] == was[i]);
                assert(maps_view(was)[i] == first.bitmaps[i]);
            }
            assert(self@.bitmaps =~= first.bitmaps.update(k as int, self@.bitmaps[k as int]));
            n += 1;
        }
        n
    }

    /// Free a single block (convenience around [`Self::free_blocks`]).
    pub fn free_block(&mut self, paddr: u64) -> (r: Result<(), ApfsError>)
        requires
            old(self)@.shaped(),
        ensures
            (plain(r), final(self)@) == old(self)@.free_blocks(paddr, 1),
            final(self)@.shaped(),
    {
        self.free_blocks(paddr, 1)
    }

    /// Free the runs again. What cannot be freed is passed over.
    fn rollback_runs(&mut self, runs: &Vec<(u64, u64)>)
        requires
            old(self)@.shaped(),
        ensures
            final(self)@ == old(self)@.rollback(runs@, 0),
            final(self)@.shaped(),
    {
        let ghost goal = self@.rollback(runs@, 0);
        let mut i: usize = 0;
        while i < runs.len()
            invariant
                i <= runs.len(),
                self@.shaped(),
                goal == old(self)@.rollback(runs@, 0),
                goal == self@.rollback(runs@, i as int),
            decreases runs.len() - i,
        {
            let (paddr, len) = runs[i];
            let _ = self.free_blocks(paddr, len);
            i += 1;
        }
    }

    /// Allocate `count` blocks from MAIN, returning one or more contiguous
    /// runs `(start_paddr, length)` whose lengths sum to `count`.
    ///
    /// The whole request is first tried as one contiguous run inside a chunk;
    /// if there is none, the first free runs are taken one after the other.
    /// When they do not suffice, everything that was taken is freed again
    /// before the error is returned.
    pub fn alloc_blocks(&mut self, count: u64) -> (r: Result<Vec<(u64, u64)>, ApfsError>)
        requires
            old(self)@.shaped(),
        ensures
            (runs_view(r), final(self)@) == old(self)@.alloc_blocks(count),
            final(self)@.shaped(),
    {
        if count == 0 {
            return Ok(Vec::new());
        }
        if count > self.spaceman.main_free_count() {
            return Err(internal("alloc_blocks: not enough free blocks"));
        }
        if let Some((k, s)) = self.find_contiguous_run(count) {
            let c = self.chunk_at(k);
            self.consume_chunk(k, s, count);
            let mut runs: Vec<(u64, u64)> = Vec::new();
            runs.push((address(&c, s), count));
            assert(runs@ =~= seq![(block_of(c, s as int), count)]);
            return Ok(runs);
        }
        let mut runs: Vec<(u64, u64)> = Vec::new();
        let mut remaining: u64 = count;
        while remaining > 0
            invariant
                self@.shaped(),
                old(self)@.alloc_blocks(count) == self@.gather(remaining as int, runs@),
            decreases remaining,
        {
            let (k, s, n) = match self.find_any_run() {
                Some(x) => x,
                None => {
                    self.rollback_runs(&runs);
                    return Err(
                        internal("alloc_blocks: fragmentation prevents satisfying request"),
                    );
                },
            };
            let take: u64 = if n as u64 <= remaining {
                n as u64
            } else {
                remaining
            };
            let c = self.chunk_at(k);
            self.consume_chunk(k, s, take);
            runs.push((address(&c, s), take));
            remaining -= take;
        }
        Ok(runs)
    }

    /// Whether the block at `paddr` is marked used; `None` if no chunk holds
    /// it.
    pub fn is_block_used(&self, paddr: u64) -> (r: Option<bool>)
        requires
            self@.shaped(),
        ensures
            r == self@.block_used(paddr),
    {
        match self.find_chunk(paddr) {
            None => None,
            Some((k, c)) => {
                let b: usize = (paddr - c.addr) as usize;
                assert(self@.bitmaps[k as int] == self.bitmaps@[k as int]@);
                if b / 8 < self.bitmaps[k].len() {
                    Some(get_bit(self.bitmaps[k].as_slice(), b))
                } else {
                    Some(false)
                }
            },
        }
    }

    pub fn block_size(&self) -> (n: u32)
        ensures
            n == self@.block_size,
    {
        self.block_size
    }

    /// The bitmaps that were changed, each with the number of its chunk.
    pub fn dirty_bitmaps(&self) -> (v: Vec<(usize, &[u8])>)
        requires
            self@.shaped(),
        ensures
            slices_view(v@) == self@.changed(0),
    {
        let mut v: Vec<(usize, &[u8])> = Vec::new();
        let mut i: usize = 0;
        assert(slices_view(v@) + self@.changed(0) =~= self@.changed(0));
        while i < self.dirty.len()
            invariant
                self@.shaped(),
                i <= self.dirty.len(),
                slices_view(v@) + self@.changed(i as int) == self@.changed(0),
            decreases self.dirty.len() - i,
        {
            if self.dirty[i] {
                let ghost before = v@;
                v.push((i, self.bitmaps[i].as_slice()));
                proof {
                    let x = (i as int, self@.bitmaps[i as int]);
                    assert(slices_view(v@) =~= slices_view(before).push(x));
                    assert(slices_view(before) + (seq![x] + self@.changed(i + 1)) =~= slices_view(
                        v@,
                    ) + self@.changed(i + 1));
                }
            }
            i += 1;
        }
        assert(slices_view(v@) + Seq::<(int, Seq<u8>)>::empty() =~= slices_view(v@));
        v
    }
}

/// Numbered slices, taken by view.
pub open spec fn slices_view(s: Seq<(usize, &[u8])>) -> Seq<(int, Seq<u8>)> {
    s.map_values(|x: (usize, &[u8])| (x.0 as int, x.1@))
}

impl SpaceView {
    /// The bitmaps from `i` on that were changed.
    pub open spec fn changed(self, i: int) -> Seq<(int, Seq<u8>)>
        decreases self.dirty.len() - i,
    {
        if i >= self.dirty.len() || i < 0 {
            seq![]
        } else if self.dirty[i] {
            seq![(i, self.bitmaps[i])] + self.changed(i + 1)
        } else {
            self.changed(i + 1)
        }
    }
}

/// Clearing a bit leaves the run of set bits after it as it was.
proof fn lemma_set_length_after(bm: Seq<u8>, b: int, s: int, n: int)
    requires
        0 <= b < s,
        b < bm.len() * 8,
    ensures
        set_length(without_bit(bm, b), s, n) == set_length(bm, s, n),
    decreases n,
{
    if n > 0 {
        lemma_without_bit(bm, b, b);
        if s < bm.len() * 8 {
            lemma_without_bit(bm, b, s);
        }
        lemma_set_length_after(bm, b, s + 1, n - 1);
    }
}

proof fn lemma_clear_step(bm: Seq<u8>, s: int, n: int)
    requires
        0 <= s < bm.len() * 8,
        n > 0,
        bit(bm, s),
    ensures
        set_length(bm, s, n) == 1 + set_length(without_bit(bm, s), s + 1, n - 1),
        cleared(bm, s, set_length(bm, s, n)) == cleared(
            without_bit(bm, s),
            s + 1,
            set_length(without_bit(bm, s), s + 1, n - 1),
        ),
{
    lemma_set_length_after(bm, s, s + 1, n - 1);
    lemma_set_length(bm, s + 1, n - 1);
}

} // verus!

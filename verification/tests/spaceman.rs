use arfw::apfs::spaceman::{
    clear_bit, find_clear_run, find_first_clear_bit, find_first_clear_run, get_bit, set_bit,
    ChunkInfo, ChunkInfoBlock, SpaceManager, Spaceman, SpacemanDevice, SpacemanFreeQueue,
};

const SD_MAIN: usize = 0;

#[test]
fn bit_helpers() {
    let mut bm = vec![0u8; 4];
    assert_eq!(find_first_clear_bit(&bm, 32), Some(0));
    set_bit(&mut bm, 0);
    assert!(get_bit(&bm, 0));
    assert_eq!(find_first_clear_bit(&bm, 32), Some(1));
    for i in 0..16 {
        set_bit(&mut bm, i);
    }
    assert_eq!(find_first_clear_bit(&bm, 32), Some(16));
    let full = vec![0xFFu8; 4];
    assert_eq!(find_first_clear_bit(&full, 32), None);
}

#[test]
fn run_helpers() {
    let mut bm = vec![0u8; 4];
    // first clear run of >=3 starts at bit 0 of an empty bitmap
    assert_eq!(find_clear_run(&bm, 32, 3), Some(0));
    for i in 0..5 {
        set_bit(&mut bm, i);
    }
    assert_eq!(find_clear_run(&bm, 32, 3), Some(5));
    // mark a hole that is too small followed by a big enough one
    for i in 0..32 {
        set_bit(&mut bm, i);
    }
    clear_bit(&mut bm, 4);
    clear_bit(&mut bm, 10);
    clear_bit(&mut bm, 11);
    clear_bit(&mut bm, 12);
    assert_eq!(find_clear_run(&bm, 32, 3), Some(10));
    assert_eq!(find_first_clear_run(&bm, 32), Some((4, 1)));
}

fn device(blocks: u64, chunks: u64, cibs: u32) -> SpacemanDevice {
    SpacemanDevice {
        block_count: blocks,
        chunk_count: chunks,
        cib_count: cibs,
        cab_count: 0,
        free_count: blocks,
        addr_offset: 0,
        _reserved: 0,
        _reserved2: 0,
    }
}

fn queue() -> SpacemanFreeQueue {
    SpacemanFreeQueue {
        count: 0,
        tree_oid: 0,
        oldest_xid: 0,
        tree_node_limit: 0,
        _pad16: 0,
        _pad32: 0,
        _reserved: 0,
    }
}

/// Build a synthetic SpaceManager covering 2 chunks of 64 blocks each
/// so we can drive alloc/free against in-memory bitmaps without needing
/// a real disk image
fn synth(chunks: usize, blocks_per_chunk: u32) -> SpaceManager {
    let total_blocks = chunks as u64 * blocks_per_chunk as u64;
    let mut sm = Spaceman {
        block_size: 4096,
        blocks_per_chunk,
        chunks_per_cib: chunks as u32,
        cibs_per_cab: 0,
        dev: [device(total_blocks, chunks as u64, 1), device(0, 0, 0)],
        flags: 0,
        ip_bm_tx_multiplier: 0,
        ip_block_count: 0,
        ip_bm_size_in_blocks: 0,
        ip_bm_block_count: 0,
        ip_bm_base: 0,
        ip_base: 0,
        fs_reserve_block_count: 0,
        fs_reserve_alloc_count: 0,
        fq: [queue(), queue(), queue()],
        main_cib_addrs: vec![1000],
        raw_block: vec![0u8; 4096],
        paddr: 999,
    };
    sm.dev[SD_MAIN].free_count = total_blocks;

    let mut chunk_infos = Vec::new();
    for i in 0..chunks {
        chunk_infos.push(ChunkInfo {
            xid: 1,
            addr: 100 + i as u64 * blocks_per_chunk as u64,
            block_count: blocks_per_chunk,
            free_count: blocks_per_chunk,
            bitmap_addr: 0,
        });
    }
    let cibs = vec![ChunkInfoBlock {
        index: 0,
        chunk_info_count: chunks as u32,
        chunks: chunk_infos,
        raw_block: vec![0u8; 4096],
        paddr: 1000,
    }];
    let bytes_per_chunk = (blocks_per_chunk as usize).div_ceil(8);
    let bitmaps = vec![vec![0u8; bytes_per_chunk]; chunks];
    let dirty = vec![false; chunks];
    SpaceManager {
        spaceman: sm,
        cibs,
        bitmaps,
        dirty,
        block_size: 4096,
    }
}

#[test]
fn alloc_block_marks_used_and_decrements_free() {
    let mut sm = synth(2, 64);
    let initial = sm.spaceman.dev[SD_MAIN].free_count;
    let p = sm.alloc_block().unwrap();
    assert_eq!(p, 100);
    assert_eq!(sm.is_block_used(p), Some(true));
    assert_eq!(sm.spaceman.dev[SD_MAIN].free_count, initial - 1);
    assert!(!sm.dirty_bitmaps().is_empty());
}

#[test]
fn alloc_blocks_returns_single_run_when_possible() {
    let mut sm = synth(2, 64);
    let runs = sm.alloc_blocks(8).unwrap();
    assert_eq!(runs, vec![(100, 8)]);
    for b in 0..8 {
        assert_eq!(sm.is_block_used(100 + b), Some(true));
    }
    assert_eq!(sm.spaceman.dev[SD_MAIN].free_count, 128 - 8);
}

#[test]
fn alloc_blocks_falls_back_to_fragmented_runs() {
    let mut sm = synth(1, 16);
    // Allocate all 16 blocks then poke 3 isolated 1-block holes so no
    // single contiguous run can satisfy a 3-block request
    for _ in 0..16 {
        sm.alloc_block().unwrap();
    }
    sm.free_block(100).unwrap();
    sm.free_block(105).unwrap();
    sm.free_block(110).unwrap();
    let runs = sm.alloc_blocks(3).unwrap();
    let total: u64 = runs.iter().map(|&(_, l)| l).sum();
    assert_eq!(total, 3);
    assert_eq!(runs.len(), 3, "expected fragmented allocation, got {:?}", runs);
    assert_eq!(sm.spaceman.dev[SD_MAIN].free_count, 0);
}

#[test]
fn alloc_blocks_rolls_back_on_exhaustion() {
    let mut sm = synth(1, 16);
    sm.alloc_block().unwrap();
    sm.alloc_block().unwrap();
    let mid = sm.spaceman.dev[SD_MAIN].free_count;
    let err = sm.alloc_blocks(100).unwrap_err();
    assert!(err.message().contains("not enough"));
    assert_eq!(sm.spaceman.dev[SD_MAIN].free_count, mid);
}

#[test]
fn free_blocks_returns_capacity_to_chunk() {
    let mut sm = synth(2, 64);
    let runs = sm.alloc_blocks(10).unwrap();
    let (start, len) = runs[0];
    sm.free_blocks(start, len).unwrap();
    for b in 0..len {
        assert_eq!(sm.is_block_used(start + b), Some(false));
    }
    assert_eq!(sm.spaceman.dev[SD_MAIN].free_count, 128);
}

#[test]
fn free_blocks_rejects_double_free() {
    let mut sm = synth(2, 64);
    let p = sm.alloc_block().unwrap();
    sm.free_block(p).unwrap();
    let err = sm.free_block(p).unwrap_err();
    assert!(err.message().contains("already free"));
}

#[test]
fn free_blocks_rejects_cross_chunk_range() {
    let sm = synth(2, 64);
    // Chunk 0 spans 100..164, chunk 1 spans 164..228. A free request
    // straddling the boundary must be rejected outright
    let mut sm = sm;
    // Mark blocks 162..166 as used so we have something to free
    for p in 162..166 {
        // synth bitmaps start fully clear; manually flip them via alloc
        // by exhausting the chunk is overkill; call free_blocks on the
        // straddling range directly: it's currently free, so first
        // failure mode is "already free" *or* "crosses chunk boundary"
        // We accept "crosses chunk boundary" as the contract
        let _ = p;
    }
    let err = sm.free_blocks(162, 4).unwrap_err();
    assert!(
        err.message().contains("crosses chunk boundary"),
        "unexpected error: {}",
        err.message()
    );
}

#[test]
fn every_allocated_block_is_new_and_counted() {
    let mut sm = synth(2, 16);
    let mut seen = Vec::new();
    for n in 0..32u64 {
        let p = sm.alloc_block().unwrap();
        assert!(!seen.contains(&p));
        seen.push(p);
        assert_eq!(sm.spaceman.main_free_count(), 31 - n);
    }
    assert!(sm.alloc_block().is_err());
    assert_eq!(sm.dirty_bitmaps().len(), 2);
    assert_eq!(sm.is_block_used(99), None);
    assert_eq!(sm.block_size(), 4096);
}

#[test]
fn what_is_too_short_is_no_space_manager() {
    let err = Spaceman::parse(&[0u8; 100], 5).unwrap_err();
    assert_eq!(err.message(), "malformed catalog record: spaceman block too short");
    let err = ChunkInfoBlock::parse(&[0u8; 10], 5).unwrap_err();
    assert_eq!(err.message(), "malformed catalog record: CIB too short");
    let mut raw = vec![0u8; 4096];
    raw[68] = 1;
    let err = Spaceman::parse(&raw, 5).unwrap_err();
    assert_eq!(
        err.message(),
        "unsupported volume layout: spaceman with CAB indirection (large container)"
    );
}

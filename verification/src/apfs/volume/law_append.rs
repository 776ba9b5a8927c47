//! What is read back from a file that has grown.

use crate::apfs::bytes::{splice, zero_bytes};
use crate::apfs::catalog::edit::extent_key;
use crate::apfs::catalog::records::{
    inode_size, key_head, FileExtentVal, InodeVal, J_TYPE_DIR_REC, J_TYPE_DSTREAM_ID,
    J_TYPE_FILE_EXTENT, J_TYPE_INODE, ROOT_DIR_RECORD,
};
use crate::apfs::error::Fault;
use crate::apfs::extents::{
    addr, fork, fork_end, fork_prefix, fork_write, law_spans_are_contiguous,
    law_streaming_gives_the_front, law_write_then_read, lemma_span_of, lemma_total_length, sat,
    sound_fork, spans_apart, spans_of, total_length,
};
use crate::apfs::object::block_outcome;
use crate::apfs::packed::KIND_UNIT;
use crate::apfs::path::components;
use crate::apfs::spaceman::laws::{
    apart, covered, law_allocated_runs, law_allocated_runs_are_apart, runs_apart, total,
};
use crate::apfs::transaction::in_block;
use crate::apfs::volume::commit::{lemma_commit, lemma_other_block, tree_after};
use crate::apfs::volume::data::{
    files_apart, in_spans, lemma_data_change, lemma_fork_written, lemma_other_file,
    lemma_spans_written, metadata_kept, sound_file,
};
use crate::apfs::volume::effects::{
    lemma_commit_file, lemma_same_file, lemma_walk_changed, no_metadata, spans_clear, with_inode,
};
use crate::apfs::volume::fill::{
    in_run, in_runs, lemma_block_order, lemma_longer_back, lemma_longer_fork, lemma_longer_front,
    lemma_more_spans, lemma_run_bytes, lemma_write_runs, pad, run_short, run_spans, runs_fit,
    runs_on,
};
use crate::apfs::volume::grow::{
    added_part, blocks_short, fill_through, rest_bytes, round_up, within_first, write_runs,
};
use crate::apfs::volume::law_grow::{lemma_grown, lemma_starts_before, regrown, starts_before};
use crate::apfs::volume::laws::{files_kept, lemma_resolve_inode};
use crate::apfs::volume::model::{extents_in, inode_in, law_volume_shows_records};
use crate::apfs::volume::place::reaches;
use crate::apfs::volume::remount::{
    follows, lemma_commit_follows, lemma_data_follows, lemma_data_then,
};
use crate::apfs::volume::state::VolumeView;
use crate::apfs::volume::tree::{law_lookups_find_records, picked, recs, Tree};
use vstd::prelude::*;

verus! {

/// A block that is really free: it lies on the device, holds no metadata, and
/// no byte of these spans is in it.
pub open spec fn spare(
    v: VolumeView,
    t: Tree,
    m: Set<u64>,
    spans: Seq<(u64, u64, u64)>,
    p: u64,
) -> bool {
    &&& no_metadata(t, m, v.nx, p)
    &&& (p + 1) * v.block_size <= v.disk.len()
    &&& forall|x: int| #[trigger] in_block(x, p, v.block_size as u64) ==> !in_spans(spans, x)
}

/// Whether all blocks of the runs are spare.
pub open spec fn runs_spare(
    v: VolumeView,
    t: Tree,
    m: Set<u64>,
    spans: Seq<(u64, u64, u64)>,
    runs: Seq<(u64, u64)>,
) -> bool {
    forall|p: u64| #[trigger] covered(runs, p as int) ==> spare(v, t, m, spans, p)
}

/// The block of a byte of a run is a block of the run.
proof fn lemma_run_block(run: (u64, u64), block_size: u32, x: int, q: u64)
    requires
        block_size > 0,
        in_run(run, block_size, x),
        in_block(x, q, block_size as u64),
    ensures
        run.0 <= q < run.0 + run.1,
{
    let bs = block_size as int;
    let a = run.0 as int;
    let e = run.0 + run.1;
    if q < a {
        assert((q + 1) * bs <= a * bs) by (nonlinear_arith)
            requires
                q + 1 <= a,
                bs > 0,
        ;
        assert((q + 1) * bs == q * bs + bs) by (nonlinear_arith);
    }
    if q >= e {
        lemma_block_order(e, q as int, bs);
    }
}

proof fn lemma_covered(runs: Seq<(u64, u64)>, k: int, p: int)
    requires
        0 <= k < runs.len(),
        runs[k].0 <= p < runs[k].0 + runs[k].1,
    ensures
        covered(runs, p),
{
    let r = runs[k];
}

/// Runs of spare blocks lie on the device.
proof fn lemma_spare_on(
    v: VolumeView,
    t: Tree,
    m: Set<u64>,
    spans: Seq<(u64, u64, u64)>,
    runs: Seq<(u64, u64)>,
)
    requires
        runs_apart(runs),
        runs_spare(v, t, m, spans, runs),
    ensures
        runs_on(runs, v.block_size, v.disk.len()),
{
    assert forall|k: int| 0 <= k < runs.len() implies ((#[trigger] runs[k]).0 + runs[k].1)
        * v.block_size <= v.disk.len() by {
        let p = (runs[k].0 + runs[k].1 - 1) as u64;
        lemma_covered(runs, k, p as int);
        assert(spare(v, t, m, spans, p));
    }
}

/// Runs of spare blocks are clear of metadata and of the file.
proof fn lemma_spare_clear(
    v: VolumeView,
    t: Tree,
    m: Set<u64>,
    spans: Seq<(u64, u64, u64)>,
    runs: Seq<(u64, u64)>,
    log: int,
)
    requires
        runs_fit(runs, v.block_size, log),
        runs_spare(v, t, m, spans, runs),
    ensures
        spans_clear(t, m, v.nx, v.block_size, run_spans(runs, v.block_size, log)),
{
    let bs = v.block_size;
    let more = run_spans(runs, bs, log);
    assert forall|k: int, x: int|
        #![trigger in_run(runs[k], bs, x)]
        0 <= k < runs.len() implies in_run(runs[k], bs, x) == (more[k].1 <= x < more[k].1
        + more[k].2) by {
        lemma_run_bytes(runs, bs, log, k);
        assert(run_short(runs[k], bs));
        assert(runs[k].0 * bs <= u64::MAX);
    }
    assert forall|i: int, x: int, q: u64|
        #![trigger more[i], in_block(x, q, bs as u64)]
        0 <= i < more.len() && more[i].1 <= x < more[i].1 + more[i].2 && in_block(
            x,
            q,
            bs as u64,
        ) implies no_metadata(t, m, v.nx, q) by {
        assert(in_run(runs[i], bs, x));
        lemma_run_block(runs[i], bs, x, q);
        lemma_covered(runs, i, q as int);
        assert(spare(v, t, m, spans, q));
    }
}

/// A byte of runs of spare blocks lies in a spare block.
proof fn lemma_spare_byte(
    v: VolumeView,
    t: Tree,
    m: Set<u64>,
    spans: Seq<(u64, u64, u64)>,
    runs: Seq<(u64, u64)>,
    x: int,
)
    requires
        v.block_size > 0,
        runs_apart(runs),
        runs_spare(v, t, m, spans, runs),
        in_runs(runs, v.block_size, 0, x),
    ensures
        !in_spans(spans, x),
        forall|q: u64| #[trigger] in_block(x, q, v.block_size as u64) ==> no_metadata(t, m, v.nx, q),
{
    let bs = v.block_size;
    let k = choose|k: int| 0 <= k < runs.len() && #[trigger] in_run(runs[k], bs, x);
    let q = lemma_block_at(runs[k], bs, x);
    lemma_covered(runs, k, q as int);
    assert(spare(v, t, m, spans, q));
    assert(in_block(x, q, bs as u64));
    assert forall|p: u64| #[trigger] in_block(x, p, bs as u64) implies no_metadata(
        t,
        m,
        v.nx,
        p,
    ) by {
        lemma_run_block(runs[k], bs, x, p);
        lemma_covered(runs, k, p as int);
        assert(spare(v, t, m, spans, p));
    }
}

/// The block of the run that a byte lies in.
proof fn lemma_block_at(run: (u64, u64), block_size: u32, x: int) -> (q: u64)
    requires
        block_size > 0,
        run.0 + run.1 <= u64::MAX,
        in_run(run, block_size, x),
    ensures
        run.0 <= q < run.0 + run.1,
        in_block(x, q, block_size as u64),
{
    let bs = block_size as int;
    let b = x / bs;
    vstd::arithmetic::div_mod::lemma_fundamental_div_mod(x, bs);
    let r = x % bs;
    assert(0 <= r < bs);
    assert(b * bs == bs * b) by (nonlinear_arith);
    let a = run.0 as int;
    let e = run.0 + run.1;
    if b < a {
        assert((b + 1) * bs <= a * bs) by (nonlinear_arith)
            requires
                b + 1 <= a,
                bs > 0,
        ;
        assert((b + 1) * bs == b * bs + bs) by (nonlinear_arith);
    }
    if b >= e {
        lemma_block_order(e, b, bs);
    }
    b as u64
}

/// The run that a byte of all runs lies in.
proof fn lemma_run_of(runs: Seq<(u64, u64)>, block_size: u32, x: int, n: int) -> (k: int)
    requires
        0 <= n <= runs.len(),
        0 <= x < total(runs, n) * block_size,
    ensures
        0 <= k < n,
        total(runs, k) * block_size <= x < total(runs, k + 1) * block_size,
    decreases n,
{
    if n > 0 && x < total(runs, n - 1) * block_size {
        lemma_run_of(runs, block_size, x, n - 1)
    } else {
        if n == 0 {
            assert(total(runs, 0) == 0);
        }
        n - 1
    }
}

/// What a device holds when the tail of a file and the runs behind it were
/// written: the fork with the runs has the old bytes up to `cur`, then those
/// that were added.
proof fn lemma_filled(
    disk: Seq<u8>,
    mid: Seq<u8>,
    end: Seq<u8>,
    block_size: u32,
    spans: Seq<(u64, u64, u64)>,
    runs: Seq<(u64, u64)>,
    cur: int,
    new_size: int,
    log: int,
    t: int,
    added: Seq<u8>,
    rest: Seq<u8>,
)
    requires
        sound_fork(spans, disk.len()),
        disk.len() == mid.len(),
        disk.len() == end.len(),
        disk.len() <= u64::MAX,
        fork_end(spans, 0) == log,
        runs_fit(runs, block_size, log),
        runs_on(runs, block_size, disk.len()),
        0 <= cur <= log,
        new_size == cur + added.len(),
        log + total(runs, runs.len() as int) * block_size >= new_size,
        t == (if new_size <= log {
            new_size - cur
        } else {
            log - cur
        }),
        forall|x: int| 0 <= x < added.len() - t ==> #[trigger] pad(rest, x) == added[t + x],
        fork(mid, spans) == splice(fork(disk, spans), cur, added.take(t)),
        forall|x: int| 0 <= x < end.len() && in_spans(spans, x) ==> #[trigger] end[x] == mid[x],
        forall|k: int, x: int|
            #![trigger in_run(runs[k], block_size, x)]
            0 <= k < runs.len() && in_run(runs[k], block_size, x) ==> end[x] == pad(
                rest,
                total(runs, k) * block_size + x - runs[k].0 * block_size,
            ),
    ensures
        fork(end, spans + run_spans(runs, block_size, log)).take(new_size) == fork(
            disk,
            spans,
        ).take(cur) + added,
{
    let f = fork(end, spans + run_spans(runs, block_size, log));
    lemma_longer_fork(spans, runs, block_size, log, disk.len());
    let want = fork(disk, spans).take(cur) + added;
    let got = f.take(new_size);
    assert forall|p: int| 0 <= p < new_size implies got[p] == want[p] by {
        assert(got[p] == f[p]);
        if p < log {
            lemma_longer_front(end, spans, runs, block_size, log, p);
            lemma_same_byte(mid, end, spans, p);
        } else {
            lemma_run_byte(end, spans, runs, block_size, log, rest, p);
            assert(pad(rest, p - log) == added[t + (p - log)]);
        }
    }
    assert(got =~= want);
}

proof fn lemma_same_byte(mid: Seq<u8>, end: Seq<u8>, spans: Seq<(u64, u64, u64)>, p: int)
    requires
        sound_fork(spans, mid.len()),
        mid.len() == end.len(),
        0 <= p < fork_end(spans, 0),
        forall|x: int| 0 <= x < end.len() && in_spans(spans, x) ==> #[trigger] end[x] == mid[x],
    ensures
        fork(end, spans)[p] == fork(mid, spans)[p],
{
    let i = lemma_span_of(spans, mid.len(), p);
    let x = addr(spans, p);
    assert(in_spans(spans, x)) by {
        assert(spans[i].1 <= x < spans[i].1 + spans[i].2);
    }
    assert(end[x] == mid[x]);
}

proof fn lemma_run_byte(
    end: Seq<u8>,
    spans: Seq<(u64, u64, u64)>,
    runs: Seq<(u64, u64)>,
    block_size: u32,
    log: int,
    rest: Seq<u8>,
    p: int,
)
    requires
        sound_fork(spans, end.len()),
        fork_end(spans, 0) == log,
        runs_fit(runs, block_size, log),
        runs_on(runs, block_size, end.len()),
        end.len() <= u64::MAX,
        log <= p < log + total(runs, runs.len() as int) * block_size,
        forall|k: int, x: int|
            #![trigger in_run(runs[k], block_size, x)]
            0 <= k < runs.len() && in_run(runs[k], block_size, x) ==> end[x] == pad(
                rest,
                total(runs, k) * block_size + x - runs[k].0 * block_size,
            ),
    ensures
        fork(end, spans + run_spans(runs, block_size, log))[p] == pad(rest, p - log),
{
    let bs = block_size as int;
    let k = lemma_run_of(runs, block_size, p - log, runs.len() as int);
    lemma_run_bytes(runs, block_size, log, k);
    let x = p - log - total(runs, k) * bs;
    lemma_longer_back(end, spans, runs, block_size, log, k, x);
    assert(in_run(runs[k], block_size, runs[k].0 * bs + x));
}

/// Whether the bitmaps say that a block is free.
pub open spec fn free_block(v: VolumeView, p: u64) -> bool {
    v.space_loaded() matches Ok(sp) && sp.block_used(p) == Some(false)
}

/// Whether no byte of these spans lies in a block that the bitmaps say is free.
pub open spec fn spans_held(v: VolumeView, spans: Seq<(u64, u64, u64)>) -> bool {
    forall|x: int, p: u64|
        #![trigger in_block(x, p, v.block_size as u64)]
        in_spans(spans, x) && in_block(x, p, v.block_size as u64) ==> !free_block(v, p)
}

/// Blocks that are reserved are spare.
pub proof fn lemma_reserve(
    v: VolumeView,
    t: Tree,
    m: Set<u64>,
    spans: Seq<(u64, u64, u64)>,
    n: u64,
)
    requires
        v.reserve(n).0 is Ok,
        space_spare(v, t, m, spans),
    ensures
        ({
            let (r, w) = v.reserve(n);
            let runs = r->Ok_0;
            &&& w == (VolumeView { space: w.space, ..v })
            &&& runs_apart(runs)
            &&& total(runs, runs.len() as int) == n
            &&& runs_spare(v, t, m, spans, runs)
            &&& forall|p: u64| #[trigger] covered(runs, p as int) ==> free_block(v, p)
        }),
{
    let runs = v.reserve(n).0->Ok_0;
    if n == 0 {
        assert forall|p: u64| #[trigger] covered(runs, p as int) implies spare(
            v,
            t,
            m,
            spans,
            p,
        ) by {}
    } else {
        let sp = v.space_loaded()->Ok_0;
        law_allocated_runs(sp, n);
        law_allocated_runs_are_apart(sp, n);
        assert forall|p: u64| #[trigger] covered(runs, p as int) implies spare(
            v,
            t,
            m,
            spans,
            p,
        ) by {
            assert(sp.block_used(p) == Some(false));
        }
        assert forall|p: u64| #[trigger] covered(runs, p as int) implies free_block(v, p) by {
            assert(sp.block_used(p) == Some(false));
        }
    }
}

/// Whether the blocks that the bitmaps say are free are really free.
pub open spec fn space_spare(
    v: VolumeView,
    t: Tree,
    m: Set<u64>,
    spans: Seq<(u64, u64, u64)>,
) -> bool {
    v.space_loaded() matches Ok(sp) ==> {
        &&& sp.shaped()
        &&& apart(sp)
        &&& forall|p: u64| #[trigger]
            sp.block_used(p) == Some(false) ==> spare(v, t, m, spans, p)
    }
}

/// Bytes are written through spans a block's length at a time.
proof fn lemma_fill_through(
    disk: Seq<u8>,
    block_size: u32,
    spans: Seq<(u64, u64, u64)>,
    cur: int,
    data: Option<Seq<u8>>,
    k: int,
    n: int,
)
    requires
        block_size > 0,
        disk.len() % (block_size as nat) == 0,
        sound_fork(spans, disk.len()),
        spans_apart(spans),
        0 <= cur,
        0 <= k <= n,
        cur + n <= fork_end(spans, 0),
        data matches Some(d) ==> n <= d.len(),
    ensures
        ({
            let (r, e) = fill_through(disk, block_size, spans, cur, data, k, n);
            &&& r is Ok
            &&& e.len() == disk.len()
            &&& fork(e, spans) == splice(
                fork(disk, spans),
                cur + k,
                added_part(data, k, n - k),
            )
            &&& forall|x: int|
                0 <= x < disk.len() && !in_spans(spans, x) ==> #[trigger] e[x] == disk[x]
        }),
    decreases n - k,
{
    let (r, e) = fill_through(disk, block_size, spans, cur, data, k, n);
    if k >= n {
        assert(splice(fork(disk, spans), cur + k, added_part(data, k, n - k)) =~= fork(
            disk,
            spans,
        ));
    } else {
        let step = if n - k <= block_size {
            n - k
        } else {
            block_size as int
        };
        let part = added_part(data, k, step);
        assert(part.len() == step);
        lemma_fork_written(disk, block_size, spans, cur + k, part);
        law_write_then_read(disk, block_size, spans, cur + k, part, fork_end(spans, 0));
        let mid = fork_write(disk, block_size, spans, cur + k, part).1;
        lemma_fill_through(mid, block_size, spans, cur, data, k + step, n);
        assert(e == fill_through(mid, block_size, spans, cur, data, k + step, n).1);
        assert(splice(
            splice(fork(disk, spans), cur + k, part),
            cur + k + step,
            added_part(data, k + step, n - k - step),
        ) =~= splice(fork(disk, spans), cur + k, added_part(data, k, n - k)));
        assert forall|x: int| 0 <= x < disk.len() && !in_spans(spans, x) implies #[trigger] e[x]
            == disk[x] by {
            assert(mid[x] == disk[x]);
        }
    }
}

/// Bytes are written into the extents that a file has.
proof fn lemma_fill_tail(
    v: VolumeView,
    t: Tree,
    m: Set<u64>,
    cur: u64,
    n: int,
    data: Option<Seq<u8>>,
    exts: Seq<FileExtentVal>,
)
    requires
        v.sound(t, m),
        v.block_size > 0,
        v.disk.len() % (v.block_size as nat) == 0,
        sound_file(v, t, m, spans_of(exts, v.block_size), 0),
        0 <= n,
        n > 0 ==> cur + n <= fork_end(spans_of(exts, v.block_size), 0),
        data matches Some(d) ==> n <= d.len(),
    ensures
        ({
            let (r, w) = v.fill_tail(exts, cur, n, data);
            let spans = spans_of(exts, v.block_size);
            &&& r is Ok
            &&& w == (VolumeView { disk: w.disk, ..v })
            &&& w.sound(t, m)
            &&& metadata_kept(v, w.disk, t, m)
            &&& w.disk.len() == v.disk.len()
            &&& n == 0 ==> w.disk == v.disk
            &&& n > 0 ==> fork(w.disk, spans) == splice(
                fork(v.disk, spans),
                cur as int,
                added_part(data, 0, n),
            )
            &&& forall|x: int|
                0 <= x < v.disk.len() && !in_spans(spans, x) ==> #[trigger] w.disk[x] == v.disk[x]
        }),
{
    let spans = spans_of(exts, v.block_size);
    let w = v.fill_tail(exts, cur, n, data).1;
    if n > 0 {
        lemma_fill_through(v.disk, v.block_size, spans, cur as int, data, 0, n);
    }
    lemma_spans_written(v, w.disk, t, m, spans);
    lemma_data_change(v, w.disk, t, m);
}

/// The new blocks of a file are filled.
proof fn lemma_fill_runs(
    v: VolumeView,
    t: Tree,
    m: Set<u64>,
    spans: Seq<(u64, u64, u64)>,
    runs: Seq<(u64, u64)>,
    rest: Seq<u8>,
)
    requires
        v.sound(t, m),
        v.block_size > 0,
        v.disk.len() % (v.block_size as nat) == 0,
        v.disk.len() <= u64::MAX,
        runs_apart(runs),
        runs_spare(v, t, m, spans, runs),
    ensures
        ({
            let (r, d) = write_runs(v.disk, v.block_size, runs, 0, rest, 0);
            &&& r is Ok
            &&& d.len() == v.disk.len()
            &&& runs_on(runs, v.block_size, d.len())
            &&& (VolumeView { disk: d, ..v }).sound(t, m)
            &&& metadata_kept(v, d, t, m)
            &&& forall|x: int|
                0 <= x < d.len() && in_spans(spans, x) ==> #[trigger] d[x] == v.disk[x]
            &&& forall|k: int, x: int|
                #![trigger in_run(runs[k], v.block_size, x)]
                0 <= k < runs.len() && in_run(runs[k], v.block_size, x) ==> d[x] == pad(
                    rest,
                    total(runs, k) * v.block_size + x - runs[k].0 * v.block_size,
                )
            &&& forall|x: int|
                0 <= x < d.len() && !in_runs(runs, v.block_size, 0, x) ==> #[trigger] d[x]
                    == v.disk[x]
        }),
{
    let bs = v.block_size;
    lemma_spare_on(v, t, m, spans, runs);
    assert(total(runs, 0) == 0);
    assert(total(runs, 0) * bs == 0) by (nonlinear_arith)
        requires
            total(runs, 0) == 0,
    ;
    lemma_write_runs(v.disk, bs, runs, 0, rest);
    let d = write_runs(v.disk, bs, runs, 0, rest, 0).1;
    assert forall|x: int| 0 <= x < d.len() && in_spans(spans, x) implies #[trigger] d[x]
        == v.disk[x] by {
        if in_runs(runs, bs, 0, x) {
            lemma_spare_byte(v, t, m, spans, runs, x);
        }
    }
    assert forall|q: u64| !no_metadata(t, m, v.nx, q) implies #[trigger] block_outcome(d, q, bs)
        == block_outcome(v.disk, q, bs) by {
        assert forall|x: int|
            0 <= x < d.len() && in_block(x, q, bs as u64) implies #[trigger] d[x] == v.disk[x] by {
            if in_runs(runs, bs, 0, x) {
                lemma_spare_byte(v, t, m, spans, runs, x);
            }
        }
        lemma_other_block(d, v.disk, q, bs);
    }
    lemma_data_change(v, d, t, m);
}

/// New blocks make up for what a file is short of.
pub proof fn lemma_blocks_short(size: u64, have: u64, block_size: u32)
    requires
        block_size > 0,
    ensures
        0 <= blocks_short(size, have, block_size) <= u64::MAX,
        have + blocks_short(size, have, block_size) * block_size >= size,
        size > have ==> have + blocks_short(size, have, block_size) * block_size < size
            + block_size,
        size <= have ==> blocks_short(size, have, block_size) == 0,
{
    let bs = block_size as int;
    let x = size - within_first(size, have);
    let q = (x + bs - 1) / bs;
    vstd::arithmetic::div_mod::lemma_fundamental_div_mod(x + bs - 1, bs);
    assert(q * bs == bs * q) by (nonlinear_arith);
    assert(q >= 0) by (nonlinear_arith)
        requires
            q == (x + bs - 1) / bs,
            x >= 0,
            bs > 0,
    ;
    if x == 0 {
        assert(q == 0) by (nonlinear_arith)
            requires
                q == (bs - 1) / bs,
                bs > 0,
        ;
    } else {
        assert(q <= x) by (nonlinear_arith)
            requires
                q == (x + bs - 1) / bs,
                bs > 0,
                x > 0,
        ;
    }
}

/// The bytes that a file gets behind those that its extents hold when it grows
/// by `n` in all: zeros for what had no extent, and the data, or zeros.
pub open spec fn added_bytes(data: Option<Seq<u8>>, lead: int, n: int) -> Seq<u8> {
    match data {
        Some(d) => zero_bytes(lead as nat) + d,
        None => zero_bytes(n as nat),
    }
}

/// What growing asks of a volume and a file: its extents make up one fork that
/// shares no byte with metadata, the records that are put in have a place
/// behind those that are there, and what the bitmaps say is free is free.
pub open spec fn can_grow(
    v: VolumeView,
    t: Tree,
    m: Set<u64>,
    oid: u64,
    inode: InodeVal,
) -> bool {
    let sid = inode.private_id;
    &&& v.block_size > 0
    &&& v.disk.len() % (v.block_size as nat) == 0
    &&& v.disk.len() <= u64::MAX
    &&& oid < KIND_UNIT
    &&& sid < KIND_UNIT
    &&& v.extents(sid) matches Ok(exts)
    &&& total_length(exts, 0) <= u64::MAX
    &&& sound_file(v, t, m, spans_of(exts, v.block_size), 0)
    &&& space_spare(v, t, m, spans_of(exts, v.block_size))
    &&& v.stream_end(sid) matches Ok(log)
    &&& forall|l: u64| log <= l ==> reaches(t, #[trigger] extent_key(sid, l))
    &&& reaches(t, key_head(sid, J_TYPE_DSTREAM_ID))
}

/// The records of a longer file are committed, when its blocks are written.
/// Gives the catalog afterwards.
proof fn lemma_grow_commit(
    v: VolumeView,
    t: Tree,
    m: Set<u64>,
    oid: u64,
    sid: u64,
    exts: Seq<FileExtentVal>,
    runs: Seq<(u64, u64)>,
    have: int,
    log: int,
    new_size: u64,
    now: i64,
) -> (u: Tree)
    requires
        v.sound(t, m),
        v.block_size > 0,
        v.disk.len() <= u64::MAX,
        oid < KIND_UNIT,
        sid < KIND_UNIT,
        extents_in(recs(t), sid) == Ok::<Seq<FileExtentVal>, Fault>(exts),
        total_length(exts, 0) == have,
        spans_clear(t, m, v.nx, v.block_size, spans_of(exts, v.block_size)),
        runs.len() > 0 ==> starts_before(picked(recs(t), sid, J_TYPE_FILE_EXTENT), log),
        forall|l: u64| log <= l ==> reaches(t, #[trigger] extent_key(sid, l)),
        reaches(t, key_head(sid, J_TYPE_DSTREAM_ID)),
        runs_apart(runs),
        runs_on(runs, v.block_size, v.disk.len()),
        runs_spare(v, t, m, spans_of(exts, v.block_size), runs),
        0 <= have,
        0 <= log,
        have + total(runs, runs.len() as int) * v.block_size <= u64::MAX,
        v.finish(v.grown(oid, sid, runs, log, new_size, now)).0 is Ok,
    ensures
        ({
            let w = v.finish(v.grown(oid, sid, runs, log, new_size, now)).1;
            let all = spans_of(exts, v.block_size) + run_spans(runs, v.block_size, have);
            &&& runs_fit(runs, v.block_size, have)
            &&& w.sound(u, m)
            &&& extents_in(recs(u), sid) matches Ok(now_exts) && spans_of(
                now_exts,
                v.block_size,
            ) == all
            &&& inode_in(recs(t), oid) matches Ok(i) && (inode_in(recs(u), oid) matches Ok(j)
                && regrown(i, j, new_size, now))
            &&& forall|o: u64, j: u8|
                j == J_TYPE_DIR_REC || (o != oid && j == J_TYPE_INODE) || (o != sid && j
                    == J_TYPE_FILE_EXTENT) ==> #[trigger] picked(recs(u), o, j) == picked(
                    recs(t),
                    o,
                    j,
                )
            &&& fork_prefix(w.disk, all, 0, new_size as int) == fork_prefix(
                v.disk,
                all,
                0,
                new_size as int,
            )
            &&& files_kept(v, w, t, m)
            &&& follows(v, t, w, u, m)
        }),
{
    let bs = v.block_size;
    let w = v.finish(v.grown(oid, sid, runs, log, new_size, now)).1;
    let spans = spans_of(exts, bs);
    let more = run_spans(runs, bs, have);
    let all = spans + more;
    assert forall|k: int| 0 <= k < runs.len() implies (#[trigger] runs[k]).1 > 0 by {}
    lemma_grown(v, t, m, oid, sid, runs, log, new_size, now);
    let s = v.grown(oid, sid, runs, log, new_size, now)->Ok_0;
    assert forall|k: int| 0 <= k < runs.len() implies (#[trigger] runs[k]).0 * bs <= u64::MAX by {
        assert((runs[k].0 + runs[k].1) * bs <= v.disk.len());
        lemma_block_order(runs[k].0 as int, runs[k].0 + runs[k].1, bs as int);
    }
    assert(runs_fit(runs, bs, have));
    lemma_more_spans(exts, runs, bs, have);
    lemma_spare_clear(v, t, m, spans, runs, have);
    assert forall|i: int, x: int, q: u64|
        #![trigger all[i], in_block(x, q, bs as u64)]
        0 <= i < all.len() && all[i].1 <= x < all[i].1 + all[i].2 && in_block(
            x,
            q,
            bs as u64,
        ) implies no_metadata(t, m, v.nx, q) by {
        if i < spans.len() {
            assert(all[i] == spans[i]);
        } else {
            assert(all[i] == more[i - spans.len()]);
        }
    }
    lemma_commit(v, t, m, s);
    lemma_commit_follows(v, t, m, s);
    lemma_commit_file(v, t, m, s, all, new_size as int);
    assert forall|other: Seq<(u64, u64, u64)>, limit: int|
        spans_clear(t, m, v.nx, bs, other) implies #[trigger] fork_prefix(w.disk, other, 0, limit)
        == fork_prefix(v.disk, other, 0, limit) by {
        lemma_commit_file(v, t, m, s, other, limit);
    }
    tree_after(t, s, v.nx)
}

/// Whether a file apart from one that has grown into these runs is unchanged.
pub open spec fn others_kept(
    v: VolumeView,
    w: VolumeView,
    t: Tree,
    m: Set<u64>,
    spans: Seq<(u64, u64, u64)>,
    runs: Seq<(u64, u64)>,
) -> bool {
    forall|other: Seq<(u64, u64, u64)>, limit: int|
        spans_clear(t, m, v.nx, v.block_size, other) && files_apart(spans, other) && (forall|x: int|
            in_spans(other, x) ==> !#[trigger] in_runs(runs, v.block_size, 0, x))
            ==> #[trigger] fork_prefix(w.disk, other, 0, limit) == fork_prefix(
            v.disk,
            other,
            0,
            limit,
        )
}

/// A file that shares no byte with what was written is read as before.
proof fn lemma_other_kept(
    disk: Seq<u8>,
    mid: Seq<u8>,
    end: Seq<u8>,
    block_size: u32,
    spans: Seq<(u64, u64, u64)>,
    runs: Seq<(u64, u64)>,
    other: Seq<(u64, u64, u64)>,
    limit: int,
)
    requires
        disk.len() == mid.len(),
        disk.len() == end.len(),
        forall|x: int|
            0 <= x < disk.len() && !in_spans(spans, x) ==> #[trigger] mid[x] == disk[x],
        forall|x: int|
            0 <= x < end.len() && !in_runs(runs, block_size, 0, x) ==> #[trigger] end[x]
                == mid[x],
        files_apart(spans, other),
        forall|x: int| in_spans(other, x) ==> !#[trigger] in_runs(runs, block_size, 0, x),
    ensures
        fork_prefix(end, other, 0, limit) == fork_prefix(disk, other, 0, limit),
{
    lemma_other_file(disk, mid, spans, other, limit);
    assert forall|k: int, x: int|
        #![trigger other[k], end[x]]
        0 <= k < other.len() && other[k].1 <= x < other[k].1 + other[k].2 && x
            < end.len() implies end[x] == mid[x] by {
        assert(in_spans(other, x));
        assert(!in_runs(runs, block_size, 0, x));
    }
    lemma_same_file(end, mid, other, 0, limit);
}

/// The blocks of a longer file are written. Gives the device after the first
/// step and after the second.
pub proof fn lemma_grow_writes(
    v: VolumeView,
    t: Tree,
    m: Set<u64>,
    exts: Seq<FileExtentVal>,
    runs: Seq<(u64, u64)>,
    cur: u64,
    new_size: u64,
    base: int,
    n: int,
    data: Option<Seq<u8>>,
) -> (r: (VolumeView, VolumeView))
    requires
        v.sound(t, m),
        v.block_size > 0,
        v.disk.len() % (v.block_size as nat) == 0,
        v.disk.len() <= u64::MAX,
        total_length(exts, 0) <= u64::MAX,
        sound_file(v, t, m, spans_of(exts, v.block_size), 0),
        runs_apart(runs),
        runs_spare(v, t, m, spans_of(exts, v.block_size), runs),
        cur < new_size,
        base == within_first(cur, total_length(exts, 0) as u64),
        n == within_first(new_size, total_length(exts, 0) as u64) - base,
        data matches Some(d) ==> d.len() == new_size - cur,
    ensures
        ({
            let spans = spans_of(exts, v.block_size);
            let rest = rest_bytes(data, cur - base, n);
            &&& 0 <= n <= new_size - base
            &&& v.fill_tail(exts, cur, n, data).0 is Ok
            &&& r.0 == v.fill_tail(exts, cur, n, data).1
            &&& r.0 == (VolumeView { disk: r.0.disk, ..v })
            &&& r.1 == (VolumeView {
                disk: write_runs(r.0.disk, v.block_size, runs, 0, rest, 0).1,
                ..v
            })
            &&& write_runs(r.0.disk, v.block_size, runs, 0, rest, 0).0 is Ok
            &&& r.0.disk.len() == v.disk.len()
            &&& r.1.disk.len() == v.disk.len()
            &&& fork_end(spans, 0) == total_length(exts, 0)
            &&& fork(r.0.disk, spans) == splice(
                fork(v.disk, spans),
                base,
                added_bytes(data, cur - base, new_size - base).take(n),
            )
            &&& runs_on(runs, v.block_size, v.disk.len())
            &&& runs_spare(r.1, t, m, spans, runs)
            &&& r.1.sound(t, m)
            &&& metadata_kept(v, r.1.disk, t, m)
            &&& forall|x: int|
                0 <= x < v.disk.len() && !in_spans(spans, x) ==> #[trigger] r.0.disk[x]
                    == v.disk[x]
            &&& forall|x: int|
                0 <= x < r.1.disk.len() && in_spans(spans, x) ==> #[trigger] r.1.disk[x]
                    == r.0.disk[x]
            &&& forall|k: int, x: int|
                #![trigger in_run(runs[k], v.block_size, x)]
                0 <= k < runs.len() && in_run(runs[k], v.block_size, x) ==> r.1.disk[x] == pad(
                    rest,
                    total(runs, k) * v.block_size + x - runs[k].0 * v.block_size,
                )
            &&& forall|x: int|
                0 <= x < r.1.disk.len() && !in_runs(runs, v.block_size, 0, x)
                    ==> #[trigger] r.1.disk[x] == r.0.disk[x]
        }),
{
    let bs = v.block_size;
    let spans = spans_of(exts, bs);
    let added = added_bytes(data, cur - base, new_size - base);
    let rest = rest_bytes(data, cur - base, n);
    lemma_total_length(exts, 0);
    law_spans_are_contiguous(exts, bs);
    lemma_fill_tail(v, t, m, cur, n, data, exts);
    let v2 = v.fill_tail(exts, cur, n, data).1;
    assert(fork(v2.disk, spans) == splice(fork(v.disk, spans), base, added.take(n))) by {
        if n == 0 {
            assert(splice(fork(v.disk, spans), base, added.take(n)) =~= fork(v.disk, spans));
        } else {
            assert(added_part(data, 0, n) =~= added.take(n));
        }
    }
    assert forall|p: u64| #[trigger] covered(runs, p as int) implies spare(
        v2,
        t,
        m,
        spans,
        p,
    ) by {
        assert(spare(v, t, m, spans, p));
    }
    lemma_fill_runs(v2, t, m, spans, runs, rest);
    let v3 = VolumeView { disk: write_runs(v2.disk, bs, runs, 0, rest, 0).1, ..v2 };
    assert forall|p: u64| #[trigger] covered(runs, p as int) implies spare(
        v3,
        t,
        m,
        spans,
        p,
    ) by {
        assert(spare(v, t, m, spans, p));
    }
    assert(v2 == (VolumeView { disk: v2.disk, ..v }));
    assert(v3 == (VolumeView { disk: v3.disk, ..v }));
    (v2, v3)
}

/// What is read of a longer file when its blocks are written.
proof fn lemma_longer_file(
    disk: Seq<u8>,
    mid: Seq<u8>,
    end: Seq<u8>,
    block_size: u32,
    spans: Seq<(u64, u64, u64)>,
    runs: Seq<(u64, u64)>,
    base: int,
    new_size: int,
    log: int,
    lead: int,
    n: int,
    data: Option<Seq<u8>>,
)
    requires
        sound_fork(spans, disk.len()),
        disk.len() == mid.len(),
        disk.len() == end.len(),
        disk.len() <= u64::MAX,
        fork_end(spans, 0) == log,
        runs_fit(runs, block_size, log),
        runs_on(runs, block_size, disk.len()),
        0 <= base <= log,
        base <= new_size,
        0 <= lead,
        lead > 0 ==> n == 0,
        data matches Some(d) ==> lead + d.len() == new_size - base,
        log + total(runs, runs.len() as int) * block_size >= new_size,
        n == (if new_size <= log {
            new_size - base
        } else {
            log - base
        }),
        fork(mid, spans) == splice(
            fork(disk, spans),
            base,
            added_bytes(data, lead, new_size - base).take(n),
        ),
        forall|x: int| 0 <= x < end.len() && in_spans(spans, x) ==> #[trigger] end[x] == mid[x],
        forall|k: int, x: int|
            #![trigger in_run(runs[k], block_size, x)]
            0 <= k < runs.len() && in_run(runs[k], block_size, x) ==> end[x] == pad(
                rest_bytes(data, lead, n),
                total(runs, k) * block_size + x - runs[k].0 * block_size,
            ),
    ensures
        fork_prefix(end, spans + run_spans(runs, block_size, log), 0, new_size) == Ok::<
            Seq<u8>,
            Fault,
        >(fork(disk, spans).take(base) + added_bytes(data, lead, new_size - base)),
{
    let added = added_bytes(data, lead, new_size - base);
    let rest = rest_bytes(data, lead, n);
    assert forall|x: int| 0 <= x < added.len() - n implies #[trigger] pad(rest, x) == added[n
        + x] by {}
    lemma_filled(
        disk,
        mid,
        end,
        block_size,
        spans,
        runs,
        base,
        new_size,
        log,
        n,
        added,
        rest,
    );
    lemma_longer_fork(spans, runs, block_size, log, disk.len());
    law_streaming_gives_the_front(
        end,
        spans + run_spans(runs, block_size, log),
        new_size,
    );
}

/// Making a file longer when its blocks are reserved.
pub open spec fn grow_call(
    v: VolumeView,
    runs: Seq<(u64, u64)>,
    oid: u64,
    inode: InodeVal,
    exts: Seq<FileExtentVal>,
    log: u64,
    new_size: u64,
    data: Option<Seq<u8>>,
    now: i64,
) -> (Result<(), Fault>, VolumeView) {
    let have = sat(total_length(exts, 0));
    let base = within_first(inode_size(inode), have);
    v.grow_into(
        runs,
        oid,
        inode,
        exts,
        log,
        new_size,
        inode_size(inode) - base,
        within_first(new_size, have) - base,
        data,
        now,
    )
}

/// A file is made longer when its blocks are reserved. Gives the catalog
/// afterwards.
#[verifier::rlimit(60)]
proof fn lemma_grow_into(
    v: VolumeView,
    t: Tree,
    m: Set<u64>,
    oid: u64,
    inode: InodeVal,
    exts: Seq<FileExtentVal>,
    log: u64,
    runs: Seq<(u64, u64)>,
    new_size: u64,
    data: Option<Seq<u8>>,
    now: i64,
) -> (u: Tree)
    requires
        v.sound(t, m),
        v.block_size > 0,
        v.disk.len() % (v.block_size as nat) == 0,
        v.disk.len() <= u64::MAX,
        oid < KIND_UNIT,
        inode.private_id < KIND_UNIT,
        v.extents(inode.private_id) == Ok::<Seq<FileExtentVal>, Fault>(exts),
        total_length(exts, 0) <= u64::MAX,
        sound_file(v, t, m, spans_of(exts, v.block_size), 0),
        runs.len() > 0 ==> starts_before(
            picked(recs(t), inode.private_id, J_TYPE_FILE_EXTENT),
            log as int,
        ),
        forall|l: u64| log <= l ==> reaches(t, #[trigger] extent_key(inode.private_id, l)),
        reaches(t, key_head(inode.private_id, J_TYPE_DSTREAM_ID)),
        runs_apart(runs),
        runs_spare(v, t, m, spans_of(exts, v.block_size), runs),
        new_size <= total_length(exts, 0) + total(runs, runs.len() as int) * v.block_size
            <= u64::MAX,
        inode_size(inode) < new_size,
        data matches Some(d) ==> d.len() == new_size - inode_size(inode),
        grow_call(v, runs, oid, inode, exts, log, new_size, data, now).0 is Ok,
    ensures
        ({
            let w = grow_call(v, runs, oid, inode, exts, log, new_size, data, now).1;
            let spans = spans_of(exts, v.block_size);
            let cur = inode_size(inode);
            let base = within_first(cur, total_length(exts, 0) as u64);
            let sid = inode.private_id;
            &&& w.sound(u, m)
            &&& follows(v, t, w, u, m)
            &&& extents_in(recs(u), sid) matches Ok(longer) && fork_prefix(
                w.disk,
                spans_of(longer, v.block_size),
                0,
                new_size as int,
            ) == Ok::<Seq<u8>, Fault>(
                fork(v.disk, spans).take(base) + added_bytes(data, cur - base, new_size - base),
            )
            &&& inode_in(recs(t), oid) matches Ok(i) && (inode_in(recs(u), oid) matches Ok(j)
                && regrown(i, j, new_size, now))
            &&& forall|o: u64, j: u8|
                j == J_TYPE_DIR_REC || (o != oid && j == J_TYPE_INODE) || (o != sid && j
                    == J_TYPE_FILE_EXTENT) ==> #[trigger] picked(recs(u), o, j) == picked(
                    recs(t),
                    o,
                    j,
                )
            &&& others_kept(v, w, t, m, spans, runs)
        }),
{
    let bs = v.block_size;
    let spans = spans_of(exts, bs);
    let sid = inode.private_id;
    let cur = inode_size(inode);
    let have = total_length(exts, 0);
    lemma_total_length(exts, 0);
    let base = within_first(cur, have as u64);
    let n = within_first(new_size, have as u64) - base;
    reveal(VolumeView::grow_into);
    let (v2, v3) = lemma_grow_writes(v, t, m, exts, runs, cur, new_size, base, n, data);
    law_volume_shows_records(v, t, seq![], sid);
    let u = lemma_grow_commit(v3, t, m, oid, sid, exts, runs, have, log as int, new_size, now);
    let w = grow_call(v, runs, oid, inode, exts, log, new_size, data, now).1;
    lemma_data_then(v, v3, w, t, u, m);
    lemma_longer_file(
        v.disk,
        v2.disk,
        v3.disk,
        bs,
        spans,
        runs,
        base,
        new_size as int,
        have,
        cur - base,
        n,
        data,
    );
    assert forall|other: Seq<(u64, u64, u64)>, limit: int|
        spans_clear(t, m, v.nx, bs, other) && files_apart(spans, other) && (forall|x: int|
            in_spans(other, x) ==> !#[trigger] in_runs(
                runs,
                bs,
                0,
                x,
            )) implies #[trigger] fork_prefix(w.disk, other, 0, limit) == fork_prefix(
        v.disk,
        other,
        0,
        limit,
    ) by {
        lemma_other_kept(v.disk, v2.disk, v3.disk, bs, spans, runs, other, limit);
    }
    u
}

/// A byte of a run lies in a block that was free.
proof fn lemma_held_apart(
    v: VolumeView,
    runs: Seq<(u64, u64)>,
    other: Seq<(u64, u64, u64)>,
    x: int,
)
    requires
        v.block_size > 0,
        runs_apart(runs),
        forall|p: u64| #[trigger] covered(runs, p as int) ==> free_block(v, p),
        spans_held(v, other),
        in_spans(other, x),
    ensures
        !in_runs(runs, v.block_size, 0, x),
{
    if in_runs(runs, v.block_size, 0, x) {
        let k = choose|k: int|
            0 <= k < runs.len() && #[trigger] in_run(runs[k], v.block_size, x);
        let q = lemma_block_at(runs[k], v.block_size, x);
        lemma_covered(runs, k, q as int);
        assert(free_block(v, q));
    }
}

/// Whether files apart from the one with these spans, and in no block that was
/// free, are unchanged.
pub open spec fn held_files_kept(
    v: VolumeView,
    w: VolumeView,
    t: Tree,
    m: Set<u64>,
    spans: Seq<(u64, u64, u64)>,
) -> bool {
    forall|other: Seq<(u64, u64, u64)>, limit: int|
        spans_clear(t, m, v.nx, v.block_size, other) && files_apart(spans, other) && spans_held(
            v,
            other,
        ) ==> #[trigger] fork_prefix(w.disk, other, 0, limit) == fork_prefix(
            v.disk,
            other,
            0,
            limit,
        )
}

/// Extents can be put in only before the last position that there is.
proof fn lemma_log_is_free(
    v: VolumeView,
    runs: Seq<(u64, u64)>,
    oid: u64,
    inode: InodeVal,
    exts: Seq<FileExtentVal>,
    log: u64,
    new_size: u64,
    data: Option<Seq<u8>>,
    now: i64,
)
    requires
        v.block_size > 0,
        runs.len() > 0,
        runs[0].1 > 0,
        grow_call(v, runs, oid, inode, exts, log, new_size, data, now).0 is Ok,
    ensures
        log < u64::MAX,
{
    reveal(VolumeView::grow_into);
    assert(runs[0].1 * v.block_size > 0) by (nonlinear_arith)
        requires
            runs[0].1 > 0,
            v.block_size > 0,
    ;
}

/// A file is made longer when its extents are known and blocks were reserved.
proof fn lemma_grow_call(
    v: VolumeView,
    oid: u64,
    inode: InodeVal,
    exts: Seq<FileExtentVal>,
    log: u64,
    new_size: u64,
    data: Option<Seq<u8>>,
    now: i64,
)
    requires
        v.extents(inode.private_id) == Ok::<Seq<FileExtentVal>, Fault>(exts),
        v.stream_end(inode.private_id) == Ok::<u64, Fault>(log),
        inode_size(inode) < new_size,
        v.grow_to(oid, inode, new_size, data, now).0 is Ok,
    ensures
        ({
            let blocks = blocks_short(new_size, sat(total_length(exts, 0)), v.block_size) as u64;
            let (r, w) = v.reserve(blocks);
            &&& round_up(new_size, v.block_size) <= u64::MAX
            &&& r is Ok
            &&& v.grow_to(oid, inode, new_size, data, now) == grow_call(
                w,
                r->Ok_0,
                oid,
                inode,
                exts,
                log,
                new_size,
                data,
                now,
            )
        }),
{
    reveal(VolumeView::grow_to);
}

/// A file is made longer. Gives the catalog and the inode afterwards.
#[verifier::rlimit(60)]
proof fn lemma_grow_to(
    v: VolumeView,
    t: Tree,
    m: Set<u64>,
    oid: u64,
    inode: InodeVal,
    new_size: u64,
    data: Option<Seq<u8>>,
    now: i64,
) -> (r: (Tree, InodeVal))
    requires
        v.sound(t, m),
        can_grow(v, t, m, oid, inode),
        inode_in(recs(t), oid) == Ok::<InodeVal, Fault>(inode),
        inode_size(inode) < new_size,
        new_size + v.block_size <= u64::MAX,
        data matches Some(d) ==> d.len() == new_size - inode_size(inode),
        v.grow_to(oid, inode, new_size, data, now).0 is Ok,
    ensures
        ({
            let w = v.grow_to(oid, inode, new_size, data, now).1;
            let cur = inode_size(inode);
            let sid = inode.private_id;
            let exts = v.extents(sid)->Ok_0;
            let spans = spans_of(exts, v.block_size);
            let base = within_first(cur, total_length(exts, 0) as u64);
            &&& w.sound(r.0, m)
            &&& follows(v, t, w, r.0, m)
            &&& extents_in(recs(r.0), sid) matches Ok(longer) && fork_prefix(
                w.disk,
                spans_of(longer, v.block_size),
                0,
                new_size as int,
            ) == Ok::<Seq<u8>, Fault>(
                fork(v.disk, spans).take(base) + added_bytes(data, cur - base, new_size - base),
            )
            &&& inode_in(recs(r.0), oid) == Ok::<InodeVal, Fault>(r.1)
            &&& regrown(inode, r.1, new_size, now)
            &&& forall|o: u64, j: u8|
                j == J_TYPE_DIR_REC || (o != oid && j == J_TYPE_INODE) || (o != sid && j
                    == J_TYPE_FILE_EXTENT) ==> #[trigger] picked(recs(r.0), o, j) == picked(
                    recs(t),
                    o,
                    j,
                )
            &&& held_files_kept(v, w, t, m, spans)
        }),
{
    let bs = v.block_size;
    let sid = inode.private_id;
    let exts = v.extents(sid)->Ok_0;
    let spans = spans_of(exts, bs);
    let log = v.stream_end(sid)->Ok_0;
    let have = total_length(exts, 0);
    lemma_total_length(exts, 0);
    let blocks = blocks_short(new_size, have as u64, bs) as u64;
    lemma_grow_call(v, oid, inode, exts, log, new_size, data, now);
    lemma_blocks_short(new_size, have as u64, bs);
    lemma_reserve(v, t, m, spans, blocks);
    let (taken, v1) = v.reserve(blocks);
    let runs = taken->Ok_0;
    assert(runs_spare(v1, t, m, spans, runs)) by {
        assert forall|p: u64| #[trigger] covered(runs, p as int) implies spare(
            v1,
            t,
            m,
            spans,
            p,
        ) by {
            assert(spare(v, t, m, spans, p));
        }
    }
    law_volume_shows_records(v, t, seq![], sid);
    law_volume_shows_records(v1, t, seq![], sid);
    law_lookups_find_records(v, t, sid, J_TYPE_FILE_EXTENT);
    let w = v.grow_to(oid, inode, new_size, data, now).1;
    if runs.len() > 0 {
        lemma_log_is_free(v1, runs, oid, inode, exts, log, new_size, data, now);
        lemma_starts_before(picked(recs(t), sid, J_TYPE_FILE_EXTENT), 0);
    }
    let u = lemma_grow_into(v1, t, m, oid, inode, exts, log, runs, new_size, data, now);
    lemma_data_then(v, v1, w, t, u, m);
    assert(held_files_kept(v, w, t, m, spans)) by {
        assert forall|other: Seq<(u64, u64, u64)>, limit: int|
            spans_clear(t, m, v.nx, bs, other) && files_apart(spans, other) && spans_held(
                v,
                other,
            ) implies #[trigger] fork_prefix(w.disk, other, 0, limit) == fork_prefix(
            v.disk,
            other,
            0,
            limit,
        ) by {
            assert forall|x: int| in_spans(other, x) implies !#[trigger] in_runs(
                runs,
                bs,
                0,
                x,
            ) by {
                lemma_held_apart(v, runs, other, x);
            }
        }
    }
    (u, inode_in(recs(u), oid)->Ok_0)
}

/// What paths and other files show when a file was made longer.
proof fn lemma_longer_shown(
    v: VolumeView,
    w: VolumeView,
    t: Tree,
    u: Tree,
    oid: u64,
    sid: u64,
    i: InodeVal,
    path: Seq<char>,
    o: u64,
)
    requires
        v.has_catalog(t),
        w.has_catalog(u),
        inode_in(recs(t), oid) is Ok,
        inode_in(recs(u), oid) == Ok::<InodeVal, Fault>(i),
        forall|o: u64, j: u8|
            j == J_TYPE_DIR_REC || (o != oid && j == J_TYPE_INODE) || (o != sid && j
                == J_TYPE_FILE_EXTENT) ==> #[trigger] picked(recs(u), o, j) == picked(recs(t), o, j),
    ensures
        w.resolve(path) == with_inode(v.resolve(path), oid, i),
        o != sid ==> w.extents(o) == v.extents(o),
{
    law_volume_shows_records(v, t, path, o);
    law_volume_shows_records(w, u, path, o);
    lemma_walk_changed(recs(t), recs(u), oid, i, components(path), 0, ROOT_DIR_RECORD);
}

/// A file's bytes with zeros behind them, up to `size`.
pub open spec fn up_to(was: Seq<u8>, size: u64) -> Seq<u8> {
    was + zero_bytes((size - was.len()) as nat)
}

/// What is appended to a file is read back behind what it had, under every
/// path that names it. What no extent held before reads as zeros. Other objects
/// stay as they were, and so does what other files hold. Gives the catalog and
/// the inode of the file afterwards.
#[verifier::rlimit(60)]
pub proof fn law_append_is_read_back(
    v: VolumeView,
    t: Tree,
    m: Set<u64>,
    path: Seq<char>,
    data: Seq<u8>,
    now: i64,
) -> (r: (Tree, InodeVal))
    requires
        v.sound(t, m),
        v.resolve(path) matches Ok((oid, inode)) && can_grow(v, t, m, oid, inode),
        v.append(path, data, now).0 is Ok,
        inode_size((v.resolve(path)->Ok_0).1) + data.len() + v.block_size <= u64::MAX,
    ensures
        ({
            let (n, w) = v.append(path, data, now);
            let (oid, inode) = v.resolve(path)->Ok_0;
            &&& n == Ok::<u64, Fault>(data.len() as u64)
            &&& w.sound(r.0, m)
            &&& follows(v, t, w, r.0, m)
            &&& data.len() == 0 ==> w == v
            &&& v.contents(path) matches Ok(was) && was.len() <= inode_size(inode) && (data.len()
                > 0 ==> w.contents(path) == Ok::<Seq<u8>, Fault>(
                up_to(was, inode_size(inode)) + data,
            ))
            &&& data.len() == 0 ==> r.1 == inode
            &&& data.len() > 0 ==> regrown(
                inode,
                r.1,
                (inode_size(inode) + data.len()) as u64,
                now,
            )
            &&& inode_size(r.1) == inode_size(inode) + data.len()
            &&& forall|q: Seq<char>| #[trigger]
                w.resolve(q) == with_inode(v.resolve(q), oid, r.1)
            &&& forall|o: u64| o != inode.private_id ==> #[trigger] w.extents(o) == v.extents(o)
            &&& held_files_kept(
                v,
                w,
                t,
                m,
                spans_of(v.extents(inode.private_id)->Ok_0, v.block_size),
            )
        }),
{
    let (oid, inode) = v.resolve(path)->Ok_0;
    let w = v.append(path, data, now).1;
    let sid = inode.private_id;
    let exts = v.extents(sid)->Ok_0;
    let spans = spans_of(exts, v.block_size);
    lemma_resolve_inode(v, t, path);
    law_streaming_gives_the_front(v.disk, spans, inode_size(inode) as int);
    if data.len() == 0 {
        lemma_data_follows(v, v.disk, t, m);
        assert forall|q: Seq<char>| #[trigger] w.resolve(q) == with_inode(
            v.resolve(q),
            oid,
            inode,
        ) by {
            lemma_resolve_inode(v, t, q);
        }
        (t, inode)
    } else {
        let new_size = (inode_size(inode) + data.len()) as u64;
        let (u, i) = lemma_grow_to(v, t, m, oid, inode, new_size, Some(data), now);
        assert forall|q: Seq<char>| #[trigger] w.resolve(q) == with_inode(
            v.resolve(q),
            oid,
            i,
        ) by {
            lemma_longer_shown(v, w, t, u, oid, sid, i, q, 0);
        }
        assert forall|o: u64| o != sid implies #[trigger] w.extents(o) == v.extents(o) by {
            lemma_longer_shown(v, w, t, u, oid, sid, i, seq![], o);
        }
        assert(w.resolve(path) == Ok::<(u64, InodeVal), Fault>((oid, i)));
        law_volume_shows_records(w, u, path, sid);
        let was = v.contents(path)->Ok_0;
        law_spans_are_contiguous(exts, v.block_size);
        lemma_total_length(exts, 0);
        let base = within_first(inode_size(inode), total_length(exts, 0) as u64);
        assert(was == fork(v.disk, spans).take(base));
        assert(was + added_bytes(Some(data), inode_size(inode) - base, new_size - base) =~= up_to(
            was,
            inode_size(inode),
        ) + data);
        (u, i)
    }
}

/// A file that was made longer reads as it did, with zeros behind that, under
/// every path that names it. Other objects stay as they were, and so does what
/// other files hold. Gives the catalog and the inode of the file afterwards.
#[verifier::rlimit(60)]
pub proof fn law_grow_adds_zeros(
    v: VolumeView,
    t: Tree,
    m: Set<u64>,
    path: Seq<char>,
    new_size: u64,
    now: i64,
) -> (r: (Tree, InodeVal))
    requires
        v.sound(t, m),
        v.resolve(path) matches Ok((oid, inode)) && can_grow(v, t, m, oid, inode),
        v.grow(path, new_size, now).0 is Ok,
        new_size + v.block_size <= u64::MAX,
    ensures
        ({
            let w = v.grow(path, new_size, now).1;
            let (oid, inode) = v.resolve(path)->Ok_0;
            &&& w.sound(r.0, m)
            &&& follows(v, t, w, r.0, m)
            &&& v.contents(path) matches Ok(was) && was.len() <= inode_size(inode) && w.contents(
                path,
            ) == Ok::<Seq<u8>, Fault>(up_to(was, new_size))
            &&& regrown(inode, r.1, new_size, now)
            &&& forall|q: Seq<char>| #[trigger]
                w.resolve(q) == with_inode(v.resolve(q), oid, r.1)
            &&& forall|o: u64| o != inode.private_id ==> #[trigger] w.extents(o) == v.extents(o)
            &&& held_files_kept(
                v,
                w,
                t,
                m,
                spans_of(v.extents(inode.private_id)->Ok_0, v.block_size),
            )
        }),
{
    let (oid, inode) = v.resolve(path)->Ok_0;
    let w = v.grow(path, new_size, now).1;
    let sid = inode.private_id;
    let exts = v.extents(sid)->Ok_0;
    let spans = spans_of(exts, v.block_size);
    lemma_resolve_inode(v, t, path);
    law_streaming_gives_the_front(v.disk, spans, inode_size(inode) as int);
    let (u, i) = lemma_grow_to(v, t, m, oid, inode, new_size, None, now);
    assert forall|q: Seq<char>| #[trigger] w.resolve(q) == with_inode(
        v.resolve(q),
        oid,
        i,
    ) by {
        lemma_longer_shown(v, w, t, u, oid, sid, i, q, 0);
    }
    assert forall|o: u64| o != sid implies #[trigger] w.extents(o) == v.extents(o) by {
        lemma_longer_shown(v, w, t, u, oid, sid, i, seq![], o);
    }
    assert(w.resolve(path) == Ok::<(u64, InodeVal), Fault>((oid, i)));
    law_volume_shows_records(w, u, path, sid);
    let was = v.contents(path)->Ok_0;
    law_spans_are_contiguous(exts, v.block_size);
    lemma_total_length(exts, 0);
    let base = within_first(inode_size(inode), total_length(exts, 0) as u64);
    assert(was == fork(v.disk, spans).take(base));
    (u, i)
}

} // verus!

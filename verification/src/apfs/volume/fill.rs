//! What writing new blocks of a file leaves on the device.

use crate::apfs::bytes::splice;
use crate::apfs::catalog::records::{
    extent_length, extent_with, law_extent_keeps_length, FileExtentVal, EXTENT_LENGTH_LIMIT,
};
use crate::apfs::extents::{
    fork, fork_end, lemma_place_in, lemma_raw_write, lemma_span_of, lemma_total_length, sat,
    sound_fork, spans_from, spans_of, total_length,
};
use crate::apfs::spaceman::laws::{runs_apart, total};
use crate::apfs::volume::grow::{padded, write_run, write_runs};
use vstd::prelude::*;

verus! {

/// The byte of a payload at `x`, or zero behind its end.
pub open spec fn pad(payload: Seq<u8>, x: int) -> u8 {
    if 0 <= x < payload.len() {
        payload[x]
    } else {
        0
    }
}

proof fn lemma_block_step(b: int, bs: int)
    ensures
        (b + 1) * bs == b * bs + bs,
{
    assert((b + 1) * bs == b * bs + bs) by (nonlinear_arith);
}

pub proof fn lemma_block_order(a: int, b: int, bs: int)
    requires
        a <= b,
        bs >= 0,
    ensures
        a * bs <= b * bs,
{
    assert(a * bs <= b * bs) by (nonlinear_arith)
        requires
            a <= b,
            bs >= 0,
    ;
}

/// What the blocks of a run hold after they were written.
proof fn lemma_write_run(
    disk: Seq<u8>,
    block_size: u32,
    start: u64,
    j: int,
    n: int,
    payload: Seq<u8>,
    off: int,
)
    requires
        block_size > 0,
        disk.len() % (block_size as nat) == 0,
        disk.len() <= u64::MAX,
        0 <= j <= n,
        0 <= off,
        (start + n) * block_size <= disk.len(),
    ensures
        ({
            let (r, d) = write_run(disk, block_size, start, j, n, payload, off);
            &&& r is Ok
            &&& d.len() == disk.len()
            &&& forall|x: int|
                (start + j) * block_size <= x < (start + n) * block_size ==> #[trigger] d[x] == pad(
                    payload,
                    off + x - (start + j) * block_size,
                )
            &&& forall|x: int|
                0 <= x < disk.len() && !((start + j) * block_size <= x < (start + n) * block_size)
                    ==> #[trigger] d[x] == disk[x]
        }),
    decreases n - j,
{
    let bs = block_size as int;
    if j < n {
        let at = (start + j) * bs;
        lemma_block_step(start + j, bs);
        lemma_block_order(start + j + 1, start + n, bs);
        lemma_block_order(0, start + j, bs);
        let p = padded(payload, off, block_size);
        lemma_raw_write(disk, block_size, at, p);
        let mid = splice(disk, at, p);
        lemma_write_run(mid, block_size, start, j + 1, n, payload, off + bs);
        let d = write_run(disk, block_size, start, j, n, payload, off).1;
        assert(d == write_run(mid, block_size, start, j + 1, n, payload, off + bs).1);
        assert forall|x: int| at <= x < (start + n) * bs implies #[trigger] d[x] == pad(
            payload,
            off + x - at,
        ) by {
            if x < at + bs {
                assert(d[x] == mid[x]);
                assert(mid[x] == p[x - at]);
            }
        }
        assert forall|x: int|
            0 <= x < disk.len() && !(at <= x < (start + n) * bs) implies #[trigger] d[x]
            == disk[x] by {
            assert(d[x] == mid[x]);
        }
    }
}

/// Whether a byte lies in one of the runs from `i` on.
pub open spec fn in_runs(runs: Seq<(u64, u64)>, block_size: u32, i: int, x: int) -> bool {
    exists|k: int| i <= k < runs.len() && #[trigger] in_run(runs[k], block_size, x)
}

/// Whether a byte lies in a run.
pub open spec fn in_run(run: (u64, u64), block_size: u32, x: int) -> bool {
    run.0 * block_size <= x < (run.0 + run.1) * block_size
}

/// Whether runs lie on a device of `len` bytes.
pub open spec fn runs_on(runs: Seq<(u64, u64)>, block_size: u32, len: nat) -> bool {
    forall|k: int|
        0 <= k < runs.len() ==> ((#[trigger] runs[k]).0 + runs[k].1) * block_size <= len
}

/// A byte of one run is no byte of another.
pub proof fn lemma_runs_apart(
    runs: Seq<(u64, u64)>,
    block_size: u32,
    i: int,
    j: int,
    x: int,
)
    requires
        runs_apart(runs),
        0 <= i < runs.len(),
        0 <= j < runs.len(),
        i != j,
        in_run(runs[i], block_size, x),
    ensures
        !in_run(runs[j], block_size, x),
{
    let bs = block_size as int;
    let a = if i < j { i } else { j };
    let b = if i < j { j } else { i };
    assert(runs[a].0 + runs[a].1 <= runs[b].0 || runs[b].0 + runs[b].1 <= runs[a].0);
    if runs[i].0 + runs[i].1 <= runs[j].0 {
        lemma_block_order(runs[i].0 + runs[i].1, runs[j].0 as int, bs);
    } else {
        lemma_block_order(runs[j].0 + runs[j].1, runs[i].0 as int, bs);
    }
}

/// What the blocks of the runs hold after they were written, the runs one
/// after the other.
pub proof fn lemma_write_runs(
    disk: Seq<u8>,
    block_size: u32,
    runs: Seq<(u64, u64)>,
    i: int,
    payload: Seq<u8>,
)
    requires
        block_size > 0,
        disk.len() % (block_size as nat) == 0,
        disk.len() <= u64::MAX,
        0 <= i <= runs.len(),
        runs_apart(runs),
        runs_on(runs, block_size, disk.len()),
        total(runs, i) >= 0,
    ensures
        ({
            let (r, d) = write_runs(
                disk,
                block_size,
                runs,
                i,
                payload,
                total(runs, i) * block_size,
            );
            &&& r is Ok
            &&& d.len() == disk.len()
            &&& forall|k: int, x: int|
                #![trigger in_run(runs[k], block_size, x)]
                i <= k < runs.len() && in_run(runs[k], block_size, x) ==> d[x] == pad(
                    payload,
                    total(runs, k) * block_size + x - runs[k].0 * block_size,
                )
            &&& forall|x: int|
                0 <= x < disk.len() && !in_runs(runs, block_size, i, x) ==> #[trigger] d[x]
                    == disk[x]
        }),
    decreases runs.len() - i,
{
    let bs = block_size as int;
    if i < runs.len() {
        let (start, n) = runs[i];
        let off = total(runs, i) * bs;
        lemma_block_order(0, total(runs, i), bs);
        assert((runs[i].0 + runs[i].1) * bs <= disk.len());
        lemma_write_run(disk, block_size, start, 0, n as int, payload, off);
        let mid = write_run(disk, block_size, start, 0, n as int, payload, off).1;
        assert(total(runs, i + 1) == total(runs, i) + n);
        assert(off + n * bs == total(runs, i + 1) * bs) by (nonlinear_arith)
            requires
                off == total(runs, i) * bs,
                total(runs, i + 1) == total(runs, i) + n,
        ;
        lemma_write_runs(mid, block_size, runs, i + 1, payload);
        let d = write_runs(disk, block_size, runs, i, payload, off).1;
        assert(d == write_runs(mid, block_size, runs, i + 1, payload, total(runs, i + 1) * bs).1);
        assert forall|k: int, x: int|
            #![trigger in_run(runs[k], block_size, x)]
            i <= k < runs.len() && in_run(runs[k], block_size, x) implies d[x] == pad(
            payload,
            total(runs, k) * bs + x - runs[k].0 * bs,
        ) by {
            if k == i {
                assert(!in_runs(runs, block_size, i + 1, x)) by {
                    if in_runs(runs, block_size, i + 1, x) {
                        let j = choose|j: int|
                            i + 1 <= j < runs.len() && #[trigger] in_run(runs[j], block_size, x);
                        lemma_runs_apart(runs, block_size, i, j, x);
                    }
                }
                lemma_block_order(0, start as int, bs);
                assert(d[x] == mid[x]);
            }
        }
        assert forall|x: int|
            0 <= x < disk.len() && !in_runs(runs, block_size, i, x) implies #[trigger] d[x]
            == disk[x] by {
            assert(!in_runs(runs, block_size, i + 1, x)) by {
                if in_runs(runs, block_size, i + 1, x) {
                    let j = choose|j: int|
                        i + 1 <= j < runs.len() && #[trigger] in_run(runs[j], block_size, x);
                    assert(in_run(runs[j], block_size, x));
                }
            }
            assert(!in_run(runs[i], block_size, x));
            assert(d[x] == mid[x]);
        }
    }
}

/// The extents of runs.
pub open spec fn run_exts(runs: Seq<(u64, u64)>, block_size: u32) -> Seq<FileExtentVal> {
    Seq::new(
        runs.len(),
        |k: int| extent_with((runs[k].1 * block_size) as u64, 0, runs[k].0, 0),
    )
}

/// The spans of runs that follow each other from logical position `log` on.
pub open spec fn run_spans(runs: Seq<(u64, u64)>, block_size: u32, log: int) -> Seq<
    (u64, u64, u64),
> {
    Seq::new(
        runs.len(),
        |k: int|
            (
                (log + total(runs, k) * block_size) as u64,
                (runs[k].0 * block_size) as u64,
                (runs[k].1 * block_size) as u64,
            ),
    )
}

/// The spans of extents behind others follow those of the others.
pub proof fn lemma_spans_cat(
    a: Seq<FileExtentVal>,
    b: Seq<FileExtentVal>,
    block_size: u32,
    i: int,
    log: u64,
)
    requires
        0 <= i <= a.len(),
        log + total_length(a, i) <= u64::MAX,
    ensures
        spans_from(a + b, block_size, i, log) == spans_from(a, block_size, i, log) + spans_from(
            b,
            block_size,
            0,
            (log + total_length(a, i)) as u64,
        ),
    decreases a.len() - i,
{
    let c = a + b;
    if i < a.len() {
        assert(c[i] == a[i]);
        let len = extent_length(a[i]);
        lemma_total_length(a, i + 1);
        if len == 0 {
            lemma_spans_cat(a, b, block_size, i + 1, log);
        } else {
            lemma_spans_cat(a, b, block_size, i + 1, (log + len) as u64);
            let head = (log, sat(a[i].phys_block_num * block_size), len);
            let x = spans_from(a, block_size, i + 1, (log + len) as u64);
            let y = spans_from(b, block_size, 0, (log + total_length(a, i)) as u64);
            assert(seq![head] + (x + y) =~= (seq![head] + x) + y);
        }
    } else {
        lemma_spans_shift(a, b, block_size, 0, log);
        let y = spans_from(b, block_size, 0, log);
        assert(Seq::<(u64, u64, u64)>::empty() + y =~= y);
    }
}

proof fn lemma_spans_shift(
    a: Seq<FileExtentVal>,
    b: Seq<FileExtentVal>,
    block_size: u32,
    j: int,
    log: u64,
)
    requires
        0 <= j <= b.len(),
    ensures
        spans_from(a + b, block_size, a.len() + j, log) == spans_from(b, block_size, j, log),
    decreases b.len() - j,
{
    let c = a + b;
    if j < b.len() {
        assert(c[a.len() + j] == b[j]);
        let len = extent_length(b[j]);
        lemma_spans_shift(a, b, block_size, j + 1, log);
        lemma_spans_shift(a, b, block_size, j + 1, sat(log + len));
    }
}

/// Whether a run is short enough for one extent.
pub open spec fn run_short(run: (u64, u64), block_size: u32) -> bool {
    run.1 * block_size < EXTENT_LENGTH_LIMIT
}

/// What runs ask to be extents of a file from logical position `log` on.
pub open spec fn runs_fit(runs: Seq<(u64, u64)>, block_size: u32, log: int) -> bool {
    &&& block_size > 0
    &&& runs_apart(runs)
    &&& forall|k: int| 0 <= k < runs.len() ==> #[trigger] run_short(runs[k], block_size)
    &&& forall|k: int| 0 <= k < runs.len() ==> (#[trigger] runs[k]).0 * block_size <= u64::MAX
    &&& log + total(runs, runs.len() as int) * block_size <= u64::MAX
    &&& 0 <= log
}

pub proof fn lemma_total_order(runs: Seq<(u64, u64)>, i: int, j: int)
    requires
        0 <= i <= j <= runs.len(),
    ensures
        0 <= total(runs, i) <= total(runs, j),
    decreases j,
{
    if i < j {
        lemma_total_order(runs, i, j - 1);
    } else if i > 0 {
        lemma_total_order(runs, i - 1, j - 1);
    }
}

/// The positions of a run and of the next.
pub proof fn lemma_run_bytes(runs: Seq<(u64, u64)>, block_size: u32, log: int, k: int)
    requires
        runs_fit(runs, block_size, log),
        0 <= k < runs.len(),
    ensures
        0 < runs[k].1 * block_size,
        0 <= total(runs, k) * block_size,
        total(runs, k + 1) * block_size == total(runs, k) * block_size + runs[k].1 * block_size,
        log + total(runs, k + 1) * block_size <= u64::MAX,
        0 <= runs[k].0 * block_size,
        (runs[k].0 + runs[k].1) * block_size == runs[k].0 * block_size + runs[k].1 * block_size,
{
    let bs = block_size as int;
    let n = runs[k].1;
    assert(n > 0);
    assert(total(runs, k + 1) == total(runs, k) + n);
    lemma_total_order(runs, k, k + 1);
    lemma_total_order(runs, k + 1, runs.len() as int);
    lemma_block_order(total(runs, k + 1), total(runs, runs.len() as int), bs);
    lemma_block_order(0, total(runs, k), bs);
    lemma_block_order(1, n as int, bs);
    lemma_block_order(0, runs[k].0 as int, bs);
    assert((total(runs, k) + n) * bs == total(runs, k) * bs + n * bs) by (nonlinear_arith);
    assert((runs[k].0 + n) * bs == runs[k].0 * bs + n * bs) by (nonlinear_arith);
}

proof fn lemma_run_spans_from(runs: Seq<(u64, u64)>, block_size: u32, log: int, k: int)
    requires
        runs_fit(runs, block_size, log),
        0 <= k <= runs.len(),
    ensures
        spans_from(
            run_exts(runs, block_size),
            block_size,
            k,
            (log + total(runs, k) * block_size) as u64,
        ) == run_spans(runs, block_size, log).skip(k),
    decreases runs.len() - k,
{
    let e = run_exts(runs, block_size);
    let n = run_spans(runs, block_size, log);
    if k < runs.len() {
        lemma_run_bytes(runs, block_size, log, k);
        let len = (runs[k].1 * block_size) as u64;
        assert(run_short(runs[k], block_size));
        law_extent_keeps_length(len, 0, runs[k].0, 0);
        lemma_run_spans_from(runs, block_size, log, k + 1);
        assert(runs[k].0 * block_size <= u64::MAX);
        assert(n.skip(k) =~= seq![n[k]] + n.skip(k + 1));
    } else {
        assert(n.skip(k) =~= seq![]);
    }
}

/// The spans of extents and of runs behind them.
pub proof fn lemma_more_spans(
    exts: Seq<FileExtentVal>,
    runs: Seq<(u64, u64)>,
    block_size: u32,
    log: int,
)
    requires
        runs_fit(runs, block_size, log),
        total_length(exts, 0) == log,
    ensures
        spans_of(exts + run_exts(runs, block_size), block_size) == spans_of(exts, block_size)
            + run_spans(runs, block_size, log),
{
    lemma_total_order(runs, 0, runs.len() as int);
    lemma_block_order(0, total(runs, runs.len() as int), block_size as int);
    lemma_spans_cat(exts, run_exts(runs, block_size), block_size, 0, 0);
    lemma_run_spans_from(runs, block_size, log, 0);
    assert(total(runs, 0) == 0);
    assert(run_spans(runs, block_size, log).skip(0) =~= run_spans(runs, block_size, log));
}

/// A fork with runs behind it.
pub proof fn lemma_longer_fork(
    spans: Seq<(u64, u64, u64)>,
    runs: Seq<(u64, u64)>,
    block_size: u32,
    log: int,
    len: nat,
)
    requires
        sound_fork(spans, len),
        fork_end(spans, 0) == log,
        runs_fit(runs, block_size, log),
        runs_on(runs, block_size, len),
        len <= u64::MAX,
    ensures
        ({
            let all = spans + run_spans(runs, block_size, log);
            &&& sound_fork(all, len)
            &&& fork_end(all, 0) == log + total(runs, runs.len() as int) * block_size
        }),
{
    let more = run_spans(runs, block_size, log);
    let all = spans + more;
    let bs = block_size as int;
    assert(total(runs, 0) == 0);
    assert forall|i: int, j: int| 0 <= i && j == i + 1 && j < all.len() implies (
    #[trigger] all[i]).0 + all[i].2 == (#[trigger] all[j]).0 by {
        if j < spans.len() {
            assert(all[i] == spans[i] && all[j] == spans[j]);
        } else if i >= spans.len() {
            let k = i - spans.len();
            assert(all[i] == more[k] && all[j] == more[k + 1]);
            lemma_run_bytes(runs, block_size, log, k);
            lemma_run_bytes(runs, block_size, log, k + 1);
            assert(run_short(runs[k], block_size));
        } else {
            assert(all[i] == spans[i] && all[j] == more[0]);
            lemma_run_bytes(runs, block_size, log, 0);
            assert(spans.last() == spans[i]);
        }
    }
    if spans.len() == 0 && more.len() > 0 {
        assert(all[0] == more[0]);
        lemma_run_bytes(runs, block_size, log, 0);
    } else if spans.len() > 0 {
        assert(all[0] == spans[0]);
    }
    assert forall|i: int| 0 <= i < all.len() implies (#[trigger] all[i]).2 > 0 && all[i].1
        + all[i].2 <= len by {
        if i < spans.len() {
            assert(all[i] == spans[i]);
        } else {
            let k = i - spans.len();
            assert(all[i] == more[k]);
            lemma_run_bytes(runs, block_size, log, k);
            assert((runs[k].0 + runs[k].1) * bs <= len);
            assert(run_short(runs[k], block_size));
            assert(runs[k].0 * bs <= u64::MAX);
        }
    }
    if more.len() > 0 {
        let k = more.len() - 1;
        lemma_run_bytes(runs, block_size, log, k);
        assert(run_short(runs[k], block_size));
        assert(all.last() == more[k]);
    } else {
        assert(all =~= spans);
    }
}

/// The bytes of a fork stay where they are when runs are put behind it.
pub proof fn lemma_longer_front(
    disk: Seq<u8>,
    spans: Seq<(u64, u64, u64)>,
    runs: Seq<(u64, u64)>,
    block_size: u32,
    log: int,
    p: int,
)
    requires
        sound_fork(spans, disk.len()),
        fork_end(spans, 0) == log,
        runs_fit(runs, block_size, log),
        runs_on(runs, block_size, disk.len()),
        disk.len() <= u64::MAX,
        0 <= p < log,
    ensures
        ({
            let f = fork(disk, spans + run_spans(runs, block_size, log));
            p < f.len() && f[p] == fork(disk, spans)[p]
        }),
{
    let all = spans + run_spans(runs, block_size, log);
    lemma_longer_fork(spans, runs, block_size, log, disk.len());
    lemma_total_order(runs, 0, runs.len() as int);
    lemma_block_order(0, total(runs, runs.len() as int), block_size as int);
    let i = lemma_span_of(spans, disk.len(), p);
    assert(all[i] == spans[i]);
    lemma_place_in(all, disk.len(), p, i, 0);
    lemma_place_in(spans, disk.len(), p, i, 0);
}

/// A byte of a run behind a fork: `x` is its place in the run.
pub proof fn lemma_longer_back(
    disk: Seq<u8>,
    spans: Seq<(u64, u64, u64)>,
    runs: Seq<(u64, u64)>,
    block_size: u32,
    log: int,
    k: int,
    x: int,
)
    requires
        sound_fork(spans, disk.len()),
        fork_end(spans, 0) == log,
        runs_fit(runs, block_size, log),
        runs_on(runs, block_size, disk.len()),
        disk.len() <= u64::MAX,
        0 <= k < runs.len(),
        0 <= x < runs[k].1 * block_size,
    ensures
        ({
            let f = fork(disk, spans + run_spans(runs, block_size, log));
            let p = log + total(runs, k) * block_size + x;
            &&& 0 <= p < f.len()
            &&& f[p] == disk[runs[k].0 * block_size + x]
        }),
{
    let more = run_spans(runs, block_size, log);
    let all = spans + more;
    let bs = block_size as int;
    let p = log + total(runs, k) * bs + x;
    lemma_longer_fork(spans, runs, block_size, log, disk.len());
    lemma_run_bytes(runs, block_size, log, k);
    assert(run_short(runs[k], block_size));
    assert(runs[k].0 * bs <= u64::MAX);
    lemma_total_order(runs, k + 1, runs.len() as int);
    lemma_block_order(total(runs, k + 1), total(runs, runs.len() as int), bs);
    let i = spans.len() + k;
    assert(all[i] == more[k]);
    assert(all[i].1 + all[i].2 <= disk.len());
    lemma_place_in(all, disk.len(), p, i, 0);
}

} // verus!

//! What the allocator keeps.

use crate::apfs::spaceman::bits::{
    bit, cleared, first_clear, is_clear_run, is_set, law_bit_order, lemma_cleared, lemma_first_clear,
    lemma_first_run, lemma_marked, lemma_run_length, lemma_same_bits, lemma_set_length, marked,
    set_length,
};
use crate::apfs::spaceman::layout::ChunkInfo;
use crate::apfs::spaceman::manager::{bitmap_of, block_of, lemma_put_chunk, less, SpaceView};
use vstd::prelude::*;

verus! {

/// Chunks that share no block and do not run past the last address.
pub open spec fn apart(v: SpaceView) -> bool {
    &&& forall|k: int|
        0 <= k < v.chunks().len() ==> (#[trigger] v.chunks()[k]).addr + v.chunks()[k].block_count
            <= u64::MAX
    &&& forall|i: int, j: int|
        0 <= i < v.chunks().len() && 0 <= j < v.chunks().len() && i != j ==> (
        #[trigger] v.chunks()[i]).addr + v.chunks()[i].block_count <= (
        #[trigger] v.chunks()[j]).addr || v.chunks()[j].addr + v.chunks()[j].block_count
            <= v.chunks()[i].addr
}

/// The same chunks over the same blocks.
pub open spec fn same_chunks(v: SpaceView, w: SpaceView) -> bool {
    &&& v.shaped()
    &&& w.shaped()
    &&& v.chunks().len() == w.chunks().len()
    &&& forall|k: int|
        0 <= k < v.chunks().len() ==> (#[trigger] v.chunks()[k]).addr == w.chunks()[k].addr
            && v.chunks()[k].block_count == w.chunks()[k].block_count
    &&& forall|k: int|
        0 <= k < v.bitmaps.len() ==> (#[trigger] v.bitmaps[k]).len() == w.bitmaps[k].len()
}

proof fn lemma_chunk_of_same(v: SpaceView, w: SpaceView, p: u64, k: int)
    requires
        same_chunks(v, w),
        0 <= k,
    ensures
        v.chunk_of(p, k) == w.chunk_of(p, k),
    decreases v.chunks().len() - k,
{
    if k < v.chunks().len() {
        assert(v.chunks()[k].addr == w.chunks()[k].addr);
        lemma_chunk_of_same(v, w, p, k + 1);
    }
}

/// The chunk that holds a block is the one whose range it lies in.
proof fn lemma_chunk_of(v: SpaceView, p: u64, k: int, from: int)
    requires
        apart(v),
        0 <= from <= k < v.chunks().len(),
        v.chunks()[k].addr <= p < v.chunks()[k].addr + v.chunks()[k].block_count,
    ensures
        v.chunk_of(p, from) == Some(k),
    decreases k - from,
{
    if from < k {
        assert(v.chunks()[from].addr + v.chunks()[from].block_count <= v.chunks()[k].addr
            || v.chunks()[k].addr + v.chunks()[k].block_count <= v.chunks()[from].addr);
        lemma_chunk_of(v, p, k, from + 1);
    }
}

proof fn lemma_chunk_of_holds(v: SpaceView, p: u64, from: int)
    requires
        0 <= from,
    ensures
        v.chunk_of(p, from) matches Some(k) ==> from <= k < v.chunks().len()
            && v.chunks()[k].addr <= p < v.chunks()[k].addr + v.chunks()[k].block_count,
    decreases v.chunks().len() - from,
{
    if from < v.chunks().len() {
        lemma_chunk_of_holds(v, p, from + 1);
    }
}

proof fn lemma_take_shape(v: SpaceView, k: int, s: int, n: int)
    requires
        v.shaped(),
        0 <= k < v.chunks().len(),
        0 <= s,
        0 <= n,
        s + n <= v.bitmaps[k].len() * 8,
    ensures
        ({
            let w = v.take(k, s, n);
            &&& same_chunks(v, w)
            &&& w.chunks() == v.chunks().update(
                k,
                ChunkInfo {
                    free_count: less(v.chunks()[k].free_count as int, n) as u32,
                    ..v.chunks()[k]
                },
            )
            &&& w.bitmaps == v.bitmaps.update(k, marked(v.bitmaps[k], s, n))
            &&& w.free() == less(v.free() as int, n)
        }),
{
    let c = ChunkInfo {
        free_count: less(v.chunks()[k].free_count as int, n) as u32,
        ..v.chunks()[k]
    };
    lemma_put_chunk(v.cibs, 0, k, c);
    lemma_marked(v.bitmaps[k], s, n);
}

/// Giving out a free run makes its blocks used, and no others.
pub proof fn law_taken_blocks_are_used(v: SpaceView, k: int, s: int, n: int, p: u64)
    requires
        v.shaped(),
        apart(v),
        0 <= k < v.chunks().len(),
        0 < n,
        is_clear_run(v.bitmaps[k], v.usable(k), s, n),
    ensures
        block_of(v.chunks()[k], s) == v.chunks()[k].addr + s,
        v.chunks()[k].addr + s <= p < v.chunks()[k].addr + s + n ==> v.block_used(p) == Some(false)
            && v.take(k, s, n).block_used(p) == Some(true),
        !(v.chunks()[k].addr + s <= p < v.chunks()[k].addr + s + n) ==> v.take(k, s, n).block_used(p)
            == v.block_used(p),
{
    let w = v.take(k, s, n);
    let a = v.chunks()[k].addr;
    lemma_take_shape(v, k, s, n);
    lemma_marked(v.bitmaps[k], s, n);
    lemma_chunk_of_same(v, w, p, 0);
    lemma_chunk_of_holds(v, p, 0);
    assert(v.chunks()[k].addr + v.chunks()[k].block_count <= u64::MAX);
    if a + s <= p < a + s + n {
        lemma_chunk_of(v, p, k, 0);
        assert(!bit(v.bitmaps[k], p - a));
        assert(bit(w.bitmaps[k], p - a));
    } else if v.chunk_of(p, 0) == Some(k) {
        if p - a < v.bitmaps[k].len() * 8 {
            assert(bit(marked(v.bitmaps[k], s, n), p - a) == bit(v.bitmaps[k], p - a));
        }
    } else if v.chunk_of(p, 0) is Some {
        let j = v.chunk_of(p, 0)->Some_0;
        assert(w.bitmaps[j] == v.bitmaps[j]);
        assert(w.chunks()[j] == v.chunks()[j]);
    }
}

/// Whether one of the runs holds the block `p`.
pub open spec fn covered(runs: Seq<(u64, u64)>, p: int) -> bool {
    exists|i: int| 0 <= i < runs.len() && (#[trigger] runs[i]).0 <= p < runs[i].0 + runs[i].1
}

/// How many blocks the first `n` runs have.
pub open spec fn total(runs: Seq<(u64, u64)>, n: int) -> int
    decreases n,
{
    if n <= 0 {
        0
    } else {
        total(runs, n - 1) + runs[n - 1].1
    }
}

proof fn lemma_total_push(runs: Seq<(u64, u64)>, r: (u64, u64), n: int)
    requires
        0 <= n <= runs.len(),
    ensures
        total(runs.push(r), n) == total(runs, n),
    decreases n,
{
    if n > 0 {
        lemma_total_push(runs, r, n - 1);
    }
}

proof fn lemma_pick_any(v: SpaceView, k: int)
    requires
        v.shaped(),
        0 <= k,
    ensures
        v.pick_any(k) matches Some((j, s, n)) ==> k <= j < v.chunks().len() && n > 0
            && is_clear_run(v.bitmaps[j], v.usable(j), s, n),
    decreases v.chunks().len() - k,
{
    if k < v.chunks().len() {
        lemma_pick_any(v, k + 1);
        let bm = v.bitmaps[k];
        let u = v.usable(k);
        lemma_first_clear(bm, u, 0);
        if let Some(s) = first_clear(bm, u, 0) {
            lemma_run_length(bm, u, s);
        }
    }
}

proof fn lemma_pick_run(v: SpaceView, n: int, k: int)
    requires
        v.shaped(),
        0 <= k,
        n > 0,
    ensures
        v.pick_run(n, k) matches Some((j, s)) ==> k <= j < v.chunks().len() && is_clear_run(
            v.bitmaps[j],
            v.usable(j),
            s,
            n,
        ) && v.chunks()[j].free_count >= n,
    decreases v.chunks().len() - k,
{
    if k < v.chunks().len() {
        lemma_pick_run(v, n, k + 1);
        lemma_first_run(v.bitmaps[k], v.usable(k), n, 0);
    }
}

/// What was used before is used now, together with exactly the runs, which
/// were free.
pub open spec fn gave(v: SpaceView, w: SpaceView, runs: Seq<(u64, u64)>) -> bool {
    &&& forall|p: u64| #[trigger]
        covered(runs, p as int) ==> v.block_used(p) == Some(false) && w.block_used(p) == Some(true)
    &&& forall|p: u64| !(#[trigger] covered(runs, p as int)) ==> w.block_used(p) == v.block_used(p)
}

proof fn lemma_covered_push(runs: Seq<(u64, u64)>, r: (u64, u64), p: int)
    ensures
        covered(runs.push(r), p) == (covered(runs, p) || r.0 <= p < r.0 + r.1),
{
    let all = runs.push(r);
    if covered(runs, p) {
        let i = choose|i: int|
            0 <= i < runs.len() && (#[trigger] runs[i]).0 <= p < runs[i].0 + runs[i].1;
        assert(all[i] == runs[i]);
    }
    if r.0 <= p < r.0 + r.1 {
        assert(all[runs.len() as int] == r);
    }
    if covered(all, p) {
        let i = choose|i: int|
            0 <= i < all.len() && (#[trigger] all[i]).0 <= p < all[i].0 + all[i].1;
        if i < runs.len() {
            assert(runs[i] == all[i]);
        }
    }
}

proof fn lemma_gave_step(
    v: SpaceView,
    cur: SpaceView,
    runs: Seq<(u64, u64)>,
    k: int,
    s: int,
    n: int,
)
    requires
        same_chunks(v, cur),
        apart(v),
        gave(v, cur, runs),
        0 <= k < cur.chunks().len(),
        0 < n,
        is_clear_run(cur.bitmaps[k], cur.usable(k), s, n),
    ensures
        same_chunks(v, cur.take(k, s, n)),
        gave(v, cur.take(k, s, n), runs.push((block_of(cur.chunks()[k], s), n as u64))),
{
    let next = cur.take(k, s, n);
    let r = (block_of(cur.chunks()[k], s), n as u64);
    let all = runs.push(r);
    lemma_apart_same(v, cur);
    lemma_take_shape(cur, k, s, n);
    law_taken_blocks_are_used(cur, k, s, n, 0);
    assert forall|p: u64| #[trigger] covered(all, p as int) implies v.block_used(p) == Some(false)
        && next.block_used(p) == Some(true) by {
        lemma_covered_push(runs, r, p as int);
        law_taken_blocks_are_used(cur, k, s, n, p);
        if covered(runs, p as int) {
        } else {
            assert(cur.block_used(p) == v.block_used(p));
        }
    }
    assert forall|p: u64| !(#[trigger] covered(all, p as int)) implies next.block_used(p)
        == v.block_used(p) by {
        lemma_covered_push(runs, r, p as int);
        law_taken_blocks_are_used(cur, k, s, n, p);
        assert(!covered(runs, p as int));
    }
}

proof fn lemma_apart_same(v: SpaceView, w: SpaceView)
    requires
        same_chunks(v, w),
        apart(v),
    ensures
        apart(w),
        forall|k: int| 0 <= k < v.chunks().len() ==> #[trigger] v.usable(k) == w.usable(k),
{
    assert forall|k: int| 0 <= k < w.chunks().len() implies (#[trigger] w.chunks()[k]).addr
        + w.chunks()[k].block_count <= u64::MAX by {
        assert(v.chunks()[k].addr + v.chunks()[k].block_count <= u64::MAX);
    }
    assert forall|i: int, j: int|
        0 <= i < w.chunks().len() && 0 <= j < w.chunks().len() && i != j implies (
    #[trigger] w.chunks()[i]).addr + w.chunks()[i].block_count <= (#[trigger] w.chunks()[j]).addr
        || w.chunks()[j].addr + w.chunks()[j].block_count <= w.chunks()[i].addr by {
        assert(v.chunks()[i].addr + v.chunks()[i].block_count <= v.chunks()[j].addr
            || v.chunks()[j].addr + v.chunks()[j].block_count <= v.chunks()[i].addr);
    }
    assert forall|k: int| 0 <= k < v.chunks().len() implies #[trigger] v.usable(k) == w.usable(
        k,
    ) by {
        assert(v.chunks()[k].block_count == w.chunks()[k].block_count);
        assert(v.bitmaps[k].len() == w.bitmaps[k].len());
    }
}

proof fn lemma_same_chunks_chain(u: SpaceView, v: SpaceView, w: SpaceView)
    requires
        same_chunks(u, v),
        same_chunks(v, w),
    ensures
        same_chunks(u, w),
{
    assert forall|k: int| 0 <= k < u.chunks().len() implies (#[trigger] u.chunks()[k]).addr
        == w.chunks()[k].addr && u.chunks()[k].block_count == w.chunks()[k].block_count by {
        assert(u.chunks()[k].addr == v.chunks()[k].addr);
        assert(v.chunks()[k].addr == w.chunks()[k].addr);
    }
    assert forall|k: int| 0 <= k < u.bitmaps.len() implies (#[trigger] u.bitmaps[k]).len()
        == w.bitmaps[k].len() by {
        assert(v.bitmaps[k].len() == w.bitmaps[k].len());
    }
}

proof fn lemma_gather_gives(
    v: SpaceView,
    cur: SpaceView,
    n: int,
    runs: Seq<(u64, u64)>,
)
    requires
        same_chunks(v, cur),
        apart(v),
        gave(v, cur, runs),
        0 <= n <= u64::MAX,
    ensures
        cur.gather(n, runs).0 matches Ok(all) ==> {
            &&& same_chunks(v, cur.gather(n, runs).1)
            &&& gave(v, cur.gather(n, runs).1, all)
            &&& total(all, all.len() as int) == total(runs, runs.len() as int) + n
        },
    decreases n,
{
    if n > 0 {
        lemma_pick_any(cur, 0);
        if let Some((k, s, len)) = cur.pick_any(0) {
            let t = if len <= n {
                len
            } else {
                n
            };
            assert(is_clear_run(cur.bitmaps[k], cur.usable(k), s, t));
            lemma_gave_step(v, cur, runs, k, s, t);
            let r = (block_of(cur.chunks()[k], s), t as u64);
            lemma_total_push(runs, r, runs.len() as int);
            lemma_gather_gives(v, cur.take(k, s, t), n - t, runs.push(r));
        }
    }
}

/// A successful allocation hands out runs whose lengths sum to the count. All
/// their blocks were free and are used now, and no other block changed.
pub proof fn law_allocated_runs(v: SpaceView, count: u64)
    requires
        v.shaped(),
        apart(v),
    ensures
        v.alloc_blocks(count).0 matches Ok(runs) ==> {
            &&& total(runs, runs.len() as int) == count
            &&& gave(v, v.alloc_blocks(count).1, runs)
            &&& same_chunks(v, v.alloc_blocks(count).1)
        },
{
    let none = Seq::<(u64, u64)>::empty();
    assert(gave(v, v, none));
    if count > 0 && count <= v.free() {
        lemma_pick_run(v, count as int, 0);
        match v.pick_run(count as int, 0) {
            Some((k, s)) => {
                lemma_gave_step(v, v, none, k, s, count as int);
                let r = (block_of(v.chunks()[k], s), count);
                assert(none.push(r) =~= seq![r]);
                assert(total(seq![r], 1) == total(seq![r], 0) + count);
            },
            None => {
                lemma_gather_gives(v, v, count as int, none);
            },
        }
    }
}

/// Runs that have blocks, do not run past the last address and share no block.
pub open spec fn runs_apart(runs: Seq<(u64, u64)>) -> bool {
    &&& forall|i: int|
        0 <= i < runs.len() ==> 0 < (#[trigger] runs[i]).1 && runs[i].0 + runs[i].1 <= u64::MAX
    &&& forall|i: int, j: int|
        0 <= i < j < runs.len() ==> (#[trigger] runs[i]).0 + runs[i].1 <= (#[trigger] runs[j]).0
            || runs[j].0 + runs[j].1 <= runs[i].0
}

proof fn lemma_apart_step(
    v: SpaceView,
    cur: SpaceView,
    runs: Seq<(u64, u64)>,
    k: int,
    s: int,
    n: int,
)
    requires
        same_chunks(v, cur),
        apart(v),
        gave(v, cur, runs),
        runs_apart(runs),
        0 <= k < cur.chunks().len(),
        0 < n,
        is_clear_run(cur.bitmaps[k], cur.usable(k), s, n),
    ensures
        runs_apart(runs.push((block_of(cur.chunks()[k], s), n as u64))),
{
    lemma_apart_same(v, cur);
    law_taken_blocks_are_used(cur, k, s, n, 0);
    let a = cur.chunks()[k].addr;
    assert(a + cur.chunks()[k].block_count <= u64::MAX);
    let r = (block_of(cur.chunks()[k], s), n as u64);
    let all = runs.push(r);
    assert forall|i: int, j: int| 0 <= i < j < all.len() implies (#[trigger] all[i]).0 + all[i].1
        <= (#[trigger] all[j]).0 || all[j].0 + all[j].1 <= all[i].0 by {
        assert(all[i] == runs[i]);
        if j < runs.len() {
            assert(all[j] == runs[j]);
        } else if runs[i].0 + runs[i].1 > r.0 && r.0 + r.1 > runs[i].0 {
            let p = if runs[i].0 <= r.0 {
                r.0
            } else {
                runs[i].0
            };
            assert(covered(runs, p as int)) by {
                assert(runs[i].0 <= p < runs[i].0 + runs[i].1);
            }
            law_taken_blocks_are_used(cur, k, s, n, p);
        }
    }
    assert forall|i: int| 0 <= i < all.len() implies 0 < (#[trigger] all[i]).1 && all[i].0
        + all[i].1 <= u64::MAX by {
        if i < runs.len() {
            assert(all[i] == runs[i]);
        }
    }
}

proof fn lemma_gather_apart(
    v: SpaceView,
    cur: SpaceView,
    n: int,
    runs: Seq<(u64, u64)>,
)
    requires
        same_chunks(v, cur),
        apart(v),
        gave(v, cur, runs),
        runs_apart(runs),
        0 <= n <= u64::MAX,
    ensures
        cur.gather(n, runs).0 matches Ok(all) ==> runs_apart(all),
    decreases n,
{
    if n > 0 {
        lemma_pick_any(cur, 0);
        if let Some((k, s, len)) = cur.pick_any(0) {
            let t = if len <= n {
                len
            } else {
                n
            };
            assert(is_clear_run(cur.bitmaps[k], cur.usable(k), s, t));
            lemma_gave_step(v, cur, runs, k, s, t);
            lemma_apart_step(v, cur, runs, k, s, t);
            let r = (block_of(cur.chunks()[k], s), t as u64);
            lemma_gather_apart(v, cur.take(k, s, t), n - t, runs.push(r));
        }
    }
}

/// The runs of an allocation share no block.
pub proof fn law_allocated_runs_are_apart(v: SpaceView, count: u64)
    requires
        v.shaped(),
        apart(v),
    ensures
        v.alloc_blocks(count).0 matches Ok(runs) ==> runs_apart(runs),
{
    let none = Seq::<(u64, u64)>::empty();
    assert(gave(v, v, none));
    if count > 0 && count <= v.free() {
        lemma_pick_run(v, count as int, 0);
        match v.pick_run(count as int, 0) {
            Some((k, s)) => {
                lemma_apart_step(v, v, none, k, s, count as int);
                let r = (block_of(v.chunks()[k], s), count);
                assert(none.push(r) =~= seq![r]);
            },
            None => {
                lemma_gather_apart(v, v, count as int, none);
            },
        }
    }
}

/// How many of the first `n` bits are clear.
pub open spec fn clear_count(bm: Seq<u8>, n: int) -> int
    decreases n,
{
    if n <= 0 {
        0
    } else {
        clear_count(bm, n - 1) + (if bit(bm, n - 1) {
            0int
        } else {
            1int
        })
    }
}

proof fn lemma_clear_count_range(bm: Seq<u8>, n: int)
    requires
        0 <= n,
    ensures
        0 <= clear_count(bm, n) <= n,
    decreases n,
{
    if n > 0 {
        lemma_clear_count_range(bm, n - 1);
    }
}

proof fn lemma_clear_count_same(a: Seq<u8>, b: Seq<u8>, n: int)
    requires
        forall|j: int| 0 <= j < n ==> (#[trigger] bit(a, j)) == bit(b, j),
    ensures
        clear_count(a, n) == clear_count(b, n),
    decreases n,
{
    if n > 0 {
        lemma_clear_count_same(a, b, n - 1);
        assert(bit(a, n - 1) == bit(b, n - 1));
    }
}

/// Two bitmaps that differ in a run of `m` bits, clear in the one and set in
/// the other.
proof fn lemma_clear_count_run(a: Seq<u8>, b: Seq<u8>, n: int, s: int, m: int)
    requires
        0 <= s,
        0 <= m,
        s + m <= n,
        forall|j: int| 0 <= j < n && !(s <= j < s + m) ==> (#[trigger] bit(a, j)) == bit(b, j),
        forall|j: int| s <= j < s + m ==> !#[trigger] bit(a, j),
        forall|j: int| s <= j < s + m ==> #[trigger] bit(b, j),
    ensures
        clear_count(b, n) == clear_count(a, n) - m,
    decreases n,
{
    if m == 0 {
        lemma_clear_count_same(a, b, n);
    } else if s + m < n {
        lemma_clear_count_run(a, b, n - 1, s, m);
        assert(bit(a, n - 1) == bit(b, n - 1));
    } else {
        assert(!bit(a, n - 1) && bit(b, n - 1));
        lemma_clear_count_run(a, b, n - 1, s, m - 1);
    }
}

proof fn lemma_no_clear(bm: Seq<u8>, n: int)
    requires
        forall|j: int| 0 <= j < n ==> #[trigger] bit(bm, j),
    ensures
        clear_count(bm, n) == 0,
    decreases n,
{
    if n > 0 {
        assert(bit(bm, n - 1));
        lemma_no_clear(bm, n - 1);
    }
}

/// No chunk counts fewer free blocks than its bitmap shows.
pub open spec fn enough(v: SpaceView) -> bool {
    forall|k: int|
        0 <= k < v.chunks().len() ==> (#[trigger] v.chunks()[k]).free_count >= clear_count(
            v.bitmaps[k],
            v.usable(k),
        )
}

/// The clear bits of a chunk after a clear run was given out.
proof fn lemma_take_count(v: SpaceView, k: int, s: int, n: int)
    requires
        v.shaped(),
        0 <= k < v.chunks().len(),
        0 <= n,
        is_clear_run(v.bitmaps[k], v.usable(k), s, n),
    ensures
        clear_count(marked(v.bitmaps[k], s, n), v.usable(k)) == clear_count(
            v.bitmaps[k],
            v.usable(k),
        ) - n,
        clear_count(v.bitmaps[k], v.usable(k)) >= n,
{
    let bm = v.bitmaps[k];
    let m = marked(bm, s, n);
    lemma_marked(bm, s, n);
    assert forall|j: int| 0 <= j < v.usable(k) && !(s <= j < s + n) implies (#[trigger] bit(bm, j))
        == bit(m, j) by {
        assert(bit(m, j) == (s <= j < s + n || bit(bm, j)));
    }
    assert forall|j: int| s <= j < s + n implies !(#[trigger] bit(bm, j)) && bit(m, j) by {
        assert(bit(m, j) == (s <= j < s + n || bit(bm, j)));
    }
    lemma_clear_count_run(bm, m, v.usable(k), s, n);
    lemma_clear_count_range(m, v.usable(k));
}

/// How many blocks of a chunk the runs hold.
pub open spec fn in_chunk(runs: Seq<(u64, u64)>, c: ChunkInfo) -> int
    decreases runs.len(),
{
    if runs.len() == 0 {
        0
    } else {
        (if c.addr <= runs[0].0 < c.addr + c.block_count {
            runs[0].1 as int
        } else {
            0int
        }) + in_chunk(runs.skip(1), c)
    }
}

proof fn lemma_in_chunk_push(runs: Seq<(u64, u64)>, r: (u64, u64), c: ChunkInfo)
    ensures
        in_chunk(runs.push(r), c) == in_chunk(runs, c) + (if c.addr <= r.0 < c.addr
            + c.block_count {
            r.1 as int
        } else {
            0int
        }),
    decreases runs.len(),
{
    let all = runs.push(r);
    if runs.len() == 0 {
        assert(all.skip(1) =~= Seq::<(u64, u64)>::empty());
        assert(in_chunk(all.skip(1), c) == 0);
    } else {
        assert(all.skip(1) =~= runs.skip(1).push(r));
        lemma_in_chunk_push(runs.skip(1), r, c);
    }
}

/// Whether a run lies in chunk `k` and was clear there.
pub open spec fn run_in(v: SpaceView, r: (u64, u64), k: int) -> bool {
    &&& 0 <= k < v.chunks().len()
    &&& r.1 > 0
    &&& r.0 >= v.chunks()[k].addr
    &&& is_clear_run(v.bitmaps[k], v.usable(k), r.0 - v.chunks()[k].addr, r.1 as int)
}

/// Whether a run lies in some chunk and was clear there.
pub open spec fn placed(v: SpaceView, r: (u64, u64)) -> bool {
    exists|k: int| run_in(v, r, k)
}

/// Runs that were free, each in some chunk, and share no block.
pub open spec fn runs_sound(v: SpaceView, runs: Seq<(u64, u64)>) -> bool {
    &&& forall|i: int| 0 <= i < runs.len() ==> placed(v, #[trigger] runs[i])
    &&& forall|i: int, j: int|
        0 <= i < j < runs.len() ==> (#[trigger] runs[i]).0 + runs[i].1 <= (#[trigger] runs[j]).0
            || runs[j].0 + runs[j].1 <= runs[i].0
}

/// The state `cur` is the state `v` with the runs given out.
pub open spec fn held(v: SpaceView, cur: SpaceView, runs: Seq<(u64, u64)>) -> bool {
    &&& same_chunks(v, cur)
    &&& enough(cur)
    &&& runs_sound(v, runs)
    &&& forall|k: int, b: int|
        0 <= k < v.chunks().len() && 0 <= b < v.bitmaps[k].len() * 8 ==> (#[trigger] bit(
            cur.bitmaps[k],
            b,
        )) == (bit(v.bitmaps[k], b) || (b < v.chunks()[k].block_count && covered(
            runs,
            v.chunks()[k].addr + b,
        )))
    &&& forall|k: int|
        0 <= k < v.chunks().len() ==> (#[trigger] cur.chunks()[k]) == (ChunkInfo {
            free_count: cur.chunks()[k].free_count,
            ..v.chunks()[k]
        }) && cur.chunks()[k].free_count + in_chunk(runs, v.chunks()[k]) == v.chunks()[k].free_count
    &&& cur.free() + total(runs, runs.len() as int) == v.free()
}

proof fn lemma_held_take(
    v: SpaceView,
    cur: SpaceView,
    runs: Seq<(u64, u64)>,
    k: int,
    s: int,
    n: int,
)
    requires
        apart(v),
        held(v, cur, runs),
        0 <= k < cur.chunks().len(),
        0 < n <= cur.free(),
        is_clear_run(cur.bitmaps[k], cur.usable(k), s, n),
    ensures
        held(v, cur.take(k, s, n), runs.push((block_of(cur.chunks()[k], s), n as u64))),
        cur.take(k, s, n).free() == cur.free() - n,
{
    let next = cur.take(k, s, n);
    lemma_apart_same(v, cur);
    lemma_take_shape(cur, k, s, n);
    lemma_take_count(cur, k, s, n);
    lemma_same_chunks_chain(v, cur, next);
    law_taken_blocks_are_used(cur, k, s, n, 0);
    let c = v.chunks()[k];
    let r = (block_of(cur.chunks()[k], s), n as u64);
    let all = runs.push(r);
    assert(cur.chunks()[k].free_count >= clear_count(cur.bitmaps[k], cur.usable(k)));
    assert(cur.chunks()[k].addr == c.addr && cur.chunks()[k].block_count == c.block_count);
    assert(v.usable(k) == cur.usable(k));
    assert(c.addr + c.block_count <= u64::MAX);
    assert(r.0 == c.addr + s);
    // The new run was clear in the first state too.
    assert forall|j: int| s <= j < s + n implies !#[trigger] bit(v.bitmaps[k], j) by {
        assert(!bit(cur.bitmaps[k], j));
    }
    assert(run_in(v, r, k));
    // It shares no block with the runs before.
    assert forall|i: int| 0 <= i < runs.len() implies (#[trigger] runs[i]).0 + runs[i].1 <= r.0
        || r.0 + r.1 <= runs[i].0 by {
        if runs[i].0 + runs[i].1 > r.0 && r.0 + r.1 > runs[i].0 {
            let p = if runs[i].0 <= r.0 {
                r.0 as int
            } else {
                runs[i].0 as int
            };
            assert(covered(runs, p)) by {
                assert(runs[i].0 <= p < runs[i].0 + runs[i].1);
            }
            let b = p - c.addr;
            assert(s <= b < s + n);
            assert(bit(cur.bitmaps[k], b));
            assert(!bit(cur.bitmaps[k], b));
        }
    }
    assert(runs_sound(v, all)) by {
        assert forall|i: int| 0 <= i < all.len() implies placed(v, #[trigger] all[i]) by {
            if i < runs.len() {
                assert(all[i] == runs[i]);
            } else {
                assert(run_in(v, all[i], k));
            }
        }
        assert forall|i: int, j: int| 0 <= i < j < all.len() implies (#[trigger] all[i]).0
            + all[i].1 <= (#[trigger] all[j]).0 || all[j].0 + all[j].1 <= all[i].0 by {
            assert(all[i] == runs[i]);
            if j < runs.len() {
                assert(all[j] == runs[j]);
            }
        }
    }
    assert forall|q: int, b: int|
        0 <= q < v.chunks().len() && 0 <= b < v.bitmaps[q].len() * 8 implies (#[trigger] bit(
        next.bitmaps[q],
        b,
    )) == (bit(v.bitmaps[q], b) || (b < v.chunks()[q].block_count && covered(
        all,
        v.chunks()[q].addr + b,
    ))) by {
        lemma_covered_push(runs, r, v.chunks()[q].addr + b);
        assert(v.bitmaps[q].len() == cur.bitmaps[q].len());
        assert(bit(cur.bitmaps[q], b) == (bit(v.bitmaps[q], b) || (b < v.chunks()[q].block_count
            && covered(runs, v.chunks()[q].addr + b))));
        if q == k {
            lemma_marked(cur.bitmaps[k], s, n);
            assert(bit(next.bitmaps[k], b) == (s <= b < s + n || bit(cur.bitmaps[k], b)));
        } else {
            assert(next.bitmaps[q] == cur.bitmaps[q]);
            assert(v.chunks()[q].addr + v.chunks()[q].block_count <= c.addr || c.addr
                + c.block_count <= v.chunks()[q].addr);
        }
    }
    assert forall|q: int| 0 <= q < v.chunks().len() implies (#[trigger] next.chunks()[q]) == (
    ChunkInfo { free_count: next.chunks()[q].free_count, ..v.chunks()[q] })
        && next.chunks()[q].free_count + in_chunk(all, v.chunks()[q]) == v.chunks()[q].free_count
        by {
        lemma_in_chunk_push(runs, r, v.chunks()[q]);
        assert(cur.chunks()[q].free_count + in_chunk(runs, v.chunks()[q])
            == v.chunks()[q].free_count);
        if q != k {
            assert(v.chunks()[q].addr + v.chunks()[q].block_count <= c.addr || c.addr
                + c.block_count <= v.chunks()[q].addr);
        }
    }
    assert forall|q: int| 0 <= q < next.chunks().len() implies (
    #[trigger] next.chunks()[q]).free_count >= clear_count(next.bitmaps[q], next.usable(q)) by {
        assert(cur.chunks()[q].free_count >= clear_count(cur.bitmaps[q], cur.usable(q)));
        assert(cur.chunks()[q].block_count == next.chunks()[q].block_count);
        assert(cur.bitmaps[q].len() == next.bitmaps[q].len());
    }
    lemma_total_push(runs, r, runs.len() as int);
}

proof fn lemma_set_run(bm: Seq<u8>, s: int, n: int)
    requires
        0 <= s,
        0 <= n,
        forall|j: int| s <= j < s + n ==> #[trigger] is_set(bm, j),
    ensures
        set_length(bm, s, n) == n,
{
    lemma_set_length(bm, s, n);
    let m = set_length(bm, s, n);
    if m < n {
        assert(is_set(bm, s + m));
    }
}

proof fn lemma_total_skip(runs: Seq<(u64, u64)>, n: int)
    requires
        0 < n <= runs.len(),
    ensures
        total(runs, n) == runs[0].1 + total(runs.skip(1), n - 1),
    decreases n,
{
    if n > 1 {
        lemma_total_skip(runs, n - 1);
        assert(runs.skip(1)[n - 2] == runs[n - 1]);
    } else {
        assert(total(runs, 0) == 0);
        assert(total(runs.skip(1), 0) == 0);
    }
}

proof fn lemma_covered_skip(runs: Seq<(u64, u64)>, p: int)
    requires
        runs.len() > 0,
    ensures
        covered(runs, p) == (runs[0].0 <= p < runs[0].0 + runs[0].1 || covered(runs.skip(1), p)),
{
    let rest = runs.skip(1);
    if covered(rest, p) {
        let i = choose|i: int|
            0 <= i < rest.len() && (#[trigger] rest[i]).0 <= p < rest[i].0 + rest[i].1;
        assert(runs[i + 1] == rest[i]);
    }
    if covered(runs, p) {
        let i = choose|i: int|
            0 <= i < runs.len() && (#[trigger] runs[i]).0 <= p < runs[i].0 + runs[i].1;
        if i > 0 {
            assert(rest[i - 1] == runs[i]);
        }
    }
}

/// Freeing the first of the runs that were given out.
proof fn lemma_held_free(v: SpaceView, cur: SpaceView, runs: Seq<(u64, u64)>)
    requires
        apart(v),
        held(v, cur, runs),
        runs.len() > 0,
    ensures
        cur.free_blocks(runs[0].0, runs[0].1).0 is Ok,
        held(v, cur.free_blocks(runs[0].0, runs[0].1).1, runs.skip(1)),
{
    let r = runs[0];
    let rest = runs.skip(1);
    assert(placed(v, runs[0]));
    let k = choose|k: int| run_in(v, runs[0], k);
    lemma_apart_same(v, cur);
    let c = v.chunks()[k];
    assert(cur.chunks()[k].addr == c.addr && cur.chunks()[k].block_count == c.block_count);
    assert(v.usable(k) == cur.usable(k));
    assert(v.bitmaps[k].len() == cur.bitmaps[k].len());
    let s = r.0 - c.addr;
    let n = r.1 as int;
    let bm = cur.bitmaps[k];
    lemma_chunk_of(cur, r.0, k, 0);
    assert forall|j: int| s <= j < s + n implies #[trigger] is_set(bm, j) by {
        lemma_covered_skip(runs, c.addr + j);
        assert(bit(cur.bitmaps[k], j));
    }
    lemma_set_run(bm, s, n);
    lemma_cleared(bm, s, n);
    assert(in_chunk(runs, c) == r.1 + in_chunk(rest, c));
    lemma_in_chunk_nonneg(rest, c);
    lemma_total_skip(runs, runs.len() as int);
    lemma_total_nonneg(rest, rest.len() as int);
    let next = cur.free_blocks(r.0, r.1).1;
    assert(cur.chunks()[k].free_count + in_chunk(runs, v.chunks()[k]) == v.chunks()[k].free_count);
    let nc = ChunkInfo { free_count: (cur.chunks()[k].free_count + n) as u32, ..cur.chunks()[k] };
    lemma_put_chunk(cur.cibs, 0, k, nc);
    assert(next.chunks() == cur.chunks().update(k, nc));
    assert(next.bitmaps == cur.bitmaps.update(k, cleared(bm, s, n)));
    assert(same_chunks(cur, next));
    lemma_same_chunks_chain(v, cur, next);
    assert(runs_sound(v, rest)) by {
        assert forall|i: int| 0 <= i < rest.len() implies placed(v, #[trigger] rest[i]) by {
            assert(rest[i] == runs[i + 1]);
        }
        assert forall|i: int, j: int| 0 <= i < j < rest.len() implies (#[trigger] rest[i]).0
            + rest[i].1 <= (#[trigger] rest[j]).0 || rest[j].0 + rest[j].1 <= rest[i].0 by {
            assert(rest[i] == runs[i + 1] && rest[j] == runs[j + 1]);
        }
    }
    assert forall|q: int, b: int|
        0 <= q < v.chunks().len() && 0 <= b < v.bitmaps[q].len() * 8 implies (#[trigger] bit(
        next.bitmaps[q],
        b,
    )) == (bit(v.bitmaps[q], b) || (b < v.chunks()[q].block_count && covered(
        rest,
        v.chunks()[q].addr + b,
    ))) by {
        let p = v.chunks()[q].addr + b;
        lemma_covered_skip(runs, p);
        assert(v.bitmaps[q].len() == cur.bitmaps[q].len());
        assert(bit(cur.bitmaps[q], b) == (bit(v.bitmaps[q], b) || (b < v.chunks()[q].block_count
            && covered(runs, p))));
        if q == k {
            assert(bit(next.bitmaps[k], b) == (!(s <= b < s + n) && bit(bm, b)));
            if s <= b < s + n {
                assert(!bit(v.bitmaps[k], b));
                if covered(rest, p) {
                    let i = choose|i: int|
                        0 <= i < rest.len() && (#[trigger] rest[i]).0 <= p < rest[i].0 + rest[i].1;
                    assert(rest[i] == runs[i + 1]);
                    assert(runs[0].0 + runs[0].1 <= runs[i + 1].0 || runs[i + 1].0 + runs[i + 1].1
                        <= runs[0].0);
                }
            }
        } else {
            assert(next.bitmaps[q] == cur.bitmaps[q]);
            assert(v.chunks()[q].addr + v.chunks()[q].block_count <= c.addr || c.addr
                + c.block_count <= v.chunks()[q].addr);
        }
    }
    assert forall|q: int| 0 <= q < v.chunks().len() implies (#[trigger] next.chunks()[q]) == (
    ChunkInfo { free_count: next.chunks()[q].free_count, ..v.chunks()[q] })
        && next.chunks()[q].free_count + in_chunk(rest, v.chunks()[q]) == v.chunks()[q].free_count
        by {
        assert(cur.chunks()[q].free_count + in_chunk(runs, v.chunks()[q])
            == v.chunks()[q].free_count);
        if q != k {
            assert(v.chunks()[q].addr + v.chunks()[q].block_count <= c.addr || c.addr
                + c.block_count <= v.chunks()[q].addr);
        }
    }
    assert forall|q: int| 0 <= q < next.chunks().len() implies (
    #[trigger] next.chunks()[q]).free_count >= clear_count(next.bitmaps[q], next.usable(q)) by {
        assert(cur.chunks()[q].free_count >= clear_count(cur.bitmaps[q], cur.usable(q)));
        assert(cur.chunks()[q].block_count == next.chunks()[q].block_count);
        assert(cur.bitmaps[q].len() == next.bitmaps[q].len());
        if q == k {
            let now = cleared(bm, s, n);
            assert forall|j: int| 0 <= j < cur.usable(k) && !(s <= j < s + n) implies (
            #[trigger] bit(now, j)) == bit(bm, j) by {}
            assert forall|j: int| s <= j < s + n implies !(#[trigger] bit(now, j)) && bit(
                bm,
                j,
            ) by {
                assert(is_set(bm, j));
            }
            lemma_clear_count_run(now, bm, cur.usable(k), s, n);
        }
    }
}

proof fn lemma_in_chunk_nonneg(runs: Seq<(u64, u64)>, c: ChunkInfo)
    ensures
        in_chunk(runs, c) >= 0,
    decreases runs.len(),
{
    if runs.len() > 0 {
        lemma_in_chunk_nonneg(runs.skip(1), c);
    }
}

pub proof fn lemma_total_nonneg(runs: Seq<(u64, u64)>, n: int)
    ensures
        total(runs, n) >= 0,
    decreases n,
{
    if n > 0 {
        lemma_total_nonneg(runs, n - 1);
    }
}

proof fn lemma_held_rollback(v: SpaceView, cur: SpaceView, runs: Seq<(u64, u64)>, i: int)
    requires
        apart(v),
        0 <= i <= runs.len(),
        held(v, cur, runs.skip(i)),
    ensures
        held(v, cur.rollback(runs, i), Seq::empty()),
    decreases runs.len() - i,
{
    if i < runs.len() {
        let r = runs.skip(i);
        assert(r[0] == runs[i]);
        lemma_held_free(v, cur, r);
        assert(r.skip(1) =~= runs.skip(i + 1));
        lemma_held_rollback(v, cur.free_blocks(runs[i].0, runs[i].1).1, runs, i + 1);
    } else {
        assert(runs.skip(i) =~= Seq::empty());
    }
}

proof fn lemma_held_nothing(v: SpaceView, w: SpaceView)
    requires
        held(v, w, Seq::empty()),
    ensures
        w.bitmaps == v.bitmaps,
        w.chunks() == v.chunks(),
        w.free() == v.free(),
{
    let none = Seq::<(u64, u64)>::empty();
    assert(total(none, 0) == 0);
    assert forall|k: int| 0 <= k < v.bitmaps.len() implies #[trigger] w.bitmaps[k]
        == v.bitmaps[k] by {
        assert(v.bitmaps[k].len() == w.bitmaps[k].len());
        assert forall|b: int| 0 <= b < w.bitmaps[k].len() * 8 implies (#[trigger] bit(
            w.bitmaps[k],
            b,
        )) == bit(v.bitmaps[k], b) by {
            assert(!covered(none, v.chunks()[k].addr + b));
        }
        lemma_same_bits(w.bitmaps[k], v.bitmaps[k]);
    }
    assert(w.bitmaps =~= v.bitmaps);
    assert forall|k: int| 0 <= k < v.chunks().len() implies #[trigger] w.chunks()[k]
        == v.chunks()[k] by {
        assert(in_chunk(none, v.chunks()[k]) == 0);
    }
    assert(w.chunks() =~= v.chunks());
}

proof fn lemma_gather_fails_clean(v: SpaceView, cur: SpaceView, n: int, runs: Seq<(u64, u64)>)
    requires
        apart(v),
        held(v, cur, runs),
        0 <= n <= cur.free(),
    ensures
        cur.gather(n, runs).0 is Err ==> held(v, cur.gather(n, runs).1, Seq::empty()),
    decreases n,
{
    if n > 0 {
        lemma_pick_any(cur, 0);
        match cur.pick_any(0) {
            None => {
                assert(runs.skip(0) =~= runs);
                lemma_held_rollback(v, cur, runs, 0);
            },
            Some((k, s, len)) => {
                let t = if len <= n {
                    len
                } else {
                    n
                };
                assert(is_clear_run(cur.bitmaps[k], cur.usable(k), s, t));
                lemma_held_take(v, cur, runs, k, s, t);
                lemma_gather_fails_clean(
                    v,
                    cur.take(k, s, t),
                    n - t,
                    runs.push((block_of(cur.chunks()[k], s), t as u64)),
                );
            },
        }
    }
}

/// An allocation that fails leaves the bitmaps and all counts as they were.
pub proof fn law_failed_allocation_is_rolled_back(v: SpaceView, count: u64)
    requires
        v.shaped(),
        apart(v),
        enough(v),
        v.alloc_blocks(count).0 is Err,
    ensures
        ({
            let w = v.alloc_blocks(count).1;
            &&& w.bitmaps == v.bitmaps
            &&& w.chunks() == v.chunks()
            &&& w.free() == v.free()
        }),
{
    if count > 0 && count <= v.free() && v.pick_run(count as int, 0) is None {
        let none = Seq::<(u64, u64)>::empty();
        lemma_held_self(v);
        lemma_gather_fails_clean(v, v, count as int, none);
        lemma_held_nothing(v, v.alloc_blocks(count).1);
    }
}

proof fn lemma_held_self(v: SpaceView)
    requires
        v.shaped(),
        enough(v),
    ensures
        held(v, v, Seq::empty()),
{
    let none = Seq::<(u64, u64)>::empty();
    assert(total(none, 0) == 0);
    assert forall|k: int, b: int|
        0 <= k < v.chunks().len() && 0 <= b < v.bitmaps[k].len() * 8 implies (#[trigger] bit(
        v.bitmaps[k],
        b,
    )) == (bit(v.bitmaps[k], b) || (b < v.chunks()[k].block_count && covered(
        none,
        v.chunks()[k].addr + b,
    ))) by {
        assert(!covered(none, v.chunks()[k].addr + b));
    }
    assert forall|k: int| 0 <= k < v.chunks().len() implies in_chunk(
        none,
        #[trigger] v.chunks()[k],
    ) == 0 by {}
}

/// Freeing a run that was just given out restores the bitmaps and all counts.
pub proof fn law_take_then_free(v: SpaceView, k: int, s: int, n: int)
    requires
        v.shaped(),
        apart(v),
        enough(v),
        0 <= k < v.chunks().len(),
        0 < n <= v.free(),
        is_clear_run(v.bitmaps[k], v.usable(k), s, n),
    ensures
        ({
            let (r, w) = v.take(k, s, n).free_blocks(block_of(v.chunks()[k], s), n as u64);
            &&& r is Ok
            &&& w.bitmaps == v.bitmaps
            &&& w.chunks() == v.chunks()
            &&& w.free() == v.free()
        }),
{
    let none = Seq::<(u64, u64)>::empty();
    lemma_held_self(v);
    lemma_held_take(v, v, none, k, s, n);
    let runs = none.push((block_of(v.chunks()[k], s), n as u64));
    lemma_held_free(v, v.take(k, s, n), runs);
    assert(runs.skip(1) =~= none);
    lemma_held_nothing(v, v.take(k, s, n).free_blocks(runs[0].0, runs[0].1).1);
}

/// How many free blocks the first `n` chunks count.
pub open spec fn sum_free(chunks: Seq<ChunkInfo>, n: int) -> int
    decreases n,
{
    if n <= 0 {
        0
    } else {
        sum_free(chunks, n - 1) + chunks[n - 1].free_count
    }
}

proof fn lemma_sum_update(chunks: Seq<ChunkInfo>, k: int, c: ChunkInfo, n: int)
    requires
        0 <= k < chunks.len(),
        0 <= n <= chunks.len(),
    ensures
        sum_free(chunks.update(k, c), n) == sum_free(chunks, n) + (if k < n {
            c.free_count - chunks[k].free_count
        } else {
            0
        }),
    decreases n,
{
    if n > 0 {
        lemma_sum_update(chunks, k, c, n - 1);
    }
}

proof fn lemma_sum_zero(chunks: Seq<ChunkInfo>, n: int)
    requires
        0 <= n <= chunks.len(),
        forall|k: int| 0 <= k < n ==> (#[trigger] chunks[k]).free_count == 0,
    ensures
        sum_free(chunks, n) == 0,
    decreases n,
{
    if n > 0 {
        assert(chunks[n - 1].free_count == 0);
        lemma_sum_zero(chunks, n - 1);
    }
}

/// The counts say what the bitmaps show: each chunk counts its clear bits, and
/// the device counts them all.
pub open spec fn balanced(v: SpaceView) -> bool {
    &&& v.shaped()
    &&& forall|k: int|
        0 <= k < v.chunks().len() ==> (#[trigger] v.chunks()[k]).free_count == clear_count(
            v.bitmaps[k],
            v.usable(k),
        )
    &&& v.free() == sum_free(v.chunks(), v.chunks().len() as int)
}

/// Giving out a clear run keeps the counts right.
pub proof fn law_take_keeps_balance(v: SpaceView, k: int, s: int, n: int)
    requires
        balanced(v),
        0 <= k < v.chunks().len(),
        0 < n,
        is_clear_run(v.bitmaps[k], v.usable(k), s, n),
    ensures
        balanced(v.take(k, s, n)),
        v.take(k, s, n).free() == v.free() - n,
{
    let w = v.take(k, s, n);
    lemma_take_shape(v, k, s, n);
    lemma_take_count(v, k, s, n);
    assert(v.chunks()[k].free_count == clear_count(v.bitmaps[k], v.usable(k)));
    let c = w.chunks()[k];
    lemma_sum_update(v.chunks(), k, c, v.chunks().len() as int);
    lemma_sum_at_least(v.chunks(), k, v.chunks().len() as int);
    assert forall|q: int| 0 <= q < w.chunks().len() implies (#[trigger] w.chunks()[q]).free_count
        == clear_count(w.bitmaps[q], w.usable(q)) by {
        assert(v.chunks()[q].free_count == clear_count(v.bitmaps[q], v.usable(q)));
        assert(v.chunks()[q].block_count == w.chunks()[q].block_count);
        assert(v.bitmaps[q].len() == w.bitmaps[q].len());
    }
}

proof fn lemma_sum_at_least(chunks: Seq<ChunkInfo>, k: int, n: int)
    requires
        0 <= k,
        n <= chunks.len(),
    ensures
        sum_free(chunks, n) >= 0,
        k < n ==> sum_free(chunks, n) >= chunks[k].free_count,
    decreases n,
{
    if n > 0 {
        lemma_sum_at_least(chunks, k, n - 1);
    }
}

/// A chunk that counts free blocks can give one out.
proof fn lemma_some_clear(v: SpaceView, k: int)
    requires
        balanced(v),
        0 <= k < v.chunks().len(),
        v.chunks()[k].free_count > 0,
    ensures
        first_clear(v.bitmaps[k], v.usable(k), 0) is Some,
{
    let bm = v.bitmaps[k];
    lemma_first_clear(bm, v.usable(k), 0);
    if first_clear(bm, v.usable(k), 0) is None {
        assert(v.usable(k) <= bm.len() * 8);
        lemma_no_clear(bm, v.usable(k));
    }
}

proof fn lemma_pick_any_none(v: SpaceView, k: int)
    requires
        balanced(v),
        0 <= k,
        v.pick_any(k) is None,
    ensures
        forall|j: int| k <= j < v.chunks().len() ==> (#[trigger] v.chunks()[j]).free_count == 0,
    decreases v.chunks().len() - k,
{
    if k < v.chunks().len() {
        if v.chunks()[k].free_count > 0 {
            lemma_some_clear(v, k);
        }
        lemma_pick_any_none(v, k + 1);
    }
}

proof fn lemma_gather_balanced(v: SpaceView, n: int, runs: Seq<(u64, u64)>)
    requires
        balanced(v),
        0 <= n <= v.free(),
    ensures
        v.gather(n, runs).0 is Ok,
        balanced(v.gather(n, runs).1),
        v.gather(n, runs).1.free() == v.free() - n,
    decreases n,
{
    if n > 0 {
        lemma_pick_any(v, 0);
        match v.pick_any(0) {
            None => {
                lemma_pick_any_none(v, 0);
                lemma_sum_zero(v.chunks(), v.chunks().len() as int);
            },
            Some((k, s, len)) => {
                let t = if len <= n {
                    len
                } else {
                    n
                };
                assert(is_clear_run(v.bitmaps[k], v.usable(k), s, t));
                law_take_keeps_balance(v, k, s, t);
                lemma_gather_balanced(
                    v.take(k, s, t),
                    n - t,
                    runs.push((block_of(v.chunks()[k], s), t as u64)),
                );
            },
        }
    }
}

/// With right counts, blocks can be had exactly as long as enough are counted
/// free, and the counts stay right.
pub proof fn law_balanced_allocation(v: SpaceView, count: u64)
    requires
        balanced(v),
    ensures
        v.alloc_blocks(count).0 is Ok <==> count <= v.free(),
        balanced(v.alloc_blocks(count).1),
        v.alloc_blocks(count).0 is Ok ==> v.alloc_blocks(count).1.free() == v.free() - count,
{
    if count > 0 && count <= v.free() {
        lemma_pick_run(v, count as int, 0);
        match v.pick_run(count as int, 0) {
            Some((k, s)) => {
                law_take_keeps_balance(v, k, s, count as int);
            },
            None => {
                lemma_gather_balanced(v, count as int, Seq::empty());
            },
        }
    }
}

proof fn lemma_pick_block(v: SpaceView, k: int)
    requires
        balanced(v),
        0 <= k,
    ensures
        match v.pick_block(k) {
            Some((j, b)) => k <= j < v.chunks().len() && is_clear_run(
                v.bitmaps[j],
                v.usable(j),
                b,
                1,
            ),
            None => forall|j: int|
                k <= j < v.chunks().len() ==> (#[trigger] v.chunks()[j]).free_count == 0,
        },
    decreases v.chunks().len() - k,
{
    if k < v.chunks().len() {
        let bm = v.bitmaps[k];
        lemma_first_clear(bm, v.chunks()[k].block_count as int, 0);
        if v.chunks()[k].free_count > 0 {
            lemma_some_clear(v, k);
            lemma_first_clear(bm, v.usable(k), 0);
        }
        lemma_pick_block(v, k + 1);
    }
}

/// With right counts, one block can be had exactly if one is counted free, and
/// the counts stay right.
pub proof fn law_balanced_block(v: SpaceView)
    requires
        balanced(v),
    ensures
        v.alloc_block().0 is Ok <==> v.free() > 0,
        balanced(v.alloc_block().1),
        v.alloc_block().0 is Ok ==> v.alloc_block().1.free() == v.free() - 1,
{
    lemma_pick_block(v, 0);
    match v.pick_block(0) {
        Some((k, b)) => {
            law_take_keeps_balance(v, k, b, 1);
        },
        None => {
            lemma_sum_zero(v.chunks(), v.chunks().len() as int);
        },
    }
}

/// Freeing blocks keeps the counts right.
pub proof fn law_free_keeps_balance(v: SpaceView, paddr: u64, length: u64)
    requires
        balanced(v),
        v.free() + length <= u64::MAX,
        v.free_blocks(paddr, length).0 is Ok,
    ensures
        balanced(v.free_blocks(paddr, length).1),
        v.free_blocks(paddr, length).1.free() == v.free() + length,
{
    if length > 0 {
        let w = v.free_blocks(paddr, length).1;
        lemma_chunk_of_holds(v, paddr, 0);
        let k = v.chunk_of(paddr, 0)->Some_0;
        let c = v.chunks()[k];
        let s = paddr - c.addr;
        let n = length as int;
        let bm = v.bitmaps[k];
        lemma_set_length(bm, s, n);
        assert(is_set(bm, s + n - 1));
        assert(s + n <= v.usable(k));
        lemma_cleared(bm, s, n);
        let now = cleared(bm, s, n);
        assert forall|j: int| 0 <= j < v.usable(k) && !(s <= j < s + n) implies (#[trigger] bit(
            now,
            j,
        )) == bit(bm, j) by {}
        assert forall|j: int| s <= j < s + n implies #[trigger] bit(bm, j) by {
            assert(is_set(bm, j));
        }
        lemma_clear_count_run(now, bm, v.usable(k), s, n);
        lemma_clear_count_range(now, v.usable(k));
        assert(c.free_count == clear_count(bm, v.usable(k)));
        let nc = ChunkInfo { free_count: (c.free_count + n) as u32, ..c };
        lemma_put_chunk(v.cibs, 0, k, nc);
        assert(w.chunks() == v.chunks().update(k, nc));
        lemma_sum_update(v.chunks(), k, nc, v.chunks().len() as int);
        assert forall|q: int| 0 <= q < w.chunks().len() implies (
        #[trigger] w.chunks()[q]).free_count == clear_count(w.bitmaps[q], w.usable(q)) by {
            assert(v.chunks()[q].free_count == clear_count(v.bitmaps[q], v.usable(q)));
        }
    }
}

/// Freeing used blocks makes them free, and no others. Only used blocks of one
/// chunk are freed.
pub proof fn law_freed_blocks_are_free(v: SpaceView, paddr: u64, length: u64, p: u64)
    requires
        v.shaped(),
        apart(v),
        length > 0,
        v.free_blocks(paddr, length).0 is Ok,
    ensures
        paddr <= p < paddr + length ==> v.block_used(p) == Some(true) && v.free_blocks(
            paddr,
            length,
        ).1.block_used(p) == Some(false),
        !(paddr <= p < paddr + length) ==> v.free_blocks(paddr, length).1.block_used(p)
            == v.block_used(p),
{
    let w = v.free_blocks(paddr, length).1;
    lemma_chunk_of_holds(v, paddr, 0);
    let k = v.chunk_of(paddr, 0)->Some_0;
    let c = v.chunks()[k];
    let s = paddr - c.addr;
    let n = length as int;
    let bm = v.bitmaps[k];
    lemma_set_length(bm, s, n);
    assert(is_set(bm, s + n - 1));
    lemma_cleared(bm, s, n);
    let nc = ChunkInfo {
        free_count: if c.free_count + length <= u32::MAX {
            (c.free_count + length) as u32
        } else {
            u32::MAX
        },
        ..c
    };
    lemma_put_chunk(v.cibs, 0, k, nc);
    assert(w.chunks() == v.chunks().update(k, nc));
    assert(same_chunks(v, w));
    lemma_chunk_of_same(v, w, p, 0);
    lemma_chunk_of_holds(v, p, 0);
    if paddr <= p < paddr + length {
        lemma_chunk_of(v, p, k, 0);
        assert(is_set(bm, p - c.addr));
        assert(!bit(w.bitmaps[k], p - c.addr));
    } else if v.chunk_of(p, 0) == Some(k) {
        if p - c.addr < bm.len() * 8 {
            assert(bit(cleared(bm, s, n), p - c.addr) == bit(bm, p - c.addr));
        }
    } else if v.chunk_of(p, 0) is Some {
        let j = v.chunk_of(p, 0)->Some_0;
        assert(w.bitmaps[j] == v.bitmaps[j]);
        assert(w.chunks()[j] == v.chunks()[j]);
    }
}

/// A block is used if its bit in the bitmap of its chunk is set, and belongs to
/// no chunk if none spans it.
pub proof fn law_block_used(v: SpaceView, p: u64, k: int)
    requires
        apart(v),
    ensures
        (0 <= k < v.chunks().len() && v.chunks()[k].addr <= p < v.chunks()[k].addr
            + v.chunks()[k].block_count) ==> v.block_used(p) == Some(
            is_set(v.bitmaps[k], p - v.chunks()[k].addr),
        ),
        (forall|j: int|
            0 <= j < v.chunks().len() ==> !((#[trigger] v.chunks()[j]).addr <= p
                < v.chunks()[j].addr + v.chunks()[j].block_count)) ==> v.block_used(p) is None,
{
    if 0 <= k < v.chunks().len() && v.chunks()[k].addr <= p < v.chunks()[k].addr
        + v.chunks()[k].block_count {
        lemma_chunk_of(v, p, k, 0);
    }
    lemma_chunk_of_holds(v, p, 0);
}

/// A chunk without a bitmap is free as a whole.
pub proof fn law_chunk_without_bitmap_is_free(disk: Seq<u8>, c: ChunkInfo, block_size: u32, i: int)
    requires
        c.bitmap_addr == 0,
        0 <= i < c.block_count,
    ensures
        bitmap_of(disk, c, block_size) matches Ok(bm) && i < bm.len() * 8 && !bit(bm, i),
{
    let bm = bitmap_of(disk, c, block_size)->Ok_0;
    assert(bm[i / 8] == 0);
    law_bit_order(bm, i);
}

} // verus!

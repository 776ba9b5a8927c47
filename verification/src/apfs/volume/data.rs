//! What writing the data of a file changes, and what it leaves alone.

use crate::apfs::btree::node::NodeView;
use crate::apfs::btree::search::{node_at, TREE_DEPTH_LIMIT};
use crate::apfs::bytes::splice;
use crate::apfs::catalog::records::{inode_size, mode_kind, INODE_FILE_TYPE};
use crate::apfs::error::Fault;
use crate::apfs::extents::{
    addr, fork_end, fork_prefix, fork_write, law_write_then_read, lemma_fork_write, lemma_span_of,
    sound_fork, spans_apart, spans_of,
};
use crate::apfs::object::block_outcome;
use crate::apfs::transaction::in_block;
use crate::apfs::volume::commit::lemma_other_block;
use crate::apfs::volume::effects::{lemma_same_file, lemma_same_tree, no_metadata, spans_clear};
use crate::apfs::volume::frame::{inner_at, leaf_count, lemma_replant};
use crate::apfs::volume::model::law_volume_shows_records;
use crate::apfs::volume::remount::{follows, lemma_data_follows};
use crate::apfs::volume::state::VolumeView;
use crate::apfs::volume::swap::{lemma_has_leaf, lemma_leaf_there};
use crate::apfs::volume::tree::Tree;
use vstd::prelude::*;

verus! {

/// Whether two devices hold the same metadata.
pub open spec fn metadata_kept(v: VolumeView, e: Seq<u8>, t: Tree, m: Set<u64>) -> bool {
    &&& e.len() == v.disk.len()
    &&& forall|q: u64|
        !no_metadata(t, m, v.nx, q) ==> #[trigger] block_outcome(e, q, v.block_size)
            == block_outcome(v.disk, q, v.block_size)
}

/// A change of data alone leaves the catalog in place.
pub proof fn lemma_data_change(v: VolumeView, e: Seq<u8>, t: Tree, m: Set<u64>)
    requires
        v.sound(t, m),
        metadata_kept(v, e, t, m),
    ensures
        (VolumeView { disk: e, ..v }).sound(t, m),
{
    let f = |q: u64, n: NodeView| n;
    assert forall|q: u64| m.contains(q) implies #[trigger] block_outcome(v.disk, q, v.block_size)
        == block_outcome(e, q, v.block_size) by {
        assert(!no_metadata(t, m, v.nx, q));
    }
    assert forall|q: u64| inner_at(t, q) implies #[trigger] block_outcome(v.disk, q, v.block_size)
        == block_outcome(e, q, v.block_size) by {
        assert(!no_metadata(t, m, v.nx, q));
    }
    assert forall|q: u64, n: NodeView|
        leaf_count(t, q) > 0 && node_at(v.disk, q, v.block_size)
            == Ok::<NodeView, Fault>(n) implies node_at(
        e,
        q,
        v.block_size,
    ) == Ok::<NodeView, Fault>(#[trigger] f(q, n)) && f(q, n).is_leaf() && !f(q, n).fixed_kv() by {
        assert(!no_metadata(t, m, v.nx, q));
        assert(block_outcome(e, q, v.block_size) == block_outcome(v.disk, q, v.block_size));
        let k = lemma_leaf_there(t, q);
        lemma_has_leaf(v.disk, v.block_size, v.omap_root, t, TREE_DEPTH_LIMIT, q, k);
    }
    lemma_replant(v.disk, e, v.block_size, v.omap_root, t, TREE_DEPTH_LIMIT, f, m);
    lemma_same_tree(t, f);
}

/// Bytes that are written to spans clear of metadata leave the metadata alone.
pub proof fn lemma_spans_written(
    v: VolumeView,
    e: Seq<u8>,
    t: Tree,
    m: Set<u64>,
    spans: Seq<(u64, u64, u64)>,
)
    requires
        spans_clear(t, m, v.nx, v.block_size, spans),
        e.len() == v.disk.len(),
        forall|x: int|
            0 <= x < e.len() && !in_spans(spans, x) ==> #[trigger] e[x] == v.disk[x],
    ensures
        metadata_kept(v, e, t, m),
{
    assert forall|q: u64| !no_metadata(t, m, v.nx, q) implies #[trigger] block_outcome(
        e,
        q,
        v.block_size,
    ) == block_outcome(v.disk, q, v.block_size) by {
        assert forall|x: int|
            0 <= x < e.len() && in_block(x, q, v.block_size as u64) implies #[trigger] e[x]
            == v.disk[x] by {
            if in_spans(spans, x) {
                let i = choose|i: int|
                    0 <= i < spans.len() && (#[trigger] spans[i]).1 <= x < spans[i].1
                        + spans[i].2;
                assert(no_metadata(t, m, v.nx, q));
            }
        }
        lemma_other_block(e, v.disk, q, v.block_size);
    }
}

/// Whether a byte of the device lies in one of the spans.
pub open spec fn in_spans(spans: Seq<(u64, u64, u64)>, x: int) -> bool {
    exists|i: int|
        0 <= i < spans.len() && (#[trigger] spans[i]).1 <= x < spans[i].1 + spans[i].2
}

/// Whether two files have no byte of the device in common.
pub open spec fn files_apart(a: Seq<(u64, u64, u64)>, b: Seq<(u64, u64, u64)>) -> bool {
    forall|i: int, j: int|
        0 <= i < a.len() && 0 <= j < b.len() ==> (#[trigger] a[i]).1 + a[i].2 <= (#[trigger] b[j]).1
            || b[j].1 + b[j].2 <= a[i].1
}

/// A file that shares no byte with what was written is read as before.
pub proof fn lemma_other_file(
    d: Seq<u8>,
    e: Seq<u8>,
    spans: Seq<(u64, u64, u64)>,
    other: Seq<(u64, u64, u64)>,
    limit: int,
)
    requires
        e.len() == d.len(),
        forall|x: int| 0 <= x < e.len() && !in_spans(spans, x) ==> #[trigger] e[x] == d[x],
        files_apart(spans, other),
    ensures
        fork_prefix(e, other, 0, limit) == fork_prefix(d, other, 0, limit),
{
    assert forall|k: int, x: int|
        #![trigger other[k], e[x]]
        0 <= k < other.len() && other[k].1 <= x < other[k].1 + other[k].2 && x
            < e.len() implies e[x] == d[x] by {
        if in_spans(spans, x) {
            let i = choose|i: int|
                0 <= i < spans.len() && (#[trigger] spans[i]).1 <= x < spans[i].1 + spans[i].2;
            assert(spans[i].1 + spans[i].2 <= other[k].1 || other[k].1 + other[k].2
                <= spans[i].1);
        }
    }
    lemma_same_file(e, d, other, 0, limit);
}

/// A write through a fork changes bytes of the fork only.
pub proof fn lemma_fork_written(
    disk: Seq<u8>,
    block_size: u32,
    spans: Seq<(u64, u64, u64)>,
    pos: int,
    data: Seq<u8>,
)
    requires
        block_size > 0,
        disk.len() % (block_size as nat) == 0,
        sound_fork(spans, disk.len()),
        spans_apart(spans),
        0 <= pos,
        pos + data.len() <= fork_end(spans, 0),
    ensures
        fork_write(disk, block_size, spans, pos, data).1.len() == disk.len(),
        forall|x: int|
            0 <= x < disk.len() && !in_spans(spans, x) ==> #[trigger] fork_write(
                disk,
                block_size,
                spans,
                pos,
                data,
            ).1[x] == disk[x],
{
    lemma_fork_write(disk, block_size, spans, pos, data);
    let d = fork_write(disk, block_size, spans, pos, data).1;
    assert forall|x: int| 0 <= x < disk.len() && !in_spans(spans, x) implies #[trigger] d[x]
        == disk[x] by {
        assert forall|k: int| 0 <= k < data.len() implies x != #[trigger] addr(spans, pos + k) by {
            let i = lemma_span_of(spans, disk.len(), pos + k);
            assert(spans[i].1 <= addr(spans, pos + k) < spans[i].1 + spans[i].2);
        }
    }
}

/// A file whose bytes all lie on the device, apart from each other and clear
/// of metadata.
pub open spec fn sound_file(
    v: VolumeView,
    t: Tree,
    m: Set<u64>,
    spans: Seq<(u64, u64, u64)>,
    size: u64,
) -> bool {
    &&& sound_fork(spans, v.disk.len())
    &&& spans_apart(spans)
    &&& spans_clear(t, m, v.nx, v.block_size, spans)
    &&& size <= fork_end(spans, 0)
}

/// What is written to a file is read back from it: the bytes at their place,
/// up to the end of the file, and the old bytes elsewhere. Paths, directories
/// and extents are as before, and so is every file apart from this one.
pub proof fn law_overwrite_is_read_back(
    v: VolumeView,
    t: Tree,
    m: Set<u64>,
    path: Seq<char>,
    offset: u64,
    data: Seq<u8>,
)
    requires
        v.sound(t, m),
        v.block_size > 0,
        v.disk.len() % (v.block_size as nat) == 0,
        data.len() > 0,
        v.resolve(path) matches Ok((_, inode)) && mode_kind(inode.mode) == INODE_FILE_TYPE
            && offset < inode_size(inode) && (v.extents(inode.private_id) matches Ok(exts)
            && sound_file(v, t, m, spans_of(exts, v.block_size), inode_size(inode))),
    ensures
        ({
            let (r, w) = v.overwrite(path, offset, data);
            let inode = (v.resolve(path)->Ok_0).1;
            let spans = spans_of(v.extents(inode.private_id)->Ok_0, v.block_size);
            let n = if data.len() <= inode_size(inode) - offset {
                data.len() as int
            } else {
                inode_size(inode) - offset
            };
            &&& r == Ok::<int, Fault>(n)
            &&& w.sound(t, m)
            &&& follows(v, t, w, t, m)
            &&& v.contents(path) matches Ok(was) && w.contents(path) == Ok::<Seq<u8>, Fault>(
                splice(was, offset as int, data.take(n)),
            )
            &&& forall|q: Seq<char>| #[trigger] w.resolve(q) == v.resolve(q)
            &&& forall|o: u64| #[trigger] w.extents(o) == v.extents(o)
            &&& forall|o: u64| #[trigger] w.directory(o) == v.directory(o)
            &&& forall|other: Seq<(u64, u64, u64)>, limit: int|
                files_apart(spans, other) ==> #[trigger] fork_prefix(w.disk, other, 0, limit)
                    == fork_prefix(v.disk, other, 0, limit)
        }),
{
    let (r, w) = v.overwrite(path, offset, data);
    let inode = (v.resolve(path)->Ok_0).1;
    let spans = spans_of(v.extents(inode.private_id)->Ok_0, v.block_size);
    let size = inode_size(inode);
    let n = if data.len() <= size - offset {
        data.len() as int
    } else {
        size - offset
    };
    let part = data.take(n);
    lemma_fork_written(v.disk, v.block_size, spans, offset as int, part);
    law_write_then_read(v.disk, v.block_size, spans, offset as int, part, size as int);
    lemma_spans_written(v, w.disk, t, m, spans);
    lemma_data_change(v, w.disk, t, m);
    lemma_data_follows(v, w.disk, t, m);
    assert forall|q: Seq<char>| #[trigger] w.resolve(q) == v.resolve(q) by {
        law_volume_shows_records(v, t, q, 0);
        law_volume_shows_records(w, t, q, 0);
    }
    assert forall|o: u64| #[trigger] w.extents(o) == v.extents(o) by {
        law_volume_shows_records(v, t, seq![], o);
        law_volume_shows_records(w, t, seq![], o);
    }
    assert forall|o: u64| #[trigger] w.directory(o) == v.directory(o) by {
        law_volume_shows_records(v, t, seq![], o);
        law_volume_shows_records(w, t, seq![], o);
    }
    assert forall|other: Seq<(u64, u64, u64)>, limit: int|
        files_apart(spans, other) implies #[trigger] fork_prefix(w.disk, other, 0, limit)
        == fork_prefix(v.disk, other, 0, limit) by {
        lemma_other_file(v.disk, w.disk, spans, other, limit);
    }
    assert(w.resolve(path) == v.resolve(path));
    assert(w.extents(inode.private_id) == v.extents(inode.private_id));
}

} // verus!

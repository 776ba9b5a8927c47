//! A leaf as a sequence of records, and what the node operations do to it.

use crate::apfs::btree::node::{
    entry_bytes, entry_of, entry_size, first_short, info_bytes, info_of,
    lemma_toc_bytes_len, max_val_off, nloc_bytes, nloc_of, node_of, node_outcome, toc_bytes, toc_of,
    BTreeInfo, Nloc, NodeView, TocEntry, BTNODE_FIXED_PREFIX, BTREE_INFO_SIZE,
};
use crate::apfs::bytes::{
    bytes_u16, bytes_u32, bytes_u64, group_bytes_len, le_u16, le_u32, lemma_read_u16,
    lemma_read_u32, lemma_read_u64, lemma_splice_outside,
};
use crate::apfs::error::Fault;
use crate::apfs::fletcher::{checkable, checksum, intact, law_sealed_is_intact, sealed};
use crate::apfs::object::{header_of, HeaderView, OBJECT_TYPE_BTREE, OBJECT_TYPE_BTREE_NODE};
use vstd::prelude::*;

verus! {

/// The bytes of the `i`-th key.
pub open spec fn key_bytes(n: NodeView, i: int, fixed_key_size: u32) -> Seq<u8> {
    n.block.subrange(n.key_pos(i), n.key_pos(i) + n.key_len(i, fixed_key_size))
}

/// The bytes of the `i`-th value.
pub open spec fn val_bytes(n: NodeView, i: int, fixed_val_size: u32) -> Seq<u8> {
    n.block.subrange(n.val_pos(i), n.val_pos(i) + n.val_len(i, fixed_val_size))
}

/// The keys and values of a node in table order.
pub open spec fn records(n: NodeView, fixed_key_size: u32, fixed_val_size: u32) -> Seq<
    (Seq<u8>, Seq<u8>),
> {
    Seq::new(
        n.toc.len(),
        |i: int| (key_bytes(n, i, fixed_key_size), val_bytes(n, i, fixed_val_size)),
    )
}

/// A node that can be written and read again: the object is a B-tree node,
/// the footer is there exactly in a root, and prefix, table and footer have
/// their own places in the block.
pub open spec fn storable(n: NodeView) -> bool {
    &&& n.header.checksum.len() == 8
    &&& (n.header.object_type() == OBJECT_TYPE_BTREE_NODE || n.header.object_type()
        == OBJECT_TYPE_BTREE)
    &&& n.is_root() == (n.info is Some)
    &&& BTNODE_FIXED_PREFIX <= n.toc_end() <= n.values_end()
    &&& n.toc.len() <= u32::MAX
    &&& checkable(n.block.len())
}

/// A leaf whose table, keys and values have places of their own: the table
/// lies below the keys, the keys below the free space, and the values above
/// the start of the free space.
pub open spec fn leaf_ok(n: NodeView, fixed_key_size: u32, fixed_val_size: u32) -> bool {
    &&& n.is_leaf()
    &&& n.toc_end() <= n.keys_start()
    &&& n.free_pos() <= n.values_end() <= n.block.len()
    &&& forall|i: int| 0 <= i < n.toc.len() ==> entry_ok(n, i, fixed_key_size, fixed_val_size)
}

/// The `i`-th key lies below the free space and the `i`-th value above its
/// start.
pub open spec fn entry_ok(n: NodeView, i: int, fixed_key_size: u32, fixed_val_size: u32) -> bool {
    &&& n.toc[i].key_off + n.key_len(i, fixed_key_size) <= n.free_space.off
    &&& n.val_len(i, fixed_val_size) <= n.toc[i].val_off
    &&& n.free_pos() + n.toc[i].val_off <= n.values_end()
}

/// The free space is really free: it ends below every value.
pub open spec fn roomy(n: NodeView) -> bool {
    n.free_pos() + n.free_space.len + max_val_off(n.toc) <= n.values_end()
}

proof fn lemma_max_val_off(toc: Seq<TocEntry>, i: int)
    requires
        0 <= i < toc.len(),
    ensures
        toc[i].val_off <= max_val_off(toc),
    decreases toc.len(),
{
    if i < toc.len() - 1 {
        lemma_max_val_off(toc.drop_last(), i);
    }
}

proof fn lemma_max_val_off_bound(toc: Seq<TocEntry>, m: int)
    requires
        0 <= m,
        forall|i: int| 0 <= i < toc.len() ==> (#[trigger] toc[i]).val_off <= m,
    ensures
        max_val_off(toc) <= m,
    decreases toc.len(),
{
    if toc.len() > 0 {
        assert(forall|i: int| 0 <= i < toc.len() - 1 ==> toc.drop_last()[i] == toc[i]);
        lemma_max_val_off_bound(toc.drop_last(), m);
    }
}

proof fn lemma_first_short(toc: Seq<TocEntry>, extra: int, i: int, k: int)
    requires
        0 <= i <= k < toc.len(),
        first_short(toc, extra, i) >= toc.len(),
    ensures
        toc[k].key_off >= extra,
    decreases k - i,
{
    if i < k {
        lemma_first_short(toc, extra, i + 1, k);
    }
}

proof fn lemma_first_short_bound(toc: Seq<TocEntry>, extra: int, i: int)
    ensures
        first_short(toc, extra, i) <= toc.len(),
    decreases toc.len() - i,
{
    if 0 <= i < toc.len() {
        lemma_first_short_bound(toc, extra, i + 1);
    }
}

/// Reading an entry of a sound leaf gives its record.
pub proof fn law_entries_are_records(n: NodeView, i: int, fixed_key_size: u32, fixed_val_size: u32)
    requires
        leaf_ok(n, fixed_key_size, fixed_val_size),
        0 <= i < n.toc.len(),
    ensures
        n.key(i, fixed_key_size) == Ok::<Seq<u8>, Fault>(
            records(n, fixed_key_size, fixed_val_size)[i].0,
        ),
        n.value(i, fixed_val_size) == Ok::<Seq<u8>, Fault>(
            records(n, fixed_key_size, fixed_val_size)[i].1,
        ),
{
    assert(entry_ok(n, i, fixed_key_size, fixed_val_size));
}

/// Deleting an entry takes one record out and leaves the others as they were.
pub proof fn law_delete_removes_record(n: NodeView, i: int, fixed_key_size: u32, fixed_val_size: u32)
    requires
        leaf_ok(n, fixed_key_size, fixed_val_size),
        0 <= i < n.toc.len(),
    ensures
        n.delete(i).0 is Ok,
        !n.fixed_kv() ==> n.delete_var(i) == n.delete(i),
        leaf_ok(n.delete(i).1, fixed_key_size, fixed_val_size),
        roomy(n) ==> roomy(n.delete(i).1),
        records(n.delete(i).1, fixed_key_size, fixed_val_size) == records(
            n,
            fixed_key_size,
            fixed_val_size,
        ).remove(i),
{
    let m = n.delete(i).1;
    let es = entry_size(n.fixed_kv());
    assert(es * (n.toc.len() - 1) <= es * n.toc.len()) by (nonlinear_arith)
        requires
            es >= 0,
    ;
    assert forall|k: int| 0 <= k < m.toc.len() implies entry_ok(m, k, fixed_key_size, fixed_val_size) by {
        let j = if k < i { k } else { k + 1 };
        assert(m.toc[k] == n.toc[j]);
        assert(entry_ok(n, j, fixed_key_size, fixed_val_size));
    }
    assert forall|k: int| 0 <= k < m.toc.len() implies (#[trigger] m.toc[k]).val_off <= max_val_off(
        n.toc,
    ) by {
        let j = if k < i { k } else { k + 1 };
        assert(m.toc[k] == n.toc[j]);
        lemma_max_val_off(n.toc, j);
    }
    lemma_max_val_off_bound(m.toc, max_val_off(n.toc) as int);
    assert(records(m, fixed_key_size, fixed_val_size) =~= records(
        n,
        fixed_key_size,
        fixed_val_size,
    ).remove(i));
}

/// No two values share a byte.
pub open spec fn values_apart(n: NodeView, fixed_val_size: u32) -> bool {
    forall|i: int, j: int|
        #![trigger n.toc[i], n.toc[j]]
        0 <= i < n.toc.len() && 0 <= j < n.toc.len() && i != j ==> n.toc[i].val_off
            - n.val_len(i, fixed_val_size) >= n.toc[j].val_off || n.toc[j].val_off - n.val_len(
            j,
            fixed_val_size,
        ) >= n.toc[i].val_off
}

/// Replacing a value changes that record and no other.
pub proof fn law_replace_updates_record(
    n: NodeView,
    i: int,
    new_val: Seq<u8>,
    fixed_key_size: u32,
    fixed_val_size: u32,
)
    requires
        leaf_ok(n, fixed_key_size, fixed_val_size),
        values_apart(n, fixed_val_size),
        0 <= i < n.toc.len(),
        new_val.len() == n.val_len(i, fixed_val_size),
    ensures
        n.replace(i, new_val, fixed_val_size).0 is Ok,
        leaf_ok(n.replace(i, new_val, fixed_val_size).1, fixed_key_size, fixed_val_size),
        values_apart(n.replace(i, new_val, fixed_val_size).1, fixed_val_size),
        records(n.replace(i, new_val, fixed_val_size).1, fixed_key_size, fixed_val_size) == records(
            n,
            fixed_key_size,
            fixed_val_size,
        ).update(i, (records(n, fixed_key_size, fixed_val_size)[i].0, new_val)),
{
    assert(entry_ok(n, i, fixed_key_size, fixed_val_size));
    let m = n.replace(i, new_val, fixed_val_size).1;
    assert forall|k: int| 0 <= k < m.toc.len() implies entry_ok(m, k, fixed_key_size, fixed_val_size) by {
        assert(entry_ok(n, k, fixed_key_size, fixed_val_size));
    }
    let want = records(n, fixed_key_size, fixed_val_size).update(
        i,
        (records(n, fixed_key_size, fixed_val_size)[i].0, new_val),
    );
    let got = records(m, fixed_key_size, fixed_val_size);
    assert forall|k: int| 0 <= k < n.toc.len() implies got[k] == want[k] by {
        assert(entry_ok(n, k, fixed_key_size, fixed_val_size));
        assert(key_bytes(m, k, fixed_key_size) =~= key_bytes(n, k, fixed_key_size));
        if k == i {
            assert(val_bytes(m, k, fixed_val_size) =~= new_val);
        } else {
            assert(n.toc[i].val_off - n.val_len(i, fixed_val_size) >= n.toc[k].val_off
                || n.toc[k].val_off - n.val_len(k, fixed_val_size) >= n.toc[i].val_off);
            assert(val_bytes(m, k, fixed_val_size) =~= val_bytes(n, k, fixed_val_size));
        }
    }
    assert(got =~= want);
}

/// Inserting a record of variable size into a sound leaf puts it at its
/// position and leaves the other records as they were, whether or not the
/// table had to grow.
#[verifier::rlimit(40)]
pub proof fn law_insert_var_adds_record(n: NodeView, idx: int, key: Seq<u8>, val: Seq<u8>)
    requires
        leaf_ok(n, 0, 0),
        roomy(n),
        0 <= idx,
        key.len() <= u16::MAX,
        val.len() <= u16::MAX,
        n.insert_var(idx, key, val).0 is Ok,
    ensures
        idx <= n.toc.len(),
        leaf_ok(n.insert_var(idx, key, val).1, 0, 0),
        roomy(n.insert_var(idx, key, val).1),
        records(n.insert_var(idx, key, val).1, 0, 0) == records(n, 0, 0).insert(idx, (key, val)),
        values_apart(n, 0) ==> values_apart(n.insert_var(idx, key, val).1, 0),
{
    let m = n.insert_var(idx, key, val).1;
    let p = n.var_placed(idx, key, val);
    let used = ((n.toc.len() + 1) as u16) * 8;
    let extra = if used > n.table_space.len { used - n.table_space.len } else { 0 };
    let top = max_val_off(n.toc);
    assert((n.toc.len() + 1) as u16 == n.toc.len() + 1) by {
        assert(n.toc.len() * 8 <= n.table_space.len);
    }
    lemma_first_short_bound(p.toc, extra, 0);
    assert forall|k: int| 0 <= k < m.toc.len() implies m.toc[k] == (TocEntry {
        key_off: (p.toc[k].key_off - extra) as u16,
        ..p.toc[k]
    }) && p.toc[k].key_off >= extra by {
        if extra > 0 {
            lemma_first_short(p.toc, extra, 0, k);
        }
    }
    assert(m.keys_start() == n.keys_start() + extra);
    assert(m.free_pos() == n.free_pos() + key.len());
    assert forall|k: int| 0 <= k < m.toc.len() implies entry_ok(m, k, 0, 0) by {
        if k != idx {
            let j = if k < idx { k } else { k - 1 };
            assert(p.toc[k] == n.toc[j]);
            assert(entry_ok(n, j, 0, 0));
            lemma_max_val_off(n.toc, j);
        } else {
            assert(p.toc[k].val_off == top + val.len());
        }
    }
    assert forall|k: int| 0 <= k < m.toc.len() implies (#[trigger] m.toc[k]).val_off <= top
        + val.len() by {
        if k != idx {
            let j = if k < idx { k } else { k - 1 };
            assert(p.toc[k] == n.toc[j]);
            lemma_max_val_off(n.toc, j);
        }
    }
    lemma_max_val_off_bound(m.toc, top + val.len());
    let want = records(n, 0, 0).insert(idx, (key, val));
    let got = records(m, 0, 0);
    assert forall|k: int| 0 <= k < m.toc.len() implies got[k] == want[k] by {
        assert(m.key_pos(k) == n.keys_start() + p.toc[k].key_off);
        assert(m.val_pos(k) == n.values_end() - p.toc[k].val_off);
        if k != idx {
            let j = if k < idx { k } else { k - 1 };
            assert(p.toc[k] == n.toc[j]);
            assert(entry_ok(n, j, 0, 0));
            lemma_max_val_off(n.toc, j);
            assert(key_bytes(m, k, 0) =~= key_bytes(n, j, 0));
            assert(val_bytes(m, k, 0) =~= val_bytes(n, j, 0));
        } else {
            assert(key_bytes(m, k, 0) =~= key);
            assert(val_bytes(m, k, 0) =~= val);
        }
    }
    assert(got =~= want);
    if values_apart(n, 0) {
        assert forall|i: int, j: int|
            #![trigger m.toc[i], m.toc[j]]
            0 <= i < m.toc.len() && 0 <= j < m.toc.len() && i != j implies m.toc[i].val_off
            - m.val_len(i, 0) >= m.toc[j].val_off || m.toc[j].val_off - m.val_len(j, 0)
            >= m.toc[i].val_off by {
            let i0 = if i < idx { i } else { i - 1 };
            let j0 = if j < idx { j } else { j - 1 };
            if i != idx {
                assert(p.toc[i] == n.toc[i0]);
                lemma_max_val_off(n.toc, i0);
            }
            if j != idx {
                assert(p.toc[j] == n.toc[j0]);
                lemma_max_val_off(n.toc, j0);
            }
        }
    }
}

/// An insert into a sound leaf succeeds when the free space holds the record
/// and a table slot, the table has a slot to spare, and the block is of a size
/// that 16-bit offsets can address.
pub proof fn law_insert_var_succeeds(n: NodeView, idx: int, key: Seq<u8>, val: Seq<u8>)
    requires
        leaf_ok(n, 0, 0),
        roomy(n),
        !n.fixed_kv(),
        0 <= idx <= n.toc.len(),
        0 < key.len(),
        0 < val.len(),
        8 + key.len() + val.len() <= n.free_space.len,
        8 * (n.toc.len() + 1) <= n.table_space.len,
        n.block.len() <= 0x1_0000,
    ensures
        n.insert_var(idx, key, val).0 is Ok,
{
    assert(8 * (n.toc.len() + 1) <= u16::MAX);
}

/// Inserting a record of fixed size into a sound leaf puts it at its position
/// and leaves the other records as they were, whether or not the table had to
/// grow.
#[verifier::rlimit(40)]
pub proof fn law_insert_fixed_adds_record(
    n: NodeView,
    idx: int,
    key: Seq<u8>,
    val: Seq<u8>,
    fks: u32,
    fvs: u32,
)
    requires
        leaf_ok(n, fks, fvs),
        roomy(n),
        0 <= idx,
        n.insert_fixed(idx, key, val, fks, fvs).0 is Ok,
    ensures
        idx <= n.toc.len(),
        leaf_ok(n.insert_fixed(idx, key, val, fks, fvs).1, fks, fvs),
        roomy(n.insert_fixed(idx, key, val, fks, fvs).1),
        records(n.insert_fixed(idx, key, val, fks, fvs).1, fks, fvs) == records(
            n,
            fks,
            fvs,
        ).insert(idx, (key, val)),
        values_apart(n, fvs) ==> values_apart(n.insert_fixed(idx, key, val, fks, fvs).1, fvs),
{
    let m = n.insert_fixed(idx, key, val, fks, fvs).1;
    let p = n.fixed_placed(idx, key, val, fks, fvs);
    let used = ((n.toc.len() + 1) as u16) * 4;
    let extra = if used > n.table_space.len { used - n.table_space.len } else { 0 };
    let top = max_val_off(n.toc);
    assert((n.toc.len() + 1) as u16 == n.toc.len() + 1) by {
        assert(n.toc.len() * 4 <= n.table_space.len);
    }
    lemma_first_short_bound(p.toc, extra, 0);
    assert forall|k: int| 0 <= k < m.toc.len() implies m.toc[k] == (TocEntry {
        key_off: (p.toc[k].key_off - extra) as u16,
        ..p.toc[k]
    }) && p.toc[k].key_off >= extra by {
        if extra > 0 {
            lemma_first_short(p.toc, extra, 0, k);
        }
    }
    assert(m.keys_start() == n.keys_start() + extra);
    assert(m.free_pos() == n.free_pos() + key.len());
    assert forall|k: int| 0 <= k < m.toc.len() implies entry_ok(m, k, fks, fvs) by {
        if k != idx {
            let j = if k < idx { k } else { k - 1 };
            assert(p.toc[k] == n.toc[j]);
            assert(entry_ok(n, j, fks, fvs));
            lemma_max_val_off(n.toc, j);
        } else {
            assert(p.toc[k].val_off == top + val.len());
        }
    }
    assert forall|k: int| 0 <= k < m.toc.len() implies (#[trigger] m.toc[k]).val_off <= top
        + val.len() by {
        if k != idx {
            let j = if k < idx { k } else { k - 1 };
            assert(p.toc[k] == n.toc[j]);
            lemma_max_val_off(n.toc, j);
        }
    }
    lemma_max_val_off_bound(m.toc, top + val.len());
    let want = records(n, fks, fvs).insert(idx, (key, val));
    let got = records(m, fks, fvs);
    assert forall|k: int| 0 <= k < m.toc.len() implies got[k] == want[k] by {
        assert(m.key_pos(k) == n.keys_start() + p.toc[k].key_off);
        assert(m.val_pos(k) == n.values_end() - p.toc[k].val_off);
        if k != idx {
            let j = if k < idx { k } else { k - 1 };
            assert(p.toc[k] == n.toc[j]);
            assert(entry_ok(n, j, fks, fvs));
            lemma_max_val_off(n.toc, j);
            assert(key_bytes(m, k, fks) =~= key_bytes(n, j, fks));
            assert(val_bytes(m, k, fvs) =~= val_bytes(n, j, fvs));
        } else {
            assert(key_bytes(m, k, fks) =~= key);
            assert(val_bytes(m, k, fvs) =~= val);
        }
    }
    assert(got =~= want);
    if values_apart(n, fvs) {
        assert forall|i: int, j: int|
            #![trigger m.toc[i], m.toc[j]]
            0 <= i < m.toc.len() && 0 <= j < m.toc.len() && i != j implies m.toc[i].val_off
            - m.val_len(i, fvs) >= m.toc[j].val_off || m.toc[j].val_off - m.val_len(j, fvs)
            >= m.toc[i].val_off by {
            let i0 = if i < idx { i } else { i - 1 };
            let j0 = if j < idx { j } else { j - 1 };
            if i != idx {
                assert(p.toc[i] == n.toc[i0]);
                lemma_max_val_off(n.toc, i0);
            }
            if j != idx {
                assert(p.toc[j] == n.toc[j0]);
                lemma_max_val_off(n.toc, j0);
            }
        }
    }
}

/// A table entry as it is read back: in a node of fixed sizes the lengths are
/// not stored.
pub open spec fn stored_entry(e: TocEntry, fixed: bool) -> TocEntry {
    if fixed { TocEntry { key_len: 0, val_len: 0, ..e } } else { e }
}

/// The node that is read back after `n` was written as `out`.
pub open spec fn stored(n: NodeView, out: Seq<u8>) -> NodeView {
    NodeView {
        header: HeaderView { checksum: out.subrange(0, 8), ..n.header },
        toc: n.toc.map_values(|e: TocEntry| stored_entry(e, n.fixed_kv())),
        block: out,
        ..n
    }
}

proof fn lemma_toc_bytes_entry(toc: Seq<TocEntry>, fixed: bool, i: int)
    requires
        0 <= i < toc.len(),
    ensures
        0 <= i * entry_size(fixed),
        i * entry_size(fixed) + entry_size(fixed) <= toc_bytes(toc, fixed).len(),
        toc_bytes(toc, fixed).subrange(
            i * entry_size(fixed),
            i * entry_size(fixed) + entry_size(fixed),
        ) == entry_bytes(toc[i], fixed),
    decreases toc.len(),
{
    broadcast use group_bytes_len;

    let es = entry_size(fixed);
    let rest = toc.drop_last();
    lemma_toc_bytes_len(toc, fixed);
    lemma_toc_bytes_len(rest, fixed);
    let whole = toc_bytes(toc, fixed);
    let n = toc.len() as int;
    assert(es * n == es * (n - 1) + es) by (nonlinear_arith);
    assert(i * es == es * i) by (nonlinear_arith);
    assert(es * i >= 0) by (nonlinear_arith)
        requires
            es >= 0,
            i >= 0,
    ;
    if i < n - 1 {
        lemma_toc_bytes_entry(rest, fixed, i);
        assert(whole.subrange(i * es, i * es + es) =~= toc_bytes(rest, fixed).subrange(
            i * es,
            i * es + es,
        ));
    } else {
        assert(whole.subrange(i * es, i * es + es) =~= entry_bytes(toc[i], fixed));
    }
}

proof fn lemma_entry_back(b: Seq<u8>, o: int, e: TocEntry, fixed: bool)
    requires
        0 <= o,
        o + entry_size(fixed) <= b.len(),
        b.subrange(o, o + entry_size(fixed)) == entry_bytes(e, fixed),
    ensures
        entry_of(b, o, fixed) == stored_entry(e, fixed),
{
    broadcast use group_bytes_len;

    let s = b.subrange(o, o + entry_size(fixed));
    assert(b.subrange(o, o + 2) =~= s.subrange(0, 2));
    assert(b.subrange(o + 2, o + 4) =~= s.subrange(2, 4));
    assert(s.subrange(0, 2) =~= bytes_u16(e.key_off));
    lemma_read_u16(b, o, e.key_off);
    if fixed {
        assert(s.subrange(2, 4) =~= bytes_u16(e.val_off));
        lemma_read_u16(b, o + 2, e.val_off);
    } else {
        assert(b.subrange(o + 4, o + 6) =~= s.subrange(4, 6));
        assert(b.subrange(o + 6, o + 8) =~= s.subrange(6, 8));
        assert(s.subrange(2, 4) =~= bytes_u16(e.key_len));
        assert(s.subrange(4, 6) =~= bytes_u16(e.val_off));
        assert(s.subrange(6, 8) =~= bytes_u16(e.val_len));
        lemma_read_u16(b, o + 2, e.key_len);
        lemma_read_u16(b, o + 4, e.val_off);
        lemma_read_u16(b, o + 6, e.val_len);
    }
}

proof fn lemma_nloc_back(b: Seq<u8>, o: int, n: Nloc)
    requires
        0 <= o,
        o + 4 <= b.len(),
        b.subrange(o, o + 4) == nloc_bytes(n),
    ensures
        nloc_of(b, o) == n,
{
    broadcast use group_bytes_len;

    let s = b.subrange(o, o + 4);
    assert(b.subrange(o, o + 2) =~= s.subrange(0, 2));
    assert(b.subrange(o + 2, o + 4) =~= s.subrange(2, 4));
    assert(s.subrange(0, 2) =~= bytes_u16(n.off));
    assert(s.subrange(2, 4) =~= bytes_u16(n.len));
    lemma_read_u16(b, o, n.off);
    lemma_read_u16(b, o + 2, n.len);
}

proof fn lemma_info_back(b: Seq<u8>, o: int, i: BTreeInfo)
    requires
        0 <= o,
        o + BTREE_INFO_SIZE <= b.len(),
        b.subrange(o, o + BTREE_INFO_SIZE) == info_bytes(i),
    ensures
        info_of(b, o) == i,
{
    broadcast use group_bytes_len;

    let s = b.subrange(o, o + BTREE_INFO_SIZE);
    assert(b.subrange(o, o + 4) =~= s.subrange(0, 4) && s.subrange(0, 4) =~= bytes_u32(i.flags));
    assert(b.subrange(o + 4, o + 8) =~= s.subrange(4, 8) && s.subrange(4, 8) =~= bytes_u32(i.node_size));
    assert(b.subrange(o + 8, o + 12) =~= s.subrange(8, 12) && s.subrange(8, 12) =~= bytes_u32(i.key_size));
    assert(b.subrange(o + 12, o + 16) =~= s.subrange(12, 16) && s.subrange(12, 16) =~= bytes_u32(i.val_size));
    assert(b.subrange(o + 16, o + 20) =~= s.subrange(16, 20) && s.subrange(16, 20) =~= bytes_u32(i.longest_key));
    assert(b.subrange(o + 20, o + 24) =~= s.subrange(20, 24) && s.subrange(20, 24) =~= bytes_u32(i.longest_val));
    assert(b.subrange(o + 24, o + 32) =~= s.subrange(24, 32) && s.subrange(24, 32) =~= bytes_u64(i.key_count));
    assert(b.subrange(o + 32, o + 40) =~= s.subrange(32, 40) && s.subrange(32, 40) =~= bytes_u64(i.node_count));
    lemma_read_u32(b, o, i.flags);
    lemma_read_u32(b, o + 4, i.node_size);
    lemma_read_u32(b, o + 8, i.key_size);
    lemma_read_u32(b, o + 12, i.val_size);
    lemma_read_u32(b, o + 16, i.longest_key);
    lemma_read_u32(b, o + 20, i.longest_val);
    lemma_read_u64(b, o + 24, i.key_count);
    lemma_read_u64(b, o + 32, i.node_count);
}

proof fn lemma_header_back(b: Seq<u8>, h: HeaderView)
    requires
        b.len() >= 32,
        h.checksum.len() == 8,
        b.subrange(8, 32) == h.encode().subrange(8, 32),
    ensures
        header_of(b) == (HeaderView { checksum: b.subrange(0, 8), ..h }),
{
    broadcast use group_bytes_len;

    let s = b.subrange(8, 32);
    let e = h.encode();
    assert(b.subrange(8, 16) =~= s.subrange(0, 8));
    assert(b.subrange(16, 24) =~= s.subrange(8, 16));
    assert(b.subrange(24, 28) =~= s.subrange(16, 20));
    assert(b.subrange(28, 32) =~= s.subrange(20, 24));
    assert(e.subrange(8, 32).subrange(0, 8) =~= bytes_u64(h.oid));
    assert(e.subrange(8, 32).subrange(8, 16) =~= bytes_u64(h.xid));
    assert(e.subrange(8, 32).subrange(16, 20) =~= bytes_u32(h.raw_type));
    assert(e.subrange(8, 32).subrange(20, 24) =~= bytes_u32(h.subtype));
    lemma_read_u64(b, 8, h.oid);
    lemma_read_u64(b, 16, h.xid);
    lemma_read_u32(b, 24, h.raw_type);
    lemma_read_u32(b, 28, h.subtype);
}

proof fn lemma_prefix_back(b: Seq<u8>, n: NodeView)
    requires
        b.len() >= BTNODE_FIXED_PREFIX,
        n.toc.len() <= u32::MAX,
        b.subrange(32, 56) == n.prefix_bytes(),
    ensures
        le_u16(b, 32) == n.flags,
        le_u16(b, 34) == n.level,
        le_u32(b, 36) == n.toc.len(),
        nloc_of(b, 40) == n.table_space,
        nloc_of(b, 44) == n.free_space,
        nloc_of(b, 48) == n.key_free_list,
        nloc_of(b, 52) == n.val_free_list,
{
    broadcast use group_bytes_len;

    let s = b.subrange(32, 56);
    assert(b.subrange(32, 34) =~= s.subrange(0, 2) && s.subrange(0, 2) =~= bytes_u16(n.flags));
    assert(b.subrange(34, 36) =~= s.subrange(2, 4) && s.subrange(2, 4) =~= bytes_u16(n.level));
    assert(b.subrange(36, 40) =~= s.subrange(4, 8) && s.subrange(4, 8) =~= bytes_u32(n.toc.len() as u32));
    assert(b.subrange(40, 44) =~= s.subrange(8, 12) && s.subrange(8, 12) =~= nloc_bytes(n.table_space));
    assert(b.subrange(44, 48) =~= s.subrange(12, 16) && s.subrange(12, 16) =~= nloc_bytes(n.free_space));
    assert(b.subrange(48, 52) =~= s.subrange(16, 20) && s.subrange(16, 20) =~= nloc_bytes(n.key_free_list));
    assert(b.subrange(52, 56) =~= s.subrange(20, 24) && s.subrange(20, 24) =~= nloc_bytes(n.val_free_list));
    lemma_read_u16(b, 32, n.flags);
    lemma_read_u16(b, 34, n.level);
    lemma_read_u32(b, 36, n.toc.len() as u32);
    lemma_nloc_back(b, 40, n.table_space);
    lemma_nloc_back(b, 44, n.free_space);
    lemma_nloc_back(b, 48, n.key_free_list);
    lemma_nloc_back(b, 52, n.val_free_list);
}

/// The parts of a block that [`NodeView::written`] fills, and those that it
/// leaves alone.
proof fn lemma_written(n: NodeView)
    requires
        storable(n),
    ensures
        n.written().len() == n.block.len(),
        n.written().subrange(8, 32) == n.header.encode().subrange(8, 32),
        n.written().subrange(32, 56) == n.prefix_bytes(),
        n.written().subrange(n.toc_start(), n.toc_end()) == toc_bytes(n.toc, n.fixed_kv()),
        n.written().subrange(n.toc_end(), n.values_end()) == n.block.subrange(
            n.toc_end(),
            n.values_end(),
        ),
        n.info matches Some(i) ==> n.written().subrange(
            n.values_end(),
            n.values_end() + BTREE_INFO_SIZE,
        ) == info_bytes(i),
{
    broadcast use group_bytes_len;

    lemma_toc_bytes_len(n.toc, n.fixed_kv());
    let w = n.written();
    assert(w.subrange(8, 32) =~= n.header.encode().subrange(8, 32));
    assert(w.subrange(32, 56) =~= n.prefix_bytes());
    assert(w.subrange(n.toc_start(), n.toc_end()) =~= toc_bytes(n.toc, n.fixed_kv()));
    assert(w.subrange(n.toc_end(), n.values_end()) =~= n.block.subrange(
        n.toc_end(),
        n.values_end(),
    ));
    if n.info is Some {
        assert(w.subrange(n.values_end(), n.values_end() + BTREE_INFO_SIZE) =~= info_bytes(
            n.info->0,
        ));
    }
}

/// The parts of the block that is written out.
proof fn lemma_sealed_written(n: NodeView)
    requires
        storable(n),
    ensures
        n.serialize().0 == Ok::<Seq<u8>, Fault>(sealed(n.written())),
        intact(sealed(n.written())),
        sealed(n.written()).len() == n.block.len(),
        sealed(n.written()).subrange(8, 32) == n.header.encode().subrange(8, 32),
        sealed(n.written()).subrange(32, 56) == n.prefix_bytes(),
        sealed(n.written()).subrange(n.toc_start(), n.toc_end()) == toc_bytes(n.toc, n.fixed_kv()),
        sealed(n.written()).subrange(n.toc_end(), n.values_end()) == n.block.subrange(
            n.toc_end(),
            n.values_end(),
        ),
        n.info matches Some(i) ==> sealed(n.written()).subrange(
            n.values_end(),
            n.values_end() + BTREE_INFO_SIZE,
        ) == info_bytes(i),
{
    broadcast use group_bytes_len;

    lemma_written(n);
    lemma_toc_bytes_len(n.toc, n.fixed_kv());
    let w = n.written();
    law_sealed_is_intact(w);
    let c = bytes_u64(checksum(w.subrange(8, w.len() as int)));
    lemma_splice_outside(w, 0, c, 8, 32);
    lemma_splice_outside(w, 0, c, 32, 56);
    lemma_splice_outside(w, 0, c, n.toc_start(), n.toc_end());
    lemma_splice_outside(w, 0, c, n.toc_end(), n.values_end());
    if n.info is Some {
        lemma_splice_outside(w, 0, c, n.values_end(), n.values_end() + BTREE_INFO_SIZE);
    }
}

proof fn lemma_toc_back(b: Seq<u8>, o: int, toc: Seq<TocEntry>, fixed: bool)
    requires
        0 <= o,
        o + entry_size(fixed) * toc.len() <= b.len(),
        b.subrange(o, o + entry_size(fixed) * toc.len()) == toc_bytes(toc, fixed),
    ensures
        toc_of(b, o, toc.len(), fixed) == toc.map_values(|e: TocEntry| stored_entry(e, fixed)),
{
    let es = entry_size(fixed);
    let got = toc_of(b, o, toc.len(), fixed);
    let want = toc.map_values(|e: TocEntry| stored_entry(e, fixed));
    let tb = toc_bytes(toc, fixed);
    lemma_toc_bytes_len(toc, fixed);
    assert forall|i: int| 0 <= i < toc.len() implies got[i] == want[i] by {
        lemma_toc_bytes_entry(toc, fixed, i);
        assert(b.subrange(o + i * es, o + i * es + es) =~= tb.subrange(i * es, i * es + es));
        lemma_entry_back(b, o + i * es, toc[i], fixed);
    }
    assert(got =~= want);
}

/// Writing a node and parsing the block gives the node back, with the fresh
/// checksum in its header, and the block is intact.
pub proof fn law_serialize_then_parse(n: NodeView)
    requires
        storable(n),
    ensures
        n.serialize().0 is Ok,
        intact(n.serialize().0->Ok_0),
        n.serialize().0->Ok_0.len() == n.block.len(),
        node_outcome(n.serialize().0->Ok_0) == Ok::<NodeView, Fault>(
            stored(n, n.serialize().0->Ok_0),
        ),
{
    let out = sealed(n.written());
    lemma_sealed_written(n);
    lemma_header_back(out, n.header);
    lemma_prefix_back(out, n);
    lemma_toc_bytes_len(n.toc, n.fixed_kv());
    lemma_toc_back(out, n.toc_start(), n.toc, n.fixed_kv());
    if n.info is Some {
        lemma_info_back(out, n.values_end(), n.info->0);
    }
    assert(node_of(out) =~= stored(n, out));
}

/// Writing a node leaves what is between its table and its footer as it was.
pub proof fn law_serialize_keeps_block(n: NodeView)
    requires
        storable(n),
    ensures
        n.serialize().0 matches Ok(out) && out.subrange(n.toc_end(), n.values_end())
            == n.block.subrange(n.toc_end(), n.values_end()),
{
    lemma_sealed_written(n);
}

/// Writing a sound leaf and parsing the block gives the same records.
pub proof fn law_serialize_keeps_records(n: NodeView, fixed_key_size: u32, fixed_val_size: u32)
    requires
        storable(n),
        leaf_ok(n, fixed_key_size, fixed_val_size),
    ensures
        leaf_ok(stored(n, n.serialize().0->Ok_0), fixed_key_size, fixed_val_size),
        roomy(n) ==> roomy(stored(n, n.serialize().0->Ok_0)),
        storable(stored(n, n.serialize().0->Ok_0)),
        records(stored(n, n.serialize().0->Ok_0), fixed_key_size, fixed_val_size) == records(
            n,
            fixed_key_size,
            fixed_val_size,
        ),
{
    lemma_sealed_written(n);
    let out = sealed(n.written());
    lemma_stored_records(n, out, fixed_key_size, fixed_val_size);
}

proof fn lemma_stored_records(n: NodeView, out: Seq<u8>, fixed_key_size: u32, fixed_val_size: u32)
    requires
        storable(n),
        leaf_ok(n, fixed_key_size, fixed_val_size),
        out.len() == n.block.len(),
        out.subrange(n.toc_end(), n.values_end()) == n.block.subrange(n.toc_end(), n.values_end()),
    ensures
        leaf_ok(stored(n, out), fixed_key_size, fixed_val_size),
        roomy(n) ==> roomy(stored(n, out)),
        storable(stored(n, out)),
        records(stored(n, out), fixed_key_size, fixed_val_size) == records(
            n,
            fixed_key_size,
            fixed_val_size,
        ),
{
    let m = stored(n, out);
    let a = n.toc_end();
    let z = n.values_end();
    let mid = n.block.subrange(a, z);
    assert(m.toc_end() == a && m.values_end() == z && m.keys_start() == n.keys_start()
        && m.free_pos() == n.free_pos());
    assert forall|i: int| 0 <= i < m.toc.len() implies entry_ok(m, i, fixed_key_size, fixed_val_size) by {
        assert(entry_ok(n, i, fixed_key_size, fixed_val_size));
    }
    assert forall|i: int| 0 <= i < m.toc.len() implies (#[trigger] m.toc[i]).val_off <= max_val_off(
        n.toc,
    ) by {
        lemma_max_val_off(n.toc, i);
    }
    lemma_max_val_off_bound(m.toc, max_val_off(n.toc) as int);
    let got = records(m, fixed_key_size, fixed_val_size);
    let want = records(n, fixed_key_size, fixed_val_size);
    assert forall|i: int| 0 <= i < n.toc.len() implies got[i] == want[i] by {
        assert(entry_ok(n, i, fixed_key_size, fixed_val_size));
        let k = n.key_pos(i);
        let kl = n.key_len(i, fixed_key_size);
        let v = n.val_pos(i);
        let vl = n.val_len(i, fixed_val_size);
        assert(out.subrange(k, k + kl) =~= mid.subrange(k - a, k - a + kl));
        assert(n.block.subrange(k, k + kl) =~= mid.subrange(k - a, k - a + kl));
        assert(out.subrange(v, v + vl) =~= mid.subrange(v - a, v - a + vl));
        assert(n.block.subrange(v, v + vl) =~= mid.subrange(v - a, v - a + vl));
    }
    assert(got =~= want);
}

} // verus!

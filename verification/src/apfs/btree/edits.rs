//! Nodes that are parsed, changed, written and parsed again.

use crate::apfs::btree::node::{node_outcome, NodeView, BTNODE_FIXED_PREFIX};
use crate::apfs::btree::records::{
    entry_ok, law_delete_removes_record, law_insert_var_adds_record, law_serialize_keeps_block,
    law_serialize_then_parse, leaf_ok, roomy, storable, stored,
};
use crate::apfs::error::Fault;
use crate::apfs::fletcher::{checkable, intact};
use vstd::prelude::*;

verus! {

/// A change of a node.
pub enum NodeEdit {
    Replace { i: nat, val: Seq<u8>, fixed_val_size: u32 },
    Insert { idx: nat, key: Seq<u8>, val: Seq<u8> },
    Delete { i: nat },
}

/// The outcome of a change, and the node afterwards.
pub open spec fn edited(n: NodeView, e: NodeEdit) -> (Result<(), Fault>, NodeView) {
    match e {
        NodeEdit::Replace { i, val, fixed_val_size } => n.replace(i as int, val, fixed_val_size),
        NodeEdit::Insert { idx, key, val } => n.insert_var(idx as int, key, val),
        NodeEdit::Delete { i } => n.delete_var(i as int),
    }
}

/// Whether what goes in has lengths that a table entry can hold.
pub open spec fn edit_fits(e: NodeEdit) -> bool {
    e matches NodeEdit::Insert { key, val, .. } ==> key.len() <= u16::MAX && val.len() <= u16::MAX
}

/// The node after changes one after the other, if each of them succeeds.
pub open spec fn after_edits(n: NodeView, edits: Seq<NodeEdit>) -> Option<NodeView>
    decreases edits.len(),
{
    if edits.len() == 0 {
        Some(n)
    } else {
        match edited(n, edits[0]) {
            (Ok(_), m) if edit_fits(edits[0]) => after_edits(m, edits.skip(1)),
            _ => None,
        }
    }
}

/// Whether table, keys, free space and values of a node have places of their
/// own in its block, one after the other.
pub open spec fn well_formed(n: NodeView, fixed_key_size: u32, fixed_val_size: u32) -> bool {
    &&& n.toc_end() <= n.keys_start()
    &&& n.free_pos() <= n.values_end() <= n.block.len()
    &&& forall|i: int| 0 <= i < n.toc.len() ==> entry_ok(n, i, fixed_key_size, fixed_val_size)
    &&& roomy(n)
}

/// A change that succeeds keeps the parts of a node in their places.
proof fn lemma_edited(n: NodeView, e: NodeEdit, fixed_key_size: u32, fixed_val_size: u32)
    requires
        storable(n),
        well_formed(n, fixed_key_size, fixed_val_size),
        edit_fits(e),
        edited(n, e).0 is Ok,
    ensures
        storable(edited(n, e).1),
        well_formed(edited(n, e).1, fixed_key_size, fixed_val_size),
        edited(n, e).1.block.len() == n.block.len(),
{
    let m = edited(n, e).1;
    match e {
        NodeEdit::Replace { .. } => {
            assert forall|k: int| 0 <= k < m.toc.len() implies entry_ok(
                m,
                k,
                fixed_key_size,
                fixed_val_size,
            ) by {
                assert(entry_ok(n, k, fixed_key_size, fixed_val_size));
            }
        },
        NodeEdit::Insert { idx, key, val } => {
            assert forall|k: int| 0 <= k < n.toc.len() implies entry_ok(n, k, 0, 0) by {
                assert(entry_ok(n, k, fixed_key_size, fixed_val_size));
            }
            law_insert_var_adds_record(n, idx as int, key, val);
            assert forall|k: int| 0 <= k < m.toc.len() implies entry_ok(
                m,
                k,
                fixed_key_size,
                fixed_val_size,
            ) by {
                assert(entry_ok(m, k, 0, 0));
            }
        },
        NodeEdit::Delete { i } => {
            assert(leaf_ok(n, fixed_key_size, fixed_val_size));
            law_delete_removes_record(n, i as int, fixed_key_size, fixed_val_size);
        },
    }
}

proof fn lemma_after_edits(
    n: NodeView,
    edits: Seq<NodeEdit>,
    fixed_key_size: u32,
    fixed_val_size: u32,
)
    requires
        storable(n),
        well_formed(n, fixed_key_size, fixed_val_size),
        after_edits(n, edits) is Some,
    ensures
        ({
            let m = after_edits(n, edits)->0;
            storable(m) && well_formed(m, fixed_key_size, fixed_val_size) && m.block.len()
                == n.block.len()
        }),
    decreases edits.len(),
{
    if edits.len() > 0 {
        lemma_edited(n, edits[0], fixed_key_size, fixed_val_size);
        lemma_after_edits(edited(n, edits[0]).1, edits.skip(1), fixed_key_size, fixed_val_size);
    }
}

/// A node with its parts in their places can be written.
proof fn lemma_parsed(b: Seq<u8>, fixed_key_size: u32, fixed_val_size: u32)
    requires
        checkable(b.len()),
        node_outcome(b) matches Ok(n) && well_formed(n, fixed_key_size, fixed_val_size),
    ensures
        storable(node_outcome(b)->Ok_0),
        node_outcome(b)->Ok_0.block == b,
{
    let n = node_outcome(b)->Ok_0;
    assert(n.toc_end() >= BTNODE_FIXED_PREFIX);
}

/// A node that was parsed from a well-formed block, and since then changed by
/// replacing values, inserting entries and deleting entries, is written to an
/// intact block of the same length. Parsing that gives a node with the same
/// fields, keys and values.
pub proof fn law_edited_node_is_read_back(
    b: Seq<u8>,
    edits: Seq<NodeEdit>,
    fixed_key_size: u32,
    fixed_val_size: u32,
)
    requires
        checkable(b.len()),
        node_outcome(b) matches Ok(n) && well_formed(n, fixed_key_size, fixed_val_size)
            && after_edits(n, edits) is Some,
    ensures
        ({
            let n = after_edits(node_outcome(b)->Ok_0, edits)->0;
            &&& n.serialize().0 matches Ok(out)
            &&& out.len() == b.len()
            &&& intact(out)
            &&& node_outcome(out) matches Ok(m)
            &&& m.header.oid == n.header.oid
            &&& m.header.xid == n.header.xid
            &&& m.header.raw_type == n.header.raw_type
            &&& m.header.subtype == n.header.subtype
            &&& m.flags == n.flags
            &&& m.level == n.level
            &&& m.toc.len() == n.toc.len()
            &&& m.table_space == n.table_space
            &&& m.free_space == n.free_space
            &&& m.key_free_list == n.key_free_list
            &&& m.val_free_list == n.val_free_list
            &&& m.info == n.info
            &&& forall|j: int|
                0 <= j ==> #[trigger] m.key(j, fixed_key_size) == n.key(j, fixed_key_size)
            &&& forall|j: int|
                0 <= j ==> #[trigger] m.value(j, fixed_val_size) == n.value(j, fixed_val_size)
        }),
{
    lemma_parsed(b, fixed_key_size, fixed_val_size);
    lemma_after_edits(node_outcome(b)->Ok_0, edits, fixed_key_size, fixed_val_size);
    let n = after_edits(node_outcome(b)->Ok_0, edits)->0;
    law_serialize_then_parse(n);
    law_serialize_keeps_block(n);
    let out = n.serialize().0->Ok_0;
    let m = stored(n, out);
    let a = n.toc_end();
    let z = n.values_end();
    let mid = n.block.subrange(a, z);
    assert(out.subrange(a, z) == mid);
    assert forall|j: int| 0 <= j implies #[trigger] m.key(j, fixed_key_size) == n.key(
        j,
        fixed_key_size,
    ) by {
        if j < n.toc.len() {
            assert(entry_ok(n, j, fixed_key_size, fixed_val_size));
            let k = n.key_pos(j);
            let l = n.key_len(j, fixed_key_size);
            assert(out.subrange(k, k + l) =~= mid.subrange(k - a, k - a + l));
            assert(n.block.subrange(k, k + l) =~= mid.subrange(k - a, k - a + l));
        }
    }
    assert forall|j: int| 0 <= j implies #[trigger] m.value(j, fixed_val_size) == n.value(
        j,
        fixed_val_size,
    ) by {
        if j < n.toc.len() {
            assert(entry_ok(n, j, fixed_key_size, fixed_val_size));
            let k = n.val_pos(j);
            let l = n.val_len(j, fixed_val_size);
            assert(out.subrange(k, k + l) =~= mid.subrange(k - a, k - a + l));
            assert(n.block.subrange(k, k + l) =~= mid.subrange(k - a, k - a + l));
        }
    }
}

} // verus!

//! Removing files and directories.

use crate::apfs::btree::BTreeNode;
use crate::apfs::btree::node::NodeView;
use crate::apfs::btree::search::{found_seq, Found};
use crate::apfs::catalog::edit::{
    dec_edit, dec_inode_counter_in_node, delete_records, delete_records_in_node, edit_inode,
    find_record_in_node, record_entry,
};
use crate::apfs::catalog::records::{
    mode_kind, INODE_DIR_TYPE, INODE_FILE_TYPE, J_TYPE_DIR_REC, J_TYPE_DSTREAM_ID,
    J_TYPE_FILE_EXTENT, J_TYPE_INODE, J_TYPE_XATTR,
};
use crate::apfs::device::{ReadAt, WriteAt};
use crate::apfs::error::{internal, plain, ApfsError, Fault};
use crate::apfs::object::{agrees, refused};
use crate::apfs::path::{base_part, split_last, trim_slashes, trimmed};
use crate::apfs::text::{
    decimal_signed, decimal_signed_string, msg1, msg2, msg_str, text1, text2, text_str,
};
use crate::apfs::volume::leaves::{
    ascending, changed, comes_of, leaves_outcome, leaves_view, lemma_put_leaf, put_leaf,
    touched_outcome,
};
use crate::apfs::volume::state::{ApfsVolume, VolumeView};
use vstd::prelude::*;

verus! {

/// The position of the first address from `i` on that is not below `p`.
pub open spec fn addr_pos(s: Seq<u64>, p: u64, i: int) -> int
    decreases s.len() - i,
{
    if i >= s.len() || i < 0 {
        s.len() as int
    } else if s[i] >= p {
        i
    } else {
        addr_pos(s, p, i + 1)
    }
}

/// The addresses with `p` at its place, unless it is there already.
pub open spec fn with_addr(s: Seq<u64>, p: u64) -> Seq<u64> {
    let i = addr_pos(s, p, 0);
    if i < s.len() && s[i] == p {
        s
    } else {
        s.insert(i, p)
    }
}

/// The distinct leaf addresses of records, in ascending order: those seen so
/// far and those of the records from `i` on.
pub open spec fn leaf_addrs(found: Seq<Found>, i: int, seen: Seq<u64>) -> Seq<u64>
    decreases found.len() - i,
{
    if i >= found.len() || i < 0 {
        seen
    } else {
        leaf_addrs(found, i + 1, with_addr(seen, found[i].2))
    }
}

fn collect_addrs(found: &Vec<(Vec<u8>, Vec<u8>, u64)>) -> (v: Vec<u64>)
    ensures
        v@ == leaf_addrs(found_seq(found@), 0, seq![]),
{
    let ghost views = found_seq(found@);
    let mut v: Vec<u64> = Vec::new();
    let mut i: usize = 0;
    assert(v@ =~= seq![]);
    while i < found.len()
        invariant
            i <= found.len(),
            views == found_seq(found@),
            leaf_addrs(views, 0, seq![]) == leaf_addrs(views, i as int, v@),
        decreases found.len() - i,
    {
        let p: u64 = found[i].2;
        assert(views[i as int].2 == p);
        let mut k: usize = 0;
        while k < v.len() && v[k] < p
            invariant
                k <= v.len(),
                addr_pos(v@, p, 0) == addr_pos(v@, p, k as int),
            decreases v.len() - k,
        {
            k += 1;
        }
        if !(k < v.len() && v[k] == p) {
            v.insert(k, p);
        }
        i += 1;
    }
    v
}

/// What is said when a record is not there to be removed.
pub open spec fn no_record(oid: u64, j_type: u8, how: Seq<char>) -> Fault {
    Fault::NotFound(msg2("record (oid="@, oid as nat, ", type="@, j_type as nat, how))
}

impl VolumeView {
    /// The touched leaves after the directory record of `name` was taken out
    /// of the first leaf that has it, among the leaves of the records from `i`
    /// on; nothing if none has it.
    pub open spec fn without_drec(
        self,
        s: Seq<(u64, NodeView)>,
        found: Seq<Found>,
        i: int,
        parent: u64,
        name: Seq<char>,
    ) -> Result<Option<Seq<(u64, NodeView)>>, Fault>
        decreases found.len() - i,
    {
        if i >= found.len() || i < 0 {
            Ok(None)
        } else {
            let p = found[i].2;
            match self.load(s, p) {
                (Err(e), _) => Err(e),
                (Ok(n), t) => match record_entry(n, parent, J_TYPE_DIR_REC, Some(name)) {
                    Err(e) => Err(e),
                    Ok(None) => self.without_drec(t, found, i + 1, parent, name),
                    Ok(Some(k)) => match n.delete_var(k) {
                        (Err(e), _) => Err(e),
                        (Ok(_), m) => Ok(Some(put_leaf(t, p, m))),
                    },
                },
            }
        }
    }

    /// The outcome of taking the first record of `(oid, j_type)` out of its
    /// leaf, and the touched leaves afterwards.
    pub open spec fn delete_record(self, s: Seq<(u64, NodeView)>, oid: u64, j_type: u8) -> (
        Result<(), Fault>,
        Seq<(u64, NodeView)>,
    ) {
        match self.hit(oid, j_type) {
            Err(e) => (Err(e), s),
            Ok(None) => (Err(no_record(oid, j_type, ") not found"@)), s),
            Ok(Some((_, p))) => match self.load(s, p) {
                (Err(e), t) => (Err(e), t),
                (Ok(n), t) => (
                    record_out(n, oid, j_type).0,
                    put_leaf(t, p, record_out(n, oid, j_type).1),
                ),
            },
        }
    }

    /// The touched leaves after all extents of `oid` were taken out of the
    /// leaves at the addresses from `i` on.
    pub open spec fn without_extents(
        self,
        s: Seq<(u64, NodeView)>,
        addrs: Seq<u64>,
        i: int,
        oid: u64,
    ) -> Result<Seq<(u64, NodeView)>, Fault>
        decreases addrs.len() - i,
    {
        if i >= addrs.len() || i < 0 {
            Ok(s)
        } else {
            match self.change(
                s,
                addrs[i],
                |n: NodeView| delete_records(n, oid, J_TYPE_FILE_EXTENT),
            ) {
                (Err(e), _) => Err(e),
                (Ok(_), t) => self.without_extents(t, addrs, i + 1, oid),
            }
        }
    }

    /// The touched leaves after a child was counted off in the inode of
    /// `parent`, which lies in the leaf at `p`.
    pub open spec fn count_off(self, s: Seq<(u64, NodeView)>, p: u64, parent: u64) -> Result<
        Seq<(u64, NodeView)>,
        Fault,
    > {
        changed(
            self.change(
                s,
                p,
                |n: NodeView|
                    edit_inode(
                        n,
                        parent,
                        "dec_inode_counter_in_node: target is not a leaf"@,
                        dec_edit(parent),
                    ),
            ),
        )
    }

    /// The touched leaves after the directory record of `name` was taken out,
    /// or the fault `missing` if there is none.
    pub open spec fn drop_drec(self, parent: u64, name: Seq<char>, missing: Fault) -> Result<
        Seq<(u64, NodeView)>,
        Fault,
    > {
        match self.hits(parent, J_TYPE_DIR_REC) {
            Err(e) => Err(e),
            Ok(found) => match self.without_drec(seq![], found, 0, parent, name) {
                Err(e) => Err(e),
                Ok(None) => Err(missing),
                Ok(Some(s)) => Ok(s),
            },
        }
    }

    /// The touched leaves after the inode and the data stream record of a file
    /// were taken out. A file without data has no data stream record; one that
    /// cannot be taken out stays, unless the device refused a request.
    pub open spec fn drop_inode(self, s: Seq<(u64, NodeView)>, oid: u64, private_id: u64) -> Result<
        Seq<(u64, NodeView)>,
        Fault,
    > {
        match self.delete_record(s, oid, J_TYPE_INODE) {
            (Err(e), _) => Err(e),
            (Ok(_), t) => match self.delete_record(t, private_id, J_TYPE_DSTREAM_ID) {
                (Err(Fault::Io(e)), _) => Err(Fault::Io(e)),
                (_, u) => Ok(u),
            },
        }
    }

    /// The touched leaves after the extents of a file were taken out.
    pub open spec fn drop_extents(self, s: Seq<(u64, NodeView)>, oid: u64) -> Result<
        Seq<(u64, NodeView)>,
        Fault,
    > {
        match self.hits(oid, J_TYPE_FILE_EXTENT) {
            Err(e) => Err(e),
            Ok(found) => self.without_extents(s, leaf_addrs(found, 0, seq![]), 0, oid),
        }
    }

    /// The touched leaves after a child was counted off in the inode of
    /// `parent`.
    pub open spec fn count_off_parent(self, s: Seq<(u64, NodeView)>, parent: u64) -> Result<
        Seq<(u64, NodeView)>,
        Fault,
    > {
        match self.hit(parent, J_TYPE_INODE) {
            Err(e) => Err(e),
            Ok(None) => Err(Fault::NotFound(msg1("parent inode "@, parent as nat, ""@))),
            Ok(Some((_, p))) => self.count_off(s, p, parent),
        }
    }

    /// The touched leaves after a file was unlinked.
    pub open spec fn unlinked(
        self,
        oid: u64,
        private_id: u64,
        parent: u64,
        name: Seq<char>,
    ) -> Result<Seq<(u64, NodeView)>, Fault> {
        match self.drop_drec(parent, name, unlink_no_drec(parent, name)) {
            Err(e) => Err(e),
            Ok(s1) => match self.drop_inode(s1, oid, private_id) {
                Err(e) => Err(e),
                Ok(s2) => match self.drop_extents(s2, private_id) {
                    Err(e) => Err(e),
                    Ok(s3) => self.count_off_parent(s3, parent),
                },
            },
        }
    }

    /// The outcome of unlinking the file that a path names, and the volume
    /// afterwards.
    pub open spec fn unlink(self, path: Seq<char>) -> (Result<(), Fault>, VolumeView) {
        if trimmed(path).len() == 0 {
            (Err(Fault::Internal("unlink_file: empty path"@)), self)
        } else {
            match self.resolve(path) {
                Err(e) => (Err(e), self),
                Ok((oid, inode)) => if mode_kind(inode.mode) != INODE_FILE_TYPE {
                    (
                        Err(
                            Fault::NotADirectory(
                                msg_str("unlink_file: "@, path, " is not a regular file"@),
                            ),
                        ),
                        self,
                    )
                } else if inode.nchildren_or_nlink as u32 != 1 {
                    (
                        Err(
                            Fault::Internal(
                                msg1(
                                    "unlink_file: nlink="@,
                                    (inode.nchildren_or_nlink as u32) as nat,
                                    " not yet supported"@,
                                ),
                            ),
                        ),
                        self,
                    )
                } else {
                    match self.hit(oid, J_TYPE_XATTR) {
                        Err(e) => (Err(e), self),
                        Ok(Some(_)) => (
                            Err(
                                Fault::Internal(
                                    "unlink_file: extended attributes not yet supported"@,
                                ),
                            ),
                            self,
                        ),
                        Ok(None) => self.finish(
                            self.unlinked(
                                oid,
                                inode.private_id,
                                inode.parent_id,
                                base_part(trimmed(path)),
                            ),
                        ),
                    }
                },
            }
        }
    }

    /// The touched leaves after an empty directory was removed.
    pub open spec fn directory_removed(self, oid: u64, parent: u64, name: Seq<char>) -> Result<
        Seq<(u64, NodeView)>,
        Fault,
    > {
        match self.drop_drec(parent, name, rmdir_no_drec(parent, name)) {
            Err(e) => Err(e),
            Ok(s1) => match self.delete_record(s1, oid, J_TYPE_INODE) {
                (Err(e), _) => Err(e),
                (Ok(_), s2) => match self.record_leaf(parent, J_TYPE_INODE) {
                    Err(e) => Err(e),
                    Ok(p) => self.count_off(s2, p, parent),
                },
            },
        }
    }

    /// The outcome of removing the directory that a path names, and the volume
    /// afterwards.
    pub open spec fn remove_directory(self, path: Seq<char>) -> (Result<(), Fault>, VolumeView) {
        if trimmed(path).len() == 0 {
            (Err(Fault::Internal("unlink_directory: empty path"@)), self)
        } else {
            match self.resolve(path) {
                Err(e) => (Err(e), self),
                Ok((oid, inode)) => if mode_kind(inode.mode) != INODE_DIR_TYPE {
                    (
                        Err(
                            Fault::NotADirectory(
                                msg_str("unlink_directory: "@, path, " is not a directory"@),
                            ),
                        ),
                        self,
                    )
                } else if inode.nchildren_or_nlink != 0 {
                    (
                        Err(
                            Fault::Internal(
                                msg_str(
                                    msg_str(
                                        "unlink_directory: '"@,
                                        path,
                                        "' is not empty (nchildren="@,
                                    ),
                                    decimal_signed(inode.nchildren_or_nlink as int),
                                    ")"@,
                                ),
                            ),
                        ),
                        self,
                    )
                } else {
                    self.finish(
                        self.directory_removed(oid, inode.parent_id, base_part(trimmed(path))),
                    )
                },
            }
        }
    }
}

/// What is said when the file to unlink has no directory record.
pub open spec fn unlink_no_drec(parent: u64, name: Seq<char>) -> Fault {
    Fault::NotFound(
        msg_str("unlink_file: drec for '"@, name, msg1("' under oid "@, parent as nat, " not found"@)),
    )
}

/// What is said when the directory to remove has no directory record.
pub open spec fn rmdir_no_drec(parent: u64, name: Seq<char>) -> Fault {
    Fault::NotFound(msg_str("drec for '"@, name, msg1("' under oid "@, parent as nat, ""@)))
}

/// Touched leaves, if there are any, taken by view.
pub open spec fn opt_leaves(r: Option<Vec<(u64, BTreeNode)>>) -> Option<Seq<(u64, NodeView)>> {
    match r {
        Some(t) => Some(leaves_view(t@)),
        None => None,
    }
}

/// The outcome of taking the first record of `(oid, j_type)` out of a leaf, and
/// the leaf afterwards.
pub open spec fn record_out(n: NodeView, oid: u64, j_type: u8) -> (Result<(), Fault>, NodeView) {
    match record_entry(n, oid, j_type, None) {
        Err(e) => (Err(e), n),
        Ok(None) => (Err(no_record(oid, j_type, ") not in expected leaf"@)), n),
        Ok(Some(k)) => n.delete_var(k),
    }
}

fn delete_record_in_node(n: &mut BTreeNode, oid: u64, j_type: u8) -> (r: Result<(), ApfsError>)
    ensures
        (plain(r), final(n)@) == record_out(old(n)@, oid, j_type),
{
    match find_record_in_node(n, oid, j_type, None)? {
        Some(i) => n.delete_leaf_var(i),
        None => Err(
            ApfsError::NotFound(
                text2("record (oid=", oid, ", type=", j_type as u64, ") not in expected leaf"),
            ),
        ),
    }
}

impl<D: ReadAt> ApfsVolume<D> {
    /// Take the directory record of `name` out of its leaf. Returns the
    /// touched leaves, or nothing if no leaf has the record.
    pub(crate) fn remove_drec(&self, parent_oid: u64, name: &str) -> (r: Result<
        Option<Vec<(u64, BTreeNode)>>,
        ApfsError,
    >)
        ensures
            r matches Ok(Some(t)) ==> ascending(leaves_view(t@)),
            agrees(
                match r {
                    Ok(t) => Ok(opt_leaves(t)),
                    Err(e) => Err(e@),
                },
                match self@.hits(parent_oid, J_TYPE_DIR_REC) {
                    Err(e) => Err(e),
                    Ok(found) => self@.without_drec(seq![], found, 0, parent_oid, name@),
                },
                self.dev.reliable(),
            ),
    {
        let entries = self.find_records(parent_oid, J_TYPE_DIR_REC)?;
        let ghost found = found_seq(entries@);
        let ghost goal = self@.without_drec(seq![], found, 0, parent_oid, name@);
        let mut touched: Vec<(u64, BTreeNode)> = Vec::new();
        assert(leaves_view(touched@) =~= seq![]);
        let mut i: usize = 0;
        while i < entries.len()
            invariant
                i <= entries.len(),
                found == found_seq(entries@),
                self@.hits(parent_oid, J_TYPE_DIR_REC) == Ok::<Seq<Found>, Fault>(found),
                goal == self@.without_drec(seq![], found, 0, parent_oid, name@),
                ascending(leaves_view(touched@)),
                goal == self@.without_drec(
                    leaves_view(touched@),
                    found,
                    i as int,
                    parent_oid,
                    name@,
                ),
            decreases entries.len() - i,
        {
            let paddr: u64 = entries[i].2;
            assert(found[i as int].2 == paddr);
            let k: usize = self.load_leaf(&mut touched, paddr)?;
            let ghost loaded = leaves_view(touched@);
            match find_record_in_node(&touched[k].1, parent_oid, J_TYPE_DIR_REC, Some(name))? {
                Some(idx) => {
                    proof {
                        lemma_put_leaf(loaded, paddr, loaded[k as int].1.delete_var(idx as int).1);
                    }
                    touched[k].1.delete_leaf_var(idx)?;
                    proof {
                        assert(leaves_view(touched@) =~= loaded.update(
                            k as int,
                            (paddr, touched@[k as int].1@),
                        ));
                    }
                    return Ok(Some(touched));
                },
                None => {},
            }
            i += 1;
        }
        Ok(None)
    }

    /// Take the first record of `(oid, j_type)` out of its leaf.
    fn delete_record_in_leaf(
        &self,
        touched: &mut Vec<(u64, BTreeNode)>,
        oid: u64,
        j_type: u8,
    ) -> (r: Result<(), ApfsError>)
        requires
            ascending(leaves_view(old(touched)@)),
        ensures
            ascending(leaves_view(final(touched)@)),
            self.dev.reliable() || !refused(plain(r)) ==> (
                plain(r),
                leaves_view(final(touched)@),
            ) == self@.delete_record(leaves_view(old(touched)@), oid, j_type),
    {
        let leaf: u64 = match self.find_record(oid, j_type)? {
            Some((_, p)) => p,
            None => {
                return Err(
                    ApfsError::NotFound(
                        text2("record (oid=", oid, ", type=", j_type as u64, ") not found"),
                    ),
                );
            },
        };
        let k: usize = self.load_leaf(touched, leaf)?;
        let ghost loaded = leaves_view(touched@);
        let ghost n = loaded[k as int].1;
        let r = delete_record_in_node(&mut touched[k].1, oid, j_type);
        proof {
            lemma_put_leaf(loaded, leaf, touched@[k as int].1@);
            assert(leaves_view(touched@) =~= loaded.update(
                k as int,
                (leaf, touched@[k as int].1@),
            ));
            assert(loaded =~= put_leaf(loaded, leaf, n));
        }
        r
    }

    /// Take the extents of `oid` out of their leaves.
    fn remove_extents(&self, touched: &mut Vec<(u64, BTreeNode)>, oid: u64) -> (r: Result<
        (),
        ApfsError,
    >)
        requires
            ascending(leaves_view(old(touched)@)),
        ensures
            r is Ok ==> ascending(leaves_view(final(touched)@)),
            agrees(
                touched_outcome(r, final(touched)@),
                self@.drop_extents(leaves_view(old(touched)@), oid),
                self.dev.reliable(),
            ),
    {
        let entries = self.find_records(oid, J_TYPE_FILE_EXTENT)?;
        let addrs = collect_addrs(&entries);
        let ghost goal = self@.without_extents(leaves_view(touched@), addrs@, 0, oid);
        let mut i: usize = 0;
        while i < addrs.len()
            invariant
                i <= addrs.len(),
                ascending(leaves_view(touched@)),
                goal == self@.drop_extents(
                    leaves_view(old(touched)@),
                    oid,
                ),
                goal == self@.without_extents(
                    leaves_view(touched@),
                    addrs@,
                    i as int,
                    oid,
                ),
            decreases addrs.len() - i,
        {
            let k: usize = self.load_leaf(touched, addrs[i])?;
            let ghost loaded = leaves_view(touched@);
            proof {
                lemma_put_leaf(
                    loaded,
                    addrs@[i as int],
                    delete_records(loaded[k as int].1, oid, J_TYPE_FILE_EXTENT).1,
                );
            }
            delete_records_in_node(&mut touched[k].1, oid, J_TYPE_FILE_EXTENT)?;
            proof {
                assert(leaves_view(touched@) =~= loaded.update(
                    k as int,
                    (addrs@[i as int], touched@[k as int].1@),
                ));
            }
            i += 1;
        }
        Ok(())
    }

    /// Count a child off in the inode of `parent_oid`.
    pub(crate) fn drop_child(
        &self,
        touched: &mut Vec<(u64, BTreeNode)>,
        leaf: u64,
        parent_oid: u64,
    ) -> (r: Result<(), ApfsError>)
        requires
            ascending(leaves_view(old(touched)@)),
        ensures
            ascending(leaves_view(final(touched)@)),
            agrees(
                touched_outcome(r, final(touched)@),
                self@.count_off(leaves_view(old(touched)@), leaf, parent_oid),
                self.dev.reliable(),
            ),
    {
        let k: usize = self.load_leaf(touched, leaf)?;
        let ghost loaded = leaves_view(touched@);
        let r = dec_inode_counter_in_node(&mut touched[k].1, parent_oid);
        proof {
            lemma_put_leaf(loaded, leaf, touched@[k as int].1@);
            assert(leaves_view(touched@) =~= loaded.update(
                k as int,
                (leaf, touched@[k as int].1@),
            ));
        }
        r?;
        Ok(())
    }
}

impl<D: WriteAt> ApfsVolume<D> {
    /// The leaves that unlinking a file touches.
    fn unlink_leaves(&self, oid: u64, private_id: u64, parent_oid: u64, name: &str) -> (r: Result<
        Vec<(u64, BTreeNode)>,
        ApfsError,
    >)
        ensures
            r matches Ok(t) ==> ascending(leaves_view(t@)),
            agrees(
                leaves_outcome(r),
                self@.unlinked(oid, private_id, parent_oid, name@),
                self.dev.reliable(),
            ),
    {
        let mut touched = self.take_drec(parent_oid, name)?;
        self.remove_inode(&mut touched, oid, private_id)?;
        self.remove_extents(&mut touched, private_id)?;
        self.drop_child_of(&mut touched, parent_oid)?;
        Ok(touched)
    }

    fn take_drec(&self, parent_oid: u64, name: &str) -> (r: Result<
        Vec<(u64, BTreeNode)>,
        ApfsError,
    >)
        ensures
            r matches Ok(t) ==> ascending(leaves_view(t@)),
            agrees(
                leaves_outcome(r),
                self@.drop_drec(parent_oid, name@, unlink_no_drec(parent_oid, name@)),
                self.dev.reliable(),
            ),
    {
        match self.remove_drec(parent_oid, name)? {
            Some(t) => Ok(t),
            None => {
                let tail = text1("' under oid ", parent_oid, " not found");
                Err(
                    ApfsError::NotFound(
                        text_str("unlink_file: drec for '", name, tail.as_str()),
                    ),
                )
            },
        }
    }

    fn remove_inode(
        &self,
        touched: &mut Vec<(u64, BTreeNode)>,
        oid: u64,
        private_id: u64,
    ) -> (r: Result<(), ApfsError>)
        requires
            ascending(leaves_view(old(touched)@)),
        ensures
            ascending(leaves_view(final(touched)@)),
            agrees(
                touched_outcome(r, final(touched)@),
                self@.drop_inode(leaves_view(old(touched)@), oid, private_id),
                self.dev.reliable(),
            ),
    {
        self.delete_record_in_leaf(touched, oid, J_TYPE_INODE)?;
        match self.delete_record_in_leaf(touched, private_id, J_TYPE_DSTREAM_ID) {
            Err(ApfsError::Io(e)) => Err(ApfsError::Io(e)),
            _ => Ok(()),
        }
    }

    fn drop_child_of(&self, touched: &mut Vec<(u64, BTreeNode)>, parent_oid: u64) -> (r: Result<
        (),
        ApfsError,
    >)
        requires
            ascending(leaves_view(old(touched)@)),
        ensures
            ascending(leaves_view(final(touched)@)),
            agrees(
                touched_outcome(r, final(touched)@),
                self@.count_off_parent(leaves_view(old(touched)@), parent_oid),
                self.dev.reliable(),
            ),
    {
        let leaf: u64 = match self.find_record(parent_oid, J_TYPE_INODE)? {
            Some((_, p)) => p,
            None => {
                return Err(ApfsError::NotFound(text1("parent inode ", parent_oid, "")));
            },
        };
        self.drop_child(touched, leaf, parent_oid)
    }

    /// Unlink a regular file. Removes its directory record, the inode, the
    /// data stream record and every file extent record, and counts the child
    /// off in the parent. Blocks of removed extents are not returned to the
    /// space manager. Files with several links, and files with extended
    /// attributes, are refused.
    pub fn unlink_file(&mut self, path: &str) -> (r: Result<(), ApfsError>)
        requires
            old(self)@.wf(),
        ensures
            final(self).dev.reliable() == old(self).dev.reliable(),
            final(self)@.wf(),
            comes_of(
                old(self)@.nx,
                plain(r),
                final(self)@,
                old(self)@.unlink(path@),
                old(self).dev.reliable(),
            ),
    {
        let t = trim_slashes(path);
        if t.unicode_len() == 0 {
            return Err(internal("unlink_file: empty path"));
        }
        let (_, name) = split_last(t);
        let (oid, inode) = self.resolve(path)?;
        if inode.kind() != INODE_FILE_TYPE {
            return Err(
                ApfsError::NotADirectory(
                    text_str("unlink_file: ", path, " is not a regular file"),
                ),
            );
        }
        if inode.nlink() != 1 {
            return Err(
                ApfsError::Internal(
                    text1("unlink_file: nlink=", inode.nlink() as u64, " not yet supported"),
                ),
            );
        }
        if self.find_record(oid, J_TYPE_XATTR)?.is_some() {
            return Err(internal("unlink_file: extended attributes not yet supported"));
        }
        let touched = self.unlink_leaves(oid, inode.private_id, inode.parent_id, name)?;
        self.commit_leaves(touched)
    }

    /// The leaves that removing a directory touches.
    fn rmdir_leaves(&self, oid: u64, parent_oid: u64, name: &str) -> (r: Result<
        Vec<(u64, BTreeNode)>,
        ApfsError,
    >)
        ensures
            r matches Ok(t) ==> ascending(leaves_view(t@)),
            agrees(
                leaves_outcome(r),
                self@.directory_removed(oid, parent_oid, name@),
                self.dev.reliable(),
            ),
    {
        let mut touched = match self.remove_drec(parent_oid, name)? {
            Some(t) => t,
            None => {
                let tail = text1("' under oid ", parent_oid, "");
                return Err(ApfsError::NotFound(text_str("drec for '", name, tail.as_str())));
            },
        };
        self.delete_record_in_leaf(&mut touched, oid, J_TYPE_INODE)?;
        let leaf: u64 = self.locate_record_leaf(parent_oid, J_TYPE_INODE)?;
        self.drop_child(&mut touched, leaf, parent_oid)?;
        Ok(touched)
    }

    /// Remove an empty directory. Mirrors [`Self::unlink_file`] except that no
    /// extents are involved and that the directory must have no children.
    pub fn unlink_directory(&mut self, path: &str) -> (r: Result<(), ApfsError>)
        requires
            old(self)@.wf(),
        ensures
            final(self).dev.reliable() == old(self).dev.reliable(),
            final(self)@.wf(),
            comes_of(
                old(self)@.nx,
                plain(r),
                final(self)@,
                old(self)@.remove_directory(path@),
                old(self).dev.reliable(),
            ),
    {
        let t = trim_slashes(path);
        if t.unicode_len() == 0 {
            return Err(internal("unlink_directory: empty path"));
        }
        let (_, name) = split_last(t);
        let (oid, inode) = self.resolve(path)?;
        if inode.kind() != INODE_DIR_TYPE {
            return Err(
                ApfsError::NotADirectory(
                    text_str("unlink_directory: ", path, " is not a directory"),
                ),
            );
        }
        if inode.nchildren_or_nlink != 0 {
            let head = text_str("unlink_directory: '", path, "' is not empty (nchildren=");
            let n = decimal_signed_string(inode.nchildren_or_nlink as i64);
            return Err(ApfsError::Internal(text_str(head.as_str(), n.as_str(), ")")));
        }
        let touched = self.rmdir_leaves(oid, inode.parent_id, name)?;
        self.commit_leaves(touched)
    }
}

} // verus!

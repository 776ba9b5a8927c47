//! Changes to one inode of a mounted volume.

use crate::apfs::btree::BTreeNode;
use crate::apfs::btree::node::NodeView;
use crate::apfs::catalog::edit::{
    edit_inode, set_inode_dstream_size_in_node, set_inode_times_in_node, size_edit, times_edit,
};
use crate::apfs::catalog::records::{inode_size, mode_kind, INODE_FILE_TYPE, J_TYPE_INODE};
use crate::apfs::device::WriteAt;
use crate::apfs::error::{plain, ApfsError, Fault};
use crate::apfs::object::agrees;
use crate::apfs::text::{msg1, msg2, msg_str, text1, text2, text_str};
use crate::apfs::volume::leaves::{changed, comes_of, leaves_view};
use crate::apfs::volume::state::{ApfsVolume, VolumeView};
use vstd::prelude::*;

verus! {

/// What is said when an inode is not in the catalog.
pub open spec fn no_inode_oid(oid: u64) -> Fault {
    Fault::NotFound(msg1("inode OID "@, oid as nat, ""@))
}

impl VolumeView {
    /// The outcome of changing the inode of `oid` in its leaf and committing
    /// the change, and the volume afterwards.
    pub open spec fn update_inode(
        self,
        oid: u64,
        f: spec_fn(NodeView) -> (Result<int, Fault>, NodeView),
    ) -> (Result<(), Fault>, VolumeView) {
        match self.hit(oid, J_TYPE_INODE) {
            Err(e) => (Err(e), self),
            Ok(None) => (Err(no_inode_oid(oid)), self),
            Ok(Some((_, p))) => self.finish(changed(self.change(seq![], p, f))),
        }
    }

    /// The outcome of setting the times of the object that a path names, and
    /// the volume afterwards.
    pub open spec fn set_times(
        self,
        path: Seq<char>,
        create_time: Option<i64>,
        modify_time: Option<i64>,
        change_time: Option<i64>,
        access_time: Option<i64>,
    ) -> (Result<(), Fault>, VolumeView) {
        match self.resolve(path) {
            Err(e) => (Err(e), self),
            Ok((oid, _)) => self.set_times_of(
                oid,
                create_time,
                modify_time,
                change_time,
                access_time,
            ),
        }
    }

    /// The outcome of setting the times of `oid`, and the volume afterwards.
    pub open spec fn set_times_of(
        self,
        oid: u64,
        create_time: Option<i64>,
        modify_time: Option<i64>,
        change_time: Option<i64>,
        access_time: Option<i64>,
    ) -> (Result<(), Fault>, VolumeView) {
        self.update_inode(
            oid,
            |n: NodeView|
                edit_inode(
                    n,
                    oid,
                    "set_inode_times_in_node: target is not a leaf"@,
                    times_edit(create_time, modify_time, change_time, access_time),
                ),
        )
    }

    /// The outcome of setting the size of the file that a path names, and the
    /// volume afterwards.
    pub open spec fn set_size(self, path: Seq<char>, new_size: u64) -> (
        Result<(), Fault>,
        VolumeView,
    ) {
        match self.resolve(path) {
            Err(e) => (Err(e), self),
            Ok((oid, inode)) => if mode_kind(inode.mode) != INODE_FILE_TYPE {
                (
                    Err(
                        Fault::NotADirectory(
                            msg_str("set_logical_size: "@, path, " is not a regular file"@),
                        ),
                    ),
                    self,
                )
            } else if new_size == inode_size(inode) {
                (Ok(()), self)
            } else if new_size > inode_size(inode) {
                (
                    Err(
                        Fault::Internal(
                            msg2(
                                "set_logical_size: grow not supported (cur="@,
                                inode_size(inode) as nat,
                                " new="@,
                                new_size as nat,
                                ")"@,
                            ),
                        ),
                    ),
                    self,
                )
            } else {
                self.update_inode(
                    oid,
                    |n: NodeView|
                        edit_inode(
                            n,
                            oid,
                            "set_inode_dstream_size_in_node: target is not a leaf"@,
                            size_edit(oid, new_size),
                        ),
                )
            },
        }
    }
}

impl<D: WriteAt> ApfsVolume<D> {
    /// Find the leaf of the inode of `oid`.
    fn inode_leaf(&self, oid: u64) -> (r: Result<u64, ApfsError>)
        ensures
            agrees(
                plain(r),
                match self@.hit(oid, J_TYPE_INODE) {
                    Err(e) => Err(e),
                    Ok(None) => Err(no_inode_oid(oid)),
                    Ok(Some((_, p))) => Ok(p),
                },
                self.dev.reliable(),
            ),
    {
        match self.find_record(oid, J_TYPE_INODE)? {
            Some((_, p)) => Ok(p),
            None => Err(ApfsError::NotFound(text1("inode OID ", oid, ""))),
        }
    }

    /// Set times of the object at `path`; `None` leaves a time unchanged.
    pub fn set_inode_times(
        &mut self,
        path: &str,
        create_time: Option<i64>,
        modify_time: Option<i64>,
        change_time: Option<i64>,
        access_time: Option<i64>,
    ) -> (r: Result<(), ApfsError>)
        requires
            old(self)@.wf(),
        ensures
            final(self).dev.reliable() == old(self).dev.reliable(),
            final(self)@.wf(),
            comes_of(
                old(self)@.nx,
                plain(r),
                final(self)@,
                old(self)@.set_times(path@, create_time, modify_time, change_time, access_time),
                old(self).dev.reliable(),
            ),
    {
        let (oid, _) = self.resolve(path)?;
        self.set_inode_times_by_oid(oid, create_time, modify_time, change_time, access_time)
    }

    /// Set times of the object `oid`; `None` leaves a time unchanged.
    pub fn set_inode_times_by_oid(
        &mut self,
        oid: u64,
        create_time: Option<i64>,
        modify_time: Option<i64>,
        change_time: Option<i64>,
        access_time: Option<i64>,
    ) -> (r: Result<(), ApfsError>)
        requires
            old(self)@.wf(),
        ensures
            final(self).dev.reliable() == old(self).dev.reliable(),
            final(self)@.wf(),
            comes_of(
                old(self)@.nx,
                plain(r),
                final(self)@,
                old(self)@.set_times_of(oid, create_time, modify_time, change_time, access_time),
                old(self).dev.reliable(),
            ),
    {
        let leaf: u64 = self.inode_leaf(oid)?;
        let mut touched: Vec<(u64, BTreeNode)> = Vec::new();
        assert(leaves_view(touched@) =~= seq![]);
        let i: usize = self.load_leaf(&mut touched, leaf)?;
        let ghost loaded = leaves_view(touched@);
        set_inode_times_in_node(
            &mut touched[i].1,
            oid,
            create_time,
            modify_time,
            change_time,
            access_time,
        )?;
        proof {
            assert(leaves_view(touched@) =~= loaded.update(
                i as int,
                (leaf, touched@[i as int].1@),
            ));
        }
        self.commit_leaves(touched)
    }

    /// Splice a new logical size into the inode's dstream field. Only shrinks
    /// (or no-ops) are accepted, since growing the logical size past the
    /// allocated extents would expose uninitialized blocks. Allocated extents
    /// are never freed by this call.
    pub fn set_logical_size(&mut self, path: &str, new_size: u64) -> (r: Result<(), ApfsError>)
        requires
            old(self)@.wf(),
        ensures
            final(self).dev.reliable() == old(self).dev.reliable(),
            final(self)@.wf(),
            comes_of(
                old(self)@.nx,
                plain(r),
                final(self)@,
                old(self)@.set_size(path@, new_size),
                old(self).dev.reliable(),
            ),
    {
        let (oid, inode) = self.resolve(path)?;
        if inode.kind() != INODE_FILE_TYPE {
            return Err(
                ApfsError::NotADirectory(
                    text_str("set_logical_size: ", path, " is not a regular file"),
                ),
            );
        }
        let cur: u64 = inode.size();
        if new_size == cur {
            return Ok(());
        }
        if new_size > cur {
            return Err(
                ApfsError::Internal(
                    text2(
                        "set_logical_size: grow not supported (cur=",
                        cur,
                        " new=",
                        new_size,
                        ")",
                    ),
                ),
            );
        }
        let leaf: u64 = self.inode_leaf(oid)?;
        let mut touched: Vec<(u64, BTreeNode)> = Vec::new();
        assert(leaves_view(touched@) =~= seq![]);
        let i: usize = self.load_leaf(&mut touched, leaf)?;
        let ghost loaded = leaves_view(touched@);
        set_inode_dstream_size_in_node(&mut touched[i].1, oid, new_size)?;
        proof {
            assert(leaves_view(touched@) =~= loaded.update(
                i as int,
                (leaf, touched@[i as int].1@),
            ));
        }
        self.commit_leaves(touched)
    }
}

} // verus!

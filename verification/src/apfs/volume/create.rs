//! Creating files and directories.

use crate::apfs::btree::BTreeNode;
use crate::apfs::btree::node::NodeView;
use crate::apfs::catalog::edit::{
    edit_inode, inc_edit, inc_inode_counter_in_node, insert_drec, insert_drec_record,
    insert_inode_record, insert_record, plain_key,
};
use crate::apfs::catalog::records::{
    build_inode_value, drec_key_outcome, encode_drec_hashed_key, inode_value, key_head, mode_kind,
    DrecVal, InodeVal, DT_DIR, DT_REG, INODE_DIR_TYPE, INODE_FILE_TYPE, J_TYPE_INODE,
};
use crate::apfs::device::{ReadAt, WriteAt};
use crate::apfs::error::{internal, plain, ApfsError, Fault};
use crate::apfs::hash::{drec_name_hash, name_hash_outcome};
use crate::apfs::object::agrees;
use crate::apfs::path::{
    base_part, parent_part, parent_path, parent_path_of, split_last,
    trim_slashes, trimmed,
};
use crate::apfs::text::{msg_str, text_str};
use crate::apfs::volume::clock::now_nanos;
use crate::apfs::volume::leaves::{
    ascending, changed, comes_of, leaves_outcome, leaves_view, lemma_put_leaf, touched_outcome,
};
use crate::apfs::volume::state::{ApfsVolume, VolumeView};
use vstd::prelude::*;

verus! {

/// The inode of a new file or directory.
pub open spec fn new_inode(parent_oid: u64, oid: u64, is_dir: bool, now: i64) -> InodeVal {
    InodeVal {
        parent_id: parent_oid,
        private_id: oid,
        create_time: now,
        modify_time: now,
        change_time: now,
        access_time: now,
        internal_flags: 0,
        nchildren_or_nlink: if is_dir {
            0
        } else {
            1
        },
        default_protection_class: 0,
        write_generation_counter: 1,
        bsd_flags: 0,
        uid: 0,
        gid: 0,
        mode: if is_dir {
            INODE_DIR_TYPE | 0o755
        } else {
            INODE_FILE_TYPE | 0o644
        },
        pad1: 0,
        uncompressed_size: 0,
        dstream_size: None,
    }
}

fn make_inode(parent_oid: u64, oid: u64, is_dir: bool, now: i64) -> (i: InodeVal)
    ensures
        i == new_inode(parent_oid, oid, is_dir, now),
{
    InodeVal {
        parent_id: parent_oid,
        private_id: oid,
        create_time: now,
        modify_time: now,
        change_time: now,
        access_time: now,
        internal_flags: 0,
        nchildren_or_nlink: if is_dir {
            0
        } else {
            1
        },
        default_protection_class: 0,
        write_generation_counter: 1,
        bsd_flags: 0,
        uid: 0,
        gid: 0,
        mode: if is_dir {
            INODE_DIR_TYPE | 0o755
        } else {
            INODE_FILE_TYPE | 0o644
        },
        pad1: 0,
        uncompressed_size: 0,
        dstream_size: None,
    }
}

/// The directory record of a new entry.
pub open spec fn new_drec(oid: u64, is_dir: bool, now: i64) -> DrecVal {
    DrecVal {
        file_id: oid,
        date_added: now,
        flags: if is_dir {
            DT_DIR
        } else {
            DT_REG
        },
    }
}

impl VolumeView {
    /// The touched leaves after an inode was put into the leaf at `p`.
    pub open spec fn put_inode(
        self,
        s: Seq<(u64, NodeView)>,
        p: u64,
        oid: u64,
        value: Seq<u8>,
    ) -> Result<Seq<(u64, NodeView)>, Fault> {
        changed(
            self.change(
                s,
                p,
                |n: NodeView| insert_record(n, key_head(oid, J_TYPE_INODE), value),
            ),
        )
    }

    /// The touched leaves after a directory record was put into the leaf at
    /// `p`.
    pub open spec fn put_drec(
        self,
        s: Seq<(u64, NodeView)>,
        p: u64,
        parent: u64,
        name: Seq<char>,
        hash22: u32,
        d: DrecVal,
    ) -> Result<Seq<(u64, NodeView)>, Fault> {
        changed(self.change(s, p, |n: NodeView| insert_drec(n, parent, name, hash22, d)))
    }

    /// The touched leaves after a child was counted in the inode of `parent`,
    /// which lies in the leaf at `p`.
    pub open spec fn count_in(self, s: Seq<(u64, NodeView)>, p: u64, parent: u64) -> Result<
        Seq<(u64, NodeView)>,
        Fault,
    > {
        changed(
            self.change(
                s,
                p,
                |n: NodeView|
                    edit_inode(
                        n,
                        parent,
                        "inc_inode_counter_in_node: target is not a leaf"@,
                        inc_edit(),
                    ),
            ),
        )
    }

    /// Hash and key of the directory record of a name.
    pub open spec fn hashed_key(self, parent: u64, name: Seq<char>) -> Result<
        (u32, Seq<u8>),
        Fault,
    > {
        match name_hash_outcome(name, self.case_insensitive) {
            Err(e) => Err(e),
            Ok(h) => match drec_key_outcome(parent, name, h) {
                Err(e) => Err(e),
                Ok(k) => Ok((h, k)),
            },
        }
    }

    /// The leaves that a new entry goes to: that of its inode, that of its
    /// directory record and that of the inode of its parent.
    pub open spec fn places(self, oid: u64, parent: u64, key: Seq<u8>) -> Result<
        (u64, u64, u64),
        Fault,
    > {
        match self.key_leaf(key_head(oid, J_TYPE_INODE)) {
            Err(e) => Err(e),
            Ok(a) => match self.key_leaf(key) {
                Err(e) => Err(e),
                Ok(b) => match self.record_leaf(parent, J_TYPE_INODE) {
                    Err(e) => Err(e),
                    Ok(c) => Ok((a, b, c)),
                },
            },
        }
    }

    /// The touched leaves after a new entry was put in.
    pub open spec fn created(
        self,
        oid: u64,
        parent: u64,
        name: Seq<char>,
        is_dir: bool,
        now: i64,
    ) -> Result<Seq<(u64, NodeView)>, Fault> {
        match self.hashed_key(parent, name) {
            Err(e) => Err(e),
            Ok((h, key)) => match self.places(oid, parent, key) {
                Err(e) => Err(e),
                Ok((a, b, c)) => match self.put_inode(
                    seq![],
                    a,
                    oid,
                    inode_value(new_inode(parent, oid, is_dir, now), None),
                ) {
                    Err(e) => Err(e),
                    Ok(s1) => match self.put_drec(
                        s1,
                        b,
                        parent,
                        name,
                        h,
                        new_drec(oid, is_dir, now),
                    ) {
                        Err(e) => Err(e),
                        Ok(s2) => self.count_in(s2, c, parent),
                    },
                },
            },
        }
    }

    /// The directory in which a new entry goes.
    pub open spec fn parent_of(self, path: Seq<char>) -> Result<u64, Fault> {
        let parent = parent_path(parent_part(trimmed(path)));
        match self.resolve(parent) {
            Err(e) => Err(e),
            Ok((oid, inode)) => if mode_kind(inode.mode) != INODE_DIR_TYPE {
                Err(Fault::NotADirectory(parent))
            } else {
                Ok(oid)
            },
        }
    }

    /// Whether nothing is in the way of a new entry at `path`.
    pub open spec fn vacant(self, path: Seq<char>, who: Seq<char>) -> Result<(), Fault> {
        match self.resolve(path) {
            Ok(_) => Err(
                Fault::Internal(msg_str(msg_str(who, ": '"@, path), "' already exists"@, ""@)),
            ),
            Err(Fault::Io(e)) => Err(Fault::Io(e)),
            Err(_) => Ok(()),
        }
    }

    /// The outcome of creating an entry at `path`, and the volume afterwards.
    /// The new object id is used up even when the call fails after it was
    /// taken.
    #[verifier::opaque]
    pub open spec fn create(self, path: Seq<char>, who: Seq<char>, is_dir: bool, now: i64) -> (
        Result<u64, Fault>,
        VolumeView,
    ) {
        let t = trimmed(path);
        if t.len() == 0 {
            (Err(Fault::Internal(msg_str(who, ": empty path"@, ""@))), self)
        } else {
            match self.parent_of(path) {
                Err(e) => (Err(e), self),
                Ok(parent_oid) => match self.vacant(path, who) {
                    Err(e) => (Err(e), self),
                    Ok(_) => if self.next_obj_id == u64::MAX {
                        (Err(Fault::Internal("object ids are used up"@)), self)
                    } else {
                        let v = VolumeView { next_obj_id: (self.next_obj_id + 1) as u64, ..self };
                        match v.finish(
                            v.created(self.next_obj_id, parent_oid, base_part(t), is_dir, now),
                        ) {
                            (Err(e), w) => (Err(e), w),
                            (Ok(_), w) => (Ok(self.next_obj_id), w),
                        }
                    },
                },
            }
        }
    }
}

/// What is created gets the next object id.
pub proof fn law_created_gets_next_id(
    v: VolumeView,
    path: Seq<char>,
    who: Seq<char>,
    is_dir: bool,
    now: i64,
)
    ensures
        v.create(path, who, is_dir, now).0 matches Ok(oid) ==> oid == v.next_obj_id,
{
    reveal(VolumeView::create);
}

impl<D: ReadAt> ApfsVolume<D> {
    fn add_inode(
        &self,
        touched: &mut Vec<(u64, BTreeNode)>,
        leaf: u64,
        oid: u64,
        value: &[u8],
    ) -> (r: Result<(), ApfsError>)
        requires
            ascending(leaves_view(old(touched)@)),
        ensures
            ascending(leaves_view(final(touched)@)),
            agrees(
                touched_outcome(r, final(touched)@),
                self@.put_inode(leaves_view(old(touched)@), leaf, oid, value@),
                self.dev.reliable(),
            ),
    {
        let k: usize = self.load_leaf(touched, leaf)?;
        let ghost loaded = leaves_view(touched@);
        let r = insert_inode_record(&mut touched[k].1, oid, value);
        proof {
            lemma_put_leaf(loaded, leaf, touched@[k as int].1@);
            assert(leaves_view(touched@) =~= loaded.update(
                k as int,
                (leaf, touched@[k as int].1@),
            ));
        }
        r?;
        Ok(())
    }

    pub(crate) fn add_drec(
        &self,
        touched: &mut Vec<(u64, BTreeNode)>,
        leaf: u64,
        parent_oid: u64,
        name: &str,
        hash22: u32,
        d: DrecVal,
    ) -> (r: Result<(), ApfsError>)
        requires
            ascending(leaves_view(old(touched)@)),
        ensures
            ascending(leaves_view(final(touched)@)),
            agrees(
                touched_outcome(r, final(touched)@),
                self@.put_drec(leaves_view(old(touched)@), leaf, parent_oid, name@, hash22, d),
                self.dev.reliable(),
            ),
    {
        let k: usize = self.load_leaf(touched, leaf)?;
        let ghost loaded = leaves_view(touched@);
        let r = insert_drec_record(
            &mut touched[k].1,
            parent_oid,
            name,
            hash22,
            d.file_id,
            d.date_added,
            d.flags,
        );
        proof {
            lemma_put_leaf(loaded, leaf, touched@[k as int].1@);
            assert(leaves_view(touched@) =~= loaded.update(
                k as int,
                (leaf, touched@[k as int].1@),
            ));
        }
        r?;
        Ok(())
    }

    /// Count a child in the inode of `parent_oid`.
    pub(crate) fn add_child(
        &self,
        touched: &mut Vec<(u64, BTreeNode)>,
        leaf: u64,
        parent_oid: u64,
    ) -> (r: Result<(), ApfsError>)
        requires
            ascending(leaves_view(old(touched)@)),
        ensures
            ascending(leaves_view(final(touched)@)),
            agrees(
                touched_outcome(r, final(touched)@),
                self@.count_in(leaves_view(old(touched)@), leaf, parent_oid),
                self.dev.reliable(),
            ),
    {
        let k: usize = self.load_leaf(touched, leaf)?;
        let ghost loaded = leaves_view(touched@);
        let r = inc_inode_counter_in_node(&mut touched[k].1, parent_oid);
        proof {
            lemma_put_leaf(loaded, leaf, touched@[k as int].1@);
            assert(leaves_view(touched@) =~= loaded.update(
                k as int,
                (leaf, touched@[k as int].1@),
            ));
        }
        r?;
        Ok(())
    }

    /// Hash and key of the directory record of a name, respecting the volume's
    /// case sensitivity.
    pub(crate) fn drec_hash(&self, parent_oid: u64, name: &str) -> (r: Result<
        (u32, Vec<u8>),
        ApfsError,
    >)
        ensures
            match r {
                Ok((h, k)) => self@.hashed_key(parent_oid, name@) == Ok::<(u32, Seq<u8>), Fault>(
                    (h, k@),
                ),
                Err(e) => self@.hashed_key(parent_oid, name@) == Err::<(u32, Seq<u8>), Fault>(e@),
            },
    {
        let h: u32 = drec_name_hash(name, self.case_insensitive)?;
        let k = encode_drec_hashed_key(parent_oid, name, h)?;
        Ok((h, k))
    }

    fn locate_places(&self, oid: u64, parent_oid: u64, key: &[u8]) -> (r: Result<
        (u64, u64, u64),
        ApfsError,
    >)
        ensures
            agrees(plain(r), self@.places(oid, parent_oid, key@), self.dev.reliable()),
    {
        let inode_key = plain_key(oid, J_TYPE_INODE);
        let a: u64 = self.locate_leaf_for_key(inode_key.as_slice())?;
        let b: u64 = self.locate_leaf_for_key(key)?;
        let c: u64 = self.locate_record_leaf(parent_oid, J_TYPE_INODE)?;
        Ok((a, b, c))
    }

    /// The leaves that creating an entry touches.
    fn create_leaves(
        &self,
        oid: u64,
        parent_oid: u64,
        name: &str,
        is_dir: bool,
        now: i64,
    ) -> (r: Result<Vec<(u64, BTreeNode)>, ApfsError>)
        ensures
            r matches Ok(t) ==> ascending(leaves_view(t@)),
            agrees(
                leaves_outcome(r),
                self@.created(oid, parent_oid, name@, is_dir, now),
                self.dev.reliable(),
            ),
    {
        let (h, key) = self.drec_hash(parent_oid, name)?;
        let (a, b, c) = self.locate_places(oid, parent_oid, key.as_slice())?;
        let inode = make_inode(parent_oid, oid, is_dir, now);
        let value = build_inode_value(&inode, None)?;
        let d = DrecVal {
            file_id: oid,
            date_added: now,
            flags: if is_dir {
                DT_DIR
            } else {
                DT_REG
            },
        };
        let mut touched: Vec<(u64, BTreeNode)> = Vec::new();
        assert(leaves_view(touched@) =~= seq![]);
        self.add_inode(&mut touched, a, oid, value.as_slice())?;
        self.add_drec(&mut touched, b, parent_oid, name, h, d)?;
        self.add_child(&mut touched, c, parent_oid)?;
        Ok(touched)
    }

    /// The directory in which a new entry goes.
    pub(crate) fn find_parent(&self, path: &str) -> (r: Result<u64, ApfsError>)
        ensures
            agrees(plain(r), self@.parent_of(path@), self.dev.reliable()),
    {
        let (parent, _) = split_last(trim_slashes(path));
        let parent = parent_path_of(parent);
        let (oid, inode) = self.resolve(parent.as_str())?;
        if inode.kind() != INODE_DIR_TYPE {
            return Err(ApfsError::NotADirectory(parent));
        }
        Ok(oid)
    }

    fn check_vacant(&self, path: &str, who: &str) -> (r: Result<(), ApfsError>)
        ensures
            agrees(plain(r), self@.vacant(path@, who@), self.dev.reliable()),
    {
        match self.resolve(path) {
            Ok(_) => {
                let head = text_str(who, ": '", path);
                Err(ApfsError::Internal(text_str(head.as_str(), "' already exists", "")))
            },
            Err(ApfsError::Io(e)) => Err(ApfsError::Io(e)),
            Err(_) => Ok(()),
        }
    }
}

impl<D: WriteAt> ApfsVolume<D> {
    fn create_entry(&mut self, path: &str, who: &str, is_dir: bool, now: i64) -> (r: Result<
        u64,
        ApfsError,
    >)
        requires
            old(self)@.wf(),
        ensures
            final(self).dev.reliable() == old(self).dev.reliable(),
            final(self)@.wf(),
            comes_of(
                old(self)@.nx,
                plain(r),
                final(self)@,
                old(self)@.create(path@, who@, is_dir, now),
                old(self).dev.reliable(),
            ),
    {
        proof {
            reveal(VolumeView::create);
        }
        let t = trim_slashes(path);
        if t.unicode_len() == 0 {
            return Err(ApfsError::Internal(text_str(who, ": empty path", "")));
        }
        let parent_oid: u64 = self.find_parent(path)?;
        let (_, name) = split_last(t);
        self.check_vacant(path, who)?;
        if self.next_obj_id == u64::MAX {
            return Err(internal("object ids are used up"));
        }
        let oid: u64 = self.next_obj_id;
        let ghost v = self@;
        self.next_obj_id = oid + 1;
        assert(self@ =~= (VolumeView { next_obj_id: (v.next_obj_id + 1) as u64, ..v }));
        self.commit_entry(oid, parent_oid, name, is_dir, now)?;
        Ok(oid)
    }

    fn commit_entry(
        &mut self,
        oid: u64,
        parent_oid: u64,
        name: &str,
        is_dir: bool,
        now: i64,
    ) -> (r: Result<(), ApfsError>)
        requires
            old(self)@.wf(),
        ensures
            final(self).dev.reliable() == old(self).dev.reliable(),
            final(self)@.wf(),
            comes_of(
                old(self)@.nx,
                plain(r),
                final(self)@,
                old(self)@.finish(old(self)@.created(oid, parent_oid, name@, is_dir, now)),
                old(self).dev.reliable(),
            ),
    {
        let touched = self.create_leaves(oid, parent_oid, name, is_dir, now)?;
        self.commit_leaves(touched)
    }

    /// Create a new empty regular file at `path`, with all its times set to
    /// `now`. Takes a fresh OID, inserts an inode and a directory record, and
    /// counts the child in the parent. The file has no extents. Returns the
    /// OID.
    pub fn create_file_at(&mut self, path: &str, now: i64) -> (r: Result<u64, ApfsError>)
        requires
            old(self)@.wf(),
        ensures
            final(self).dev.reliable() == old(self).dev.reliable(),
            final(self)@.wf(),
            comes_of(
                old(self)@.nx,
                plain(r),
                final(self)@,
                old(self)@.create(path@, "create_file"@, false, now),
                old(self).dev.reliable(),
            ),
    {
        self.create_entry(path, "create_file", false, now)
    }

    /// Create a new empty regular file at `path` now; see
    /// [`Self::create_file_at`].
    pub fn create_file(&mut self, path: &str) -> (r: Result<u64, ApfsError>)
        requires
            old(self)@.wf(),
        ensures
            final(self).dev.reliable() == old(self).dev.reliable(),
            final(self)@.wf(),
            exists|now: i64|
                comes_of(
                    old(self)@.nx,
                    plain(r),
                    final(self)@,
                    #[trigger] old(self)@.create(path@, "create_file"@, false, now),
                    old(self).dev.reliable(),
                ),
    {
        let now: i64 = now_nanos();
        self.create_file_at(path, now)
    }

    /// Create a new empty directory at `path`, with all its times set to
    /// `now`. Like [`Self::create_file_at`], but the directory starts with no
    /// children.
    pub fn create_directory_at(&mut self, path: &str, now: i64) -> (r: Result<u64, ApfsError>)
        requires
            old(self)@.wf(),
        ensures
            final(self).dev.reliable() == old(self).dev.reliable(),
            final(self)@.wf(),
            comes_of(
                old(self)@.nx,
                plain(r),
                final(self)@,
                old(self)@.create(path@, "create_directory"@, true, now),
                old(self).dev.reliable(),
            ),
    {
        self.create_entry(path, "create_directory", true, now)
    }

    /// Create a new empty directory at `path` now; see
    /// [`Self::create_directory_at`].
    pub fn create_directory(&mut self, path: &str) -> (r: Result<u64, ApfsError>)
        requires
            old(self)@.wf(),
        ensures
            final(self).dev.reliable() == old(self).dev.reliable(),
            final(self)@.wf(),
            exists|now: i64|
                comes_of(
                    old(self)@.nx,
                    plain(r),
                    final(self)@,
                    #[trigger] old(self)@.create(path@, "create_directory"@, true, now),
                    old(self).dev.reliable(),
                ),
    {
        let now: i64 = now_nanos();
        self.create_directory_at(path, now)
    }
}

} // verus!

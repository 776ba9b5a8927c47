//! Renaming.

use crate::apfs::btree::BTreeNode;
use crate::apfs::btree::node::NodeView;
use crate::apfs::catalog::edit::{reparent, set_inode_parent_in_node};
use crate::apfs::catalog::records::{
    mode_kind, DrecVal, InodeVal, DT_DIR, DT_LNK, DT_REG, INODE_DIR_TYPE, INODE_FILE_TYPE,
    INODE_SYMLINK_TYPE, J_TYPE_INODE,
};
use crate::apfs::device::{ReadAt, WriteAt};
use crate::apfs::error::{internal, plain, unsupported, ApfsError, Fault};
use crate::apfs::hash::{drec_name_hash, name_hash_outcome};
use crate::apfs::object::agrees;
use crate::apfs::path::{
    base_part, parent_part, parent_path, parent_path_of, split_last, trim_slashes, trimmed,
};
use crate::apfs::text::{msg_str, text_str};
use crate::apfs::utf8::same_text;
use crate::apfs::volume::clock::now_nanos;
use crate::apfs::volume::leaves::{
    ascending, changed, comes_of, leaves_outcome, leaves_view, lemma_put_leaf, touched_outcome,
};
use crate::apfs::volume::state::{ApfsVolume, VolumeView};
use vstd::prelude::*;

verus! {

/// The type that a directory record gives an object.
pub open spec fn drec_type(i: InodeVal) -> u16 {
    if mode_kind(i.mode) == INODE_DIR_TYPE {
        DT_DIR
    } else if mode_kind(i.mode) == INODE_SYMLINK_TYPE {
        DT_LNK
    } else {
        DT_REG
    }
}

/// A rename, with both paths looked up: the object and its inode, the two
/// directories, and what is there at the new path.
pub struct Move {
    pub oid: u64,
    pub inode: InodeVal,
    pub from_parent: u64,
    pub to_parent: u64,
    pub existing: Option<(u64, InodeVal)>,
}

/// What is said when the old name has no directory record.
pub open spec fn no_source(name: Seq<char>) -> Fault {
    Fault::NotFound(msg_str("rename_file: source drec '"@, name, "' not found"@))
}

impl VolumeView {
    /// The outcome of looking up both paths.
    pub open spec fn plan_move(self, from: Seq<char>, to: Seq<char>) -> Result<Move, Fault> {
        match self.resolve(from) {
            Err(e) => Err(e),
            Ok((oid, inode)) => match self.resolve(parent_path(parent_part(trimmed(from)))) {
                Err(e) => Err(e),
                Ok((from_parent, _)) => match self.parent_of(to) {
                    Err(e) => Err(e),
                    Ok(to_parent) => match self.resolve(to) {
                        Ok(x) => Ok(
                            Move { oid, inode, from_parent, to_parent, existing: Some(x) },
                        ),
                        Err(Fault::Io(e)) => Err(Fault::Io(e)),
                        Err(_) => Ok(Move { oid, inode, from_parent, to_parent, existing: None }),
                    },
                },
            },
        }
    }

    /// The touched leaves after the children of both directories were counted
    /// anew and the inode of `oid` was given its new parent.
    pub open spec fn moved(
        self,
        s: Seq<(u64, NodeView)>,
        oid: u64,
        from_parent: u64,
        to_parent: u64,
        now: i64,
    ) -> Result<Seq<(u64, NodeView)>, Fault> {
        match self.record_leaf(from_parent, J_TYPE_INODE) {
            Err(e) => Err(e),
            Ok(p1) => match self.count_off(s, p1, from_parent) {
                Err(e) => Err(e),
                Ok(s1) => match self.record_leaf(to_parent, J_TYPE_INODE) {
                    Err(e) => Err(e),
                    Ok(p2) => match self.count_in(s1, p2, to_parent) {
                        Err(e) => Err(e),
                        Ok(s2) => match self.record_leaf(oid, J_TYPE_INODE) {
                            Err(e) => Err(e),
                            Ok(p3) => changed(
                                self.change(
                                    s2,
                                    p3,
                                    |n: NodeView| reparent(n, oid, to_parent, now),
                                ),
                            ),
                        },
                    },
                },
            },
        }
    }

    /// The touched leaves after a rename.
    pub open spec fn renamed(
        self,
        m: Move,
        from_name: Seq<char>,
        to_name: Seq<char>,
        hash22: u32,
        key: Seq<u8>,
        now: i64,
    ) -> Result<Seq<(u64, NodeView)>, Fault> {
        match self.key_leaf(key) {
            Err(e) => Err(e),
            Ok(leaf) => match self.drop_drec(m.from_parent, from_name, no_source(from_name)) {
                Err(e) => Err(e),
                Ok(s1) => match self.put_drec(
                    s1,
                    leaf,
                    m.to_parent,
                    to_name,
                    hash22,
                    (DrecVal { file_id: m.oid, date_added: now, flags: drec_type(m.inode) }),
                ) {
                    Err(e) => Err(e),
                    Ok(s2) => if m.from_parent == m.to_parent {
                        Ok(s2)
                    } else {
                        self.moved(s2, m.oid, m.from_parent, m.to_parent, now)
                    },
                },
            },
        }
    }

    /// The outcome of renaming when nothing is in the way any more, and the
    /// volume afterwards.
    pub open spec fn finish_move(
        self,
        m: Move,
        from_name: Seq<char>,
        to_name: Seq<char>,
        hash22: u32,
        key: Seq<u8>,
        now: i64,
    ) -> (Result<(), Fault>, VolumeView) {
        self.finish(self.renamed(m, from_name, to_name, hash22, key, now))
    }

    /// The outcome of a rename that was looked up, and the volume afterwards.
    pub open spec fn perform_move(self, m: Move, from: Seq<char>, to: Seq<char>, now: i64) -> (
        Result<(), Fault>,
        VolumeView,
    ) {
        let from_name = base_part(trimmed(from));
        let to_name = base_part(trimmed(to));
        match name_hash_outcome(from_name, self.case_insensitive) {
            Err(e) => (Err(e), self),
            Ok(_) => match self.hashed_key(m.to_parent, to_name) {
                Err(e) => (Err(e), self),
                Ok((h, key)) => if m.existing is Some {
                    match self.unlink(to) {
                        (Err(e), v) => (Err(e), v),
                        (Ok(_), v) => v.finish_move(m, from_name, to_name, h, key, now),
                    }
                } else {
                    self.finish_move(m, from_name, to_name, h, key, now)
                },
            },
        }
    }

    /// The outcome of renaming `from` to `to`, and the volume afterwards.
    pub open spec fn rename(self, from: Seq<char>, to: Seq<char>, replace: bool, now: i64) -> (
        Result<(), Fault>,
        VolumeView,
    ) {
        if trimmed(from).len() == 0 || trimmed(to).len() == 0 {
            (Err(Fault::Internal("rename_file: empty path"@)), self)
        } else if trimmed(from) == trimmed(to) {
            (Ok(()), self)
        } else {
            match self.plan_move(from, to) {
                Err(e) => (Err(e), self),
                Ok(m) => match m.existing {
                    Some((there, inode)) => if !replace {
                        (
                            Err(
                                Fault::Internal(
                                    msg_str(
                                        "rename_file: '"@,
                                        to,
                                        "' already exists and replace_if_exists is false"@,
                                    ),
                                ),
                            ),
                            self,
                        )
                    } else if there == m.oid {
                        (Ok(()), self)
                    } else if mode_kind(inode.mode) != INODE_FILE_TYPE {
                        (
                            Err(
                                Fault::Unsupported(
                                    "rename_file: only a regular file can be replaced"@,
                                ),
                            ),
                            self,
                        )
                    } else {
                        self.perform_move(m, from, to, now)
                    },
                    None => self.perform_move(m, from, to, now),
                },
            }
        }
    }
}

/// Whether `u` comes of the two commits of a rename that replaces a file.
pub open spec fn replaces(
    v: VolumeView,
    u: VolumeView,
    m: Move,
    from: Seq<char>,
    to: Seq<char>,
    now: i64,
) -> bool {
    let from_name = base_part(trimmed(from));
    let to_name = base_part(trimmed(to));
    v.hashed_key(m.to_parent, to_name) matches Ok((h, key)) && exists|mid: VolumeView|
        #![trigger mid.finish_move(m, from_name, to_name, h, key, now)]
        comes_of(v.nx, Ok(()), mid, v.unlink(to), false) && comes_of(
            mid.nx,
            Ok(()),
            u,
            mid.finish_move(m, from_name, to_name, h, key, now),
            false,
        )
}

/// What a rename tells and what it leaves behind; see [`comes_of`].
pub open spec fn renames(
    v: VolumeView,
    r: Result<(), Fault>,
    u: VolumeView,
    from: Seq<char>,
    to: Seq<char>,
    replace: bool,
    now: i64,
    reliable: bool,
) -> bool {
    &&& reliable ==> (r, u) == v.rename(from, to, replace, now)
    &&& r is Ok ==> {
        ||| comes_of(v.nx, r, u, v.rename(from, to, replace, now), false)
        ||| (v.plan_move(from, to) matches Ok(m) && m.existing is Some && replace && replaces(
            v,
            u,
            m,
            from,
            to,
            now,
        ))
    }
}

impl<D: ReadAt> ApfsVolume<D> {
    fn look_up_move(&self, from: &str, to: &str) -> (r: Result<Move, ApfsError>)
        ensures
            agrees(plain(r), self@.plan_move(from@, to@), self.dev.reliable()),
    {
        let (oid, inode) = self.resolve(from)?;
        let (parent, _) = split_last(trim_slashes(from));
        let parent = parent_path_of(parent);
        let (from_parent, _) = self.resolve(parent.as_str())?;
        let to_parent: u64 = self.find_parent(to)?;
        let existing = match self.resolve(to) {
            Ok(x) => Some(x),
            Err(ApfsError::Io(e)) => {
                return Err(ApfsError::Io(e));
            },
            Err(_) => None,
        };
        Ok(Move { oid, inode, from_parent, to_parent, existing })
    }

    fn move_inode(
        &self,
        touched: &mut Vec<(u64, BTreeNode)>,
        leaf: u64,
        oid: u64,
        to_parent: u64,
        now: i64,
    ) -> (r: Result<(), ApfsError>)
        requires
            ascending(leaves_view(old(touched)@)),
        ensures
            ascending(leaves_view(final(touched)@)),
            agrees(
                touched_outcome(r, final(touched)@),
                changed(
                    self@.change(
                        leaves_view(old(touched)@),
                        leaf,
                        |n: NodeView| reparent(n, oid, to_parent, now),
                    ),
                ),
                self.dev.reliable(),
            ),
    {
        let k: usize = self.load_leaf(touched, leaf)?;
        let ghost loaded = leaves_view(touched@);
        let r = set_inode_parent_in_node(&mut touched[k].1, oid, to_parent, now);
        proof {
            lemma_put_leaf(loaded, leaf, touched@[k as int].1@);
            assert(leaves_view(touched@) =~= loaded.update(
                k as int,
                (leaf, touched@[k as int].1@),
            ));
        }
        r?;
        Ok(())
    }

    fn move_between(
        &self,
        touched: &mut Vec<(u64, BTreeNode)>,
        oid: u64,
        from_parent: u64,
        to_parent: u64,
        now: i64,
    ) -> (r: Result<(), ApfsError>)
        requires
            ascending(leaves_view(old(touched)@)),
        ensures
            ascending(leaves_view(final(touched)@)),
            agrees(
                touched_outcome(r, final(touched)@),
                self@.moved(leaves_view(old(touched)@), oid, from_parent, to_parent, now),
                self.dev.reliable(),
            ),
    {
        let p1: u64 = self.locate_record_leaf(from_parent, J_TYPE_INODE)?;
        self.drop_child(touched, p1, from_parent)?;
        let p2: u64 = self.locate_record_leaf(to_parent, J_TYPE_INODE)?;
        self.add_child(touched, p2, to_parent)?;
        let p3: u64 = self.locate_record_leaf(oid, J_TYPE_INODE)?;
        self.move_inode(touched, p3, oid, to_parent, now)
    }

    fn take_source(&self, parent_oid: u64, name: &str) -> (r: Result<
        Vec<(u64, BTreeNode)>,
        ApfsError,
    >)
        ensures
            r matches Ok(t) ==> ascending(leaves_view(t@)),
            agrees(
                leaves_outcome(r),
                self@.drop_drec(parent_oid, name@, no_source(name@)),
                self.dev.reliable(),
            ),
    {
        match self.remove_drec(parent_oid, name)? {
            Some(t) => Ok(t),
            None => Err(
                ApfsError::NotFound(text_str("rename_file: source drec '", name, "' not found")),
            ),
        }
    }

    /// The leaves that a rename touches.
    fn rename_leaves(
        &self,
        m: &Move,
        from_name: &str,
        to_name: &str,
        hash22: u32,
        key: &[u8],
        now: i64,
    ) -> (r: Result<Vec<(u64, BTreeNode)>, ApfsError>)
        ensures
            r matches Ok(t) ==> ascending(leaves_view(t@)),
            agrees(
                leaves_outcome(r),
                self@.renamed(*m, from_name@, to_name@, hash22, key@, now),
                self.dev.reliable(),
            ),
    {
        let leaf: u64 = self.locate_leaf_for_key(key)?;
        let mut touched = self.take_source(m.from_parent, from_name)?;
        let kind: u16 = m.inode.kind();
        let flags: u16 = if kind == INODE_DIR_TYPE {
            DT_DIR
        } else if kind == INODE_SYMLINK_TYPE {
            DT_LNK
        } else {
            DT_REG
        };
        let d = DrecVal { file_id: m.oid, date_added: now, flags };
        self.add_drec(&mut touched, leaf, m.to_parent, to_name, hash22, d)?;
        if m.from_parent != m.to_parent {
            self.move_between(&mut touched, m.oid, m.from_parent, m.to_parent, now)?;
        }
        Ok(touched)
    }
}

impl<D: WriteAt> ApfsVolume<D> {
    fn commit_move(
        &mut self,
        m: &Move,
        from_name: &str,
        to_name: &str,
        hash22: u32,
        key: &[u8],
        now: i64,
    ) -> (r: Result<(), ApfsError>)
        requires
            old(self)@.wf(),
        ensures
            final(self).dev.reliable() == old(self).dev.reliable(),
            final(self)@.wf(),
            comes_of(
                old(self)@.nx,
                plain(r),
                final(self)@,
                old(self)@.finish_move(*m, from_name@, to_name@, hash22, key@, now),
                old(self).dev.reliable(),
            ),
    {
        let touched = self.rename_leaves(m, from_name, to_name, hash22, key, now)?;
        self.commit_leaves(touched)
    }

    fn do_move(&mut self, m: &Move, from: &str, to: &str, now: i64) -> (r: Result<(), ApfsError>)
        requires
            old(self)@.wf(),
        ensures
            final(self).dev.reliable() == old(self).dev.reliable(),
            final(self)@.wf(),
            old(self).dev.reliable() ==> (plain(r), final(self)@) == old(self)@.perform_move(
                *m,
                from@,
                to@,
                now,
            ),
            r is Ok ==> if m.existing is Some {
                replaces(old(self)@, final(self)@, *m, from@, to@, now)
            } else {
                comes_of(
                    old(self)@.nx,
                    plain(r),
                    final(self)@,
                    old(self)@.perform_move(*m, from@, to@, now),
                    false,
                )
            },
    {
        let (_, from_name) = split_last(trim_slashes(from));
        let (_, to_name) = split_last(trim_slashes(to));
        drec_name_hash(from_name, self.case_insensitive)?;
        let (h, key) = self.drec_hash(m.to_parent, to_name)?;
        if m.existing.is_some() {
            self.unlink_file(to)?;
        }
        let ghost mid = self@;
        let r = self.commit_move(m, from_name, to_name, h, key.as_slice(), now);
        assert(r is Ok ==> comes_of(
            mid.nx,
            Ok::<(), Fault>(()),
            self@,
            mid.finish_move(*m, from_name@, to_name@, h, key@, now),
            false,
        ));
        r
    }

    /// Rename `from` to `to`; the new directory record gets the date `now`.
    /// A move between directories counts the children of both anew. A regular
    /// file at `to` is replaced only when `replace_if_exists` is set;
    /// otherwise anything there is an error.
    pub fn rename_file_at(&mut self, from: &str, to: &str, replace_if_exists: bool, now: i64) -> (r:
        Result<(), ApfsError>)
        requires
            old(self)@.wf(),
        ensures
            final(self).dev.reliable() == old(self).dev.reliable(),
            final(self)@.wf(),
            renames(
                old(self)@,
                plain(r),
                final(self)@,
                from@,
                to@,
                replace_if_exists,
                now,
                old(self).dev.reliable(),
            ),
    {
        let from_t = trim_slashes(from);
        let to_t = trim_slashes(to);
        if from_t.unicode_len() == 0 || to_t.unicode_len() == 0 {
            return Err(internal("rename_file: empty path"));
        }
        if same_text(from_t, to_t) {
            return Ok(());
        }
        let m = self.look_up_move(from, to)?;
        if let Some((there, inode)) = &m.existing {
            if !replace_if_exists {
                return Err(
                    ApfsError::Internal(
                        text_str(
                            "rename_file: '",
                            to,
                            "' already exists and replace_if_exists is false",
                        ),
                    ),
                );
            }
            if *there == m.oid {
                return Ok(());
            }
            if inode.kind() != INODE_FILE_TYPE {
                return Err(unsupported("rename_file: only a regular file can be replaced"));
            }
        }
        self.do_move(&m, from, to, now)
    }

    /// Rename `from` to `to` now; see [`Self::rename_file_at`].
    pub fn rename_file(&mut self, from: &str, to: &str, replace_if_exists: bool) -> (r: Result<
        (),
        ApfsError,
    >)
        requires
            old(self)@.wf(),
        ensures
            final(self).dev.reliable() == old(self).dev.reliable(),
            final(self)@.wf(),
            exists|now: i64|
                #[trigger] renames(
                    old(self)@,
                    plain(r),
                    final(self)@,
                    from@,
                    to@,
                    replace_if_exists,
                    now,
                    old(self).dev.reliable(),
                ),
    {
        let now: i64 = now_nanos();
        self.rename_file_at(from, to, replace_if_exists, now)
    }
}

} // verus!

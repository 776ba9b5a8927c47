//! That a rename that replaces a file succeeds when there is room for it.

use crate::apfs::catalog::records::{mode_kind, INODE_FILE_TYPE, J_TYPE_XATTR};
use crate::apfs::error::Fault;
use crate::apfs::path::{base_part, trimmed};
use crate::apfs::volume::law_rename::{can_replace, lemma_way_is_clear};
use crate::apfs::volume::law_success::{
    counts_entry, law_unlink_succeeds, lemma_named, lemma_renamed_succeeds, room_to_rename,
};
use crate::apfs::volume::rename::Move;
use crate::apfs::volume::state::VolumeView;
use crate::apfs::volume::success::{can_commit, lemma_commit_succeeds};
use crate::apfs::volume::tree::Tree;
use vstd::prelude::*;

verus! {

/// Whether the file in the way of a rename can be unlinked: its directory
/// counts it, it has one link and no extended attributes, and the superblock
/// of the commit has a place.
pub open spec fn can_give_way(v: VolumeView, t: Tree, to: Seq<char>) -> bool {
    &&& counts_entry(v, t, to)
    &&& v.resolve(to) matches Ok((oid, inode))
    &&& mode_kind(inode.mode) == INODE_FILE_TYPE
    &&& inode.nchildren_or_nlink == 1
    &&& v.hit(oid, J_TYPE_XATTR) == Ok::<Option<(Seq<u8>, u64)>, Fault>(None)
    &&& can_commit(v)
}

/// The second step of a rename that replaces a file succeeds.
proof fn lemma_moved_in(
    v: VolumeView,
    t: Tree,
    m: Set<u64>,
    mv: Move,
    from: Seq<char>,
    to: Seq<char>,
    h: u32,
    key: Seq<u8>,
    now: i64,
)
    requires
        v.sound(t, m),
        trimmed(from).len() > 0,
        trimmed(to).len() > 0,
        v.plan_move(from, to) == Ok::<Move, Fault>(mv),
        can_replace(v, t, mv, from, to),
        v.unlink(to).0 is Ok,
        v.hashed_key(mv.to_parent, base_part(trimmed(to))) == Ok::<(u32, Seq<u8>), Fault>(
            (h, key),
        ),
        room_to_rename(v.unlink(to).1, mv, base_part(trimmed(from)), base_part(trimmed(to))),
    ensures
        v.unlink(to).1.finish_move(
            mv,
            base_part(trimmed(from)),
            base_part(trimmed(to)),
            h,
            key,
            now,
        ).0 is Ok,
{
    let from_name = base_part(trimmed(from));
    let to_name = base_part(trimmed(to));
    let v1 = v.unlink(to).1;
    let u = lemma_way_is_clear(v, t, m, mv, from, to, h, key);
    lemma_named(v1, u, from, mv.from_parent);
    lemma_renamed_succeeds(v1, u, m, mv, from_name, to_name, h, key, now);
    lemma_commit_succeeds(
        v1,
        u,
        m,
        v1.renamed(mv, from_name, to_name, h, key, now)->Ok_0,
    );
}

/// An object can be renamed onto a file, when that can be unlinked and there
/// is room for the new name once it is.
#[verifier::rlimit(40)]
pub proof fn law_replacing_rename_succeeds(
    v: VolumeView,
    t: Tree,
    m: Set<u64>,
    from: Seq<char>,
    to: Seq<char>,
    now: i64,
)
    requires
        v.sound(t, m),
        trimmed(from).len() > 0,
        trimmed(to).len() > 0,
        trimmed(from) != trimmed(to),
        v.plan_move(from, to) matches Ok(mv) && can_replace(v, t, mv, from, to) && room_to_rename(
            v.unlink(to).1,
            mv,
            base_part(trimmed(from)),
            base_part(trimmed(to)),
        ),
        can_give_way(v, t, to),
    ensures
        v.rename(from, to, true, now).0 is Ok,
{
    let mv = v.plan_move(from, to)->Ok_0;
    let to_name = base_part(trimmed(to));
    law_unlink_succeeds(v, t, m, to);
    let (h, key) = v.hashed_key(mv.to_parent, to_name)->Ok_0;
    assert(v.hashed_key(mv.to_parent, to_name) is Ok);
    lemma_moved_in(v, t, m, mv, from, to, h, key, now);
}

} // verus!

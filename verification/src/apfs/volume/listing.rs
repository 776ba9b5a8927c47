//! What listings and walks show.

use crate::apfs::btree::search::Found;
use crate::apfs::catalog::query::{
    drec_lookup, drec_named, entries_from, entry_with, inode_lookup, named_drec, walk_names,
};
use crate::apfs::catalog::records::{
    drec_name_outcome, DrecVal, InodeVal, J_TYPE_DIR_REC, ROOT_DIR_RECORD,
};
use crate::apfs::error::Fault;
use crate::apfs::path::{components, law_only_slashes_have_no_names};
use crate::apfs::types::{DirEntryView, EntryKind, WalkEntryView};
use crate::apfs::volume::model::{drec_in, entries_in, inode_in, law_volume_shows_records};
use crate::apfs::volume::read::{walked_path, WALK_DEPTH_LIMIT};
use crate::apfs::volume::state::VolumeView;
use crate::apfs::volume::tree::{picked, recs, Tree};
use vstd::prelude::*;

verus! {

/// Whether a listing has this entry.
pub open spec fn lists(
    listing: Result<Seq<DirEntryView>, Fault>,
    name: Seq<char>,
    oid: u64,
) -> bool {
    listing matches Ok(list) && exists|k: int|
        0 <= k < list.len() && (#[trigger] list[k]).name == name && list[k].oid == oid
}

/// Whether a listing has no entry of this name.
pub open spec fn lacks(listing: Result<Seq<DirEntryView>, Fault>, name: Seq<char>) -> bool {
    listing matches Ok(list) && forall|k: int|
        0 <= k < list.len() ==> (#[trigger] list[k]).name != name
}

proof fn lemma_listed(r: Seq<Found>, found: Seq<Found>, name: Seq<char>, i: int) -> (k: int)
    requires
        0 <= i,
        drec_named(found, name, i) is Ok,
    ensures
        ({
            let list = entries_in(r, found, i);
            let d = drec_named(found, name, i)->Ok_0;
            0 <= k < list.len() && list[k] == entry_with(name, d, inode_in(r, d.file_id))
        }),
    decreases found.len() - i,
{
    let list = entries_in(r, found, i);
    if drec_name_outcome(found[i].0) == Ok::<Seq<char>, Fault>(name) {
        0
    } else {
        let k = lemma_listed(r, found, name, i + 1);
        if named_drec(found[i]) is None {
            k
        } else {
            assert(list[k + 1] == entries_in(r, found, i + 1)[k]);
            k + 1
        }
    }
}

proof fn lemma_unlisted(r: Seq<Found>, found: Seq<Found>, name: Seq<char>, i: int)
    requires
        0 <= i,
        drec_named(found, name, i) == Err::<DrecVal, Fault>(Fault::NotFound(name)),
    ensures
        forall|k: int|
            0 <= k < entries_in(r, found, i).len() ==> (#[trigger] entries_in(r, found, i)[k]).name
                != name,
    decreases found.len() - i,
{
    if i < found.len() {
        lemma_unlisted(r, found, name, i + 1);
        let list = entries_in(r, found, i);
        let rest = entries_in(r, found, i + 1);
        assert forall|k: int| 0 <= k < list.len() implies (#[trigger] list[k]).name != name by {
            if named_drec(found[i]) is None {
                assert(list[k] == rest[k]);
            } else if k > 0 {
                assert(list[k] == rest[k - 1]);
            }
        }
    }
}

/// A directory lists an entry that is found in it by its name, and none of a
/// name that is not found.
pub proof fn law_listing_agrees_with_lookup(v: VolumeView, t: Tree, dir: u64, name: Seq<char>)
    requires
        v.has_catalog(t),
    ensures
        drec_in(recs(t), dir, name) matches Ok(d) ==> lists(v.directory(dir), name, d.file_id),
        drec_in(recs(t), dir, name) == Err::<DrecVal, Fault>(Fault::NotFound(name)) ==> lacks(
            v.directory(dir),
            name,
        ),
{
    let r = recs(t);
    let found = picked(r, dir, J_TYPE_DIR_REC);
    law_volume_shows_records(v, t, seq![], dir);
    if drec_in(r, dir, name) is Ok {
        let k = lemma_listed(r, found, name, 0);
        assert(v.directory(dir)->Ok_0[k].name == name);
    } else if drec_in(r, dir, name) == Err::<DrecVal, Fault>(Fault::NotFound(name)) {
        lemma_unlisted(r, found, name, 0);
    }
}

/// An entry of a directory, as a walk shows it.
pub open spec fn walked(parent: Seq<char>, e: DirEntryView) -> WalkEntryView {
    WalkEntryView { path: walked_path(parent, e.name), entry: e }
}

/// Whether a walk has all entries of a directory.
pub open spec fn has_entries(
    all: Seq<WalkEntryView>,
    parent: Seq<char>,
    entries: Seq<DirEntryView>,
) -> bool {
    forall|j: int|
        0 <= j < entries.len() ==> all.contains(walked(parent, #[trigger] entries[j]))
}

/// The entries of a directory from `i` on are in the walk.
proof fn lemma_walk_has(
    v: VolumeView,
    entries: Seq<DirEntryView>,
    i: int,
    parent: Seq<char>,
    levels: u32,
    j: int,
)
    requires
        0 <= i <= j < entries.len(),
        v.walk_entries(entries, i, parent, levels) is Ok,
    ensures
        v.walk_entries(entries, i, parent, levels)->Ok_0.contains(walked(parent, entries[j])),
    decreases j - i,
{
    let all = v.walk_entries(entries, i, parent, levels)->Ok_0;
    let path = walked_path(parent, entries[i].name);
    let here = seq![walked(parent, entries[i])];
    let below = v.walk_under(entries[i], path, levels)->Ok_0;
    let rest = v.walk_entries(entries, i + 1, parent, levels)->Ok_0;
    assert(all == here + below + rest);
    if i == j {
        assert(all[0] == walked(parent, entries[j]));
    } else {
        lemma_walk_has(v, entries, i + 1, parent, levels, j);
        let k = choose|k: int| 0 <= k < rest.len() && rest[k] == walked(parent, entries[j]);
        assert(all[here.len() + below.len() + k] == rest[k]);
    }
}

/// What is in a directory that is in the walk is in the walk.
proof fn lemma_walk_under_has(
    v: VolumeView,
    entries: Seq<DirEntryView>,
    i: int,
    parent: Seq<char>,
    levels: u32,
    x: WalkEntryView,
)
    requires
        0 <= i <= entries.len(),
        v.walk_entries(entries, i, parent, levels) matches Ok(all) && all.contains(x),
        x.entry.kind == EntryKind::Directory,
    ensures
        v.directory(x.entry.oid) matches Ok(list) && has_entries(
            v.walk_entries(entries, i, parent, levels)->Ok_0,
            x.path,
            list,
        ),
    decreases levels, entries.len() - i,
{
    let all = v.walk_entries(entries, i, parent, levels)->Ok_0;
    let at = choose|k: int| 0 <= k < all.len() && all[k] == x;
    if i < entries.len() {
        let e = entries[i];
        let path = walked_path(parent, e.name);
        let here = seq![walked(parent, e)];
        let below = v.walk_under(e, path, levels)->Ok_0;
        let rest = v.walk_entries(entries, i + 1, parent, levels)->Ok_0;
        assert(all == here + below + rest);
        if at == 0 {
            let list = v.directory(e.oid)->Ok_0;
            assert forall|j: int| 0 <= j < list.len() implies all.contains(
                walked(path, #[trigger] list[j]),
            ) by {
                lemma_walk_has(v, list, 0, path, (levels - 1) as u32, j);
                let k = choose|k: int| 0 <= k < below.len() && below[k] == walked(path, list[j]);
                assert(all[1 + k] == below[k]);
            }
        } else if at < 1 + below.len() {
            assert(below[at - 1] == x);
            let list = v.directory(e.oid)->Ok_0;
            lemma_walk_under_has(v, list, 0, path, (levels - 1) as u32, x);
            let inner = v.directory(x.entry.oid)->Ok_0;
            assert forall|j: int| 0 <= j < inner.len() implies all.contains(
                walked(x.path, #[trigger] inner[j]),
            ) by {
                let k = choose|k: int|
                    0 <= k < below.len() && below[k] == walked(x.path, inner[j]);
                assert(all[1 + k] == below[k]);
            }
        } else {
            assert(rest[at - 1 - below.len()] == x);
            lemma_walk_under_has(v, entries, i + 1, parent, levels, x);
            let inner = v.directory(x.entry.oid)->Ok_0;
            assert forall|j: int| 0 <= j < inner.len() implies all.contains(
                walked(x.path, #[trigger] inner[j]),
            ) by {
                let k = choose|k: int| 0 <= k < rest.len() && rest[k] == walked(x.path, inner[j]);
                assert(all[1 + below.len() + k] == rest[k]);
            }
        }
    }
}

/// A walk has every entry of the root, and with a directory every entry of it.
pub proof fn law_walk_is_complete(v: VolumeView, x: WalkEntryView)
    requires
        v.walk() is Ok,
    ensures
        v.directory(ROOT_DIR_RECORD) matches Ok(list) && has_entries(
            v.walk()->Ok_0,
            seq![],
            list,
        ),
        v.walk()->Ok_0.contains(x) && x.entry.kind == EntryKind::Directory ==> (v.directory(
            x.entry.oid,
        ) matches Ok(list) && has_entries(v.walk()->Ok_0, x.path, list)),
{
    let list = v.directory(ROOT_DIR_RECORD)->Ok_0;
    let all = v.walk()->Ok_0;
    assert forall|j: int| 0 <= j < list.len() implies all.contains(
        walked(seq![], #[trigger] list[j]),
    ) by {
        lemma_walk_has(v, list, 0, seq![], WALK_DEPTH_LIMIT, j);
    }
    if all.contains(x) && x.entry.kind == EntryKind::Directory {
        lemma_walk_under_has(v, list, 0, seq![], WALK_DEPTH_LIMIT, x);
    }
}

/// What a name in a directory leads to.
pub open spec fn entry_at(v: VolumeView, dir: u64, name: Seq<char>) -> Result<(u64, InodeVal), Fault> {
    match drec_lookup(v.disk, v.catalog_root, v.omap_root, v.block_size, dir, name) {
        Err(e) => Err(e),
        Ok(d) => match inode_lookup(
            v.disk,
            v.catalog_root,
            v.omap_root,
            v.block_size,
            d.file_id,
        ) {
            Err(e) => Err(e),
            Ok(inode) => Ok((d.file_id, inode)),
        },
    }
}

/// The last name of a path is looked up where the others lead.
proof fn lemma_last_name(v: VolumeView, names: Seq<Seq<char>>, name: Seq<char>, i: int, dir: u64)
    requires
        0 <= i <= names.len(),
        walk_names(
            v.disk,
            v.catalog_root,
            v.omap_root,
            v.block_size,
            names.push(name),
            i,
            dir,
        ) is Ok,
    ensures
        ({
            let all = walk_names(
                v.disk,
                v.catalog_root,
                v.omap_root,
                v.block_size,
                names.push(name),
                i,
                dir,
            );
            &&& i == names.len() ==> all == entry_at(v, dir, name)
            &&& walk_names(v.disk, v.catalog_root, v.omap_root, v.block_size, names, i, dir)
                matches Ok((o, _)) ==> all == entry_at(v, o, name)
        }),
    decreases names.len() - i,
{
    let all = names.push(name);
    let d = drec_lookup(v.disk, v.catalog_root, v.omap_root, v.block_size, dir, all[i])->Ok_0;
    if i < names.len() {
        assert(all[i] == names[i]);
        lemma_last_name(v, names, name, i + 1, d.file_id);
    } else {
        assert(walk_names(
            v.disk,
            v.catalog_root,
            v.omap_root,
            v.block_size,
            all,
            i + 1,
            d.file_id,
        ) == (match inode_lookup(
            v.disk,
            v.catalog_root,
            v.omap_root,
            v.block_size,
            d.file_id,
        ) {
            Err(e) => Err(e),
            Ok(inode) => Ok((d.file_id, inode)),
        }));
    }
}

proof fn lemma_entry_listed(v: VolumeView, found: Seq<Found>, name: Seq<char>, i: int) -> (k: int)
    requires
        0 <= i,
        drec_named(found, name, i) is Ok,
    ensures
        ({
            let list = entries_from(
                v.disk,
                v.catalog_root,
                v.omap_root,
                v.block_size,
                found,
                i,
            );
            let d = drec_named(found, name, i)->Ok_0;
            0 <= k < list.len() && list[k] == entry_with(
                name,
                d,
                inode_lookup(v.disk, v.catalog_root, v.omap_root, v.block_size, d.file_id),
            )
        }),
    decreases found.len() - i,
{
    let list = entries_from(v.disk, v.catalog_root, v.omap_root, v.block_size, found, i);
    if drec_name_outcome(found[i].0) == Ok::<Seq<char>, Fault>(name) {
        0
    } else {
        let k = lemma_entry_listed(v, found, name, i + 1);
        if named_drec(found[i]) is None {
            k
        } else {
            let rest = entries_from(
                v.disk,
                v.catalog_root,
                v.omap_root,
                v.block_size,
                found,
                i + 1,
            );
            assert(list[k + 1] == rest[k]);
            k + 1
        }
    }
}

/// What a path names is listed in the directory that the path without its last
/// name names, under that name, with the object, the size and the times that
/// are told of the path. Gives its place in the listing.
#[verifier::spinoff_prover]
#[verifier::rlimit(60)]
pub proof fn law_listing_tells_what_paths_tell(
    v: VolumeView,
    dir: Seq<char>,
    name: Seq<char>,
    path: Seq<char>,
) -> (k: int)
    requires
        v.listing(dir) is Ok,
        components(path) == components(dir).push(name),
        v.stat(path) is Ok,
    ensures
        ({
            let list = v.listing(dir)->Ok_0;
            let stat = v.stat(path)->Ok_0;
            &&& 0 <= k < list.len()
            &&& list[k].name == name
            &&& list[k].oid == stat.oid
            &&& list[k].size == stat.size
            &&& list[k].create_time == stat.create_time
            &&& list[k].modify_time == stat.modify_time
        }),
{
    reveal_strlit("/");
    let names = components(dir);
    lemma_last_name(v, names, name, 0, ROOT_DIR_RECORD);
    let oid = v.directory_oid(dir)->Ok_0;
    if dir == "/"@ || dir.len() == 0 {
        law_only_slashes_have_no_names(dir);
    }
    assert(v.resolve(path) == entry_at(v, oid, name));
    let found = v.hits(oid, J_TYPE_DIR_REC)->Ok_0;
    lemma_entry_listed(v, found, name, 0)
}

} // verus!

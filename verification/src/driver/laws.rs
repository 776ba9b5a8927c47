//! What holds of a served volume as a whole: what Windows is told, and what the
//! volume shows afterwards.

use crate::apfs::catalog::edit::with_times;
use crate::apfs::catalog::records::InodeVal;
use crate::apfs::error::Fault;
use crate::apfs::path::{
    components, law_name_behind_slash, law_only_slashes_have_no_names, trimmed,
};
use crate::apfs::types::{EntryKind, FileStat};
use crate::apfs::volume::law_success::law_set_times_succeeds;
use crate::apfs::volume::laws::law_set_times_is_shown;
use crate::apfs::volume::listing::law_listing_tells_what_paths_tell;
use crate::apfs::volume::read::walked_path;
use crate::apfs::volume::success::can_commit;
use crate::apfs::volume::tree::Tree;
use crate::driver::cache::{law_noted_is_recalled, recalled};
use crate::driver::info::{file_info, slashed, FileInfo, ReadWriteMode};
use crate::driver::serve::{entry_stat, parent_prefix, DirLineView};
use crate::driver::state::{ContextView, DriverView};
use crate::utils::{filetime_of, nanos_of};
use vstd::prelude::*;

verus! {

/// A Windows path is the path on the volume with every backslash turned into a
/// slash, and nothing else changed.
pub proof fn law_slashes(s: Seq<char>, i: int)
    requires
        0 <= i < s.len(),
    ensures
        slashed(s).len() == s.len(),
        s[i] == '\\' ==> slashed(s)[i] == '/',
        s[i] != '\\' ==> slashed(s)[i] == s[i],
{
}

/// What Windows is told of an object: the size and the object's number as they
/// are, the creation time and the time of the last change in intervals of 100
/// nanoseconds since 1601, and whether it is a directory or may be written.
pub proof fn law_file_info(stat: FileStat, size: u64, mode: ReadWriteMode)
    ensures
        ({
            let i = file_info(stat, size, mode);
            &&& i.file_size == size
            &&& i.index_number == stat.oid
            &&& stat.create_time >= 0 ==> i.creation_time == 116444736000000000
                + stat.create_time as int / 100
            &&& stat.modify_time >= 0 ==> i.last_write_time == 116444736000000000
                + stat.modify_time as int / 100
            &&& stat.create_time < 0 ==> i.creation_time == 116444736000000000
                - (-stat.create_time as int) / 100
            &&& stat.modify_time < 0 ==> i.last_write_time == 116444736000000000
                - (-stat.modify_time as int) / 100
            &&& i.last_access_time == i.last_write_time
            &&& i.change_time == i.last_write_time
            &&& i.allocation_size % 4096 == 0
            &&& size <= 0xFFFF_FFFF_FFFF_F000 ==> size <= i.allocation_size < size + 4096
            &&& i.file_attributes == 0x10 <==> stat.kind == EntryKind::Directory
            &&& i.file_attributes == 0x1 <==> stat.kind != EntryKind::Directory && mode
                == ReadWriteMode::ReadOnly
            &&& i.file_attributes == 0x80 <==> stat.kind != EntryKind::Directory && mode
                == ReadWriteMode::ReadWriteUnsafe
        }),
{
}

/// A new name that is taken is refused where nothing may be replaced, and
/// everything stays as it was. Only a name that is the old one is accepted,
/// and nothing changes then either.
pub proof fn law_rename_spares_what_is_there(
    d: DriverView,
    from: Seq<char>,
    to: Seq<char>,
    now: i64,
    path: Seq<char>,
)
    requires
        d.mode == ReadWriteMode::ReadWriteUnsafe,
        d.volume.resolve(slashed(to)) is Ok,
    ensures
        ({
            let (r, after) = d.rename(from, to, false, now);
            &&& trimmed(slashed(from)) != trimmed(slashed(to)) ==> r == Err::<(), u32>(0xC0000185)
                && after == d
            &&& after.volume == d.volume
            &&& after.volume.stat(path) == d.volume.stat(path)
            &&& after.volume.contents(path) == d.volume.contents(path)
            &&& after.volume.listing(path) == d.volume.listing(path)
        }),
{
}

/// Whether `is` is the time on the volume after the Windows time `told` was
/// set where `was` stood: times since 1970 are kept to the interval of 100
/// nanoseconds, as long as their nanoseconds fit 64 bits, and earlier ones,
/// among them 0, change nothing.
pub open spec fn takes_time(told: u64, was: i64, is: i64) -> bool {
    &&& told < 116444736000000000 ==> is == was
    &&& fits_time(told) ==> is == (told - 116444736000000000) * 100
}

/// Whether a Windows time is one since 1970 whose nanoseconds fit 64 bits.
pub open spec fn fits_time(told: u64) -> bool {
    116444736000000000 <= told && (told - 116444736000000000) * 100 <= 0x7FFF_FFFF_FFFF_FFFF
}

proof fn lemma_takes_time(told: u64, was: i64)
    ensures
        ({
            let is = match nanos_of(told) {
                Some(n) => n,
                None => was,
            };
            &&& takes_time(told, was, is)
            &&& fits_time(told) ==> filetime_of(is) == told
        }),
{
}

/// Each of the times that are set is the time on the volume afterwards, and no
/// other: the creation time, the time of the last write, of the last change and
/// of the last access. What else is told of the object stays, and what is told
/// of the file afterwards has the new times.
#[verifier::spinoff_prover]
#[verifier::rlimit(30)]
pub proof fn law_times_are_set(
    d: DriverView,
    t: Tree,
    m: Set<u64>,
    context: ContextView,
    creation: u64,
    access: u64,
    write: u64,
    change: u64,
)
    requires
        d.volume.sound(t, m),
        d.set_times(context, creation, access, write, change).0 is Ok,
    ensures
        ({
            let (r, after) = d.set_times(context, creation, access, write, change);
            let was = d.volume.stat(context.path)->Ok_0;
            let is = after.volume.stat(context.path)->Ok_0;
            let old_inode = (d.volume.resolve(context.path)->Ok_0).1;
            let new_inode = (after.volume.resolve(context.path)->Ok_0).1;
            &&& d.volume.stat(context.path) is Ok
            &&& after.volume.stat(context.path) is Ok
            &&& takes_time(creation, was.create_time, is.create_time)
            &&& takes_time(write, was.modify_time, is.modify_time)
            &&& takes_time(change, old_inode.change_time, new_inode.change_time)
            &&& takes_time(access, old_inode.access_time, new_inode.access_time)
            &&& is == (FileStat {
                create_time: is.create_time,
                modify_time: is.modify_time,
                ..was
            })
            &&& recalled(after.cache, context.path) is None
            &&& r matches Ok(Some(i)) && {
                &&& fits_time(creation) ==> i.creation_time == creation
                &&& fits_time(write) ==> i.last_write_time == write
                &&& i.file_size == was.size
                &&& i.index_number == was.oid
            }
        }),
{
    let (oid, inode) = d.volume.resolve(context.path)->Ok_0;
    lemma_takes_time(creation, inode.create_time);
    lemma_takes_time(write, inode.modify_time);
    lemma_takes_time(change, inode.change_time);
    lemma_takes_time(access, inode.access_time);
    let u = law_set_times_is_shown(
        d.volume,
        t,
        m,
        oid,
        nanos_of(creation),
        nanos_of(write),
        nanos_of(change),
        nanos_of(access),
    );
    let after = d.set_times(context, creation, access, write, change).1;
    let now = (after.volume.resolve(context.path)->Ok_0).1;
    assert(after.volume.resolve(context.path) == Ok::<(u64, InodeVal), Fault>(
        (
            oid,
            with_times(
                inode,
                nanos_of(creation),
                nanos_of(write),
                nanos_of(change),
                nanos_of(access),
            ),
        ),
    ));
    law_noted_is_recalled(d.cache, 0, context.path, arbitrary());
}

/// The times of what is there can be set where the volume is writable and has
/// room for another transaction.
pub proof fn law_times_can_be_set(
    d: DriverView,
    t: Tree,
    m: Set<u64>,
    context: ContextView,
    creation: u64,
    access: u64,
    write: u64,
    change: u64,
)
    requires
        d.volume.sound(t, m),
        can_commit(d.volume),
        d.mode == ReadWriteMode::ReadWriteUnsafe,
        d.volume.stat(context.path) is Ok,
    ensures
        d.set_times(context, creation, access, write, change).0 is Ok,
{
    law_set_times_succeeds(
        d.volume,
        t,
        m,
        context.path,
        nanos_of(creation),
        nanos_of(write),
        nanos_of(change),
        nanos_of(access),
    );
}

/// On a writable volume every directory and every file with one name can be
/// marked for deletion, and nothing else that is there; what is not there is
/// not found. To take the mark away is always accepted. A read-only volume
/// refuses both.
pub proof fn law_what_can_be_marked_for_deletion(d: DriverView, context: ContextView)
    ensures
        d.mode == ReadWriteMode::ReadWriteUnsafe ==> {
            &&& d.deletable(context, false) is Ok
            &&& d.volume.stat(context.path) is Err ==> d.deletable(context, true) == Err::<
                (),
                u32,
            >(0xC0000034)
            &&& d.volume.stat(context.path) matches Ok(s) ==> {
                &&& s.kind is Directory ==> d.deletable(context, true) is Ok
                &&& s.kind is File && s.nlink == 1 ==> d.deletable(context, true) is Ok
                &&& s.kind is File && s.nlink != 1 ==> d.deletable(context, true) == Err::<
                    (),
                    u32,
                >(0xC0000002)
                &&& s.kind is Symlink ==> d.deletable(context, true) == Err::<(), u32>(0xC0000002)
            }
        },
        d.mode == ReadWriteMode::ReadOnly ==> forall|delete: bool| #[trigger]
            d.deletable(context, delete) == Err::<(), u32>(0xC00000A2),
{
}

/// The path of an entry of a directory.
pub open spec fn path_in_directory(dir: Seq<char>, name: Seq<char>) -> Seq<char> {
    if dir == seq!['/'] || dir.len() == 0 {
        seq!['/'] + name
    } else {
        dir + seq!['/'] + name
    }
}

/// The path under which an entry is remembered is its path in the directory,
/// and its last name is that of the entry.
pub proof fn lemma_path_in_directory(dir: Seq<char>, name: Seq<char>)
    ensures
        walked_path(parent_prefix(dir), name) == path_in_directory(dir, name),
        name.len() > 0 && !name.contains('/') ==> components(path_in_directory(dir, name))
            == components(dir).push(name),
{
    reveal_strlit("/");
    reveal_strlit("");
    assert("/"@ =~= seq!['/']);
    let w = walked_path(parent_prefix(dir), name);
    assert(w =~= path_in_directory(dir, name));
    if name.len() > 0 && !name.contains('/') {
        assert forall|i: int| 0 <= i < name.len() implies (#[trigger] name[i]) != '/' by {}
        law_name_behind_slash(dir, name);
        if dir == seq!['/'] || dir.len() == 0 {
            law_name_behind_slash(seq![], name);
            assert(Seq::<char>::empty() + seq!['/'] + name =~= seq!['/'] + name);
            law_only_slashes_have_no_names(dir);
            law_only_slashes_have_no_names(seq![]);
        }
    }
}

/// A listing has a line for every path that is one name behind the
/// directory's, and what the line tells is what is told of the file when it is
/// asked about by its path: the object, the size and the times. The attributes
/// are the same where the entry is of the kind that its object is. Gives the
/// place of the line.
#[verifier::spinoff_prover]
#[verifier::rlimit(30)]
pub proof fn law_listing_tells_what_is_told_of_files(
    d: DriverView,
    context: ContextView,
    name: Seq<char>,
) -> (k: int)
    requires
        d.list(context).0 is Ok,
        name.len() > 0,
        !name.contains('/'),
        d.volume.stat(path_in_directory(context.path, name)) is Ok,
    ensures
        ({
            let lines = d.list(context).0->Ok_0;
            let line = lines[k];
            let stat = d.volume.stat(path_in_directory(context.path, name))->Ok_0;
            let file = ContextView { path: path_in_directory(context.path, name), ..context };
            let fresh = DriverView { cache: seq![], ..d };
            let entry = d.volume.listing(context.path)->Ok_0[k - 2];
            &&& 2 <= k < lines.len()
            &&& line.name == name
            &&& line.info.index_number == stat.oid
            &&& line.info.file_size == stat.size
            &&& stat.create_time >= 0 ==> line.info.creation_time == 116444736000000000
                + stat.create_time as int / 100
            &&& stat.modify_time >= 0 ==> line.info.last_write_time == 116444736000000000
                + stat.modify_time as int / 100
            &&& fresh.info(file, 0).0 matches Ok(i) && line.info == (FileInfo {
                file_attributes: line.info.file_attributes,
                ..i
            }) && (entry.kind == stat.kind ==> line.info == i)
        }),
{
    let path = path_in_directory(context.path, name);
    lemma_path_in_directory(context.path, name);
    let k = law_listing_tells_what_paths_tell(d.volume, context.path, name, path);
    let entries = d.volume.listing(context.path)->Ok_0;
    let stat = d.volume.stat(path)->Ok_0;
    let file = ContextView { path, ..context };
    let fresh = DriverView { cache: seq![], ..d };
    assert(fresh.info(file, 0).0 == Ok::<FileInfo, u32>(file_info(stat, stat.size, d.mode)));
    let line = d.list(context).0->Ok_0[k + 2];
    assert(line == DirLineView {
        name,
        info: file_info(entry_stat(entries[k]), entries[k].size, d.mode),
    });
    law_file_info(stat, stat.size, d.mode);
    k + 2
}

/// Where a name is listed once, the line that has it tells what is told of the
/// file.
pub proof fn law_every_line_tells_what_is_told_of_its_file(
    d: DriverView,
    context: ContextView,
    k: int,
)
    requires
        d.list(context).0 is Ok,
        2 <= k < d.list(context).0->Ok_0.len(),
        ({
            let lines = d.list(context).0->Ok_0;
            &&& lines[k].name.len() > 0
            &&& !lines[k].name.contains('/')
            &&& forall|j: int|
                2 <= j < lines.len() && j != k ==> (#[trigger] lines[j]).name != lines[k].name
            &&& d.volume.stat(path_in_directory(context.path, lines[k].name)) is Ok
        }),
    ensures
        ({
            let line = d.list(context).0->Ok_0[k];
            let file = ContextView { path: path_in_directory(context.path, line.name), ..context };
            let fresh = DriverView { cache: seq![], ..d };
            let entry = d.volume.listing(context.path)->Ok_0[k - 2];
            let stat = d.volume.stat(file.path)->Ok_0;
            fresh.info(file, 0).0 matches Ok(i) && {
                &&& line.info.creation_time == i.creation_time
                &&& line.info.last_access_time == i.last_access_time
                &&& line.info.last_write_time == i.last_write_time
                &&& line.info.change_time == i.change_time
                &&& line.info.file_size == i.file_size
                &&& line.info.allocation_size == i.allocation_size
                &&& line.info.index_number == i.index_number
                &&& entry.kind == stat.kind ==> line.info.file_attributes == i.file_attributes
            }
        }),
{
    let name = d.list(context).0->Ok_0[k].name;
    let j = law_listing_tells_what_is_told_of_files(d, context, name);
    assert(j == k);
}

/// A listing starts with the directory itself and the one above it, and has a
/// line for each entry of the directory behind them, in the order in which the
/// volume has them. What is not a directory is not listed.
pub proof fn law_listing_lines(d: DriverView, context: ContextView)
    ensures
        match d.volume.listing(context.path) {
            Err(_) => d.list(context).0 == Err::<Seq<DirLineView>, u32>(0xC0000103) && d.list(
                context,
            ).1 == d,
            Ok(entries) => d.list(context).0 matches Ok(lines) && {
                &&& lines.len() == entries.len() + 2
                &&& lines[0].name == seq!['.']
                &&& lines[1].name == seq!['.', '.']
                &&& lines[0].info.file_attributes == 0x10
                &&& lines[1].info.file_attributes == 0x10
                &&& forall|i: int|
                    0 <= i < entries.len() ==> (#[trigger] lines[i + 2]).name == entries[i].name
                &&& forall|i: int|
                    0 <= i < entries.len() ==> ((#[trigger] lines[i + 2]).info.file_attributes
                        == 0x10 <==> entries[i].kind is Directory)
            },
        },
{
    reveal_strlit(".");
    reveal_strlit("..");
    assert("."@ =~= seq!['.']);
    assert(".."@ =~= seq!['.', '.']);
}

} // verus!

//! How paths lead through directory records.

use crate::apfs::btree::search::Found;
use crate::apfs::catalog::query::drec_named;
use crate::apfs::catalog::records::{
    drec_file_type, drec_name_outcome, drec_outcome, DrecVal, InodeVal, DT_DIR, J_TYPE_DIR_REC,
};
use crate::apfs::error::Fault;
use crate::apfs::volume::model::{drec_in, inode_in, walk_in};
use crate::apfs::volume::tree::picked;
use vstd::prelude::*;

verus! {

/// Whether a record from `i` on has this name.
pub open spec fn has_name(found: Seq<Found>, name: Seq<char>, i: int) -> bool
    decreases found.len() - i,
{
    if i >= found.len() || i < 0 {
        false
    } else {
        drec_name_outcome(found[i].0) == Ok::<Seq<char>, Fault>(name) || has_name(
            found,
            name,
            i + 1,
        )
    }
}

/// Whether a directory has an entry of this name.
pub open spec fn names_entry(r: Seq<Found>, dir: u64, name: Seq<char>) -> bool {
    has_name(picked(r, dir, J_TYPE_DIR_REC), name, 0)
}

/// Where no record has the name, none is found.
pub proof fn lemma_no_name(found: Seq<Found>, name: Seq<char>, i: int)
    requires
        !has_name(found, name, i),
    ensures
        drec_named(found, name, i) == Err::<DrecVal, Fault>(Fault::NotFound(name)),
    decreases found.len() - i,
{
    if 0 <= i < found.len() {
        lemma_no_name(found, name, i + 1);
    }
}

/// The first record of a name in two lists is that of the first list, if it
/// has one.
proof fn lemma_named_cat(a: Seq<Found>, b: Seq<Found>, name: Seq<char>, i: int)
    requires
        0 <= i <= a.len(),
    ensures
        drec_named(a + b, name, i) == (if has_name(a, name, i) {
            drec_named(a, name, i)
        } else {
            drec_named(b, name, 0)
        }),
        has_name(a + b, name, i) == (has_name(a, name, i) || has_name(b, name, 0)),
    decreases a.len() - i,
{
    let c = a + b;
    if i < a.len() {
        assert(c[i] == a[i]);
        lemma_named_cat(a, b, name, i + 1);
    } else {
        lemma_named_shift(a, b, name, 0);
    }
}

proof fn lemma_named_shift(a: Seq<Found>, b: Seq<Found>, name: Seq<char>, j: int)
    requires
        0 <= j <= b.len(),
    ensures
        drec_named(a + b, name, a.len() + j) == drec_named(b, name, j),
        has_name(a + b, name, a.len() + j) == has_name(b, name, j),
    decreases b.len() - j,
{
    let c = a + b;
    if j < b.len() {
        assert(c[a.len() + j] == b[j]);
        lemma_named_shift(a, b, name, j + 1);
    }
}

/// What a record among others does to the lookup of a name.
pub proof fn lemma_named_among(x: Seq<Found>, f: Found, y: Seq<Found>, name: Seq<char>)
    ensures
        drec_name_outcome(f.0) != Ok::<Seq<char>, Fault>(name) ==> drec_named(
            x + seq![f] + y,
            name,
            0,
        ) == drec_named(x + y, name, 0) && has_name(x + seq![f] + y, name, 0) == has_name(
            x + y,
            name,
            0,
        ),
        drec_name_outcome(f.0) == Ok::<Seq<char>, Fault>(name) ==> has_name(
            x + seq![f] + y,
            name,
            0,
        ),
        drec_name_outcome(f.0) == Ok::<Seq<char>, Fault>(name) && !has_name(x, name, 0)
            ==> drec_named(x + seq![f] + y, name, 0) == drec_outcome(f.1),
{
    lemma_named_cat(x + seq![f], y, name, 0);
    lemma_named_cat(x, seq![f], name, 0);
    lemma_named_cat(x, y, name, 0);
    assert(seq![f][0] == f);
    reveal_with_fuel(has_name, 2);
    reveal_with_fuel(drec_named, 2);
}

/// The names of two lists.
pub proof fn lemma_has_name_cat(a: Seq<Found>, b: Seq<Found>, name: Seq<char>)
    ensures
        has_name(a + b, name, 0) == (has_name(a, name, 0) || has_name(b, name, 0)),
{
    lemma_named_cat(a, b, name, 0);
}

/// The directory that names from `i` on lead to, when all of them are names of
/// directories.
pub open spec fn dir_walk(r: Seq<Found>, names: Seq<Seq<char>>, i: int, dir: u64) -> Option<u64>
    decreases names.len() - i,
{
    if i >= names.len() || i < 0 {
        Some(dir)
    } else {
        match drec_in(r, dir, names[i]) {
            Err(_) => None,
            Ok(d) => if drec_file_type(d.flags) == DT_DIR {
                dir_walk(r, names, i + 1, d.file_id)
            } else {
                None
            },
        }
    }
}

/// The object of a directory record.
pub open spec fn entry_of(r: Seq<Found>, d: Result<DrecVal, Fault>) -> Result<
    (u64, InodeVal),
    Fault,
> {
    match d {
        Err(e) => Err(e),
        Ok(d) => match inode_in(r, d.file_id) {
            Err(e) => Err(e),
            Ok(i) => Ok((d.file_id, i)),
        },
    }
}

/// A path in a directory leads to the entry of the directory.
pub proof fn lemma_walk_entry(
    r: Seq<Found>,
    names: Seq<Seq<char>>,
    name: Seq<char>,
    i: int,
    dir: u64,
)
    requires
        0 <= i <= names.len(),
        dir_walk(r, names, i, dir) is Some,
    ensures
        walk_in(r, names.push(name), i, dir) == entry_of(
            r,
            drec_in(r, dir_walk(r, names, i, dir)->0, name),
        ),
        walk_in(r, names, i, dir) == (match inode_in(r, dir_walk(r, names, i, dir)->0) {
            Err(e) => Err(e),
            Ok(inode) => Ok((dir_walk(r, names, i, dir)->0, inode)),
        }),
    decreases names.len() - i,
{
    let all = names.push(name);
    if i < names.len() {
        assert(all[i] == names[i]);
        let d = drec_in(r, dir, names[i])->Ok_0;
        lemma_walk_entry(r, names, name, i + 1, d.file_id);
    } else {
        assert(all[i] == name);
        if let Ok(d) = drec_in(r, dir, name) {
            assert(walk_in(r, all, i + 1, d.file_id) == (match inode_in(r, d.file_id) {
                Err(e) => Err(e),
                Ok(inode) => Ok((d.file_id, inode)),
            }));
        }
    }
}

/// Paths lead where they led, through entries that stay.
pub proof fn lemma_walk_kept(
    r: Seq<Found>,
    q: Seq<Found>,
    names: Seq<Seq<char>>,
    i: int,
    dir: u64,
    g: spec_fn(u64, InodeVal) -> InodeVal,
)
    requires
        forall|o: u64, nm: Seq<char>| #[trigger]
            drec_in(r, o, nm) is Ok ==> drec_in(q, o, nm) == drec_in(r, o, nm),
        forall|o: u64| #[trigger]
            inode_in(r, o) is Ok ==> inode_in(q, o) == Ok::<InodeVal, Fault>(
                g(o, inode_in(r, o)->Ok_0),
            ),
    ensures
        walk_in(r, names, i, dir) matches Ok((o, x)) ==> walk_in(q, names, i, dir) == Ok::<
            (u64, InodeVal),
            Fault,
        >((o, g(o, x))),
        dir_walk(r, names, i, dir) is Some ==> dir_walk(q, names, i, dir) == dir_walk(
            r,
            names,
            i,
            dir,
        ),
    decreases names.len() - i,
{
    if 0 <= i < names.len() {
        if let Ok(d) = drec_in(r, dir, names[i]) {
            lemma_walk_kept(r, q, names, i + 1, d.file_id, g);
        }
    } else {
        let x = inode_in(r, dir);
    }
}

/// Where records have no entries and objects that others lack, a path leads to
/// nothing that it did not lead to among the others.
pub proof fn lemma_walk_back(
    r: Seq<Found>,
    q: Seq<Found>,
    names: Seq<Seq<char>>,
    i: int,
    dir: u64,
)
    requires
        forall|o: u64, nm: Seq<char>| #[trigger]
            drec_in(q, o, nm) is Ok ==> drec_in(r, o, nm) == drec_in(q, o, nm),
        forall|o: u64| #[trigger] inode_in(q, o) is Ok ==> inode_in(r, o) is Ok,
    ensures
        walk_in(q, names, i, dir) matches Ok((o, _)) ==> inode_in(q, o) is Ok && (walk_in(
            r,
            names,
            i,
            dir,
        ) matches Ok((was, _)) && was == o),
    decreases names.len() - i,
{
    if 0 <= i < names.len() {
        if let Ok(d) = drec_in(q, dir, names[i]) {
            lemma_walk_back(r, q, names, i + 1, d.file_id);
        }
    }
}

/// Where records have one entry more, for an object without entries of its
/// own, every path leads where it led before or to that object.
pub proof fn lemma_walk_new(
    r: Seq<Found>,
    q: Seq<Found>,
    names: Seq<Seq<char>>,
    i: int,
    start: u64,
    dir: u64,
    name: Seq<char>,
    oid: u64,
)
    requires
        forall|o: u64, nm: Seq<char>|
            (o, nm) != (dir, name) ==> #[trigger] drec_in(q, o, nm) == drec_in(r, o, nm),
        drec_in(q, dir, name) matches Ok(d) && d.file_id == oid,
        picked(r, oid, J_TYPE_DIR_REC).len() == 0,
        dir != oid,
        forall|o: u64| #[trigger] inode_in(q, o) is Ok && o != oid ==> inode_in(r, o) is Ok,
    ensures
        walk_in(q, names, i, start) matches Ok((o, _)) ==> (o != oid ==> (walk_in(
            r,
            names,
            i,
            start,
        ) matches Ok((was, _)) && was == o)),
    decreases names.len() - i,
{
    if 0 <= i < names.len() {
        if let Ok(d) = drec_in(q, start, names[i]) {
            lemma_walk_new(r, q, names, i + 1, d.file_id, dir, name, oid);
            if (start, names[i]) == (dir, name) && i + 1 < names.len() {
                assert(drec_in(q, oid, names[i + 1]) == drec_in(r, oid, names[i + 1]));
            }
        }
    }
}

/// Whether a name stands in a directory once at most.
pub open spec fn names_once(found: Seq<Found>, name: Seq<char>) -> bool {
    forall|i: int, j: int|
        0 <= i < j < found.len() ==> drec_name_outcome((#[trigger] found[i]).0) != Ok::<
            Seq<char>,
            Fault,
        >(name) || drec_name_outcome((#[trigger] found[j]).0) != Ok::<Seq<char>, Fault>(name)
}

proof fn lemma_where_name(found: Seq<Found>, name: Seq<char>, i: int) -> (k: int)
    requires
        0 <= i,
        has_name(found, name, i),
    ensures
        i <= k < found.len(),
        drec_name_outcome(found[k].0) == Ok::<Seq<char>, Fault>(name),
    decreases found.len() - i,
{
    if drec_name_outcome(found[i].0) == Ok::<Seq<char>, Fault>(name) {
        i
    } else {
        lemma_where_name(found, name, i + 1)
    }
}

/// Around the one record of a name no record has it.
pub proof fn lemma_once(x: Seq<Found>, f: Found, y: Seq<Found>, name: Seq<char>)
    requires
        names_once(x + seq![f] + y, name),
        drec_name_outcome(f.0) == Ok::<Seq<char>, Fault>(name),
    ensures
        !has_name(x + y, name, 0),
        !has_name(x, name, 0),
        drec_named(x + seq![f] + y, name, 0) == drec_outcome(f.1),
{
    let all = x + seq![f] + y;
    let c = x.len() as int;
    assert(all[c] == f);
    lemma_has_name_cat(x, y, name);
    if has_name(x, name, 0) {
        let k = lemma_where_name(x, name, 0);
        assert(all[k] == x[k]);
    }
    if has_name(y, name, 0) {
        let k = lemma_where_name(y, name, 0);
        assert(all[c + 1 + k] == y[k]);
    }
    lemma_named_among(x, f, y, name);
}

/// Whether names from `i` on lead somewhere without passing through one entry.
pub open spec fn path_avoids(
    r: Seq<Found>,
    names: Seq<Seq<char>>,
    i: int,
    start: u64,
    dir: u64,
    name: Seq<char>,
) -> bool
    decreases names.len() - i,
{
    if i >= names.len() || i < 0 {
        true
    } else {
        &&& (start, names[i]) != (dir, name)
        &&& drec_in(r, start, names[i]) matches Ok(d) ==> path_avoids(
            r,
            names,
            i + 1,
            d.file_id,
            dir,
            name,
        )
    }
}

/// Paths lead where they led when one entry is gone, except through it: it is
/// no directory, or a directory without entries.
pub proof fn lemma_walk_without(
    r: Seq<Found>,
    q: Seq<Found>,
    names: Seq<Seq<char>>,
    i: int,
    start: u64,
    dir: u64,
    name: Seq<char>,
    oid: u64,
    g: spec_fn(u64, InodeVal) -> InodeVal,
    other_dir: u64,
    other_name: Seq<char>,
)
    requires
        forall|o: u64, nm: Seq<char>|
            (o, nm) != (dir, name) ==> #[trigger] drec_in(q, o, nm) == drec_in(r, o, nm),
        drec_in(r, dir, name) matches Ok(d) && d.file_id == oid && (drec_file_type(d.flags)
            != DT_DIR || picked(r, oid, J_TYPE_DIR_REC).len() == 0),
        forall|o: u64| #[trigger]
            inode_in(r, o) is Ok && o != oid ==> inode_in(q, o) == Ok::<InodeVal, Fault>(
                g(o, inode_in(r, o)->Ok_0),
            ),
    ensures
        walk_in(r, names, i, start) matches Ok((o, x)) ==> (o != oid ==> walk_in(
            q,
            names,
            i,
            start,
        ) == Ok::<(u64, InodeVal), Fault>((o, g(o, x)))),
        dir_walk(r, names, i, start) matches Some(p) ==> (p != oid ==> dir_walk(
            q,
            names,
            i,
            start,
        ) == Some(p)),
        path_avoids(r, names, i, start, other_dir, other_name) && (walk_in(
            r,
            names,
            i,
            start,
        ) matches Ok((o, _)) && o != oid) ==> path_avoids(
            q,
            names,
            i,
            start,
            other_dir,
            other_name,
        ),
        path_avoids(r, names, i, start, other_dir, other_name) && (dir_walk(
            r,
            names,
            i,
            start,
        ) matches Some(p) && p != oid) ==> path_avoids(
            q,
            names,
            i,
            start,
            other_dir,
            other_name,
        ),
    decreases names.len() - i,
{
    if 0 <= i < names.len() {
        if let Ok(d) = drec_in(r, start, names[i]) {
            if (start, names[i]) == (dir, name) {
                if i + 1 < names.len() {
                    if picked(r, oid, J_TYPE_DIR_REC).len() == 0 {
                        lemma_no_name(picked(r, oid, J_TYPE_DIR_REC), names[i + 1], 0);
                        assert(drec_in(r, oid, names[i + 1]) is Err);
                        assert(walk_in(r, names, i + 1, oid) is Err);
                        assert(dir_walk(r, names, i + 1, oid) is None);
                    }
                } else {
                    assert(walk_in(r, names, i + 1, oid) matches Ok((o, _)) ==> o == oid);
                    assert(dir_walk(r, names, i + 1, oid) == Some(oid));
                }
            } else {
                assert(drec_in(q, start, names[i]) == drec_in(r, start, names[i]));
                lemma_walk_without(
                    r,
                    q,
                    names,
                    i + 1,
                    d.file_id,
                    dir,
                    name,
                    oid,
                    g,
                    other_dir,
                    other_name,
                );
            }
        } else {
            assert((start, names[i]) != (dir, name));
            assert(drec_in(q, start, names[i]) == drec_in(r, start, names[i]));
        }
    } else {
        let x = inode_in(r, start);
    }
}

/// Where a name stands once, it stands once at most when a record is taken out.
pub proof fn lemma_once_without(x: Seq<Found>, f: Found, y: Seq<Found>, name: Seq<char>)
    requires
        names_once(x + seq![f] + y, name),
    ensures
        names_once(x + y, name),
{
    let a = x + seq![f] + y;
    let b = x + y;
    assert forall|i: int, j: int| 0 <= i < j < b.len() implies drec_name_outcome(
        (#[trigger] b[i]).0,
    ) != Ok::<Seq<char>, Fault>(name) || drec_name_outcome((#[trigger] b[j]).0) != Ok::<
        Seq<char>,
        Fault,
    >(name) by {
        let i1 = if i < x.len() {
            i
        } else {
            i + 1
        };
        let j1 = if j < x.len() {
            j
        } else {
            j + 1
        };
        assert(a[i1] == b[i] && a[j1] == b[j]);
    }
}

/// Behind other names, names lead where they lead by themselves.
pub proof fn lemma_walk_behind(
    r: Seq<Found>,
    a: Seq<Seq<char>>,
    b: Seq<Seq<char>>,
    k: int,
    start: u64,
)
    requires
        0 <= k <= b.len(),
    ensures
        walk_in(r, a + b, a.len() + k, start) matches Ok(x) ==> walk_in(r, b, k, start) == Ok::<
            (u64, InodeVal),
            Fault,
        >(x),
        walk_in(r, b, k, start) matches Ok(x) ==> walk_in(r, a + b, a.len() + k, start) == Ok::<
            (u64, InodeVal),
            Fault,
        >(x),
    decreases b.len() - k,
{
    if k < b.len() {
        assert((a + b)[a.len() + k] == b[k]);
        if let Ok(d) = drec_in(r, start, b[k]) {
            lemma_walk_behind(r, a, b, k + 1, d.file_id);
        }
    }
}

/// A path through directories leads on from the directory it reaches.
pub proof fn lemma_walk_through(
    r: Seq<Found>,
    a: Seq<Seq<char>>,
    b: Seq<Seq<char>>,
    i: int,
    start: u64,
)
    requires
        0 <= i <= a.len(),
        dir_walk(r, a, i, start) is Some,
    ensures
        ({
            let dir = dir_walk(r, a, i, start)->0;
            &&& walk_in(r, a + b, i, start) matches Ok(x) ==> walk_in(r, b, 0, dir) == Ok::<
                (u64, InodeVal),
                Fault,
            >(x)
            &&& walk_in(r, b, 0, dir) matches Ok(x) ==> walk_in(r, a + b, i, start) == Ok::<
                (u64, InodeVal),
                Fault,
            >(x)
        }),
    decreases a.len() - i,
{
    if i < a.len() {
        assert((a + b)[i] == a[i]);
        let d = drec_in(r, start, a[i])->Ok_0;
        lemma_walk_through(r, a, b, i + 1, d.file_id);
    } else {
        lemma_walk_behind(r, a, b, 0, start);
    }
}

/// A path through directories and one directory more.
pub proof fn lemma_dir_walk_entry(
    r: Seq<Found>,
    names: Seq<Seq<char>>,
    name: Seq<char>,
    i: int,
    start: u64,
)
    requires
        0 <= i <= names.len(),
        dir_walk(r, names, i, start) is Some,
        drec_in(r, dir_walk(r, names, i, start)->0, name) matches Ok(d) && drec_file_type(d.flags)
            == DT_DIR,
    ensures
        dir_walk(r, names.push(name), i, start) == Some(
            drec_in(r, dir_walk(r, names, i, start)->0, name)->Ok_0.file_id,
        ),
    decreases names.len() - i,
{
    let all = names.push(name);
    if i < names.len() {
        assert(all[i] == names[i]);
        let d = drec_in(r, start, names[i])->Ok_0;
        lemma_dir_walk_entry(r, names, name, i + 1, d.file_id);
    } else {
        assert(all[i] == name);
        let d = drec_in(r, start, name)->Ok_0;
        assert(dir_walk(r, all, i + 1, d.file_id) == Some(d.file_id));
    }
}

/// What is reached behind an entry is reached through a directory.
pub proof fn lemma_walk_under(
    r: Seq<Found>,
    names: Seq<Seq<char>>,
    name: Seq<char>,
    b: Seq<Seq<char>>,
    i: int,
    start: u64,
)
    requires
        0 <= i <= names.len(),
        dir_walk(r, names, i, start) is Some,
        b.len() > 0,
        walk_in(r, names.push(name) + b, i, start) is Ok,
    ensures
        drec_in(r, dir_walk(r, names, i, start)->0, name) matches Ok(d) && drec_file_type(d.flags)
            == DT_DIR,
    decreases names.len() - i,
{
    let all = names.push(name) + b;
    if i < names.len() {
        assert(all[i] == names[i]);
        let d = drec_in(r, start, names[i])->Ok_0;
        lemma_walk_under(r, names, name, b, i + 1, d.file_id);
    } else {
        assert(all[i] == name);
    }
}

} // verus!

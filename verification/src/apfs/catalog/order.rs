//! The order of catalog keys.

use crate::apfs::bytes::{le_u32, le_u64, rd_u32, rd_u64};
use crate::apfs::catalog::records::{
    key_oid, key_type, J_TYPE_DIR_REC, J_TYPE_FILE_EXTENT, J_TYPE_XATTR,
};
use crate::apfs::packed::KIND_UNIT;
use std::cmp::Ordering;
use vstd::prelude::*;

verus! {

/// -1, 0 or 1 as `a` is less than, equal to or greater than `b`.
pub open spec fn sign(a: int, b: int) -> int {
    if a < b { -1 } else if a == b { 0 } else { 1 }
}

/// The order of two byte strings from position `i` on: byte by byte, a prefix
/// before what it is a prefix of.
pub open spec fn bytes_sign(a: Seq<u8>, b: Seq<u8>, i: int) -> int
    decreases a.len() - i,
{
    if i >= a.len() || i >= b.len() {
        sign(a.len() as int, b.len() as int)
    } else if a[i] != b[i] {
        sign(a[i] as int, b[i] as int)
    } else {
        bytes_sign(a, b, i + 1)
    }
}

/// The order of what follows the first `n` bytes. A string that is too short
/// comes first.
pub open spec fn tail_sign(a: Seq<u8>, b: Seq<u8>, n: int) -> int {
    if a.len() < n && b.len() < n {
        0
    } else if a.len() < n {
        -1
    } else if b.len() < n {
        1
    } else {
        bytes_sign(a, b, n)
    }
}

/// The hash in the key of a directory record.
pub open spec fn key_hash(k: Seq<u8>) -> int {
    if k.len() >= 12 { (le_u32(k, 8) / 1024) as int } else { 0 }
}

/// The logical address in the key of a file extent.
pub open spec fn key_logical(k: Seq<u8>) -> int {
    if k.len() >= 16 { le_u64(k, 8) as int } else { 0 }
}

/// The order of what follows identifier and type in two keys of one type.
pub open spec fn subkey_sign(a: Seq<u8>, b: Seq<u8>, j_type: u8) -> int {
    if j_type == J_TYPE_DIR_REC {
        if key_hash(a) != key_hash(b) {
            sign(key_hash(a), key_hash(b))
        } else {
            tail_sign(a, b, 12)
        }
    } else if j_type == J_TYPE_FILE_EXTENT {
        sign(key_logical(a), key_logical(b))
    } else if j_type == J_TYPE_XATTR {
        tail_sign(a, b, 8)
    } else {
        0
    }
}

/// The order of two catalog keys: by identifier, then by type, then by what
/// the type orders by (hash and name of a directory record, logical address of
/// a file extent, name of an attribute). Keys too short to have an identifier
/// are equal to all.
pub open spec fn key_sign(a: Seq<u8>, b: Seq<u8>) -> int {
    if a.len() < 8 || b.len() < 8 {
        0
    } else if key_oid(a) != key_oid(b) {
        sign(key_oid(a) as int, key_oid(b) as int)
    } else if key_type(a) != key_type(b) {
        sign(key_type(a) as int, key_type(b) as int)
    } else {
        subkey_sign(a, b, key_type(a))
    }
}

fn sign_u64(a: u64, b: u64) -> (r: i8)
    ensures
        r == sign(a as int, b as int),
{
    if a < b {
        -1
    } else if a == b {
        0
    } else {
        1
    }
}

fn tail_order(a: &[u8], b: &[u8], n: usize) -> (r: i8)
    ensures
        r == tail_sign(a@, b@, n as int),
{
    if a.len() < n && b.len() < n {
        return 0;
    }
    if a.len() < n {
        return -1;
    }
    if b.len() < n {
        return 1;
    }
    let mut i: usize = n;
    while i < a.len() && i < b.len()
        invariant
            n <= i <= a.len(),
            i <= b.len(),
            bytes_sign(a@, b@, n as int) == bytes_sign(a@, b@, i as int),
        decreases a.len() - i,
    {
        if a[i] != b[i] {
            return sign_u64(a[i] as u64, b[i] as u64);
        }
        i += 1;
    }
    sign_u64(a.len() as u64, b.len() as u64)
}

fn hash_in(k: &[u8]) -> (h: u32)
    ensures
        h == key_hash(k@),
{
    if k.len() >= 12 {
        rd_u32(k, 8) / 1024
    } else {
        0
    }
}

fn logical_in(k: &[u8]) -> (n: u64)
    ensures
        n == key_logical(k@),
{
    if k.len() >= 16 {
        rd_u64(k, 8)
    } else {
        0
    }
}

/// The order of two catalog keys as -1, 0 or 1.
pub fn key_order(a: &[u8], b: &[u8]) -> (r: i8)
    ensures
        r == key_sign(a@, b@),
{
    if a.len() < 8 || b.len() < 8 {
        return 0;
    }
    let wa: u64 = rd_u64(a, 0);
    let wb: u64 = rd_u64(b, 0);
    if wa % KIND_UNIT != wb % KIND_UNIT {
        return sign_u64(wa % KIND_UNIT, wb % KIND_UNIT);
    }
    let ta: u64 = wa / KIND_UNIT;
    let tb: u64 = wb / KIND_UNIT;
    if ta != tb {
        return sign_u64(ta, tb);
    }
    if ta == J_TYPE_DIR_REC as u64 {
        let ha: u32 = hash_in(a);
        let hb: u32 = hash_in(b);
        if ha != hb {
            return sign_u64(ha as u64, hb as u64);
        }
        return tail_order(a, b, 12);
    }
    if ta == J_TYPE_FILE_EXTENT as u64 {
        return sign_u64(logical_in(a), logical_in(b));
    }
    if ta == J_TYPE_XATTR as u64 {
        return tail_order(a, b, 8);
    }
    0
}

/// Compare two raw catalog keys: by `(oid, j_type)` first, then by the
/// per-record secondary key (drec hash and name, file extent logical address,
/// xattr name).
pub fn cmp_catalog_keys(a: &[u8], b: &[u8]) -> (o: Ordering)
    ensures
        match o {
            Ordering::Less => key_sign(a@, b@) < 0,
            Ordering::Equal => key_sign(a@, b@) == 0,
            Ordering::Greater => key_sign(a@, b@) > 0,
        },
{
    let r: i8 = key_order(a, b);
    if r < 0 {
        Ordering::Less
    } else if r == 0 {
        Ordering::Equal
    } else {
        Ordering::Greater
    }
}

proof fn lemma_bytes_sign_flip(a: Seq<u8>, b: Seq<u8>, i: int)
    ensures
        bytes_sign(a, b, i) == -bytes_sign(b, a, i),
    decreases a.len() - i,
{
    if i < a.len() && i < b.len() && a[i] == b[i] {
        lemma_bytes_sign_flip(a, b, i + 1);
    }
}

proof fn lemma_bytes_sign_chain(a: Seq<u8>, b: Seq<u8>, c: Seq<u8>, i: int)
    requires
        bytes_sign(a, b, i) <= 0,
        bytes_sign(b, c, i) <= 0,
    ensures
        bytes_sign(a, c, i) <= 0,
        bytes_sign(a, b, i) < 0 || bytes_sign(b, c, i) < 0 ==> bytes_sign(a, c, i) < 0,
    decreases a.len() - i,
{
    if i < a.len() && i < b.len() && i < c.len() && a[i] == b[i] && b[i] == c[i] {
        lemma_bytes_sign_chain(a, b, c, i + 1);
    }
}

/// Turning two keys around turns their order around.
pub proof fn law_key_order_flips(a: Seq<u8>, b: Seq<u8>)
    ensures
        key_sign(a, b) == -key_sign(b, a),
{
    lemma_bytes_sign_flip(a, b, 12);
    lemma_bytes_sign_flip(a, b, 8);
}

/// A key below a key below a third is below the third.
pub proof fn law_key_order_chains(a: Seq<u8>, b: Seq<u8>, c: Seq<u8>)
    requires
        key_sign(a, b) < 0,
        key_sign(b, c) < 0,
    ensures
        key_sign(a, c) < 0,
{
    if key_oid(a) == key_oid(b) && key_oid(b) == key_oid(c) && key_type(a) == key_type(b)
        && key_type(b) == key_type(c) {
        if key_type(a) == J_TYPE_DIR_REC && key_hash(a) == key_hash(b) && key_hash(b) == key_hash(
            c,
        ) {
            if a.len() >= 12 && b.len() >= 12 && c.len() >= 12 {
                lemma_bytes_sign_chain(a, b, c, 12);
            }
        } else if key_type(a) == J_TYPE_XATTR {
            lemma_bytes_sign_chain(a, b, c, 8);
        }
    }
}

/// A key not above a key not above a third is not above the third, and below
/// it where one of the two is below the next.
pub proof fn law_key_order_is_transitive(a: Seq<u8>, b: Seq<u8>, c: Seq<u8>)
    requires
        a.len() >= 8,
        b.len() >= 8,
        c.len() >= 8,
        key_sign(a, b) <= 0,
        key_sign(b, c) <= 0,
    ensures
        key_sign(a, c) <= 0,
        key_sign(a, b) < 0 || key_sign(b, c) < 0 ==> key_sign(a, c) < 0,
{
    if key_oid(a) == key_oid(b) && key_oid(b) == key_oid(c) && key_type(a) == key_type(b)
        && key_type(b) == key_type(c) {
        if key_type(a) == J_TYPE_DIR_REC && key_hash(a) == key_hash(b) && key_hash(b) == key_hash(
            c,
        ) {
            if a.len() >= 12 && b.len() >= 12 && c.len() >= 12 {
                lemma_bytes_sign_chain(a, b, c, 12);
            }
        } else if key_type(a) == J_TYPE_XATTR {
            lemma_bytes_sign_chain(a, b, c, 8);
        }
    }
}

/// Keys are ordered by the object first, then by the type of the record, and
/// among the records of one object and type by the hash of the name and the
/// name in directories, by the position in files, and by the name of the
/// attribute. Other records of one object and type are the same.
pub proof fn law_key_order(a: Seq<u8>, b: Seq<u8>)
    requires
        a.len() >= 16,
        b.len() >= 16,
    ensures
        ({
            let x = le_u64(a, 0) as int;
            let y = le_u64(b, 0) as int;
            let unit = 0x1000_0000_0000_0000int;
            let kind = x / unit;
            &&& x % unit < y % unit ==> key_sign(a, b) == -1
            &&& x % unit > y % unit ==> key_sign(a, b) == 1
            &&& x % unit == y % unit && x < y ==> key_sign(a, b) == -1
            &&& x % unit == y % unit && x > y ==> key_sign(a, b) == 1
            &&& x == y && kind == 9 && le_u32(a, 8) / 1024 < le_u32(b, 8) / 1024 ==> key_sign(a, b)
                == -1
            &&& x == y && kind == 9 && le_u32(a, 8) / 1024 == le_u32(b, 8) / 1024 ==> key_sign(a, b)
                == bytes_sign(a, b, 12)
            &&& x == y && kind == 8 && le_u64(a, 8) < le_u64(b, 8) ==> key_sign(a, b) == -1
            &&& x == y && kind == 8 && le_u64(a, 8) == le_u64(b, 8) ==> key_sign(a, b) == 0
            &&& x == y && kind == 4 ==> key_sign(a, b) == bytes_sign(a, b, 8)
            &&& x == y && kind != 9 && kind != 8 && kind != 4 ==> key_sign(a, b) == 0
        }),
{
}

/// Of two byte strings the one with the lower byte where they first differ
/// comes first, and one that the other continues.
pub proof fn law_byte_order(a: Seq<u8>, b: Seq<u8>, from: int, at: int)
    requires
        0 <= from <= at <= a.len(),
        at <= b.len(),
        forall|k: int| from <= k < at ==> (#[trigger] a[k]) == b[k],
    ensures
        at == a.len() && at < b.len() ==> bytes_sign(a, b, from) == -1,
        at == a.len() && at == b.len() ==> bytes_sign(a, b, from) == 0,
        at < a.len() && at < b.len() && a[at] < b[at] ==> bytes_sign(a, b, from) == -1,
        at < a.len() && at < b.len() && a[at] > b[at] ==> bytes_sign(a, b, from) == 1,
    decreases at - from,
{
    if from < at {
        assert(a[from] == b[from]);
        law_byte_order(a, b, from + 1, at);
    }
}

} // verus!

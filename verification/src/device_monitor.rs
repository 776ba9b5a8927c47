//! APFS partitions on the disks of a machine.

use crate::apfs::bytes::{le_u32, le_u64, rd_u32, rd_u64};
use crate::apfs::text::{digits, law_digits_stand_for_number, msg1, number, text1};
use vstd::prelude::*;

verus! {

/// How many disks are looked for at most.
pub const DISK_LIMIT: u32 = 100;

/// The partition style of a GPT disk.
pub const PARTITION_STYLE_GPT: u32 = 1;

/// The drive type of a letter that nothing is mounted at.
pub const DRIVE_NO_ROOT_DIR: u32 = 1;

/// The size of the header of a drive layout.
pub const LAYOUT_HEADER_SIZE: usize = 48;

/// The size of an entry of a drive layout.
pub const LAYOUT_ENTRY_SIZE: usize = 144;

#[derive(Debug, PartialEq, Eq, Hash)]
pub struct ApfsPartition {
    pub disk_number: u32,
    pub partition_number: u32,
    pub device_path: String,
    pub offset: u64,
    pub size: u64,
}

/// The contents of an [`ApfsPartition`].
#[verifier::ext_equal]
pub struct PartitionView {
    pub disk_number: u32,
    pub partition_number: u32,
    pub device_path: Seq<char>,
    pub offset: u64,
    pub size: u64,
}

impl View for ApfsPartition {
    type V = PartitionView;

    open spec fn view(&self) -> PartitionView {
        PartitionView {
            disk_number: self.disk_number,
            partition_number: self.partition_number,
            device_path: self.device_path@,
            offset: self.offset,
            size: self.size,
        }
    }
}

impl Clone for ApfsPartition {
    fn clone(&self) -> (r: Self)
        ensures
            r@ == self@,
    {
        ApfsPartition {
            disk_number: self.disk_number,
            partition_number: self.partition_number,
            device_path: self.device_path.clone(),
            offset: self.offset,
            size: self.size,
        }
    }
}

/// Partitions, taken by view.
pub open spec fn partitions_view(s: Seq<ApfsPartition>) -> Seq<PartitionView> {
    s.map_values(|x: ApfsPartition| x@)
}

/// The path of a disk.
pub open spec fn disk_path(disk_num: u32) -> Seq<char> {
    msg1("\\\\.\\PhysicalDrive"@, disk_num as nat, ""@)
}

/// The path of a disk.
pub fn physical_drive(disk_num: u32) -> (p: String)
    ensures
        p@ == disk_path(disk_num),
{
    text1("\\\\.\\PhysicalDrive", disk_num as u64, "")
}

/// The GUID 7C3457EF-0000-11AA-AA11-00306543ECAC of APFS partitions, as it is
/// stored: the first three groups little-endian.
pub open spec fn apfs_guid() -> Seq<u8> {
    seq![
        0xEF, 0x57, 0x34, 0x7C, 0x00, 0x00, 0xAA, 0x11, 0xAA, 0x11, 0x00, 0x30, 0x65, 0x43, 0xEC,
        0xAC,
    ]
}

fn is_apfs_guid(b: &[u8], o: usize) -> (r: bool)
    requires
        o + 16 <= b.len(),
    ensures
        r == (b@.subrange(o as int, o + 16) == apfs_guid()),
{
    let r = b[o] == 0xEF && b[o + 1] == 0x57 && b[o + 2] == 0x34 && b[o + 3] == 0x7C && b[o + 4]
        == 0x00 && b[o + 5] == 0x00 && b[o + 6] == 0xAA && b[o + 7] == 0x11 && b[o + 8] == 0xAA
        && b[o + 9] == 0x11 && b[o + 10] == 0x00 && b[o + 11] == 0x30 && b[o + 12] == 0x65 && b[o
        + 13] == 0x43 && b[o + 14] == 0xEC && b[o + 15] == 0xAC;
    proof {
        let s = b@.subrange(o as int, o + 16);
        if r {
            assert(s =~= apfs_guid());
        } else if s == apfs_guid() {
            assert(s[0] == 0xEF && s[1] == 0x57 && s[2] == 0x34 && s[3] == 0x7C);
            assert(s[4] == 0x00 && s[5] == 0x00 && s[6] == 0xAA && s[7] == 0x11);
            assert(s[8] == 0xAA && s[9] == 0x11 && s[10] == 0x00 && s[11] == 0x30);
            assert(s[12] == 0x65 && s[13] == 0x43 && s[14] == 0xEC && s[15] == 0xAC);
        }
    }
    r
}

/// The APFS partition that the layout entry at `o` describes, if it does: a
/// GPT entry of the APFS type. An entry holds its style, where it starts, its
/// length, its number and its type, at the offsets that the structure
/// `PARTITION_INFORMATION_EX` has them at.
pub open spec fn entry_partition(b: Seq<u8>, o: int, disk_num: u32) -> Option<PartitionView> {
    if le_u32(b, o) == PARTITION_STYLE_GPT && b.subrange(o + 32, o + 48) == apfs_guid() {
        Some(
            PartitionView {
                disk_number: disk_num,
                partition_number: le_u32(b, o + 24),
                device_path: disk_path(disk_num),
                offset: le_u64(b, o + 8),
                size: le_u64(b, o + 16),
            },
        )
    } else {
        None
    }
}

/// The APFS partitions among the layout entries from `i` on. Entries that the
/// buffer does not hold are left out.
pub open spec fn layout_from(b: Seq<u8>, count: int, i: int, disk_num: u32) -> Seq<PartitionView>
    decreases count - i,
{
    let o = LAYOUT_HEADER_SIZE + i * LAYOUT_ENTRY_SIZE;
    if i >= count || i < 0 || o + LAYOUT_ENTRY_SIZE > b.len() {
        seq![]
    } else {
        (match entry_partition(b, o, disk_num) {
            Some(p) => seq![p],
            None => seq![],
        }) + layout_from(b, count, i + 1, disk_num)
    }
}

/// The APFS partitions of a disk, from its drive layout: the structure
/// `DRIVE_LAYOUT_INFORMATION_EX`, which tells the number of entries behind the
/// style.
pub open spec fn layout_partitions(b: Seq<u8>, disk_num: u32) -> Seq<PartitionView> {
    if b.len() < LAYOUT_HEADER_SIZE {
        seq![]
    } else {
        layout_from(b, le_u32(b, 4) as int, 0, disk_num)
    }
}

/// The APFS partitions of a disk, from its drive layout.
pub fn read_gpt_partitions(layout: &[u8], disk_num: u32) -> (v: Vec<ApfsPartition>)
    ensures
        partitions_view(v@) == layout_partitions(layout@, disk_num),
{
    let mut v: Vec<ApfsPartition> = Vec::new();
    assert(partitions_view(v@) =~= seq![]);
    if layout.len() < LAYOUT_HEADER_SIZE {
        return v;
    }
    let count: u32 = rd_u32(layout, 4);
    let mut i: u32 = 0;
    let mut o: usize = LAYOUT_HEADER_SIZE;
    assert(partitions_view(v@) + layout_from(layout@, count as int, 0, disk_num) =~= layout_from(
        layout@,
        count as int,
        0,
        disk_num,
    ));
    while i < count && layout.len() - o >= LAYOUT_ENTRY_SIZE
        invariant
            i <= count,
            o <= layout.len(),
            o == LAYOUT_HEADER_SIZE + i * LAYOUT_ENTRY_SIZE,
            partitions_view(v@) + layout_from(layout@, count as int, i as int, disk_num)
                == layout_from(layout@, count as int, 0, disk_num),
        decreases count - i,
    {
        let ghost before = v@;
        if rd_u32(layout, o) == PARTITION_STYLE_GPT && is_apfs_guid(layout, o + 32) {
            v.push(
                ApfsPartition {
                    disk_number: disk_num,
                    partition_number: rd_u32(layout, o + 24),
                    device_path: physical_drive(disk_num),
                    offset: rd_u64(layout, o + 8),
                    size: rd_u64(layout, o + 16),
                },
            );
            assert(partitions_view(v@) =~= partitions_view(before).push(v@.last()@));
            assert(v@.last()@ =~= entry_partition(layout@, o as int, disk_num)->Some_0);
        }
        proof {
            let rest = layout_from(layout@, count as int, i + 1, disk_num);
            let here = match entry_partition(layout@, o as int, disk_num) {
                Some(p) => seq![p],
                None => seq![],
            };
            assert(partitions_view(before) + (here + rest) =~= partitions_view(v@) + rest);
        }
        i += 1;
        o += LAYOUT_ENTRY_SIZE;
    }
    assert(partitions_view(v@) + seq![] =~= partitions_view(v@));
    v
}

/// The partitions of the disks from `i` on, up to the first disk that could
/// not be opened. A disk that could be opened but has no layout counts as
/// empty.
pub open spec fn scanned(disks: Seq<Option<Seq<u8>>>, i: int) -> Seq<PartitionView>
    decreases disks.len() - i,
{
    if i >= disks.len() || i < 0 || i >= DISK_LIMIT {
        seq![]
    } else {
        match disks[i] {
            None => seq![],
            Some(layout) => layout_partitions(layout, i as u32) + scanned(disks, i + 1),
        }
    }
}

/// Layouts, taken by view.
pub open spec fn layouts_view(s: Seq<Option<Vec<u8>>>) -> Seq<Option<Seq<u8>>> {
    s.map_values(
        |x: Option<Vec<u8>>|
            match x {
                Some(v) => Some(v@),
                None => None,
            },
    )
}

/// The letters from `D` on, `i` of them into the alphabet's rest, at which
/// nothing is mounted.
pub open spec fn free_letters(types: Seq<u32>, i: int) -> Seq<char>
    decreases types.len() - i,
{
    if i >= types.len() || i < 0 || i >= 23 {
        seq![]
    } else {
        (if types[i] == DRIVE_NO_ROOT_DIR {
            seq![(68 + i) as char]
        } else {
            seq![]
        }) + free_letters(types, i + 1)
    }
}

pub struct DeviceMonitor;

impl DeviceMonitor {
    /// The APFS partitions of the machine. `layouts` holds the drive layout of
    /// each disk, from disk 0 on, or nothing for one that could not be opened.
    pub fn scan_apfs_partitions(layouts: &Vec<Option<Vec<u8>>>) -> (v: Vec<ApfsPartition>)
        ensures
            partitions_view(v@) == scanned(layouts_view(layouts@), 0),
    {
        let mut v: Vec<ApfsPartition> = Vec::new();
        let ghost all = layouts_view(layouts@);
        let mut i: usize = 0;
        assert(partitions_view(v@) + scanned(all, 0) =~= scanned(all, 0));
        while i < layouts.len() && i < DISK_LIMIT as usize
            invariant
                i <= layouts.len(),
                i <= DISK_LIMIT,
                all == layouts_view(layouts@),
                partitions_view(v@) + scanned(all, i as int) == scanned(all, 0),
            decreases layouts.len() - i,
        {
            match &layouts[i] {
                None => {
                    assert(partitions_view(v@) + seq![] =~= partitions_view(v@));
                    return v;
                },
                Some(layout) => {
                    let mut found = read_gpt_partitions(layout.as_slice(), i as u32);
                    let ghost before = v@;
                    let ghost more = found@;
                    v.append(&mut found);
                    proof {
                        assert(all[i as int] == Some(layout@));
                        assert(partitions_view(v@) =~= partitions_view(before)
                            + partitions_view(more));
                        let rest = scanned(all, i + 1);
                        assert(partitions_view(before) + (partitions_view(more) + rest)
                            =~= partitions_view(v@) + rest);
                    }
                },
            }
            i += 1;
        }
        assert(partitions_view(v@) + seq![] =~= partitions_view(v@));
        v
    }

    /// The free drive letters. `types` holds the drive types of the letters
    /// from `D` to `Z`, as Windows tells them.
    pub fn find_available_drive_letters(types: &[u32]) -> (v: Vec<char>)
        ensures
            v@ == free_letters(types@, 0),
    {
        let mut v: Vec<char> = Vec::new();
        let mut i: usize = 0;
        assert(v@ + free_letters(types@, 0) =~= free_letters(types@, 0));
        while i < types.len() && i < 23
            invariant
                i <= types.len(),
                i <= 23,
                v@ + free_letters(types@, i as int) == free_letters(types@, 0),
            decreases types.len() - i,
        {
            let ghost before = v@;
            if types[i] == DRIVE_NO_ROOT_DIR {
                v.push((68 + i as u8) as char);
            }
            proof {
                let rest = free_letters(types@, i + 1);
                let here = if types@[i as int] == DRIVE_NO_ROOT_DIR {
                    seq![(68 + i) as char]
                } else {
                    seq![]
                };
                assert(before + (here + rest) =~= v@ + rest);
            }
            i += 1;
        }
        assert(v@ + seq![] =~= v@);
        v
    }
}

/// Whether the `i`th entry of a drive layout is that of an APFS partition: the
/// entries of 144 bytes start at byte 48, and their number stands at byte 4. An
/// entry has its style, 1 for GPT, then where the partition starts at byte 8,
/// its length at byte 16, its number at byte 24 and its type at byte 32.
pub open spec fn has_partition(b: Seq<u8>, i: int, disk: u32, p: PartitionView) -> bool {
    let o = 48 + 144 * i;
    &&& b.len() >= 48
    &&& 0 <= i < le_u32(b, 4)
    &&& o + 144 <= b.len()
    &&& le_u32(b, o) == 1
    &&& b.subrange(o + 32, o + 48) == seq![
        0xEFu8, 0x57, 0x34, 0x7C, 0x00, 0x00, 0xAA, 0x11, 0xAA, 0x11, 0x00, 0x30, 0x65, 0x43, 0xEC,
        0xAC,
    ]
    &&& p.disk_number == disk
    &&& p.partition_number == le_u32(b, o + 24)
    &&& p.offset == le_u64(b, o + 8)
    &&& p.size == le_u64(b, o + 16)
    &&& p.device_path == disk_path(disk)
}

proof fn lemma_layout_has(b: Seq<u8>, from: int, disk: u32, p: PartitionView)
    requires
        b.len() >= 48,
        0 <= from,
    ensures
        layout_from(b, le_u32(b, 4) as int, from, disk).contains(p) <==> exists|i: int|
            from <= i && #[trigger] has_partition(b, i, disk, p),
    decreases le_u32(b, 4) - from,
{
    let count = le_u32(b, 4) as int;
    let all = layout_from(b, count, from, disk);
    let o = 48 + 144 * from;
    if from < count && o + 144 <= b.len() {
        lemma_layout_has(b, from + 1, disk, p);
        let rest = layout_from(b, count, from + 1, disk);
        let here = entry_partition(b, o, disk);
        let first: Seq<PartitionView> = match here {
            Some(x) => seq![x],
            None => seq![],
        };
        assert(all == first + rest);
        assert(all.contains(p) <==> here == Some(p) || rest.contains(p)) by {
            if here == Some(p) {
                assert(all[0] == p);
            }
            if rest.contains(p) {
                let k = choose|k: int| 0 <= k < rest.len() && rest[k] == p;
                assert(all[first.len() + k] == p);
            }
            if all.contains(p) && here != Some(p) {
                let k = choose|k: int| 0 <= k < all.len() && all[k] == p;
                assert(rest[k - first.len()] == p);
            }
        }
        if here == Some(p) {
            assert(has_partition(b, from, disk, p));
        }
        if has_partition(b, from, disk, p) {
            let x = here->0;
            assert(x =~= p);
        }
        if exists|i: int| from <= i && #[trigger] has_partition(b, i, disk, p) {
            let i = choose|i: int| from <= i && #[trigger] has_partition(b, i, disk, p);
            if i > from {
                assert(from + 1 <= i && has_partition(b, i, disk, p));
            }
        }
    }
}

/// A partition is found on a disk if and only if an entry of the drive layout
/// is that of the partition.
pub proof fn law_found_partitions(b: Seq<u8>, disk: u32, p: PartitionView)
    ensures
        layout_partitions(b, disk).contains(p) <==> exists|i: int| #[trigger]
            has_partition(b, i, disk, p),
{
    if b.len() >= 48 {
        lemma_layout_has(b, 0, disk, p);
        if exists|i: int| #[trigger] has_partition(b, i, disk, p) {
            let i = choose|i: int| #[trigger] has_partition(b, i, disk, p);
            assert(0 <= i && has_partition(b, i, disk, p));
        }
    }
}

proof fn lemma_scanned_has(disks: Seq<Option<Seq<u8>>>, from: int, p: PartitionView)
    requires
        0 <= from,
    ensures
        scanned(disks, from).contains(p) <==> exists|n: int|
            from <= n < disks.len() && n < 100 && (forall|k: int|
                from <= k <= n ==> (#[trigger] disks[k]) is Some) && #[trigger] layout_partitions(
                disks[n]->0,
                n as u32,
            ).contains(p),
    decreases disks.len() - from,
{
    if from < disks.len() && from < 100 && disks[from] is Some {
        lemma_scanned_has(disks, from + 1, p);
        let first = layout_partitions(disks[from]->0, from as u32);
        let rest = scanned(disks, from + 1);
        let all = scanned(disks, from);
        assert(all == first + rest);
        assert(all.contains(p) <==> first.contains(p) || rest.contains(p)) by {
            if first.contains(p) {
                let k = choose|k: int| 0 <= k < first.len() && first[k] == p;
                assert(all[k] == p);
            }
            if rest.contains(p) {
                let k = choose|k: int| 0 <= k < rest.len() && rest[k] == p;
                assert(all[first.len() + k] == p);
            }
            if all.contains(p) && !first.contains(p) {
                let k = choose|k: int| 0 <= k < all.len() && all[k] == p;
                if k < first.len() {
                    assert(first[k] == p);
                }
                assert(rest[k - first.len()] == p);
            }
        }
        if first.contains(p) {
            assert(layout_partitions(disks[from]->0, from as u32).contains(p));
        }
    } else if exists|n: int|
        from <= n < disks.len() && n < 100 && (forall|k: int|
            from <= k <= n ==> (#[trigger] disks[k]) is Some) && #[trigger] layout_partitions(
            disks[n]->0,
            n as u32,
        ).contains(p) {
        assert(disks[from] is Some);
    }
}

/// The partitions of the machine are those of its disks up to the first one
/// that could not be opened, and of no more than the first hundred.
pub proof fn law_scanned_partitions(disks: Seq<Option<Seq<u8>>>, p: PartitionView)
    ensures
        scanned(disks, 0).contains(p) <==> exists|n: int|
            0 <= n < disks.len() && n < 100 && (forall|k: int|
                0 <= k <= n ==> (#[trigger] disks[k]) is Some) && #[trigger] layout_partitions(
                disks[n]->0,
                n as u32,
            ).contains(p),
{
    lemma_scanned_has(disks, 0, p);
}

proof fn lemma_free_from(types: Seq<u32>, from: int, c: char)
    requires
        0 <= from,
    ensures
        free_letters(types, from).contains(c) <==> 68 + from <= c as int <= 90 && c as int - 68
            < types.len() && types[c as int - 68] == 1,
    decreases types.len() - from,
{
    if from < types.len() && from < 23 {
        lemma_free_from(types, from + 1, c);
        let rest = free_letters(types, from + 1);
        let all = free_letters(types, from);
        let letter = (68 + from) as char;
        let first: Seq<char> = if types[from] == 1 {
            seq![letter]
        } else {
            seq![]
        };
        assert(all == first + rest);
        assert(letter as int == 68 + from);
        if first.contains(c) {
            let k = choose|k: int| 0 <= k < first.len() && first[k] == c;
            assert(all[k] == c);
        }
        if rest.contains(c) {
            let k = choose|k: int| 0 <= k < rest.len() && rest[k] == c;
            assert(all[first.len() + k] == c);
        }
        if all.contains(c) {
            let k = choose|k: int| 0 <= k < all.len() && all[k] == c;
            if k >= first.len() {
                assert(rest[k - first.len()] == c);
            } else {
                assert(first[k] == c);
            }
        }
        if c as int == 68 + from && types[from] == 1 {
            assert(c == letter);
            assert(first[0] == c);
        }
    }
}

/// A drive letter is free if and only if it is one from D to Z at which Windows
/// says that nothing is mounted, which is drive type 1.
pub proof fn law_free_letters(types: Seq<u32>, c: char)
    ensures
        free_letters(types, 0).contains(c) <==> 'D' <= c <= 'Z' && c as int - 68 < types.len()
            && types[c as int - 68] == 1,
{
    lemma_free_from(types, 0, c);
}

/// The path of a disk is the path of all disks, followed by its number.
pub proof fn law_disk_paths(disk_num: u32)
    ensures
        disk_path(disk_num).len() > 17,
        disk_path(disk_num).take(17) == disk_path(0).take(17),
        number(disk_path(disk_num).skip(17), 10) == disk_num,
{
    reveal_strlit("\\\\.\\PhysicalDrive");
    reveal_strlit("");
    law_digits_stand_for_number(disk_num as nat, 10);
    law_digits_stand_for_number(0, 10);
    assert(disk_path(disk_num).skip(17) =~= digits(disk_num as nat, 10));
    assert(disk_path(disk_num).take(17) =~= "\\\\.\\PhysicalDrive"@);
    assert(disk_path(0).take(17) =~= "\\\\.\\PhysicalDrive"@);
}

} // verus!

//! Which partitions are mounted, and where.

use crate::device_monitor::ApfsPartition;
use vstd::prelude::*;

verus! {

/// A mounted partition. `host` is what serves it.
pub struct MountedVolume<H> {
    pub partition: ApfsPartition,
    pub drive_letter: char,
    pub host: H,
}

/// The mounted partitions. None is there twice; the one mounted last stands
/// last.
pub struct MountManager<H> {
    pub mounts: Vec<MountedVolume<H>>,
}

/// The number of the disk and of the partition, by which a mount is known.
pub open spec fn mount_key<H>(m: MountedVolume<H>) -> (u32, u32) {
    (m.partition.disk_number, m.partition.partition_number)
}

/// Where the mount of `key` stands, from `i` on, or how many mounts there are.
pub open spec fn mount_at<H>(s: Seq<MountedVolume<H>>, key: (u32, u32), i: int) -> int
    decreases s.len() - i,
{
    if i >= s.len() || i < 0 {
        s.len() as int
    } else if mount_key(s[i]) == key {
        i
    } else {
        mount_at(s, key, i + 1)
    }
}

/// The mounts without that of `key`.
pub open spec fn unmounted<H>(s: Seq<MountedVolume<H>>, key: (u32, u32)) -> Seq<MountedVolume<H>> {
    if mount_at(s, key, 0) < s.len() { s.remove(mount_at(s, key, 0)) } else { s }
}

proof fn lemma_mount_at<H>(s: Seq<MountedVolume<H>>, key: (u32, u32), i: int)
    requires
        0 <= i <= s.len(),
    ensures
        i <= mount_at(s, key, i) <= s.len(),
        mount_at(s, key, i) < s.len() ==> mount_key(s[mount_at(s, key, i)]) == key,
        forall|j: int|
            i <= j < s.len() && j < mount_at(s, key, i) ==> mount_key(#[trigger] s[j]) != key,
    decreases s.len() - i,
{
    if i < s.len() && mount_key(s[i]) != key {
        lemma_mount_at(s, key, i + 1);
    }
}

impl<H> MountManager<H> {
    /// No partition is mounted twice.
    pub open spec fn wf(self) -> bool {
        forall|i: int, j: int|
            0 <= i < j < self.mounts@.len() ==> mount_key(#[trigger] self.mounts@[i]) != mount_key(
                #[trigger] self.mounts@[j],
            )
    }

    /// Whether a partition is mounted.
    pub open spec fn mounted(self, key: (u32, u32)) -> bool {
        exists|i: int| 0 <= i < self.mounts@.len() && mount_key(#[trigger] self.mounts@[i]) == key
    }

    pub fn new() -> (m: Self)
        ensures
            m.mounts@.len() == 0,
            m.wf(),
    {
        MountManager { mounts: Vec::new() }
    }

    fn find(&self, disk_num: u32, partition_num: u32) -> (i: usize)
        ensures
            i == mount_at(self.mounts@, (disk_num, partition_num), 0),
            i <= self.mounts@.len(),
    {
        let mut i: usize = 0;
        while i < self.mounts.len()
            invariant
                i <= self.mounts@.len(),
                mount_at(self.mounts@, (disk_num, partition_num), 0) == mount_at(
                    self.mounts@,
                    (disk_num, partition_num),
                    i as int,
                ),
            decreases self.mounts@.len() - i,
        {
            let p = &self.mounts[i].partition;
            if p.disk_number == disk_num && p.partition_number == partition_num {
                return i;
            }
            i += 1;
        }
        i
    }

    /// Remember that a partition is served at a drive letter. An earlier mount
    /// of the same partition is given up, and returned.
    pub fn mount_partition(&mut self, partition: ApfsPartition, drive_letter: char, host: H) -> (r:
        Option<MountedVolume<H>>)
        requires
            old(self).wf(),
        ensures
            final(self).wf(),
            ({
                let key = (partition.disk_number, partition.partition_number);
                let at = mount_at(old(self).mounts@, key, 0);
                &&& final(self).mounts@ == unmounted(old(self).mounts@, key).push(
                    MountedVolume { partition, drive_letter, host },
                )
                &&& r == (if at < old(self).mounts@.len() {
                    Some(old(self).mounts@[at])
                } else {
                    None
                })
            }),
    {
        let before = self.unmount_partition(partition.disk_number, partition.partition_number);
        self.mounts.push(MountedVolume { partition, drive_letter, host });
        before
    }

    /// Forget the mount of a partition, and return it.
    pub fn unmount_partition(&mut self, disk_num: u32, partition_num: u32) -> (r: Option<
        MountedVolume<H>,
    >)
        requires
            old(self).wf(),
        ensures
            final(self).wf(),
            ({
                let at = mount_at(old(self).mounts@, (disk_num, partition_num), 0);
                &&& final(self).mounts@ == unmounted(old(self).mounts@, (disk_num, partition_num))
                &&& r == (if at < old(self).mounts@.len() {
                    Some(old(self).mounts@[at])
                } else {
                    None
                })
            }),
            !final(self).mounted((disk_num, partition_num)),
    {
        let ghost s = self.mounts@;
        let ghost key = (disk_num, partition_num);
        let i: usize = self.find(disk_num, partition_num);
        proof {
            lemma_mount_at(s, key, 0);
        }
        if i < self.mounts.len() {
            let m = self.mounts.remove(i);
            proof {
                assert forall|j: int| 0 <= j < self.mounts@.len() implies mount_key(
                    #[trigger] self.mounts@[j],
                ) != key by {
                    if j < i {
                        assert(self.mounts@[j] == s[j]);
                    } else {
                        assert(self.mounts@[j] == s[j + 1]);
                        assert(mount_key(s[i as int]) == key);
                    }
                }
                assert forall|j: int, k: int| 0 <= j < k < self.mounts@.len() implies mount_key(
                    #[trigger] self.mounts@[j],
                ) != mount_key(#[trigger] self.mounts@[k]) by {
                    let a = if j < i { j } else { j + 1 };
                    let b = if k < i { k } else { k + 1 };
                    assert(self.mounts@[j] == s[a] && self.mounts@[k] == s[b]);
                }
            }
            Some(m)
        } else {
            None
        }
    }

    /// Whether a partition is mounted.
    pub fn is_mounted(&self, disk_num: u32, partition_num: u32) -> (b: bool)
        ensures
            b == self.mounted((disk_num, partition_num)),
    {
        let i: usize = self.find(disk_num, partition_num);
        proof {
            lemma_mount_at(self.mounts@, (disk_num, partition_num), 0);
            if i < self.mounts@.len() {
                assert(mount_key(self.mounts@[i as int]) == (disk_num, partition_num));
            }
        }
        i < self.mounts.len()
    }

    /// The disks of the mounted partitions, one for each of these.
    pub fn get_mounted_disks(&self) -> (v: Vec<u32>)
        ensures
            v@ == self.mounts@.map_values(|m: MountedVolume<H>| m.partition.disk_number),
    {
        let mut v: Vec<u32> = Vec::new();
        let mut i: usize = 0;
        while i < self.mounts.len()
            invariant
                i <= self.mounts@.len(),
                v@.len() == i,
                forall|j: int|
                    0 <= j < i ==> #[trigger] v@[j] == self.mounts@[j].partition.disk_number,
            decreases self.mounts@.len() - i,
        {
            v.push(self.mounts[i].partition.disk_number);
            i += 1;
        }
        assert(v@ =~= self.mounts@.map_values(|m: MountedVolume<H>| m.partition.disk_number));
        v
    }
}

/// Mounting a partition makes it the one that is found under its key, and
/// changes nothing about whether others are mounted.
pub proof fn law_mount_is_found<H>(s: Seq<MountedVolume<H>>, m: MountedVolume<H>, other: (u32, u32))
    requires
        forall|i: int, j: int|
            0 <= i < j < s.len() ==> mount_key(#[trigger] s[i]) != mount_key(#[trigger] s[j]),
        other != mount_key(m),
    ensures
        ({
            let up = unmounted(s, mount_key(m)).push(m);
            &&& mount_at(up, mount_key(m), 0) < up.len()
            &&& up[mount_at(up, mount_key(m), 0)] == m
            &&& (mount_at(up, other, 0) < up.len()) == (mount_at(s, other, 0) < s.len())
        }),
{
    let key = mount_key(m);
    let down = unmounted(s, key);
    let up = down.push(m);
    lemma_mount_at(s, key, 0);
    lemma_mount_at(s, other, 0);
    lemma_mount_at(up, key, 0);
    lemma_mount_at(up, other, 0);
    assert(up[down.len() as int] == m);
    let a = mount_at(s, key, 0);
    if mount_at(s, other, 0) < s.len() {
        let b = mount_at(s, other, 0);
        let c = if a >= s.len() || b < a { b } else { b - 1 };
        assert(up[c] == s[b]);
    }
    if mount_at(up, other, 0) < up.len() {
        let c = mount_at(up, other, 0);
        let b = if a >= s.len() || c < a { c } else { c + 1 };
        assert(c < down.len());
        assert(s[b] == up[c]);
    }
    if mount_at(up, key, 0) < down.len() {
        let c = mount_at(up, key, 0);
        let b = if a >= s.len() || c < a { c } else { c + 1 };
        assert(s[b] == up[c]);
        assert(mount_key(s[b]) == key);
        if a < s.len() {
            assert(mount_key(s[a]) == key);
        }
    }
}

/// Unmounting a partition leaves the other mounts as they are, in their order.
pub proof fn law_unmount_keeps_others<H>(s: Seq<MountedVolume<H>>, key: (u32, u32), i: int)
    requires
        forall|i: int, j: int|
            0 <= i < j < s.len() ==> mount_key(#[trigger] s[i]) != mount_key(#[trigger] s[j]),
        0 <= i < s.len(),
    ensures
        ({
            let down = unmounted(s, key);
            let gone = (s[i].partition.disk_number, s[i].partition.partition_number) == key;
            &&& gone ==> down == s.take(i) + s.skip(i + 1)
            &&& !gone ==> down.contains(s[i])
        }),
{
    lemma_mount_at(s, key, 0);
    let a = mount_at(s, key, 0);
    let down = unmounted(s, key);
    if mount_key(s[i]) == key {
        assert(a == i);
        assert(down =~= s.take(i) + s.skip(i + 1));
    } else if a < s.len() {
        let c = if i < a { i } else { i - 1 };
        assert(down[c] == s[i]);
    } else {
        assert(down[i] == s[i]);
    }
}

} // verus!

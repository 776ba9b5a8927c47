//! What the daemon does about the partitions it finds.

use crate::apfs::text::{msg_str, text_str};
use crate::device_monitor::ApfsPartition;
use crate::device_watcher::DeviceEvent;
use crate::driver::info::ReadWriteMode;
use vstd::prelude::*;

verus! {

/// Where the APFS partition of a disk starts that is mounted by hand.
pub const MANUAL_PARTITION_OFFSET: u64 = 1048576;

/// The partitions that the daemon has mounted, by disk and partition number.
pub struct KnownPartitions {
    pub keys: Vec<(u32, u32)>,
}

/// The key of a partition.
pub open spec fn key_of(p: ApfsPartition) -> (u32, u32) {
    (p.disk_number, p.partition_number)
}

/// The first partition from `i` on that is not known, or how many there are.
pub open spec fn next_unknown(
    known: Set<(u32, u32)>,
    partitions: Seq<ApfsPartition>,
    i: int,
) -> int
    decreases partitions.len() - i,
{
    if i >= partitions.len() || i < 0 {
        partitions.len() as int
    } else if !known.contains(key_of(partitions[i])) {
        i
    } else {
        next_unknown(known, partitions, i + 1)
    }
}

/// Whether a partition was found.
pub open spec fn found(partitions: Seq<ApfsPartition>, key: (u32, u32)) -> bool {
    exists|i: int| 0 <= i < partitions.len() && key_of(#[trigger] partitions[i]) == key
}

fn is_found(partitions: &Vec<ApfsPartition>, key: (u32, u32)) -> (b: bool)
    ensures
        b == found(partitions@, key),
{
    let mut i: usize = 0;
    while i < partitions.len()
        invariant
            i <= partitions@.len(),
            forall|j: int| 0 <= j < i ==> key_of(#[trigger] partitions@[j]) != key,
        decreases partitions@.len() - i,
    {
        if partitions[i].disk_number == key.0 && partitions[i].partition_number == key.1 {
            assert(key_of(partitions@[i as int]) == key);
            return true;
        }
        i += 1;
    }
    false
}

impl KnownPartitions {
    /// No key is there twice.
    pub open spec fn wf(self) -> bool {
        self.keys@.no_duplicates()
    }

    /// The known partitions.
    pub open spec fn known(self) -> Set<(u32, u32)> {
        self.keys@.to_set()
    }

    pub fn new() -> (k: Self)
        ensures
            k.wf(),
            k.known() == Set::<(u32, u32)>::empty(),
    {
        let k = KnownPartitions { keys: Vec::new() };
        assert(k.known() =~= Set::<(u32, u32)>::empty());
        k
    }

    /// Whether a partition is known.
    pub fn contains(&self, key: (u32, u32)) -> (b: bool)
        ensures
            b == self.known().contains(key),
    {
        let mut i: usize = 0;
        while i < self.keys.len()
            invariant
                i <= self.keys@.len(),
                forall|j: int| 0 <= j < i ==> #[trigger] self.keys@[j] != key,
            decreases self.keys@.len() - i,
        {
            if self.keys[i].0 == key.0 && self.keys[i].1 == key.1 {
                assert(self.keys@[i as int] == key);
                return true;
            }
            i += 1;
        }
        false
    }

    /// The next partition to mount: the first one from `from` on that is not
    /// known.
    pub fn next_to_mount(&self, partitions: &Vec<ApfsPartition>, from: usize) -> (r: Option<usize>)
        ensures
            match r {
                Some(i) => from <= i < partitions@.len() && i == next_unknown(
                    self.known(),
                    partitions@,
                    from as int,
                ),
                None => next_unknown(self.known(), partitions@, from as int) == partitions@.len(),
            },
    {
        let mut i: usize = from;
        while i < partitions.len()
            invariant
                from <= i,
                next_unknown(self.known(), partitions@, from as int) == next_unknown(
                    self.known(),
                    partitions@,
                    i as int,
                ),
            decreases partitions@.len() - i,
        {
            if !self.contains((partitions[i].disk_number, partitions[i].partition_number)) {
                return Some(i);
            }
            i += 1;
        }
        None
    }

    /// Remember a partition that was mounted.
    pub fn mounted(&mut self, key: (u32, u32))
        requires
            old(self).wf(),
        ensures
            final(self).wf(),
            final(self).known() == old(self).known().insert(key),
    {
        if !self.contains(key) {
            let ghost before = self.keys@;
            self.keys.push(key);
            proof {
                assert(before.to_set().insert(key) =~= self.keys@.to_set()) by {
                    assert forall|k: (u32, u32)|
                        before.to_set().insert(key).contains(k) implies self.keys@.to_set().contains(
                        k,
                    ) by {
                        if k == key {
                            assert(self.keys@[before.len() as int] == k);
                        } else {
                            let j = choose|j: int| 0 <= j < before.len() && before[j] == k;
                            assert(self.keys@[j] == k);
                        }
                    }
                }
                assert(!before.contains(key));
                assert(self.keys@.no_duplicates());
            }
        } else {
            assert(self.known().insert(key) =~= self.known());
        }
    }

    /// The known partitions that are there no more, which are to be unmounted.
    /// They are known no longer.
    pub fn take_removed(&mut self, partitions: &Vec<ApfsPartition>) -> (gone: Vec<(u32, u32)>)
        requires
            old(self).wf(),
        ensures
            final(self).wf(),
            gone@.no_duplicates(),
            forall|k: (u32, u32)|
                #[trigger] gone@.contains(k) <==> old(self).known().contains(k) && !found(
                    partitions@,
                    k,
                ),
            forall|k: (u32, u32)|
                #[trigger] final(self).known().contains(k) <==> old(self).known().contains(k)
                    && found(partitions@, k),
    {
        let ghost all = self.keys@;
        let mut gone: Vec<(u32, u32)> = Vec::new();
        let mut kept: Vec<(u32, u32)> = Vec::new();
        let mut i: usize = 0;
        while i < self.keys.len()
            invariant
                i <= self.keys@.len(),
                all == self.keys@,
                all.no_duplicates(),
                gone@ == all.take(i as int).filter(|k: (u32, u32)| !found(partitions@, k)),
                kept@ == all.take(i as int).filter(|k: (u32, u32)| found(partitions@, k)),
            decreases self.keys@.len() - i,
        {
            let key = self.keys[i];
            proof {
                reveal(Seq::filter);
                assert(all.take(i + 1).drop_last() =~= all.take(i as int));
            }
            if is_found(partitions, key) {
                kept.push(key);
            } else {
                gone.push(key);
            }
            i += 1;
        }
        proof {
            assert(all.take(i as int) =~= all);
            let lost = |k: (u32, u32)| !found(partitions@, k);
            let there = |k: (u32, u32)| found(partitions@, k);
            lemma_filter_distinct(all, lost);
            lemma_filter_distinct(all, there);
            lemma_filter_members(all, lost);
            lemma_filter_members(all, there);
        }
        self.keys = kept;
        gone
    }
}

proof fn lemma_filter_member(s: Seq<(u32, u32)>, f: spec_fn((u32, u32)) -> bool, k: (u32, u32))
    ensures
        s.filter(f).contains(k) <==> s.contains(k) && f(k),
    decreases s.len(),
{
    reveal(Seq::filter);
    if s.len() > 0 {
        let t = s.drop_last();
        let g = t.filter(f);
        lemma_filter_member(t, f, k);
        assert(s.contains(k) <==> t.contains(k) || s.last() == k) by {
            assert(s =~= t.push(s.last()));
            lemma_push_member(t, s.last(), k);
        }
        lemma_push_member(g, s.last(), k);
    }
}

proof fn lemma_push_member(s: Seq<(u32, u32)>, x: (u32, u32), k: (u32, u32))
    ensures
        s.push(x).contains(k) <==> s.contains(k) || x == k,
{
    if s.contains(k) {
        let j = choose|j: int| 0 <= j < s.len() && s[j] == k;
        assert(s.push(x)[j] == k);
    }
    if s.push(x).contains(k) && x != k {
        let j = choose|j: int| 0 <= j < s.push(x).len() && s.push(x)[j] == k;
        assert(s[j] == k);
    }
    assert(s.push(x)[s.len() as int] == x);
}

proof fn lemma_filter_members(s: Seq<(u32, u32)>, f: spec_fn((u32, u32)) -> bool)
    ensures
        forall|k: (u32, u32)| #[trigger] s.filter(f).contains(k) <==> s.contains(k) && f(k),
{
    assert forall|k: (u32, u32)| #[trigger] s.filter(f).contains(k) <==> s.contains(k) && f(k) by {
        lemma_filter_member(s, f, k);
    }
}

proof fn lemma_filter_distinct(s: Seq<(u32, u32)>, f: spec_fn((u32, u32)) -> bool)
    requires
        s.no_duplicates(),
    ensures
        s.filter(f).no_duplicates(),
    decreases s.len(),
{
    reveal(Seq::filter);
    if s.len() > 0 {
        let t = s.drop_last();
        assert(t.no_duplicates());
        lemma_filter_distinct(t, f);
        lemma_filter_members(t, f);
        if f(s.last()) {
            let g = t.filter(f);
            assert forall|j: int| 0 <= j < g.len() implies #[trigger] g[j] != s.last() by {
                assert(g.contains(g[j]));
                let k = choose|k: int| 0 <= k < t.len() && t[k] == g[j];
                assert(s[k] == t[k]);
            }
        }
    }
}

/// What wakes the daemon.
#[derive(Debug, Clone, Copy, PartialEq, Eq, Structural)]
pub enum Wake {
    Device(DeviceEvent),
    /// Nothing more will be told of devices.
    WatcherGone,
    /// Nothing happened for a while; `shutdown` is whether an end was asked
    /// for meanwhile.
    Idle { shutdown: bool },
}

/// What the daemon does next.
#[derive(Debug, Clone, Copy, PartialEq, Eq, Structural)]
pub enum DaemonStep {
    Rescan,
    Wait,
    Stop,
}

/// What the daemon does when it is woken.
pub open spec fn next_step(wake: Wake) -> DaemonStep {
    match wake {
        Wake::Device(_) => DaemonStep::Rescan,
        Wake::WatcherGone => DaemonStep::Stop,
        Wake::Idle { shutdown } => if shutdown {
            DaemonStep::Stop
        } else {
            DaemonStep::Wait
        },
    }
}

/// What the daemon does when it is woken: every device event has it look at
/// the disks again, and it stops when asked to or when it would learn of no
/// more events.
pub fn daemon_step(wake: Wake) -> (s: DaemonStep)
    ensures
        s == next_step(wake),
{
    match wake {
        Wake::Device(_) => DaemonStep::Rescan,
        Wake::WatcherGone => DaemonStep::Stop,
        Wake::Idle { shutdown } => if shutdown {
            DaemonStep::Stop
        } else {
            DaemonStep::Wait
        },
    }
}

/// The mount point of a drive letter for all users: `X:` alone is moved into
/// the global namespace, anything else is taken as it is.
pub open spec fn global_mount_point(m: Seq<char>) -> Seq<char> {
    if m.len() == 2 && m[1] == ':' && (m[0] as int) < 128 {
        msg_str("\\\\.\\"@, m, ""@)
    } else {
        m
    }
}

/// The mount point that is handed to the file system host.
pub fn mount_point_of(m: &str) -> (p: String)
    ensures
        p@ == global_mount_point(m@),
{
    if m.unicode_len() == 2 && m.get_char(1) == ':' && (m.get_char(0) as u32) < 128 {
        text_str("\\\\.\\", m, "")
    } else {
        m.to_string()
    }
}

/// The mode of a mount by hand.
pub open spec fn manual_mode(rw_unsafe: bool) -> ReadWriteMode {
    if rw_unsafe {
        ReadWriteMode::ReadWriteUnsafe
    } else {
        ReadWriteMode::ReadOnly
    }
}

/// The mode of a mount by hand.
pub fn mode_for(rw_unsafe: bool) -> (m: ReadWriteMode)
    ensures
        m == manual_mode(rw_unsafe),
{
    if rw_unsafe {
        ReadWriteMode::ReadWriteUnsafe
    } else {
        ReadWriteMode::ReadOnly
    }
}

/// How much is logged.
pub fn log_level(debug: bool) -> (s: &'static str)
    ensures
        s@ == (if debug {
            "debug"@
        } else {
            "info"@
        }),
{
    if debug {
        "debug"
    } else {
        "info"
    }
}

/// The next partition to mount is the first one that is not known, and there is
/// one as long as one is not known.
pub proof fn law_next_is_first_unknown(
    known: Set<(u32, u32)>,
    partitions: Seq<ApfsPartition>,
    from: int,
)
    requires
        0 <= from <= partitions.len(),
    ensures
        ({
            let n = next_unknown(known, partitions, from);
            &&& from <= n <= partitions.len()
            &&& forall|i: int|
                from <= i < n ==> known.contains(
                    ((#[trigger] partitions[i]).disk_number, partitions[i].partition_number),
                )
            &&& n < partitions.len() ==> !known.contains(
                (partitions[n].disk_number, partitions[n].partition_number),
            )
        }),
    decreases partitions.len() - from,
{
    if from < partitions.len() && known.contains(key_of(partitions[from])) {
        law_next_is_first_unknown(known, partitions, from + 1);
    }
}

/// A drive letter with a colon is mounted for all users, and any other mount
/// point is taken as it is.
pub proof fn law_mount_point(m: Seq<char>, c: char)
    ensures
        (c as int) < 128 ==> global_mount_point(seq![c, ':']) == seq!['\\', '\\', '.', '\\', c, ':'],
        m.len() != 2 || m[1] != ':' || (m[0] as int) >= 128 ==> global_mount_point(m) == m,
{
    reveal_strlit("\\\\.\\");
    reveal_strlit("");
    assert((c as int) < 128 ==> global_mount_point(seq![c, ':']) =~= seq![
        '\\',
        '\\',
        '.',
        '\\',
        c,
        ':',
    ]);
}

/// Every event of a device has the daemon look at the disks again. It stops
/// when it is asked to, or would learn of no more events, and waits otherwise.
pub proof fn law_daemon_steps(event: DeviceEvent)
    ensures
        next_step(Wake::Device(event)) is Rescan,
        next_step(Wake::WatcherGone) is Stop,
        next_step(Wake::Idle { shutdown: true }) is Stop,
        next_step(Wake::Idle { shutdown: false }) is Wait,
{
}

/// A mount by hand can be written to only when that was asked for.
pub proof fn law_mounts_by_hand(rw_unsafe: bool)
    ensures
        manual_mode(rw_unsafe) is ReadWriteUnsafe <==> rw_unsafe,
        manual_mode(rw_unsafe) is ReadOnly <==> !rw_unsafe,
{
}

} // verus!

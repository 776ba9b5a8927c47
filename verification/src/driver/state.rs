//! The state of a served volume.

use crate::apfs::device::ReadAt;
use crate::apfs::utf8::same_text;
use crate::apfs::volume::ApfsVolume;
use crate::apfs::volume::state::{mounted, open_outcome, VolumeView};
use crate::driver::cache::{
    cache_get, cache_pop, cache_put, capacity, forgotten, law_cache_stays_orderly, new_cache, noted,
    orderly, recalled, remembered, used, CachedStat, CachedView, STAT_CACHE_CAPACITY,
};
use crate::driver::info::ReadWriteMode;
use crate::error::{Error, Failure};
use lru::LruCache;
use vstd::prelude::*;

verus! {

/// A volume that is served to Windows.
pub struct ApfsDriver<D: ReadAt> {
    pub volume: ApfsVolume<D>,
    /// What is remembered of paths.
    pub stat_cache: LruCache<String, CachedStat>,
    pub mode: ReadWriteMode,
}

/// The contents of an [`ApfsDriver`].
#[verifier::ext_equal]
pub struct DriverView {
    pub volume: VolumeView,
    pub cache: Seq<(Seq<char>, CachedView)>,
    pub capacity: nat,
    pub mode: ReadWriteMode,
}

impl<D: ReadAt> View for ApfsDriver<D> {
    type V = DriverView;

    open spec fn view(&self) -> DriverView {
        DriverView {
            volume: self.volume@,
            cache: remembered(self.stat_cache),
            capacity: capacity(self.stat_cache),
            mode: self.mode,
        }
    }
}

/// A file that Windows has opened.
pub struct ApfsFileContext {
    pub path: String,
    /// Extent map, looked up once when the file is opened.
    pub extent_map: Vec<(u64, u64, u64)>,
    /// Logical file size in bytes.
    pub file_size: u64,
}

/// The contents of an [`ApfsFileContext`].
#[verifier::ext_equal]
pub struct ContextView {
    pub path: Seq<char>,
    pub extent_map: Seq<(u64, u64, u64)>,
    pub file_size: u64,
}

impl View for ApfsFileContext {
    type V = ContextView;

    open spec fn view(&self) -> ContextView {
        ContextView {
            path: self.path@,
            extent_map: self.extent_map@,
            file_size: self.file_size,
        }
    }
}

impl DriverView {
    /// What every driver keeps.
    pub open spec fn wf(self) -> bool {
        &&& self.volume.wf()
        &&& self.capacity == STAT_CACHE_CAPACITY
        &&& orderly(self.cache, self.capacity)
    }

    /// After `path` was looked up in the cache.
    pub open spec fn looked_up(self, path: Seq<char>) -> DriverView {
        DriverView { cache: used(self.cache, path), ..self }
    }

    /// After `v` was noted of `path`.
    pub open spec fn noting(self, path: Seq<char>, v: CachedView) -> DriverView {
        DriverView { cache: noted(self.cache, self.capacity, path, v), ..self }
    }

    /// After `path` was forgotten.
    pub open spec fn forgetting(self, path: Seq<char>) -> DriverView {
        DriverView { cache: forgotten(self.cache, path), ..self }
    }

    /// With another state of the volume.
    pub open spec fn on(self, volume: VolumeView) -> DriverView {
        DriverView { volume, ..self }
    }
}

/// Whether the mode may be used, given the value of the environment variable
/// `ARFW_I_UNDERSTAND_DATA_LOSS`.
pub open spec fn allowed(mode: ReadWriteMode, acknowledged: Option<Seq<char>>) -> bool {
    mode == ReadWriteMode::ReadWriteUnsafe ==> acknowledged == Some("1"@)
}

/// The outcome of serving the first volume on a device.
pub open spec fn driver_outcome(
    disk: Seq<u8>,
    mode: ReadWriteMode,
    acknowledged: Option<Seq<char>>,
) -> Result<DriverView, Failure> {
    if !allowed(mode, acknowledged) {
        Err(
            Failure::Apfs("ReadWriteUnsafe mode requires ARFW_I_UNDERSTAND_DATA_LOSS=1 env var"@),
        )
    } else {
        match open_outcome(disk) {
            Err(e) => Err(Failure::Apfs(e.text())),
            Ok(volume) => Ok(
                DriverView { volume, cache: seq![], capacity: STAT_CACHE_CAPACITY as nat, mode },
            ),
        }
    }
}

/// A driver, taken by view.
pub open spec fn driver_view<D: ReadAt>(r: Result<ApfsDriver<D>, Error>) -> Result<
    DriverView,
    Failure,
> {
    match r {
        Ok(d) => Ok(d@),
        Err(e) => Err(e@),
    }
}

/// The view of a text that may be missing.
pub open spec fn text_view(s: Option<&str>) -> Option<Seq<char>> {
    match s {
        Some(t) => Some(t@),
        None => None,
    }
}

/// Refuse `ReadWriteUnsafe` unless `acknowledged`, the value of the environment
/// variable `ARFW_I_UNDERSTAND_DATA_LOSS`, is `1`.
pub fn check_mode(mode: ReadWriteMode, acknowledged: Option<&str>) -> (r: Result<(), Error>)
    ensures
        match r {
            Ok(_) => allowed(mode, text_view(acknowledged)),
            Err(e) => !allowed(mode, text_view(acknowledged)) && e@ == Failure::Apfs(
                "ReadWriteUnsafe mode requires ARFW_I_UNDERSTAND_DATA_LOSS=1 env var"@,
            ),
        },
{
    if mode == ReadWriteMode::ReadWriteUnsafe {
        let agreed = match acknowledged {
            Some(s) => same_text(s, "1"),
            None => false,
        };
        if !agreed {
            return Err(
                Error::Apfs(
                    "ReadWriteUnsafe mode requires ARFW_I_UNDERSTAND_DATA_LOSS=1 env var".to_string(),
                ),
            );
        }
    }
    Ok(())
}

impl<D: ReadAt> ApfsDriver<D> {
    /// Serve the first volume of a device read-only.
    pub fn new(dev: D) -> (r: Result<Self, Error>)
        ensures
            dev.reliable() ==> driver_view(r) == driver_outcome(
                dev.bytes(),
                ReadWriteMode::ReadOnly,
                None,
            ),
            r matches Err(e) ==> e@ is Apfs,
            r matches Ok(d) ==> d.volume.dev == dev && d@.wf() && d.mode
                == ReadWriteMode::ReadOnly,
            r matches Ok(d) ==> mounted(dev.bytes(), d@.volume) && d@.cache == Seq::<
                (Seq<char>, CachedView),
            >::empty() && d@.capacity == STAT_CACHE_CAPACITY,
    {
        Self::with_mode(dev, ReadWriteMode::ReadOnly, None)
    }

    /// Serve the first volume of a device with the given read/write mode.
    /// `acknowledged` is the value of the environment variable
    /// `ARFW_I_UNDERSTAND_DATA_LOSS`: `ReadWriteUnsafe` requires it to be `1`.
    pub fn with_mode(dev: D, mode: ReadWriteMode, acknowledged: Option<&str>) -> (r: Result<
        Self,
        Error,
    >)
        ensures
            dev.reliable() ==> driver_view(r) == driver_outcome(
                dev.bytes(),
                mode,
                text_view(acknowledged),
            ),
            !allowed(mode, text_view(acknowledged)) ==> driver_view(r) == driver_outcome(
                dev.bytes(),
                mode,
                text_view(acknowledged),
            ),
            r matches Err(e) ==> e@ is Apfs,
            r matches Ok(d) ==> d.volume.dev == dev && d@.wf() && d.mode == mode && allowed(
                mode,
                text_view(acknowledged),
            ),
            r matches Ok(d) ==> mounted(dev.bytes(), d@.volume) && d@.cache == Seq::<
                (Seq<char>, CachedView),
            >::empty() && d@.capacity == STAT_CACHE_CAPACITY,
    {
        check_mode(mode, acknowledged)?;
        match ApfsVolume::open(dev) {
            Err(e) => Err(Error::Apfs(e.message())),
            Ok(volume) => Ok(
                ApfsDriver { volume, stat_cache: new_cache(STAT_CACHE_CAPACITY), mode },
            ),
        }
    }

    pub fn mode(&self) -> (m: ReadWriteMode)
        ensures
            m == self@.mode,
    {
        self.mode
    }

    pub(crate) fn get_cached_stat(&mut self, path: &str) -> (r: Option<CachedStat>)
        ensures
            final(self).volume == old(self).volume,
            final(self)@ == old(self)@.looked_up(path@),
            match r {
                Some(c) => recalled(old(self)@.cache, path@) == Some(c@),
                None => recalled(old(self)@.cache, path@) is None,
            },
    {
        match cache_get(&mut self.stat_cache, path) {
            Some(c) => Some(c.clone()),
            None => None,
        }
    }

    pub(crate) fn put_cached_stat(&mut self, path: String, entry: CachedStat)
        ensures
            final(self).volume == old(self).volume,
            final(self)@ == old(self)@.noting(path@, entry@),
    {
        cache_put(&mut self.stat_cache, path, entry);
    }

    pub(crate) fn drop_cached_stat(&mut self, path: &str)
        ensures
            final(self).volume == old(self).volume,
            final(self)@ == old(self)@.forgetting(path@),
    {
        cache_pop(&mut self.stat_cache, path);
    }
}

/// Looking up, noting and forgetting paths keeps a driver well formed.
pub proof fn law_driver_stays_well_formed(d: DriverView, path: Seq<char>, v: CachedView)
    requires
        d.wf(),
    ensures
        d.looked_up(path).wf(),
        d.noting(path, v).wf(),
        d.forgetting(path).wf(),
{
    law_cache_stays_orderly(d.cache, d.capacity, path, v);
}

} // verus!

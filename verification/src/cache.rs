use vstd::prelude::*;

use crate::dir_cache::{models_of, BuildError, CacheEntry, EntryModel};

verus! {

// ---------------------------------------------------------------------------
// The cache store: one snapshot behind a reader-writer lock, replaced whole
// on refresh. Readers get a consistent, already-built tree; a writer swaps
// the pointer only, never a half-built tree. The expensive build happens
// before the lock is taken.
// ---------------------------------------------------------------------------

/// parking_lot's raw reader-writer lock, declared so values of it can be
/// held; nothing is assumed of it.
#[verifier::external_type_specification]
#[verifier::external_body]
pub struct ExRawRwLock(parking_lot::RawRwLock);

/// parking_lot's reader-writer lock, declared so values of it can be held;
/// nothing is assumed of it here. What the store relies on stands at each
/// trusted method below.
#[verifier::external_type_specification]
#[verifier::external_body]
#[verifier::reject_recursive_types(R)]
#[verifier::reject_recursive_types(T)]
pub struct ExRwLock<R, T>(parking_lot::lock_api::RwLock<R, T>) where T: ?Sized;

/// The snapshot a cache store currently holds, as entry models.
pub uninterp spec fn cache_models(c: &CacheStore) -> Seq<EntryModel>;

/// Holds the current top-level snapshot behind a reader-writer lock.
/// Writing replaces the whole snapshot at once, so no reader ever sees a
/// partially updated tree; a read made after a replace completes sees the
/// replaced snapshot.
pub struct CacheStore {
    inner: parking_lot::RwLock<Vec<CacheEntry>>,
}

impl CacheStore {
    /// A store holding an empty snapshot.
    ///
    /// Relies on parking_lot's `RwLock::new`: the lock initially holds
    /// exactly the value it was created with.
    #[verifier::external_body]
    pub fn new() -> (r: Self)
        ensures
            cache_models(&r) == Seq::<EntryModel>::empty(),
    {
        CacheStore { inner: parking_lot::RwLock::new(Vec::new()) }
    }

    /// Atomically replaces the whole snapshot.
    ///
    /// Relies on parking_lot's `RwLock::write`: the guard gives exclusive
    /// access, and assigning through it replaces the stored value.
    #[verifier::external_body]
    pub fn replace(&mut self, entries: Vec<CacheEntry>)
        ensures
            cache_models(final(self)) == models_of(entries@),
    {
        *self.inner.write() = entries;
    }

    /// A consistent copy of the current snapshot, valid regardless of later
    /// replacements.
    ///
    /// Relies on parking_lot's `RwLock::read`: the guard gives shared access
    /// to the stored value for the duration of the copy.
    #[verifier::external_body]
    pub fn read(&self) -> (r: Vec<CacheEntry>)
        ensures
            models_of(r@) == cache_models(self),
    {
        self.inner.read().clone()
    }
}

// ---------------------------------------------------------------------------
// The change watcher's decisions. The watcher loop itself performs outside
// work — waiting on notifications, rebuilding from the filesystem — and
// feeds each event and build outcome through these functions.
// ---------------------------------------------------------------------------

/// What the watcher loop receives: a debounced filesystem notification, or
/// an explicit request to shut down, distinguished so that shutdown never
/// looks like an ordinary event.
#[derive(Debug, PartialEq, Eq, Structural, Clone, Copy)]
pub enum DataUpdateEvent {
    /// A burst of filesystem changes, already coalesced.
    FsNotify,
    /// The process is shutting down.
    Shutdown,
}

/// What the watcher loop does next.
#[derive(Debug, PartialEq, Eq, Structural, Clone, Copy)]
pub enum WatchAction {
    /// Rebuild the snapshot and refresh the store.
    Refresh,
    /// Leave the loop.
    Stop,
}

/// Decides the watcher's next step: a filesystem notification triggers a
/// refresh; a shutdown request, or the loss of every event sender, stops
/// the loop.
pub fn watch_step(event: Option<DataUpdateEvent>) -> (r: WatchAction)
    ensures
        r == (match event {
            Some(DataUpdateEvent::FsNotify) => WatchAction::Refresh,
            Some(DataUpdateEvent::Shutdown) => WatchAction::Stop,
            None => WatchAction::Stop,
        }),
{
    match event {
        Some(DataUpdateEvent::FsNotify) => WatchAction::Refresh,
        Some(DataUpdateEvent::Shutdown) => WatchAction::Stop,
        None => WatchAction::Stop,
    }
}

/// Applies one refresh outcome to the store: a successful build replaces
/// the snapshot whole; a failed build leaves the previous snapshot exactly
/// as it was — a failed refresh never discards a good cache. Returns
/// whether the snapshot was replaced.
pub fn apply_refresh(store: &mut CacheStore, built: Result<Vec<CacheEntry>, BuildError>) -> (r: (
    bool,
    Option<BuildError>,
))
    ensures
        built is Ok ==> r.0 && cache_models(final(store)) == models_of(built.unwrap()@)
            && r.1 is None,
        built is Err ==> !r.0 && cache_models(final(store)) == cache_models(old(store))
            && r.1 is Some,
{
    match built {
        Ok(entries) => {
            store.replace(entries);
            (true, None)
        },
        Err(e) => (false, Some(e)),
    }
}

} // verus!

//! The read-through cache: memory lookups in front of a download callback.

use bytes::Bytes;
use vstd::prelude::*;

use crate::config::Config;
use crate::download::Download;
use crate::evidence::Access;
use crate::keys::{key_hash, ObjectKey};
use crate::payload;
use crate::range::{ByteRange, Interval};
use crate::ranges::part;
use crate::recording::{
    fetched_downloads_are_retained, fetches_record_their_request_once,
    hits_record_their_request_once,
};
use crate::shard_state::CompactionMode;
use crate::store::{empty_cache, shard_count_for, CacheState, MemoryCache};

verus! {

/// A read-through cache of object ranges.
///
/// It provides the complete per-call callback and covering-memory path;
/// constructing one does not open or modify the configured cache directory.
pub struct Cache {
    config: Config,
    memory: MemoryCache,
}

impl View for Cache {
    type V = CacheState;

    closed spec fn view(&self) -> CacheState {
        self.memory@
    }
}

/// A failed [`Cache::get_or_fetch`] operation.
#[derive(Clone, Debug, PartialEq, Eq)]
pub enum GetOrFetchError<E> {
    /// The callback supplied to this lookup failed.
    Callback(E),
    /// The returned download did not contain this call's exact request.
    DownloadDoesNotCover {
        /// The exact range requested by the lookup.
        requested_range: ByteRange,
        /// The exact range returned by the callback.
        downloaded_range: ByteRange,
    },
}

/// What a missed lookup comes to once its callback has returned `outcome`: the
/// callback's error, a rejected download, or the requested bytes of a download
/// that is then cached together with the request.
pub open spec fn fetched<E>(
    before: CacheState,
    key: Seq<char>,
    requested: ByteRange,
    outcome: Result<Download, E>,
    result: Result<Bytes, GetOrFetchError<E>>,
    after: CacheState,
) -> bool {
    match outcome {
        Err(error) => result == Err::<Bytes, GetOrFetchError<E>>(GetOrFetchError::Callback(error))
            && after == before,
        Ok(download) => if download.interval().covers(requested@) {
            &&& result is Ok
            &&& payload::contents(result->Ok_0) == part(
                download.payload(),
                download.interval(),
                requested@,
            )
            &&& before.populated(key, download, Some(requested@), after)
        } else {
            &&& result is Err
            &&& result->Err_0 is DownloadDoesNotCover
            &&& result->Err_0->requested_range@ == requested@
            &&& result->Err_0->downloaded_range@ == download.interval()
            &&& after == before
        },
    }
}

impl Cache {
    /// The memory tier is well formed.
    pub closed spec fn well_formed(&self) -> bool {
        self.memory.well_formed()
    }

    /// What holds of every well-formed cache.
    pub proof fn lemma_well_formed(&self)
        requires
            self.well_formed(),
        ensures
            self@.shards.len() > 0,
            forall|i: int|
                0 <= i < self@.shards.len() ==> {
                    &&& (#[trigger] self@.shards[i]).valid()
                    &&& self@.shards[i].measured()
                    &&& 0 <= self@.shards[i].used() <= u64::MAX
                },
    {
        self.memory.lemma_well_formed();
    }

    /// The configuration that the cache was created with.
    pub closed spec fn configuration(&self) -> Config {
        self.config
    }

    /// Creates a cache from a validated configuration, sharded for the given
    /// parallelism.
    pub fn new(config: Config, parallelism: Option<usize>) -> (cache: Self)
        ensures
            cache.well_formed(),
            cache.configuration() == config,
            cache@ == empty_cache(
                config.memory_bytes(),
                shard_count_for(parallelism),
                CompactionMode::ValueAware,
            ),
    {
        let memory = MemoryCache::new(config.memory_capacity(), parallelism);
        Self { config, memory }
    }

    /// Returns this cache's configuration.
    pub fn config(&self) -> (config: &Config)
        ensures
            *config == self.configuration(),
    {
        &self.config
    }

    /// Returns whether identities are left for one more download of an object,
    /// after a lookup of any range too.
    pub fn has_headroom(&self, object_key: &ObjectKey) -> (headroom: bool)
        requires
            self.well_formed(),
        ensures
            headroom == (self@.home(object_key@).headroom_used() < u64::MAX),
            headroom <==> self@.home(object_key@).last_id + 3 * self@.home(object_key@).used()
                < u64::MAX,
            headroom ==> forall|key: Seq<char>, range: Interval| #[trigger]
                self@.home(object_key@).admissible(key, range),
            headroom ==> forall|requested: Interval, range: Interval| #[trigger]
                self@.home(object_key@).looked_up(object_key@, requested).admissible(
                    object_key@,
                    range,
                ),
    {
        self.memory.has_headroom(object_key)
    }

    /// Checks memory for one covering range, and records the request on a hit.
    pub fn lookup(&mut self, object_key: &ObjectKey, requested_range: ByteRange) -> (found: Option<
        Bytes,
    >)
        requires
            old(self).well_formed(),
        ensures
            final(self).well_formed(),
            final(self).configuration() == old(self).configuration(),
            final(self)@ == old(self)@.with_home(
                object_key@,
                old(self)@.home(object_key@).looked_up(object_key@, requested_range@),
            ),
            match found {
                Some(bytes) => exists|slot: int| #[trigger]
                    old(self)@.home(object_key@).answers(slot, object_key@, requested_range@)
                        && payload::contents(bytes) == old(self)@.home(object_key@).bytes_at(
                        slot,
                        requested_range@,
                    ),
                None => !old(self)@.home(object_key@).covered(object_key@, requested_range@),
            },
            found is Some <==> exists|slot: int|
                {
                    &&& 0 <= slot < old(self)@.home(object_key@).ring.len()
                    &&& (#[trigger] old(self)@.home(object_key@).ring[slot]).key == object_key@
                    &&& old(self)@.home(object_key@).ring[slot].range.start
                        <= requested_range@.start
                    &&& requested_range@.end <= old(self)@.home(object_key@).ring[slot].range.end
                },
            found is Some ==> exists|slot: int|
                {
                    let extent = old(self)@.home(object_key@).ring[slot];
                    &&& 0 <= slot < old(self)@.home(object_key@).ring.len()
                    &&& #[trigger] old(self)@.home(object_key@).covers_at(
                        slot,
                        object_key@,
                        requested_range@,
                    )
                    &&& payload::contents(found->0).len() == requested_range@.end
                        - requested_range@.start
                    &&& forall|i: int|
                        0 <= i < payload::contents(found->0).len() ==> #[trigger] payload::contents(
                            found->0,
                        )[i] == extent.bytes[requested_range@.start - extent.range.start + i]
                },
    {
        self.memory.get(object_key, requested_range)
    }

    /// Finishes a missed lookup with what its callback returned.
    pub fn complete<E>(
        &mut self,
        object_key: ObjectKey,
        requested_range: ByteRange,
        outcome: Result<Download, E>,
    ) -> (result: Result<Bytes, GetOrFetchError<E>>)
        requires
            old(self).well_formed(),
            outcome matches Ok(download) ==> download.interval().covers(requested_range@)
                ==> old(self)@.admissible(object_key@, download),
        ensures
            final(self).well_formed(),
            final(self).configuration() == old(self).configuration(),
            fetched(old(self)@, object_key@, requested_range, outcome, result, final(self)@),
            result is Ok ==> {
                let key = object_key@;
                let past = old(self)@.home(key).record_of(key).accesses;
                let present = final(self)@.home(key).record_of(key).accesses;
                let clock = final(self)@.home(key).clock;
                let dropped = past.len() + 1 - present.len();
                &&& clock == old(self)@.home(key).clock.saturating_add(1)
                &&& final(self)@.home(key).metrics.access == old(self)@.home(
                    key,
                ).metrics.access.wrapping_add(1)
                &&& present.len() > 0
                &&& present.last() == Access { range: requested_range@, observed_at: clock }
                &&& 0 <= dropped <= past.len()
                &&& present.drop_last() == past.skip(dropped)
                &&& forall|i: int|
                    0 <= i < dropped ==> clock - (#[trigger] past[i]).observed_at > 32_768 || (i
                        == dropped - 1 && past.len() - i == 64)
                &&& dropped < past.len() ==> clock - past[dropped].observed_at <= 32_768 || (dropped > 0
                    && past.len() - dropped == 63)
            },
            result is Ok ==> exists|slot: int|
                {
                    &&& 0 <= slot < final(self)@.home(object_key@).ring.len()
                    &&& (#[trigger] final(self)@.home(object_key@).ring[slot]).key == object_key@
                    &&& final(self)@.home(object_key@).ring[slot].range.start
                        <= requested_range@.start
                    &&& requested_range@.end <= final(self)@.home(object_key@).ring[slot].range.end
                },
            result is Ok ==> payload::contents(result->Ok_0).len() == requested_range@.end
                - requested_range@.start,
            result is Err ==> final(self)@ == old(self)@,
    {
        proof {
            self.lemma_well_formed();
        }
        let ghost before = self@;
        let ghost returned = outcome;
        let (requested_bytes, download) = match accept(outcome, requested_range) {
            Ok(accepted) => accepted,
            Err(error) => {
                return Err(error);
            },
        };
        proof {
            use_type_invariant(&download);
            use_type_invariant(&requested_range);
        }
        self.memory.insert_and_record(object_key, download, requested_range);
        let result = Ok(requested_bytes);
        proof {
            fetches_record_their_request_once(
                before,
                object_key@,
                requested_range,
                returned,
                result,
                self@,
            );
            fetched_downloads_are_retained(
                before,
                object_key@,
                requested_range,
                returned,
                result,
                self@,
            );
        }
        result
    }

    /// Returns the requested bytes from memory or invokes this call's callback.
    ///
    /// One covering memory range is checked first. On a miss, `callback` is
    /// invoked exactly once by this call; the cache performs no leader election,
    /// waiter coordination, or source retry. A successful callback must return
    /// one valid [`Download`] covering `requested_range`. The memory target is
    /// soft, so callback results are not rejected solely for exceeding it.
    ///
    /// Every success records `requested_range` exactly once. Downloaded-range
    /// population is separate and creates no access. The returned [`Bytes`]
    /// contains exactly the request and may share the download's allocation.
    pub fn get_or_fetch<F, E>(
        &mut self,
        object_key: ObjectKey,
        requested_range: ByteRange,
        callback: F,
    ) -> (result: Result<Bytes, GetOrFetchError<E>>) where F: FnOnce() -> Result<Download, E>
        requires
            old(self).well_formed(),
            call_requires(callback, ()),
            !old(self)@.home(object_key@).covered(object_key@, requested_range@) ==> forall|
                outcome: Result<Download, E>,
            | #[trigger]
                call_ensures(callback, (), outcome) ==> match outcome {
                    Ok(download) => download.interval().covers(requested_range@) ==> old(
                        self,
                    )@.home(object_key@).looked_up(object_key@, requested_range@).admissible(
                        object_key@,
                        download.interval(),
                    ),
                    Err(_) => true,
                },
        ensures
            final(self).well_formed(),
            final(self).configuration() == old(self).configuration(),
            old(self)@.home(object_key@).covered(object_key@, requested_range@) ==> {
                &&& result is Ok
                &&& exists|slot: int| #[trigger]
                    old(self)@.home(object_key@).answers(slot, object_key@, requested_range@)
                        && payload::contents(result->Ok_0) == old(self)@.home(object_key@).bytes_at(
                        slot,
                        requested_range@,
                    )
                &&& final(self)@ == old(self)@.with_home(
                    object_key@,
                    old(self)@.home(object_key@).looked_up(object_key@, requested_range@),
                )
            },
            !old(self)@.home(object_key@).covered(object_key@, requested_range@) ==> exists|
                outcome: Result<Download, E>,
            |
                {
                    &&& #[trigger] call_ensures(callback, (), outcome)
                    &&& fetched(
                        old(self)@.with_home(
                            object_key@,
                            old(self)@.home(object_key@).looked_up(object_key@, requested_range@),
                        ),
                        object_key@,
                        requested_range,
                        outcome,
                        result,
                        final(self)@,
                    )
                },
            result is Ok ==> {
                let key = object_key@;
                let past = old(self)@.home(key).record_of(key).accesses;
                let present = final(self)@.home(key).record_of(key).accesses;
                let clock = final(self)@.home(key).clock;
                let dropped = past.len() + 1 - present.len();
                &&& clock == old(self)@.home(key).clock.saturating_add(1)
                &&& final(self)@.home(key).metrics.access == old(self)@.home(
                    key,
                ).metrics.access.wrapping_add(1)
                &&& present.len() > 0
                &&& present.last() == Access { range: requested_range@, observed_at: clock }
                &&& 0 <= dropped <= past.len()
                &&& present.drop_last() == past.skip(dropped)
                &&& forall|i: int|
                    0 <= i < dropped ==> clock - (#[trigger] past[i]).observed_at > 32_768 || (i
                        == dropped - 1 && past.len() - i == 64)
                &&& dropped < past.len() ==> clock - past[dropped].observed_at <= 32_768 || (dropped > 0
                    && past.len() - dropped == 63)
            },
            result is Ok ==> exists|slot: int|
                {
                    &&& 0 <= slot < final(self)@.home(object_key@).ring.len()
                    &&& (#[trigger] final(self)@.home(object_key@).ring[slot]).key == object_key@
                    &&& final(self)@.home(object_key@).ring[slot].range.start
                        <= requested_range@.start
                    &&& requested_range@.end <= final(self)@.home(object_key@).ring[slot].range.end
                },
            result is Ok ==> payload::contents(result->Ok_0).len() == requested_range@.end
                - requested_range@.start,
            result is Err ==> {
                &&& final(self)@.home(object_key@).clock == old(self)@.home(object_key@).clock
                &&& final(self)@.home(object_key@).objects == old(self)@.home(object_key@).objects
                &&& final(self)@.home(object_key@).ring == old(self)@.home(object_key@).ring
            },
    {
        let ghost before = self@;
        let ghost home = before.home(object_key@);
        proof {
            self.lemma_well_formed();
            vstd::arithmetic::div_mod::lemma_mod_bound(
                key_hash(object_key@) as int,
                before.shards.len() as int,
            );
        }
        if let Some(bytes) = self.lookup(&object_key, requested_range) {
            proof {
                let slot = choose|slot: int| #[trigger]
                    home.answers(slot, object_key@, requested_range@) && payload::contents(bytes)
                        == home.bytes_at(slot, requested_range@);
                assert(home.covers_at(slot, object_key@, requested_range@));
                hits_record_their_request_once(
                    home,
                    object_key@,
                    requested_range@,
                    self@.home(object_key@),
                );
                assert(home.ring[slot].key == object_key@);
                assert(home.ring[slot].valid());
                assert(self@.home(object_key@).ring[slot] == home.ring[slot]);
                use_type_invariant(&requested_range);
            }
            return Ok(bytes);
        }
        let outcome = callback();
        self.complete(object_key, requested_range, outcome)
    }
}

/// Returns the requested bytes of what a callback returned, and the download to
/// be cached; or the error that the lookup fails with.
pub fn accept<E>(outcome: Result<Download, E>, requested_range: ByteRange) -> (result: Result<
    (Bytes, Download),
    GetOrFetchError<E>,
>)
    ensures
        match outcome {
            Err(error) => result == Err::<(Bytes, Download), GetOrFetchError<E>>(
                GetOrFetchError::Callback(error),
            ),
            Ok(download) => if download.interval().covers(requested_range@) {
                &&& result is Ok
                &&& payload::contents(result->Ok_0.0) == part(
                    download.payload(),
                    download.interval(),
                    requested_range@,
                )
                &&& result->Ok_0.1 == download
            } else {
                &&& result is Err
                &&& result->Err_0 is DownloadDoesNotCover
                &&& result->Err_0->requested_range == requested_range
                &&& result->Err_0->downloaded_range@ == download.interval()
            },
        },
{
    let download = match outcome {
        Ok(download) => download,
        Err(error) => {
            return Err(GetOrFetchError::Callback(error));
        },
    };
    let downloaded_range = download.downloaded_range();
    if !downloaded_range.contains(requested_range) {
        return Err(GetOrFetchError::DownloadDoesNotCover { requested_range, downloaded_range });
    }
    let requested_bytes = requested_slice(download.bytes(), downloaded_range, requested_range);
    Ok((requested_bytes, download))
}

/// Slices the requested bytes out of a covering payload.
pub fn requested_slice(
    bytes: &Bytes,
    downloaded_range: ByteRange,
    requested_range: ByteRange,
) -> (requested: Bytes)
    requires
        payload::contents(*bytes).len() == downloaded_range@.len(),
        downloaded_range@.covers(requested_range@),
    ensures
        payload::contents(requested) == part(
            payload::contents(*bytes),
            downloaded_range@,
            requested_range@,
        ),
{
    let length = payload::length(bytes);
    let start = (requested_range.start() - downloaded_range.start()) as usize;
    let end = (requested_range.end() - downloaded_range.start()) as usize;
    payload::slice(bytes, start, end)
}

} // verus!

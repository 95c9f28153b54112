//! The sharded in-memory range cache.

use bytes::Bytes;
use vstd::prelude::*;

use crate::download::Download;
use crate::evidence::Access;
use crate::keys::{key_hash, shard_index_for, ObjectKey};
use crate::metrics::MemoryMetrics;
use crate::payload;
use crate::range::{ByteRange, Interval};
use crate::recording::{
    accesses_record_their_request_once, populations_alone_record_nothing,
    populations_record_their_request_once,
};
use crate::shard::{populated, Shard};
use crate::shard_state::{payload_of, CompactionMode, ObjectRecord, ShardState};

verus! {

/// Caps lock partitioning to avoid excessive per-cache metadata.
pub const MAX_SHARDS: usize = 64;

/// A sharded cache: its capacity and its shards.
#[verifier::ext_equal]
pub struct CacheState {
    pub capacity: u64,
    pub shards: Seq<ShardState>,
}

impl CacheState {
    /// The shard that holds everything of `key`.
    pub open spec fn index(self, key: Seq<char>) -> int {
        key_hash(key) as int % self.shards.len() as int
    }

    /// The state of the shard that holds everything of `key`.
    pub open spec fn home(self, key: Seq<char>) -> ShardState {
        self.shards[self.index(key)]
    }

    /// The cache with the shard of `key` at `state`, and every other as it was.
    pub open spec fn with_home(self, key: Seq<char>, state: ShardState) -> CacheState {
        CacheState { shards: self.shards.update(self.index(key), state), ..self }
    }

    /// The payload bytes that all shards retain.
    pub open spec fn used(self) -> int {
        total_used(self.shards)
    }

    /// The entries that all shards retain.
    pub open spec fn entries(self) -> int {
        total_entries(self.shards)
    }

    /// Whether the shard of `key` has identities left for caching the download.
    pub open spec fn admissible(self, key: Seq<char>, download: Download) -> bool {
        self.home(key).admissible(key, download.interval())
    }

    /// Whether `after` is where the identities of the shard of `key` run out
    /// while the download is cached.
    pub open spec fn exhausted(
        self,
        key: Seq<char>,
        download: Download,
        after: CacheState,
    ) -> bool {
        &&& after == self.with_home(key, after.home(key))
        &&& self.home(key).exhausted(key, download.interval(), after.home(key))
    }

    /// The cache after the download was cached.
    pub open spec fn populated(
        self,
        key: Seq<char>,
        download: Download,
        requested: Option<Interval>,
        after: CacheState,
    ) -> bool {
        &&& after == self.with_home(key, after.home(key))
        &&& populated(
            self.home(key),
            key,
            download.interval(),
            download.payload(),
            requested,
            after.home(key),
        )
    }
}

/// The payload bytes that `shards` retain.
pub open spec fn total_used(shards: Seq<ShardState>) -> int
    decreases shards.len(),
{
    if shards.len() == 0 {
        0
    } else {
        total_used(shards.drop_last()) + shards.last().used()
    }
}

/// The entries that `shards` retain.
pub open spec fn total_entries(shards: Seq<ShardState>) -> int
    decreases shards.len(),
{
    if shards.len() == 0 {
        0
    } else {
        total_entries(shards.drop_last()) + shards.last().ring.len()
    }
}

/// The part of `total` that shard `index` of `shards` gets.
pub open spec fn capacity_share(total: u64, shards: int, index: int) -> int {
    total as int / shards + if index < total as int % shards {
        1int
    } else {
        0
    }
}

/// A sharded cache of downloaded object ranges with soft capacity.
///
/// All ranges for one fully compared key share a shard and are kept in an
/// ordered index. Partial overlaps coexist and are treated no differently from
/// disjoint ranges. A lookup succeeds only when one retained range covers the
/// exact request and returns a [`Bytes`] slice containing only those requested
/// bytes. The result can share the retained allocation. Bounded, ageable exact
/// access evidence is recorded separately from downloaded-range population.
///
/// The configured capacity is divided among the shards. Each shard evicts
/// locally before insertion. A payload larger than its shard's target is
/// retained after that shard is emptied, so total usage can exceed the
/// configured capacity. Victims are selected shard-locally from recent expected
/// retrieval value per retained byte. Once its grace has passed, a victim is
/// trimmed to its observed requests where that releases enough of it.
pub struct MemoryCache {
    /// Total soft target divided among the shards.
    capacity: u64,
    /// Partitions selected by complete object identity.
    shards: Vec<Shard>,
}

impl View for MemoryCache {
    type V = CacheState;

    closed spec fn view(&self) -> CacheState {
        CacheState {
            capacity: self.capacity,
            shards: self.shards@.map_values(|shard: Shard| shard@),
        }
    }
}

impl MemoryCache {
    /// There is a shard, and every shard is well formed.
    pub closed spec fn well_formed(&self) -> bool {
        &&& self.shards@.len() > 0
        &&& forall|i: int| 0 <= i < self.shards@.len() ==> (#[trigger] self.shards@[i]).well_formed()
    }

    /// What holds of every well-formed cache.
    pub proof fn lemma_well_formed(&self)
        requires
            self.well_formed(),
        ensures
            self@.shards.len() > 0,
            forall|i: int|
                0 <= i < self@.shards.len() ==> {
                    &&& (#[trigger] self@.shards[i]).valid()
                    &&& self@.shards[i].measured()
                    &&& 0 <= self@.shards[i].used() <= u64::MAX
                },
    {
        assert forall|i: int| 0 <= i < self@.shards.len() implies {
            &&& (#[trigger] self@.shards[i]).valid()
            &&& self@.shards[i].measured()
            &&& 0 <= self@.shards[i].used() <= u64::MAX
        } by {
            self.shards@[i].lemma_well_formed();
        }
    }

    /// Creates a cache with a soft payload-byte target, sharded for the given
    /// parallelism.
    pub fn new(capacity: u64, parallelism: Option<usize>) -> (cache: Self)
        ensures
            cache.well_formed(),
            cache@ == empty_cache(
                capacity,
                shard_count_for(parallelism),
                CompactionMode::ValueAware,
            ),
    {
        Self::with_shard_count(capacity, default_shard_count(parallelism))
    }

    /// Creates a cache with an explicit shard count for controlled benchmarks.
    pub fn with_shards_for_benchmark(capacity: u64, shard_count: usize) -> (cache: Self)
        requires
            shard_count > 0,
        ensures
            cache.well_formed(),
            cache@ == empty_cache(capacity, shard_count as int, CompactionMode::ValueAware),
    {
        Self::with_shard_count_and_mode(capacity, shard_count, CompactionMode::ValueAware)
    }

    /// Creates a benchmark cache with compaction disabled.
    pub fn with_compaction_disabled_for_benchmark(capacity: u64, shard_count: usize) -> (cache: Self)
        requires
            shard_count > 0,
        ensures
            cache.well_formed(),
            cache@ == empty_cache(capacity, shard_count as int, CompactionMode::Disabled),
    {
        Self::with_shard_count_and_mode(capacity, shard_count, CompactionMode::Disabled)
    }

    /// Creates a cache with an explicit shard count.
    pub fn with_shard_count(capacity: u64, shard_count: usize) -> (cache: Self)
        requires
            shard_count > 0,
        ensures
            cache.well_formed(),
            cache@ == empty_cache(capacity, shard_count as int, CompactionMode::ValueAware),
    {
        Self::with_shard_count_and_mode(capacity, shard_count, CompactionMode::ValueAware)
    }

    fn with_shard_count_and_mode(
        capacity: u64,
        shard_count: usize,
        compaction_mode: CompactionMode,
    ) -> (cache: Self)
        requires
            shard_count > 0,
        ensures
            cache.well_formed(),
            cache@ == empty_cache(capacity, shard_count as int, compaction_mode),
    {
        let mut shards: Vec<Shard> = Vec::new();
        let mut index: usize = 0;
        while index < shard_count
            invariant
                index <= shard_count,
                shard_count > 0,
                shards@.len() == index,
                forall|i: int|
                    0 <= i < index ==> (#[trigger] shards@[i]).well_formed() && shards@[i]@
                        == ShardState::empty(
                        capacity_share(capacity, shard_count as int, i) as u64,
                        compaction_mode,
                    ),
            decreases shard_count - index,
        {
            shards.push(
                Shard::new(shard_capacity_for(capacity, shard_count, index), compaction_mode),
            );
            index += 1;
        }
        let cache = MemoryCache { capacity, shards };
        assert(cache@ =~= empty_cache(capacity, shard_count as int, compaction_mode));
        cache
    }

    /// Returns the configured soft payload-byte target.
    pub fn capacity(&self) -> (capacity: u64)
        ensures
            capacity == self@.capacity,
    {
        self.capacity
    }

    /// Returns the number of shards.
    pub fn shard_count(&self) -> (count: usize)
        ensures
            count == self@.shards.len(),
    {
        self.shards.len()
    }

    /// Returns the sum of payload bytes currently retained by all shards, or
    /// nothing if that exceeds `u64::MAX`.
    pub fn checked_used_bytes(&self) -> (used: Option<u64>)
        requires
            self.well_formed(),
        ensures
            match used {
                Some(used) => used == self@.used(),
                None => self@.used() > u64::MAX,
            },
    {
        let mut used: u64 = 0;
        let mut index: usize = 0;
        proof {
            self.lemma_well_formed();
            assert(self@.shards.take(0) =~= Seq::<ShardState>::empty());
        }
        while index < self.shards.len()
            invariant
                index <= self.shards@.len(),
                self.well_formed(),
                used == total_used(self@.shards.take(index as int)),
                forall|i: int|
                    0 <= i < self@.shards.len() ==> 0 <= (#[trigger] self@.shards[i]).used(),
            decreases self.shards.len() - index,
        {
            proof {
                let next = self@.shards.take(index + 1);
                assert(next.drop_last() =~= self@.shards.take(index as int));
                assert(next.last() == self.shards@[index as int]@);
            }
            match used.checked_add(self.shards[index].used_bytes()) {
                Some(sum) => {
                    used = sum;
                },
                None => {
                    proof {
                        lemma_total_used_prefix(self@.shards, index + 1);
                    }
                    return None;
                },
            }
            index += 1;
        }
        assert(self@.shards.take(index as int) =~= self@.shards);
        Some(used)
    }

    /// Returns the sum of payload bytes currently retained by all shards.
    pub fn used_bytes(&self) -> (used: u64)
        requires
            self.well_formed(),
            self@.used() <= u64::MAX,
        ensures
            used == self@.used(),
    {
        self.checked_used_bytes().unwrap()
    }

    /// Returns the number of entries currently retained by all shards.
    pub fn entry_count(&self) -> (count: u64)
        requires
            self.well_formed(),
            self@.entries() <= u64::MAX,
        ensures
            count == self@.entries(),
    {
        let mut count: u64 = 0;
        let mut index: usize = 0;
        assert(self@.shards.take(0) =~= Seq::<ShardState>::empty());
        while index < self.shards.len()
            invariant
                index <= self.shards@.len(),
                self.well_formed(),
                self@.entries() <= u64::MAX,
                count == total_entries(self@.shards.take(index as int)),
            decreases self.shards.len() - index,
        {
            proof {
                let next = self@.shards.take(index + 1);
                assert(next.drop_last() =~= self@.shards.take(index as int));
                assert(next.last() == self.shards@[index as int]@);
                lemma_total_entries_prefix(self@.shards, index + 1);
            }
            count = count + self.shards[index].entry_count() as u64;
            index += 1;
        }
        assert(self@.shards.take(index as int) =~= self@.shards);
        count
    }

    /// Returns whether the shard of an object has identities left for one more
    /// admission of any range, after a lookup of any range too.
    pub fn has_headroom(&self, object_key: &ObjectKey) -> (headroom: bool)
        requires
            self.well_formed(),
        ensures
            headroom == (self@.home(object_key@).headroom_used() < u64::MAX),
            headroom <==> self@.home(object_key@).last_id + 3 * self@.home(object_key@).used()
                < u64::MAX,
            headroom ==> forall|key: Seq<char>, range: Interval| #[trigger]
                self@.home(object_key@).admissible(key, range),
            headroom ==> forall|requested: Interval, range: Interval| #[trigger]
                self@.home(object_key@).looked_up(object_key@, requested).admissible(
                    object_key@,
                    range,
                ),
    {
        let index = self.shard_index(object_key);
        let headroom = self.shards[index].has_headroom();
        proof {
            let key = object_key@;
            let home = self@.home(key);
            self.lemma_well_formed();
            assert(home == self@.shards[index as int]);
            if headroom {
                assert forall|requested: Interval, range: Interval| #[trigger]
                    home.looked_up(key, requested).admissible(key, range) by {
                    home.lemma_looked_up(key, requested);
                    home.looked_up(key, requested).lemma_headroom_admits(key, range);
                }
            }
        }
        headroom
    }

    /// Selects the shard for an object.
    pub fn shard_index(&self, object_key: &ObjectKey) -> (index: usize)
        requires
            self.well_formed(),
        ensures
            index == self@.index(object_key@),
            index < self@.shards.len(),
    {
        shard_index_for(object_key, self.shards.len())
    }

    /// Looks up one covering range and records its exact request on a hit.
    pub fn get(&mut self, object_key: &ObjectKey, requested_range: ByteRange) -> (found: Option<Bytes>)
        requires
            old(self).well_formed(),
        ensures
            final(self).well_formed(),
            final(self)@ == old(self)@.with_home(
                object_key@,
                old(self)@.home(object_key@).looked_up(object_key@, requested_range@),
            ),
            match found {
                Some(bytes) => exists|slot: int| #[trigger]
                    old(self)@.home(object_key@).answers(slot, object_key@, requested_range@)
                        && payload::contents(bytes) == old(self)@.home(object_key@).bytes_at(
                        slot,
                        requested_range@,
                    ),
                None => !old(self)@.home(object_key@).covered(object_key@, requested_range@),
            },
            found is Some <==> exists|slot: int|
                {
                    &&& 0 <= slot < old(self)@.home(object_key@).ring.len()
                    &&& (#[trigger] old(self)@.home(object_key@).ring[slot]).key == object_key@
                    &&& old(self)@.home(object_key@).ring[slot].range.start
                        <= requested_range@.start
                    &&& requested_range@.end <= old(self)@.home(object_key@).ring[slot].range.end
                },
            found is Some ==> exists|slot: int|
                {
                    let extent = old(self)@.home(object_key@).ring[slot];
                    &&& 0 <= slot < old(self)@.home(object_key@).ring.len()
                    &&& #[trigger] old(self)@.home(object_key@).covers_at(
                        slot,
                        object_key@,
                        requested_range@,
                    )
                    &&& payload::contents(found->0).len() == requested_range@.end
                        - requested_range@.start
                    &&& forall|i: int|
                        0 <= i < payload::contents(found->0).len() ==> #[trigger] payload::contents(
                            found->0,
                        )[i] == extent.bytes[requested_range@.start - extent.range.start + i]
                },
    {
        let ghost home = self@.home(object_key@);
        proof {
            self.lemma_well_formed();
            use_type_invariant(&requested_range);
            vstd::arithmetic::div_mod::lemma_mod_bound(
                key_hash(object_key@) as int,
                self@.shards.len() as int,
            );
        }
        let index = self.shard_index(object_key);
        let found = self.shards[index].get(object_key, requested_range);
        assert(self@ =~= old(self)@.with_home(
            object_key@,
            old(self)@.home(object_key@).looked_up(object_key@, requested_range@),
        ));
        proof {
            if found is Some {
                let slot = choose|slot: int| #[trigger]
                    home.answers(slot, object_key@, requested_range@) && payload::contents(found->0)
                        == home.bytes_at(slot, requested_range@);
                assert(home.covers_at(slot, object_key@, requested_range@));
                assert(home.ring[slot].key == object_key@);
                assert(home.ring[slot].valid());
            } else {
                assert forall|slot: int|
                    0 <= slot < home.ring.len() && (#[trigger] home.ring[slot]).key
                        == object_key@ implies !(home.ring[slot].range.start
                    <= requested_range@.start && requested_range@.end
                    <= home.ring[slot].range.end) by {
                    assert(!home.covers_at(slot, object_key@, requested_range@));
                }
            }
        }
        found
    }

    /// Caches one downloaded range without creating an access.
    ///
    /// If an existing entry contains the download, the supplied payload is
    /// discarded. A larger download replaces entries it fully contains, while
    /// partial overlaps coexist.
    pub fn insert(&mut self, object_key: ObjectKey, download: Download)
        requires
            old(self).well_formed(),
            old(self)@.admissible(object_key@, download),
        ensures
            final(self).well_formed(),
            old(self)@.populated(object_key@, download, None, final(self)@),
            final(self)@.home(object_key@).clock == old(self)@.home(object_key@).clock,
            final(self)@.home(object_key@).metrics.access == old(self)@.home(
                object_key@,
            ).metrics.access,
            final(self)@.home(object_key@).record_of(object_key@).accesses == old(self)@.home(
                object_key@,
            ).record_of(object_key@).accesses,
            exists|slot: int|
                {
                    &&& 0 <= slot < final(self)@.home(object_key@).ring.len()
                    &&& (#[trigger] final(self)@.home(object_key@).ring[slot]).key == object_key@
                    &&& final(self)@.home(object_key@).ring[slot].range.start
                        <= download.interval().start
                    &&& download.interval().end <= final(self)@.home(
                        object_key@,
                    ).ring[slot].range.end
                },
    {
        let ghost before = self@;
        proof {
            self.lemma_well_formed();
            use_type_invariant(&download);
            vstd::arithmetic::div_mod::lemma_mod_bound(
                key_hash(object_key@) as int,
                before.shards.len() as int,
            );
        }
        self.insert_inner(&object_key, download, None);
        proof {
            let key = object_key@;
            let home = self@.home(key);
            populations_alone_record_nothing(
                before.home(key),
                key,
                download.interval(),
                download.payload(),
                home,
                key,
            );
            crate::laws::downloads_are_found_again(
                before.home(key),
                key,
                download.interval(),
                download.payload(),
                None,
                home,
            );
            let slot = choose|slot: int| #[trigger] home.covers_at(slot, key, download.interval());
            assert(home.ring[slot].key == key);
            self.lemma_well_formed();
            assert(home.objects.contains_key(home.ring[slot].key));
        }
    }

    /// Caches one downloaded range as `insert` does, and returns whether
    /// identities were left for all of it.
    pub fn try_insert(&mut self, object_key: ObjectKey, download: Download) -> (inserted: bool)
        requires
            old(self).well_formed(),
        ensures
            final(self).well_formed(),
            inserted == old(self)@.admissible(object_key@, download),
            inserted ==> old(self)@.populated(object_key@, download, None, final(self)@),
            !inserted ==> old(self)@.exhausted(object_key@, download, final(self)@),
    {
        self.insert_inner(&object_key, download, None)
    }

    /// Caches one callback download and records its successful request.
    ///
    /// Population and access remain distinct policy events, but no admission
    /// comes between them. Containment suppression still records the access.
    pub fn insert_and_record(
        &mut self,
        object_key: ObjectKey,
        download: Download,
        requested_range: ByteRange,
    )
        requires
            old(self).well_formed(),
            old(self)@.admissible(object_key@, download),
        ensures
            final(self).well_formed(),
            old(self)@.populated(object_key@, download, Some(requested_range@), final(self)@),
            ({
                let key = object_key@;
                let past = old(self)@.home(key).record_of(key).accesses;
                let present = final(self)@.home(key).record_of(key).accesses;
                let clock = final(self)@.home(key).clock;
                let dropped = past.len() + 1 - present.len();
                &&& clock == old(self)@.home(key).clock.saturating_add(1)
                &&& final(self)@.home(key).metrics.access == old(self)@.home(
                    key,
                ).metrics.access.wrapping_add(1)
                &&& present.len() > 0
                &&& present.last() == Access { range: requested_range@, observed_at: clock }
                &&& 0 <= dropped <= past.len()
                &&& present.drop_last() == past.skip(dropped)
                &&& forall|i: int|
                    0 <= i < dropped ==> clock - (#[trigger] past[i]).observed_at > 32_768 || (i
                        == dropped - 1 && past.len() - i == 64)
                &&& dropped < past.len() ==> clock - past[dropped].observed_at <= 32_768 || (dropped > 0
                    && past.len() - dropped == 63)
            }),
    {
        let ghost before = self@;
        proof {
            self.lemma_well_formed();
            use_type_invariant(&download);
            vstd::arithmetic::div_mod::lemma_mod_bound(
                key_hash(object_key@) as int,
                before.shards.len() as int,
            );
        }
        self.insert_inner(&object_key, download, Some(requested_range));
        proof {
            populations_record_their_request_once(
                before.home(object_key@),
                object_key@,
                download.interval(),
                download.payload(),
                requested_range@,
                self@.home(object_key@),
            );
        }
    }

    /// Caches one callback download and records its request as
    /// `insert_and_record` does, and returns whether identities were left for
    /// all of it.
    pub fn try_insert_and_record(
        &mut self,
        object_key: ObjectKey,
        download: Download,
        requested_range: ByteRange,
    ) -> (inserted: bool)
        requires
            old(self).well_formed(),
        ensures
            final(self).well_formed(),
            inserted == old(self)@.admissible(object_key@, download),
            inserted ==> old(self)@.populated(
                object_key@,
                download,
                Some(requested_range@),
                final(self)@,
            ),
            !inserted ==> old(self)@.exhausted(object_key@, download, final(self)@),
            inserted ==> {
                let key = object_key@;
                let past = old(self)@.home(key).record_of(key).accesses;
                let present = final(self)@.home(key).record_of(key).accesses;
                let clock = final(self)@.home(key).clock;
                let dropped = past.len() + 1 - present.len();
                &&& clock == old(self)@.home(key).clock.saturating_add(1)
                &&& final(self)@.home(key).metrics.access == old(self)@.home(
                    key,
                ).metrics.access.wrapping_add(1)
                &&& present.len() > 0
                &&& present.last() == Access { range: requested_range@, observed_at: clock }
                &&& 0 <= dropped <= past.len()
                &&& present.drop_last() == past.skip(dropped)
                &&& forall|i: int|
                    0 <= i < dropped ==> clock - (#[trigger] past[i]).observed_at > 32_768 || (i
                        == dropped - 1 && past.len() - i == 64)
                &&& dropped < past.len() ==> clock - past[dropped].observed_at <= 32_768 || (dropped > 0
                    && past.len() - dropped == 63)
            },
    {
        let ghost before = self@;
        proof {
            self.lemma_well_formed();
            use_type_invariant(&download);
            vstd::arithmetic::div_mod::lemma_mod_bound(
                key_hash(object_key@) as int,
                before.shards.len() as int,
            );
        }
        let inserted = self.insert_inner(&object_key, download, Some(requested_range));
        proof {
            if inserted {
                populations_record_their_request_once(
                    before.home(object_key@),
                    object_key@,
                    download.interval(),
                    download.payload(),
                    requested_range@,
                    self@.home(object_key@),
                );
            }
        }
        inserted
    }

    fn insert_inner(
        &mut self,
        object_key: &ObjectKey,
        download: Download,
        requested_range: Option<ByteRange>,
    ) -> (inserted: bool)
        requires
            old(self).well_formed(),
        ensures
            final(self).well_formed(),
            inserted == old(self)@.admissible(object_key@, download),
            inserted ==> old(self)@.populated(
                object_key@,
                download,
                crate::shard::interval_of(requested_range),
                final(self)@,
            ),
            !inserted ==> old(self)@.exhausted(object_key@, download, final(self)@),
    {
        let index = self.shard_index(object_key);
        let (downloaded_range, bytes) = download.into_parts();
        let inserted = self.shards[index].try_insert(
            object_key,
            downloaded_range,
            &bytes,
            requested_range,
        );
        assert(self@ =~= old(self)@.with_home(object_key@, self@.home(object_key@)));
        inserted
    }

    /// Records one successful lookup's exact requested range.
    ///
    /// This event is independent of the downloaded extent that satisfied the
    /// lookup. Callers must invoke it exactly once for each successful lookup.
    pub fn record_access(&mut self, object_key: &ObjectKey, requested_range: ByteRange)
        requires
            old(self).well_formed(),
        ensures
            final(self).well_formed(),
            final(self)@ == old(self)@.with_home(
                object_key@,
                old(self)@.home(object_key@).accessed(object_key@, requested_range@),
            ),
            old(self)@.home(object_key@).objects.contains_key(object_key@) ==> {
                let key = object_key@;
                let past = old(self)@.home(key).record_of(key).accesses;
                let present = final(self)@.home(key).record_of(key).accesses;
                let clock = final(self)@.home(key).clock;
                let dropped = past.len() + 1 - present.len();
                &&& clock == old(self)@.home(key).clock.saturating_add(1)
                &&& final(self)@.home(key).metrics.access == old(self)@.home(
                    key,
                ).metrics.access.wrapping_add(1)
                &&& present.len() > 0
                &&& present.last() == Access { range: requested_range@, observed_at: clock }
                &&& 0 <= dropped <= past.len()
                &&& present.drop_last() == past.skip(dropped)
                &&& forall|i: int|
                    0 <= i < dropped ==> clock - (#[trigger] past[i]).observed_at > 32_768 || (i
                        == dropped - 1 && past.len() - i == 64)
                &&& dropped < past.len() ==> clock - past[dropped].observed_at <= 32_768 || (dropped > 0
                    && past.len() - dropped == 63)
            },
            final(self)@.home(object_key@).clock == old(self)@.home(
                object_key@,
            ).clock.saturating_add(1),
    {
        let index = self.shard_index(object_key);
        self.shards[index].record_access(object_key, requested_range);
        assert(self@ =~= old(self)@.with_home(
            object_key@,
            old(self)@.home(object_key@).accessed(object_key@, requested_range@),
        ));
        proof {
            accesses_record_their_request_once(
                old(self)@.home(object_key@),
                object_key@,
                requested_range@,
                self@.home(object_key@),
            );
        }
    }

    /// Removes one entry with exactly the supplied key and range.
    pub fn remove(&mut self, object_key: &ObjectKey, range: ByteRange) -> (removed: bool)
        requires
            old(self).well_formed(),
        ensures
            final(self).well_formed(),
            removed <==> exists|slot: int| #[trigger]
                old(self)@.home(object_key@).exact_at(slot, object_key@, range@),
            final(self)@ == old(self)@.with_home(
                object_key@,
                if removed {
                    old(self)@.home(object_key@).removed(object_key@, range@)
                } else {
                    old(self)@.home(object_key@)
                },
            ),
            removed <==> exists|slot: int|
                {
                    &&& 0 <= slot < old(self)@.home(object_key@).ring.len()
                    &&& (#[trigger] old(self)@.home(object_key@).ring[slot]).key == object_key@
                    &&& old(self)@.home(object_key@).ring[slot].range.start == range@.start
                    &&& old(self)@.home(object_key@).ring[slot].range.end == range@.end
                },
    {
        let ghost home = self@.home(object_key@);
        let index = self.shard_index(object_key);
        let removed = self.shards[index].remove(object_key, range);
        assert(self@ =~= old(self)@.with_home(object_key@, self.shards@[index as int]@));
        proof {
            if removed {
                let slot = choose|slot: int| #[trigger] home.exact_at(slot, object_key@, range@);
                assert(home.ring[slot].key == object_key@);
            } else {
                assert forall|slot: int|
                    0 <= slot < home.ring.len() && (#[trigger] home.ring[slot]).key
                        == object_key@ implies !(home.ring[slot].range.start == range@.start
                    && home.ring[slot].range.end == range@.end) by {
                    assert(!home.exact_at(slot, object_key@, range@));
                    assert(home.ring[slot].range.start == range@.start
                        && home.ring[slot].range.end == range@.end ==> home.ring[slot].range
                        =~= range@);
                }
            }
        }
        removed
    }

    /// Borrows the shard at `index`.
    pub fn shard(&self, index: usize) -> (shard: &Shard)
        requires
            self.well_formed(),
            index < self@.shards.len(),
        ensures
            shard.well_formed(),
            shard@ == self@.shards[index as int],
    {
        &self.shards[index]
    }

    /// Borrows the shard at `index` to change it.
    pub fn shard_mut(&mut self, index: usize) -> (shard: &mut Shard)
        requires
            old(self).well_formed(),
            index < old(self)@.shards.len(),
        ensures
            shard.well_formed(),
            shard@ == old(self)@.shards[index as int],
            final(shard).well_formed() ==> final(self).well_formed(),
            final(self)@ == (CacheState {
                shards: old(self)@.shards.update(index as int, final(shard)@),
                ..old(self)@
            }),
    {
        let shard = &mut self.shards[index];
        shard
    }

    /// Lists the accesses remembered toward an object, oldest first.
    pub fn accessed_ranges(&self, object_key: &ObjectKey) -> (ranges: Vec<ByteRange>)
        requires
            self.well_formed(),
        ensures
            crate::compaction::intervals_of(ranges@) == self@.home(object_key@).record_of(
                object_key@,
            ).accesses.map_values(|access: Access| access.range),
    {
        let index = self.shard_index(object_key);
        self.shards[index].accessed_ranges(object_key)
    }

    /// Returns the number of accesses remembered toward an object.
    pub fn access_evidence_len(&self, object_key: &ObjectKey) -> (len: usize)
        requires
            self.well_formed(),
        ensures
            len == self@.home(object_key@).record_of(object_key@).accesses.len(),
    {
        let index = self.shard_index(object_key);
        self.shards[index].access_evidence_len(object_key)
    }
}

/// A cache of `shards` empty shards that share `capacity`.
pub open spec fn empty_cache(capacity: u64, shards: int, mode: CompactionMode) -> CacheState {
    CacheState {
        capacity,
        shards: Seq::new(
            shards as nat,
            |i: int| ShardState::empty(capacity_share(capacity, shards, i) as u64, mode),
        ),
    }
}

/// Divides a total capacity among shards, giving its remainder to the first ones.
pub fn shard_capacity_for(total: u64, shards: usize, index: usize) -> (share: u64)
    requires
        shards > 0,
    ensures
        share == capacity_share(total, shards as int, index as int),
{
    let shards = shards as u64;
    let whole = total / shards;
    if (index as u64) < total % shards {
        proof {
            assert(total / shards < u64::MAX) by (nonlinear_arith)
                requires
                    shards > 0,
                    0 < total % shards,
                    total <= u64::MAX,
            ;
        }
        whole + 1
    } else {
        whole
    }
}

/// The shards that a cache gets for the available parallelism.
pub open spec fn shard_count_for(parallelism: Option<usize>) -> int {
    let threads = match parallelism {
        Some(threads) => threads,
        None => 1usize,
    };
    if threads == 0 {
        1
    } else if threads * 4 > MAX_SHARDS {
        MAX_SHARDS as int
    } else {
        threads * 4
    }
}

/// Chooses four shards per thread, at least one and at most [`MAX_SHARDS`].
///
/// An unknown parallelism counts as one thread.
pub fn default_shard_count(parallelism: Option<usize>) -> (count: usize)
    ensures
        count == shard_count_for(parallelism),
        1 <= count <= MAX_SHARDS,
        parallelism is None ==> count == 4,
        parallelism == Some(0usize) ==> count == 1,
        parallelism is Some && 0 < parallelism->0 <= 16 ==> count == 4 * parallelism->0,
        parallelism is Some && parallelism->0 > 16 ==> count == 64,
{
    let threads = match parallelism {
        Some(threads) => threads,
        None => 1,
    };
    let count = match threads.checked_mul(4) {
        Some(count) => count,
        None => usize::MAX,
    };
    if count < 1 {
        1
    } else if count > MAX_SHARDS {
        MAX_SHARDS
    } else {
        count
    }
}

proof fn lemma_total_used_prefix(shards: Seq<ShardState>, count: int)
    requires
        0 <= count <= shards.len(),
        forall|i: int| 0 <= i < shards.len() ==> 0 <= (#[trigger] shards[i]).used(),
    ensures
        total_used(shards.take(count)) <= total_used(shards),
    decreases shards.len(),
{
    if count == shards.len() {
        assert(shards.take(count) =~= shards);
    } else {
        assert(shards.drop_last().take(count) =~= shards.take(count));
        lemma_total_used_prefix(shards.drop_last(), count);
    }
}

proof fn lemma_total_entries_prefix(shards: Seq<ShardState>, count: int)
    requires
        0 <= count <= shards.len(),
    ensures
        total_entries(shards.take(count)) <= total_entries(shards),
    decreases shards.len(),
{
    if count == shards.len() {
        assert(shards.take(count) =~= shards);
    } else {
        assert(shards.drop_last().take(count) =~= shards.take(count));
        lemma_total_entries_prefix(shards.drop_last(), count);
    }
}

/// The capacities of the first `count` shards together.
pub open spec fn shares_total(total: u64, shards: int, count: int) -> int
    decreases count,
{
    if count <= 0 {
        0
    } else {
        shares_total(total, shards, count - 1) + capacity_share(total, shards, count - 1)
    }
}

proof fn lemma_shares_total(total: u64, shards: int, count: int)
    requires
        shards > 0,
        0 <= count <= shards,
    ensures
        shares_total(total, shards, count) == count * (total as int / shards) + (if count
            < total as int % shards {
            count
        } else {
            total as int % shards
        }),
    decreases count,
{
    let whole = total as int / shards;
    vstd::arithmetic::div_mod::lemma_mod_bound(total as int, shards);
    if count > 0 {
        lemma_shares_total(total, shards, count - 1);
        assert(count * whole == (count - 1) * whole + whole) by (nonlinear_arith);
    } else {
        assert(count * whole == 0) by (nonlinear_arith)
            requires
                count == 0,
        ;
    }
}

/// The shards' capacities add up to the configured capacity, and differ by at
/// most one byte, which the first ones have more.
pub proof fn capacity_is_divided_without_remainder(total: u64, shards: int, one: int, other: int)
    requires
        shards > 0,
        0 <= one < shards,
        0 <= other < shards,
    ensures
        shares_total(total, shards, shards) == total,
        capacity_share(total, shards, one) <= capacity_share(total, shards, other) + 1,
        one <= other ==> capacity_share(total, shards, one) >= capacity_share(total, shards, other),
{
    lemma_shares_total(total, shards, shards);
    vstd::arithmetic::div_mod::lemma_fundamental_div_mod(total as int, shards);
    vstd::arithmetic::div_mod::lemma_mod_bound(total as int, shards);
}

/// What a cache uses is what its shards use together, and no shard's entry is counted
/// twice.
pub proof fn usage_adds_up_over_the_shards(shards: Seq<ShardState>, shard: ShardState)
    ensures
        total_used(Seq::empty()) == 0,
        total_entries(Seq::empty()) == 0,
        total_used(shards.push(shard)) == total_used(shards) + payload_of(shard.ring),
        total_entries(shards.push(shard)) == total_entries(shards) + shard.ring.len(),
{
    assert(shards.push(shard).drop_last() =~= shards);
}

/// A new cache is empty: its shards share the capacity among them, and none retains,
/// remembers or has counted anything.
pub proof fn new_caches_are_empty(capacity: u64, shards: int, mode: CompactionMode, i: int)
    requires
        shards > 0,
        0 <= i < shards,
    ensures
        empty_cache(capacity, shards, mode).capacity == capacity,
        empty_cache(capacity, shards, mode).shards.len() == shards,
        ({
            let shard = empty_cache(capacity, shards, mode).shards[i];
            &&& shard.capacity == capacity_share(capacity, shards, i)
            &&& shard.compaction == mode
            &&& shard.ring.len() == 0
            &&& shard.objects == Map::<Seq<char>, ObjectRecord>::empty()
            &&& shard.clock == 0
            &&& shard.last_id == 0
            &&& shard.cursor == 0
            &&& shard.metrics == MemoryMetrics {
                insert: 0,
                replace: 0,
                redundant: 0,
                access: 0,
                hit: 0,
                miss: 0,
                remove: 0,
                evict: 0,
                compact: 0,
                compacted_payload_bytes: 0,
                payload_bytes: 0,
                entries: 0,
            }
        }),
{
    vstd::arithmetic::div_mod::lemma_fundamental_div_mod(capacity as int, shards);
    vstd::arithmetic::div_mod::lemma_mod_bound(capacity as int, shards);
    let whole = capacity as int / shards;
    assert(0 <= whole <= capacity) by (nonlinear_arith)
        requires
            shards > 0,
            capacity == shards * whole + capacity as int % shards,
            0 <= capacity as int % shards < shards,
    ;
    assert(capacity as int % shards > 0 ==> whole < u64::MAX) by (nonlinear_arith)
        requires
            shards > 0,
            capacity == shards * whole + capacity as int % shards,
            0 <= whole <= capacity <= u64::MAX,
    ;
}

/// Two objects share a shard exactly if their hashes leave the same remainder, and an
/// object's shard is one of the cache's.
pub proof fn objects_are_spread_by_their_hashes(cache: CacheState, one: Seq<char>, other: Seq<char>)
    requires
        cache.shards.len() > 0,
    ensures
        0 <= cache.index(one) < cache.shards.len(),
        (key_hash(one) - cache.index(one)) % cache.shards.len() as int == 0,
        cache.home(one) == cache.shards[cache.index(one)],
        cache.index(one) == cache.index(other) <==> (key_hash(one) as int - key_hash(other) as int)
            % cache.shards.len() as int == 0,
{
    let len = cache.shards.len() as int;
    let left = key_hash(one) as int;
    let right = key_hash(other) as int;
    vstd::arithmetic::div_mod::lemma_mod_bound(left, len);
    vstd::arithmetic::div_mod::lemma_mod_bound(right, len);
    vstd::arithmetic::div_mod::lemma_fundamental_div_mod(left, len);
    vstd::arithmetic::div_mod::lemma_fundamental_div_mod(right, len);
    vstd::arithmetic::div_mod::lemma_mod_multiples_basic(left / len, len);
    assert(left - left % len == (left / len) * len) by (nonlinear_arith)
        requires
            left == len * (left / len) + left % len,
    ;
    vstd::arithmetic::div_mod::lemma_mod_equivalence(left, right, len);
}

} // verus!

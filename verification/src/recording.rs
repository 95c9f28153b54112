//! What is remembered of the requests that were answered.

use bytes::Bytes;
use vstd::prelude::*;

use crate::cache::{fetched, GetOrFetchError};
use crate::download::Download;
use crate::evidence::{recording_keeps_the_recent_requests, Access};
use crate::keys::key_hash;
use crate::laws::{
    downloads_are_found_again, lookups_record_exactly_their_request,
    population_creates_no_access, population_records_its_request_once,
};
use crate::metrics::MemoryMetrics;
use crate::range::{ByteRange, Interval};
use crate::shard::populated;
use crate::shard_state::ShardState;
use crate::store::CacheState;

verus! {

/// A lookup that an extent covers advances the clock by one, and its request is
/// remembered last, at that clock, behind the unexpired requests from before, of
/// which the oldest goes at the bound. It counts one hit and one access. A lookup
/// that no extent covers counts one miss, and that is all.
pub proof fn hits_record_their_request_once(
    before: ShardState,
    key: Seq<char>,
    requested: Interval,
    after: ShardState,
)
    requires
        before.valid(),
        after == before.looked_up(key, requested),
    ensures
        (exists|slot: int|
            0 <= slot < before.ring.len() && (#[trigger] before.ring[slot]).key == key
                && before.ring[slot].range.start <= requested.start && requested.end
                <= before.ring[slot].range.end) ==> {
            let past = before.record_of(key).accesses;
            let dropped = past.len() + 1 - after.record_of(key).accesses.len();
            &&& after.clock == before.clock.saturating_add(1)
            &&& after.record_of(key).accesses.len() > 0
            &&& after.record_of(key).accesses.last() == Access {
                range: requested,
                observed_at: after.clock,
            }
            &&& 0 <= dropped <= past.len()
            &&& after.record_of(key).accesses.drop_last() == past.skip(dropped)
            &&& forall|i: int|
                0 <= i < dropped ==> after.clock - (#[trigger] past[i]).observed_at > 32_768 || (i
                    == dropped - 1 && past.len() - i == 64)
            &&& dropped < past.len() ==> after.clock - past[dropped].observed_at <= 32_768 || (dropped
                > 0 && past.len() - dropped == 63)
            &&& after.metrics == MemoryMetrics {
                hit: before.metrics.hit.wrapping_add(1),
                access: before.metrics.access.wrapping_add(1),
                ..before.metrics
            }
        },
        (forall|slot: int|
            0 <= slot < before.ring.len() && (#[trigger] before.ring[slot]).key == key ==> !(
            before.ring[slot].range.start <= requested.start && requested.end
                <= before.ring[slot].range.end)) ==> after == (ShardState {
            metrics: MemoryMetrics {
                miss: before.metrics.miss.wrapping_add(1),
                ..before.metrics
            },
            ..before
        }),
        after.ring == before.ring,
        after.cursor == before.cursor,
        after.last_id == before.last_id,
        after.capacity == before.capacity,
        after.compaction == before.compaction,
        forall|other: Seq<char>|
            other != key ==> (#[trigger] after.record_of(other)) == before.record_of(other),
{
    if before.covered(key, requested) {
        let slot = choose|slot: int| #[trigger] before.covers_at(slot, key, requested);
        assert(before.objects.contains_key(before.ring[slot].key));
        lookups_record_exactly_their_request(before, key, requested, key);
        recording_keeps_the_recent_requests(
            before.record_of(key).accesses,
            requested,
            before.clock.saturating_add(1),
        );
    } else {
        assert forall|slot: int|
            0 <= slot < before.ring.len() && (#[trigger] before.ring[slot]).key == key implies !(
        before.ring[slot].range.start <= requested.start && requested.end
            <= before.ring[slot].range.end) by {
            assert(!before.covers_at(slot, key, requested));
        }
    }
    assert forall|slot: int|
        0 <= slot < before.ring.len() && (#[trigger] before.ring[slot]).key == key
            && before.ring[slot].range.start <= requested.start && requested.end
            <= before.ring[slot].range.end implies before.covered(key, requested) by {
        assert(before.covers_at(slot, key, requested));
    }
}

/// A recorded access advances the clock by one and counts one access. Where the object is
/// remembered, its request is remembered last, at that clock, behind the unexpired
/// requests from before, of which the oldest goes at the bound. Nothing else changes.
pub proof fn accesses_record_their_request_once(
    before: ShardState,
    key: Seq<char>,
    requested: Interval,
    after: ShardState,
)
    requires
        after == before.accessed(key, requested),
    ensures
        after.clock == before.clock.saturating_add(1),
        after.metrics == (MemoryMetrics {
            access: before.metrics.access.wrapping_add(1),
            ..before.metrics
        }),
        before.objects.contains_key(key) ==> {
            let past = before.record_of(key).accesses;
            let present = after.record_of(key).accesses;
            let dropped = past.len() + 1 - present.len();
            &&& present.len() > 0
            &&& present.last() == Access { range: requested, observed_at: after.clock }
            &&& 0 <= dropped <= past.len()
            &&& present.drop_last() == past.skip(dropped)
            &&& forall|i: int|
                0 <= i < dropped ==> after.clock - (#[trigger] past[i]).observed_at > 32_768 || (i
                    == dropped - 1 && past.len() - i == 64)
            &&& dropped < past.len() ==> after.clock - past[dropped].observed_at <= 32_768 || (
            dropped > 0 && past.len() - dropped == 63)
        },
        !before.objects.contains_key(key) ==> after.objects == before.objects,
        forall|other: Seq<char>|
            other != key ==> (#[trigger] after.record_of(other)) == before.record_of(other),
        after.ring == before.ring,
        after.cursor == before.cursor,
        after.last_id == before.last_id,
        after.capacity == before.capacity,
        after.compaction == before.compaction,
{
    if before.objects.contains_key(key) {
        recording_keeps_the_recent_requests(
            before.objects[key].accesses,
            requested,
            before.clock.saturating_add(1),
        );
    }
}

/// Caching a download together with the request that it answers advances the clock
/// by one, and remembers that request last, at that clock, behind the unexpired
/// requests from before, of which the oldest goes at the bound.
pub proof fn populations_record_their_request_once(
    before: ShardState,
    key: Seq<char>,
    range: Interval,
    bytes: Seq<u8>,
    requested: Interval,
    after: ShardState,
)
    requires
        before.valid(),
        range.valid(),
        bytes.len() == range.len(),
        populated(before, key, range, bytes, Some(requested), after),
    ensures
        ({
            let past = before.record_of(key).accesses;
            let dropped = past.len() + 1 - after.record_of(key).accesses.len();
            &&& after.clock == before.clock.saturating_add(1)
            &&& after.metrics.access == before.metrics.access.wrapping_add(1)
            &&& after.record_of(key).accesses.len() > 0
            &&& after.record_of(key).accesses.last() == Access {
                range: requested,
                observed_at: after.clock,
            }
            &&& 0 <= dropped <= past.len()
            &&& after.record_of(key).accesses.drop_last() == past.skip(dropped)
            &&& forall|i: int|
                0 <= i < dropped ==> after.clock - (#[trigger] past[i]).observed_at > 32_768 || (i
                    == dropped - 1 && past.len() - i == 64)
            &&& dropped < past.len() ==> after.clock - past[dropped].observed_at <= 32_768 || (dropped
                > 0 && past.len() - dropped == 63)
        }),
{
    population_records_its_request_once(before, key, range, bytes, requested, after);
    recording_keeps_the_recent_requests(
        before.record_of(key).accesses,
        requested,
        before.clock.saturating_add(1),
    );
}

/// Caching a download alone records no request: the clock and the count of accesses
/// stand, and what is still remembered of any object is what was remembered before.
pub proof fn populations_alone_record_nothing(
    before: ShardState,
    key: Seq<char>,
    range: Interval,
    bytes: Seq<u8>,
    after: ShardState,
    other: Seq<char>,
)
    requires
        before.valid(),
        range.valid(),
        bytes.len() == range.len(),
        populated(before, key, range, bytes, None, after),
    ensures
        after.clock == before.clock,
        after.metrics.access == before.metrics.access,
        after.objects.contains_key(other) ==> after.objects[other].accesses == before.record_of(
            other,
        ).accesses,
        before.objects.contains_key(key) ==> after.objects.contains_key(key),
{
    population_creates_no_access(before, key, range, bytes, after);
}

/// A fetch that succeeds records its request exactly once: the clock of the
/// object's shard advances by one, and the request is remembered last, at that
/// clock, behind the unexpired requests from before, of which the oldest goes at
/// the bound. One that fails records nothing.
pub proof fn fetches_record_their_request_once<E>(
    before: CacheState,
    key: Seq<char>,
    requested: ByteRange,
    outcome: Result<Download, E>,
    result: Result<Bytes, GetOrFetchError<E>>,
    after: CacheState,
)
    requires
        before.valid(),
        outcome is Ok ==> outcome->Ok_0.well_formed(),
        fetched(before, key, requested, outcome, result, after),
    ensures
        result is Ok ==> {
            let past = before.home(key).record_of(key).accesses;
            let present = after.home(key).record_of(key).accesses;
            let clock = after.home(key).clock;
            let dropped = past.len() + 1 - present.len();
            &&& clock == before.home(key).clock.saturating_add(1)
            &&& after.home(key).metrics.access == before.home(key).metrics.access.wrapping_add(1)
            &&& present.len() > 0
            &&& present.last() == Access { range: requested@, observed_at: clock }
            &&& 0 <= dropped <= past.len()
            &&& present.drop_last() == past.skip(dropped)
            &&& forall|i: int|
                0 <= i < dropped ==> clock - (#[trigger] past[i]).observed_at > 32_768 || (i
                    == dropped - 1 && past.len() - i == 64)
            &&& dropped < past.len() ==> clock - past[dropped].observed_at <= 32_768 || (dropped
                > 0 && past.len() - dropped == 63)
        },
        result is Err ==> after == before,
{
    if result is Ok {
        let download = outcome->Ok_0;
        vstd::arithmetic::div_mod::lemma_mod_bound(
            key_hash(key) as int,
            before.shards.len() as int,
        );
        assert(before.shards[before.index(key)].valid());
        populations_record_their_request_once(
            before.home(key),
            key,
            download.interval(),
            download.payload(),
            requested@,
            after.home(key),
        );
    }
}

/// A fetch fails with its callback's own error, or, if the download does not hold every
/// requested offset, with an error that names the requested and the downloaded range. In
/// any other case it succeeds.
pub proof fn fetches_fail_with_their_reason<E>(
    before: CacheState,
    key: Seq<char>,
    requested: ByteRange,
    outcome: Result<Download, E>,
    result: Result<Bytes, GetOrFetchError<E>>,
    after: CacheState,
)
    requires
        fetched(before, key, requested, outcome, result, after),
    ensures
        outcome is Err ==> result is Err && result->Err_0 is Callback && result->Err_0->Callback_0
            == outcome->Err_0,
        outcome is Ok && outcome->Ok_0.interval().start <= requested@.start && requested@.end
            <= outcome->Ok_0.interval().end ==> result is Ok,
        outcome is Ok && (outcome->Ok_0.interval().start > requested@.start || requested@.end
            > outcome->Ok_0.interval().end) ==> {
            &&& result is Err
            &&& result->Err_0 is DownloadDoesNotCover
            &&& result->Err_0->requested_range@ == requested@
            &&& result->Err_0->downloaded_range@ == outcome->Ok_0.interval()
        },
        result is Err ==> after == before,
{
}

/// What was fetched is retained: after a fetch that succeeds, one extent of the object
/// holds every offset that was downloaded, and thus every one that was requested.
pub proof fn fetched_downloads_are_retained<E>(
    before: CacheState,
    key: Seq<char>,
    requested: ByteRange,
    outcome: Result<Download, E>,
    result: Result<Bytes, GetOrFetchError<E>>,
    after: CacheState,
)
    requires
        before.valid(),
        outcome is Ok ==> outcome->Ok_0.well_formed(),
        fetched(before, key, requested, outcome, result, after),
        result is Ok,
    ensures
        outcome is Ok,
        exists|slot: int|
            {
                &&& 0 <= slot < after.home(key).ring.len()
                &&& (#[trigger] after.home(key).ring[slot]).key == key
                &&& after.home(key).ring[slot].range.start <= outcome->Ok_0.interval().start
                &&& outcome->Ok_0.interval().end <= after.home(key).ring[slot].range.end
                &&& after.home(key).ring[slot].range.start <= requested@.start
                &&& requested@.end <= after.home(key).ring[slot].range.end
            },
{
    let download = outcome->Ok_0;
    vstd::arithmetic::div_mod::lemma_mod_bound(key_hash(key) as int, before.shards.len() as int);
    assert(before.shards[before.index(key)].valid());
    downloads_are_found_again(
        before.home(key),
        key,
        download.interval(),
        download.payload(),
        Some(requested@),
        after.home(key),
    );
    let slot = choose|slot: int| #[trigger]
        after.home(key).covers_at(slot, key, download.interval());
    assert(after.home(key).ring[slot].key == key);
}

} // verus!

//! What keeps shards within their payload targets.

use vstd::prelude::*;

use crate::download::Download;
use crate::keys::key_hash;
use crate::laws::{
    downloads_are_found_again, population_creates_no_access, population_keeps_shards_valid,
    population_respects_the_shard_target, removal_releases_the_extent_and_an_empty_object,
};
use crate::range::Interval;
use crate::shard::populated;
use crate::shard_lemmas::lemma_payload_bounds;
use crate::shard_state::{payload_of, CompactionMode, Extent, ShardState};
use crate::store::{empty_cache, CacheState};

verus! {

/// The sum of the lengths of the payloads in `ring`.
pub open spec fn payload_lengths(ring: Seq<Extent>) -> int
    decreases ring.len(),
{
    if ring.len() == 0 {
        0
    } else {
        payload_lengths(ring.drop_last()) + ring.last().bytes.len()
    }
}

impl ShardState {
    /// Whether the shard is within its capacity, or holds a single extent.
    pub open spec fn within_target(self) -> bool {
        self.used() <= self.capacity || self.ring.len() == 1
    }
}

impl CacheState {
    /// Whether every shard is within its capacity, or holds a single extent.
    pub open spec fn within_targets(self) -> bool {
        forall|i: int| 0 <= i < self.shards.len() ==> (#[trigger] self.shards[i]).within_target()
    }
}

/// What a shard uses is the sum of its payload lengths.
pub proof fn used_bytes_are_the_payload_lengths(state: ShardState)
    requires
        state.valid(),
    ensures
        state.used() == payload_lengths(state.ring),
{
    assert forall|slot: int| 0 <= slot < state.ring.len() implies (
    #[trigger] state.ring[slot]).bytes.len() == state.ring[slot].range.len() by {
        assert(state.ring[slot].valid());
    }
    lemma_payload_lengths(state.ring);
}

proof fn lemma_payload_lengths(ring: Seq<Extent>)
    requires
        forall|slot: int|
            0 <= slot < ring.len() ==> (#[trigger] ring[slot]).bytes.len()
                == ring[slot].range.len(),
    ensures
        payload_of(ring) == payload_lengths(ring),
    decreases ring.len(),
{
    if ring.len() > 0 {
        let rest = ring.drop_last();
        assert forall|slot: int| 0 <= slot < rest.len() implies (#[trigger] rest[slot]).bytes.len()
            == rest[slot].range.len() by {
            assert(rest[slot] == ring[slot]);
        }
        lemma_payload_lengths(rest);
    }
}

/// Caching a download brings a shard within its target, and a redundant one
/// keeps it there.
pub proof fn population_keeps_the_shard_target(
    before: ShardState,
    key: Seq<char>,
    range: Interval,
    bytes: Seq<u8>,
    requested: Option<Interval>,
    after: ShardState,
)
    requires
        before.valid(),
        range.valid(),
        bytes.len() == range.len(),
        populated(before, key, range, bytes, requested, after),
        before.within_target() || !before.covered(key, range),
    ensures
        after.within_target(),
{
    population_keeps_shards_valid(before, key, range, bytes, requested, after);
    if before.covered(key, range) {
        downloads_are_found_again(before, key, range, bytes, requested, after);
    } else {
        population_respects_the_shard_target(before, key, range, bytes, requested, after);
    }
}

/// Lookups, recorded accesses and removals keep a shard within its target.
pub proof fn other_operations_keep_the_shard_target(
    state: ShardState,
    key: Seq<char>,
    range: Interval,
)
    requires
        state.valid(),
        state.within_target(),
    ensures
        state.looked_up(key, range).within_target(),
        state.accessed(key, range).within_target(),
        (exists|slot: int| #[trigger] state.exact_at(slot, key, range)) ==> state.removed(
            key,
            range,
        ).within_target(),
{
    assert(state.looked_up(key, range).ring == state.ring);
    assert(state.accessed(key, range).ring == state.ring);
    if exists|slot: int| #[trigger] state.exact_at(slot, key, range) {
        let slot = choose|slot: int| #[trigger] state.exact_at(slot, key, range);
        removal_releases_the_extent_and_an_empty_object(state, key, range, slot);
        assert(state.ring[slot].valid());
        lemma_payload_bounds(state.ring);
    }
}

/// A new cache is within its targets.
pub proof fn new_caches_are_within_their_targets(capacity: u64, shards: int, mode: CompactionMode)
    requires
        shards > 0,
    ensures
        empty_cache(capacity, shards, mode).valid(),
        empty_cache(capacity, shards, mode).within_targets(),
{
}

/// Whatever a cache is asked to do, it stays within its targets: to look up a
/// range, to record an access, to remove a range, or to cache a download.
pub proof fn caches_stay_within_their_targets(
    before: CacheState,
    key: Seq<char>,
    range: Interval,
    download: Download,
    requested: Option<Interval>,
    after: CacheState,
)
    requires
        before.valid(),
        before.within_targets(),
        download.well_formed(),
    ensures
        before.with_home(key, before.home(key).looked_up(key, range)).within_targets(),
        before.with_home(key, before.home(key).accessed(key, range)).within_targets(),
        (exists|slot: int| #[trigger] before.home(key).exact_at(slot, key, range))
            ==> before.with_home(key, before.home(key).removed(key, range)).within_targets(),
        before.populated(key, download, requested, after) ==> after.within_targets(),
{
    let home = before.home(key);
    lemma_home(before, key);
    other_operations_keep_the_shard_target(home, key, range);
    if before.populated(key, download, requested, after) {
        population_keeps_the_shard_target(
            home,
            key,
            download.interval(),
            download.payload(),
            requested,
            after.home(key),
        );
    }
}

proof fn lemma_home(cache: CacheState, key: Seq<char>)
    requires
        cache.valid(),
    ensures
        0 <= cache.index(key) < cache.shards.len(),
        cache.home(key).valid(),
{
    vstd::arithmetic::div_mod::lemma_mod_bound(key_hash(key) as int, cache.shards.len() as int);
    assert(cache.shards[cache.index(key)].valid());
}

/// What caching one download without a request comes to.
///
/// Its range is a hit from then on. Every shard is valid, so no retained range
/// of an object covers another, and what the object's shard uses is the sum of
/// its payload lengths. That shard is within its target or holds a single
/// extent. A download that one extent already covers changes no extent. No
/// access is recorded, and no other shard changes.
pub proof fn insertions_keep_the_cache_in_order(
    before: CacheState,
    key: Seq<char>,
    download: Download,
    after: CacheState,
)
    requires
        before.valid(),
        before.within_targets(),
        download.well_formed(),
        before.populated(key, download, None, after),
    ensures
        after.home(key).covered(key, download.interval()),
        after.valid(),
        after.home(key).used() == payload_lengths(after.home(key).ring),
        after.home(key).capacity == before.home(key).capacity,
        after.home(key).used() <= after.home(key).capacity || after.home(key).ring.len() == 1,
        after.within_targets(),
        before.home(key).covered(key, download.interval()) ==> after.home(key).ring == before.home(
            key,
        ).ring,
        after.home(key).same_accesses(before.home(key), key),
        after.shards.len() == before.shards.len(),
        forall|i: int|
            0 <= i < after.shards.len() && i != before.index(key) ==> #[trigger] after.shards[i]
                == before.shards[i],
{
    let home = before.home(key);
    let range = download.interval();
    let bytes = download.payload();
    lemma_home(before, key);
    downloads_are_found_again(home, key, range, bytes, None, after.home(key));
    population_keeps_shards_valid(home, key, range, bytes, None, after.home(key));
    population_creates_no_access(home, key, range, bytes, after.home(key));
    used_bytes_are_the_payload_lengths(after.home(key));
    caches_stay_within_their_targets(before, key, range, download, None, after);
    assert forall|i: int| 0 <= i < after.shards.len() implies (
    #[trigger] after.shards[i]).valid() by {
        if i != before.index(key) {
            assert(after.shards[i] == before.shards[i]);
        }
    }
    assert(after.shards[after.index(key)].within_target());
}

} // verus!

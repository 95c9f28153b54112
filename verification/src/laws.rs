//! What holds of a shard across operations.

use bytes::Bytes;
use vstd::prelude::*;

use crate::cache::{fetched, GetOrFetchError};
use crate::compaction::{covered_requests_stay_coverable, grouping, lemma_grouping};
use crate::download::Download;
use crate::evidence::recorded;
use crate::payload;
use crate::range::{ByteRange, Interval};
use crate::ranges::part;
use crate::shard::{populated, settles};
use crate::shard_lemmas::{lemma_payload_bounds, lemma_vacated, ranges_of};
use crate::shard_state::{
    held, Extent, Fragment, ShardState, COMPACTION_GRACE_ACCESSES,
};
use crate::store::CacheState;

verus! {

/// Whether `bytes` are those of `source` for the object `key` in `range`.
pub open spec fn source_bytes(
    source: spec_fn(Seq<char>, int) -> u8,
    key: Seq<char>,
    range: Interval,
    bytes: Seq<u8>,
) -> bool {
    &&& bytes.len() == range.len()
    &&& forall|i: int| 0 <= i < bytes.len() ==> #[trigger] bytes[i] == source(key, range.start + i)
}

/// Whether `extent` is `old` or a part of it.
pub open spec fn derived_from(extent: Extent, old: Extent) -> bool {
    &&& extent.key == old.key
    &&& old.range.covers(extent.range)
    &&& extent.range.valid()
    &&& extent.bytes == part(old.bytes, old.range, extent.range)
}

/// Whether `extent` is an extent of the shard `old` or a part of one.
pub open spec fn has_origin(extent: Extent, old: ShardState) -> bool {
    exists|from: int| 0 <= from < old.ring.len() && derived_from(extent, #[trigger] old.ring[from])
}

impl ShardState {
    /// Whether every extent holds the bytes of `source`.
    pub open spec fn faithful(self, source: spec_fn(Seq<char>, int) -> u8) -> bool {
        forall|slot: int|
            0 <= slot < self.ring.len() ==> source_bytes(
                source,
                (#[trigger] self.ring[slot]).key,
                self.ring[slot].range,
                self.ring[slot].bytes,
            )
    }

    /// Whether every extent of this shard is one of `old` or a part of one.
    pub open spec fn derived(self, old: ShardState) -> bool {
        forall|slot: int|
            0 <= slot < self.ring.len() ==> has_origin(#[trigger] self.ring[slot], old)
    }

    /// Whether this shard remembers the same accesses as `old` of every object
    /// that it has not forgotten, and of `key` in any case.
    pub open spec fn same_accesses(self, old: ShardState, key: Seq<char>) -> bool {
        &&& self.clock == old.clock
        &&& self.metrics.access == old.metrics.access
        &&& forall|other: Seq<char>| #[trigger]
            self.objects.contains_key(other) ==> self.objects[other].accesses == old.record_of(
                other,
            ).accesses && (other != key ==> old.objects.contains_key(other))
        &&& old.objects.contains_key(key) ==> self.objects.contains_key(key)
    }
}

proof fn lemma_derived_self(extent: Extent)
    requires
        extent.valid(),
    ensures
        derived_from(extent, extent),
{
    assert(part(extent.bytes, extent.range, extent.range) =~= extent.bytes);
}

proof fn lemma_derived_chain(third: Extent, second: Extent, first: Extent)
    requires
        first.valid(),
        derived_from(second, first),
        derived_from(third, second),
    ensures
        derived_from(third, first),
{
    assert(part(first.bytes, first.range, third.range) =~= part(
        second.bytes,
        second.range,
        third.range,
    ));
}

proof fn lemma_derived_transitive(third: ShardState, second: ShardState, first: ShardState)
    requires
        first.valid(),
        second.derived(first),
        third.derived(second),
    ensures
        third.derived(first),
{
    assert forall|slot: int| 0 <= slot < third.ring.len() implies has_origin(#[trigger] third.ring[slot], first) by {
        let middle = choose|middle: int|
            0 <= middle < second.ring.len() && derived_from(
                third.ring[slot],
                #[trigger] second.ring[middle],
            );
        let from = choose|from: int|
            0 <= from < first.ring.len() && derived_from(
                second.ring[middle],
                #[trigger] first.ring[from],
            );
        assert(first.ring[from].valid());
        lemma_derived_chain(third.ring[slot], second.ring[middle], first.ring[from]);
    }
}

/// A shard whose extents all occur in another is derived from it.
proof fn lemma_derived_subset(next: ShardState, old: ShardState)
    requires
        old.valid(),
        forall|slot: int| 0 <= slot < next.ring.len() ==> old.ring.contains(#[trigger] next.ring[slot]),
    ensures
        next.derived(old),
{
    assert forall|slot: int| 0 <= slot < next.ring.len() implies has_origin(#[trigger] next.ring[slot], old) by {
        assert(old.ring.contains(next.ring[slot]));
        let from = choose|from: int| 0 <= from < old.ring.len() && old.ring[from] == next.ring[slot];
        lemma_derived_self(old.ring[from]);
        assert(derived_from(next.ring[slot], old.ring[from]));
    }
}

proof fn lemma_detached_derived(state: ShardState, slot: int, preserve: bool)
    requires
        state.valid(),
        0 <= slot < state.ring.len(),
    ensures
        state.detached(slot, preserve).derived(state),
{
    let next = state.detached(slot, preserve);
    lemma_vacated(state.ring, slot);
    assert forall|other: int| 0 <= other < next.ring.len() implies state.ring.contains(
        #[trigger] next.ring[other],
    ) by {
        let from = if other == slot { state.ring.len() - 1 } else { other };
        assert(state.ring[from] == next.ring[other]);
    }
    lemma_derived_subset(next, state);
}

/// A pressure decision adds no bytes that the shard did not hold, and no access.
proof fn lemma_relieved_derived(state: ShardState, key: Seq<char>, range: Interval)
    requires
        state.valid(),
        state.can_relieve(key, range),
    ensures
        state.relieved(key, range).derived(state),
        state.relieved(key, range).same_accesses(state, key),
{
    let result = state.relieved(key, range);
    let turned = state.rotated();
    state.lemma_rotated();
    lemma_payload_bounds(state.ring);
    if exists|slot: int| #[trigger] state.victim(slot, key, range) {
        let slot = choose|slot: int| #[trigger] state.victim(slot, key, range);
        state.lemma_victim(slot, key, range);
        let object = state.ring[slot].key;
        assert(state.ring[slot].valid());
        assert(state.objects.contains_key(object));
        if state.trims(slot) {
            let fragments = state.trimmed(slot);
            state.lemma_trimmed(slot);
            turned.lemma_accepts_fragments(slot, fragments);
            let emptied = turned.detached(slot, true);
            turned.lemma_detached(slot, true);
            lemma_detached_derived(turned, slot, true);
            emptied.lemma_republished(object, fragments);
            let next = emptied.republished(object, fragments);
            assert(result.ring == next.ring);
            assert forall|at: int| 0 <= at < result.ring.len() implies has_origin(#[trigger] result.ring[at], state) by {
                if at < emptied.ring.len() {
                    assert(next.ring[at] == emptied.ring[at]);
                    let from = choose|from: int|
                        0 <= from < turned.ring.len() && derived_from(
                            emptied.ring[at],
                            #[trigger] turned.ring[from],
                        );
                    assert(derived_from(result.ring[at], state.ring[from]));
                } else {
                    let fragment = Fragment {
                        range: next.ring[at].range,
                        bytes: next.ring[at].bytes,
                    };
                    assert(fragments.contains(fragment));
                    let i = choose|i: int| 0 <= i < fragments.len() && fragments[i] == fragment;
                    assert(state.ring[slot].range.covers(fragments[i].range));
                    assert(derived_from(result.ring[at], state.ring[slot]));
                }
            }
        } else {
            lemma_detached_derived(turned, slot, object == key);
            let next = turned.detached(slot, object == key);
            assert(result.ring == next.ring);
            assert forall|at: int| 0 <= at < result.ring.len() implies has_origin(#[trigger] result.ring[at], state) by {
                let from = choose|from: int|
                    0 <= from < turned.ring.len() && derived_from(
                        next.ring[at],
                        #[trigger] turned.ring[from],
                    );
                assert(derived_from(result.ring[at], state.ring[from]));
            }
        }
    } else {
        assert forall|at: int| 0 <= at < result.ring.len() implies state.ring.contains(
            #[trigger] result.ring[at],
        ) by {
            assert(state.ring[at] == result.ring[at]);
        }
        lemma_derived_subset(result, state);
    }
}

proof fn lemma_relieved_times(state: ShardState, key: Seq<char>, range: Interval, count: nat)
    requires
        state.valid(),
        state.admissible(key, range),
        state.unsettled(key, range, count),
    ensures
        ({
            let result = state.relieved_times(key, range, count);
            &&& result.valid()
            &&& 0 <= result.used() <= state.used()
            &&& result.capacity == state.capacity
            &&& result.compaction == state.compaction
            &&& result.derived(state)
            &&& result.same_accesses(state, key)
        }),
    decreases count,
{
    lemma_payload_bounds(state.ring);
    if count == 0 {
        assert forall|at: int| 0 <= at < state.ring.len() implies state.ring.contains(
            #[trigger] state.ring[at],
        ) by {}
        lemma_derived_subset(state, state);
    } else {
        let before = state.relieved_times(key, range, (count - 1) as nat);
        let after = before.relieved(key, range);
        assert(state.unsettled(key, range, (count - 1) as nat));
        lemma_relieved_times(state, key, range, (count - 1) as nat);
        before.lemma_relieved(key, range);
        lemma_relieved_derived(before, key, range);
        lemma_derived_transitive(after, before, state);
        assert forall|other: Seq<char>| #[trigger] after.objects.contains_key(other) implies after.objects[other].accesses
            == state.record_of(other).accesses && (other != key ==> state.objects.contains_key(
            other,
        )) by {
            assert(after.objects[other].accesses == before.record_of(other).accesses);
        }
    }
}

proof fn lemma_derived_covered(next: ShardState, old: ShardState, key: Seq<char>, range: Interval)
    requires
        next.derived(old),
        next.covered(key, range),
    ensures
        old.covered(key, range),
{
    let slot = choose|slot: int| #[trigger] next.covers_at(slot, key, range);
    assert(has_origin(next.ring[slot], old));
    let from = choose|from: int|
        0 <= from < old.ring.len() && derived_from(next.ring[slot], #[trigger] old.ring[from]);
    assert(old.covers_at(from, key, range));
}

proof fn lemma_derived_faithful(
    next: ShardState,
    old: ShardState,
    source: spec_fn(Seq<char>, int) -> u8,
)
    requires
        old.valid(),
        next.derived(old),
        old.faithful(source),
    ensures
        next.faithful(source),
{
    assert forall|slot: int| 0 <= slot < next.ring.len() implies source_bytes(
        source,
        (#[trigger] next.ring[slot]).key,
        next.ring[slot].range,
        next.ring[slot].bytes,
    ) by {
        assert(has_origin(next.ring[slot], old));
        let from = choose|from: int|
            0 <= from < old.ring.len() && derived_from(next.ring[slot], #[trigger] old.ring[from]);
        let extent = next.ring[slot];
        let origin = old.ring[from];
        assert(origin.valid());
        assert(source_bytes(source, origin.key, origin.range, origin.bytes));
        assert forall|i: int| 0 <= i < extent.bytes.len() implies #[trigger] extent.bytes[i]
            == source(extent.key, extent.range.start + i) by {
            let at = extent.range.start - origin.range.start + i;
            assert(extent.bytes[i] == origin.bytes[at]);
        }
    }
}

/// The shard just before a population completes.
spec fn settled(before: ShardState, key: Seq<char>, range: Interval, count: nat) -> ShardState {
    before.relieved_times(key, range, count)
}

/// What a population amounts to: the shard after enough pressure decisions,
/// and the extents it completes with.
proof fn lemma_populated(
    before: ShardState,
    key: Seq<char>,
    range: Interval,
    bytes: Seq<u8>,
    requested: Option<Interval>,
    after: ShardState,
) -> (count: nat)
    requires
        before.valid(),
        range.valid(),
        bytes.len() == range.len(),
        populated(before, key, range, bytes, requested, after),
    ensures
        settles(before, key, range, count),
        after == settled(before, key, range, count).admitted(key, range, bytes, requested),
        settled(before, key, range, count).valid(),
        settled(before, key, range, count).derived(before),
        settled(before, key, range, count).same_accesses(before, key),
        settled(before, key, range, count).capacity == before.capacity,
        before.covered(key, range) || settled(before, key, range, count).last_id < u64::MAX,
        settled(before, key, range, count).covered(key, range) <==> before.covered(key, range),
        before.covered(key, range) ==> count == 0 && after.ring == before.ring,
        !before.covered(key, range) ==> after.ring == settled(before, key, range, count).cleared(
            key,
            range,
        ).ring.push(
            Extent {
                key,
                id: after.last_id,
                range,
                bytes,
                admitted_at: before.clock,
            },
        ),
{
    let count = choose|count: nat|
        #[trigger] settles(before, key, range, count) && after == before.relieved_times(
            key,
            range,
            count,
        ).admitted(key, range, bytes, requested);
    let state = before.relieved_times(key, range, count);
    lemma_relieved_times(before, key, range, count);
    lemma_payload_bounds(state.ring);
    if before.covered(key, range) {
        assert(before.relieved_times(key, range, 0) == before);
        assert(before.ready(key, range));
        if count > 0 {
            assert(!before.relieved_times(key, range, 0nat).ready(key, range));
        }
    }
    if state.covered(key, range) {
        lemma_derived_covered(state, before, key, range);
    }
    state.lemma_cleared(key, range);
    count
}

/// Pressure decisions make nothing covered that was not.
pub proof fn lemma_settled_covered(
    before: ShardState,
    key: Seq<char>,
    range: Interval,
    count: nat,
)
    requires
        before.valid(),
        before.admissible(key, range),
        before.unsettled(key, range, count),
    ensures
        before.relieved_times(key, range, count).covered(key, range) ==> before.covered(key, range),
{
    lemma_relieved_times(before, key, range, count);
    if before.relieved_times(key, range, count).covered(key, range) {
        lemma_derived_covered(before.relieved_times(key, range, count), before, key, range);
    }
}

/// Every answered lookup yields exactly the requested bytes of the source that
/// the cached bytes came from.
pub proof fn answers_are_the_requested_source_bytes(
    state: ShardState,
    source: spec_fn(Seq<char>, int) -> u8,
    key: Seq<char>,
    requested: Interval,
    slot: int,
)
    requires
        state.valid(),
        state.faithful(source),
        requested.valid(),
        state.answers(slot, key, requested),
    ensures
        source_bytes(source, key, requested, state.bytes_at(slot, requested)),
{
    let extent = state.ring[slot];
    let bytes = state.bytes_at(slot, requested);
    assert(extent.valid());
    assert(source_bytes(source, extent.key, extent.range, extent.bytes));
    assert forall|i: int| 0 <= i < bytes.len() implies #[trigger] bytes[i] == source(
        key,
        requested.start + i,
    ) by {
        let at = requested.start - extent.range.start + i;
        assert(bytes[i] == extent.bytes[at]);
    }
}

/// A lookup is answered exactly if one extent covers it, and then from one slot.
pub proof fn lookups_are_answered_from_one_extent(
    state: ShardState,
    key: Seq<char>,
    requested: Interval,
)
    requires
        state.valid(),
    ensures
        state.covered(key, requested) <==> exists|slot: int| #[trigger]
            state.answers(slot, key, requested),
        forall|one: int, other: int| #[trigger]
            state.answers(one, key, requested) && #[trigger] state.answers(other, key, requested)
                ==> one == other,
{
    if state.covered(key, requested) {
        let some = choose|some: int| #[trigger] state.covers_at(some, key, requested);
        lemma_last_cover(state, key, requested, some);
    }
    assert forall|one: int, other: int| #[trigger]
        state.answers(one, key, requested) && #[trigger] state.answers(
            other,
            key,
            requested,
        ) implies one == other by {
        assert(state.covers_at(one, key, requested));
        assert(state.covers_at(other, key, requested));
        if one != other {
            assert(!state.ring[one].range.covers(state.ring[other].range));
            assert(!state.ring[other].range.covers(state.ring[one].range));
        }
    }
}

/// Among covering extents one starts last.
proof fn lemma_last_cover(state: ShardState, key: Seq<char>, requested: Interval, some: int)
    requires
        state.covers_at(some, key, requested),
    ensures
        exists|slot: int| #[trigger] state.answers(slot, key, requested),
    decreases requested.start - state.ring[some].range.start,
{
    if !state.answers(some, key, requested) {
        let other = choose|other: int| #[trigger]
            state.covers_at(other, key, requested) && state.ring[other].range.start
                > state.ring[some].range.start;
        lemma_last_cover(state, key, requested, other);
    }
}

/// Caching a download keeps every cached byte that of its source.
pub proof fn population_keeps_source_bytes(
    before: ShardState,
    source: spec_fn(Seq<char>, int) -> u8,
    key: Seq<char>,
    range: Interval,
    bytes: Seq<u8>,
    requested: Option<Interval>,
    after: ShardState,
)
    requires
        before.valid(),
        before.faithful(source),
        range.valid(),
        source_bytes(source, key, range, bytes),
        populated(before, key, range, bytes, requested, after),
    ensures
        after.faithful(source),
{
    let count = lemma_populated(before, key, range, bytes, requested, after);
    let state = settled(before, key, range, count);
    lemma_derived_faithful(state, before, source);
    state.lemma_cleared(key, range);
    let cleared = state.cleared(key, range);
    lemma_derived_subset(cleared, state);
    lemma_derived_faithful(cleared, state, source);
    assert forall|slot: int| 0 <= slot < after.ring.len() implies source_bytes(
        source,
        (#[trigger] after.ring[slot]).key,
        after.ring[slot].range,
        after.ring[slot].bytes,
    ) by {
        if before.covered(key, range) {
            assert(after.ring[slot] == before.ring[slot]);
        } else if slot < cleared.ring.len() {
            assert(after.ring[slot] == cleared.ring[slot]);
        }
    }
}

/// Lookups, recorded accesses and removals keep every cached byte that of its source.
pub proof fn other_operations_keep_source_bytes(
    state: ShardState,
    source: spec_fn(Seq<char>, int) -> u8,
    key: Seq<char>,
    range: Interval,
)
    requires
        state.valid(),
        state.faithful(source),
    ensures
        state.looked_up(key, range).faithful(source),
        state.accessed(key, range).faithful(source),
        (exists|slot: int| #[trigger] state.exact_at(slot, key, range)) ==> state.removed(
            key,
            range,
        ).faithful(source),
{
    assert forall|slot: int| 0 <= slot < state.looked_up(key, range).ring.len() implies source_bytes(
        source,
        (#[trigger] state.looked_up(key, range).ring[slot]).key,
        state.looked_up(key, range).ring[slot].range,
        state.looked_up(key, range).ring[slot].bytes,
    ) by {
        assert(state.looked_up(key, range).ring[slot] == state.ring[slot]);
    }
    assert forall|slot: int| 0 <= slot < state.accessed(key, range).ring.len() implies source_bytes(
        source,
        (#[trigger] state.accessed(key, range).ring[slot]).key,
        state.accessed(key, range).ring[slot].range,
        state.accessed(key, range).ring[slot].bytes,
    ) by {
        assert(state.accessed(key, range).ring[slot] == state.ring[slot]);
    }
    if exists|slot: int| #[trigger] state.exact_at(slot, key, range) {
        let slot = state.slot_of(key, range);
        lemma_detached_derived(state, slot, false);
        lemma_derived_faithful(state.detached(slot, false), state, source);
        let next = state.removed(key, range);
        assert forall|other: int| 0 <= other < next.ring.len() implies source_bytes(
            source,
            (#[trigger] next.ring[other]).key,
            next.ring[other].range,
            next.ring[other].bytes,
        ) by {
            assert(next.ring[other] == state.detached(slot, false).ring[other]);
        }
    }
}

/// Counting changes nothing that validity speaks of.
pub proof fn lemma_recounted(state: ShardState, counted: ShardState)
    requires
        state.valid(),
        counted == (ShardState { metrics: counted.metrics, ..state }),
    ensures
        counted.valid(),
{
    assert forall|one: int, other: int|
        #![trigger counted.ring[one], counted.ring[other]]
        0 <= one < counted.ring.len() && 0 <= other < counted.ring.len() && one != other implies {
        &&& counted.ring[one].id != counted.ring[other].id
        &&& counted.ring[one].key == counted.ring[other].key ==> !counted.ring[one].range.covers(
            counted.ring[other].range,
        )
    } by {
        assert(state.ring[one].id != state.ring[other].id);
    }
}

/// Completing an admission keeps a shard valid.
pub proof fn lemma_admitted(
    state: ShardState,
    key: Seq<char>,
    range: Interval,
    bytes: Seq<u8>,
    requested: Option<Interval>,
)
    requires
        state.valid(),
        range.valid(),
        bytes.len() == range.len(),
        state.covered(key, range) || state.last_id < u64::MAX,
    ensures
        state.admitted(key, range, bytes, requested).valid(),
        state.admitted(key, range, bytes, requested).capacity == state.capacity,
        state.admitted(key, range, bytes, requested).compaction == state.compaction,
{
    state.lemma_cleared(key, range);
    let cleared = state.cleared(key, range);
    let next = if state.covered(key, range) {
        state
    } else {
        cleared.lemma_attached(key, range, bytes);
        cleared.attached(key, range, bytes)
    };
    let counted = state.admitted(key, range, bytes, None);
    lemma_recounted(next, counted);
    if let Some(requested) = requested {
        counted.lemma_accessed(key, requested);
    }
}

/// Caching a download keeps a shard valid: in particular no retained range of an
/// object covers another of that object.
pub proof fn population_keeps_shards_valid(
    before: ShardState,
    key: Seq<char>,
    range: Interval,
    bytes: Seq<u8>,
    requested: Option<Interval>,
    after: ShardState,
)
    requires
        before.valid(),
        range.valid(),
        bytes.len() == range.len(),
        populated(before, key, range, bytes, requested, after),
    ensures
        after.valid(),
        after.capacity == before.capacity,
        after.compaction == before.compaction,
{
    let count = lemma_populated(before, key, range, bytes, requested, after);
    lemma_relieved_times(before, key, range, count);
    lemma_admitted(settled(before, key, range, count), key, range, bytes, requested);
}

/// A cached download can be looked up: unless an extent already covered it, an
/// extent with exactly its range and bytes is there afterward. If one did, the
/// payload is discarded and every extent stays as it was.
pub proof fn downloads_are_found_again(
    before: ShardState,
    key: Seq<char>,
    range: Interval,
    bytes: Seq<u8>,
    requested: Option<Interval>,
    after: ShardState,
)
    requires
        before.valid(),
        range.valid(),
        bytes.len() == range.len(),
        populated(before, key, range, bytes, requested, after),
    ensures
        after.covered(key, range),
        before.covered(key, range) ==> after.ring == before.ring,
        !before.covered(key, range) ==> exists|slot: int| #[trigger]
            after.answers(slot, key, range) && after.exact_at(slot, key, range)
                && after.bytes_at(slot, range) == bytes,
{
    let count = lemma_populated(before, key, range, bytes, requested, after);
    let state = settled(before, key, range, count);
    state.lemma_cleared(key, range);
    if before.covered(key, range) {
        let slot = choose|slot: int| #[trigger] before.covers_at(slot, key, range);
        assert(after.covers_at(slot, key, range));
    } else {
        let slot = after.ring.len() - 1;
        assert(after.covers_at(slot, key, range));
        assert forall|other: int| #[trigger] after.covers_at(other, key, range) implies after.ring[other].range.start
            <= after.ring[slot].range.start by {}
        assert(after.answers(slot, key, range));
        assert(after.bytes_at(slot, range) =~= bytes);
    }
}

/// Pressure evicts toward the shard's target: afterward the shard is within its
/// capacity, or holds a single download that exceeds it.
pub proof fn population_respects_the_shard_target(
    before: ShardState,
    key: Seq<char>,
    range: Interval,
    bytes: Seq<u8>,
    requested: Option<Interval>,
    after: ShardState,
)
    requires
        before.valid(),
        range.valid(),
        bytes.len() == range.len(),
        populated(before, key, range, bytes, requested, after),
        !before.covered(key, range),
    ensures
        after.used() <= before.capacity || range.len() > before.capacity,
        range.len() > before.capacity ==> after.ring.len() == 1 && after.used() == range.len()
            && after.exact_at(0, key, range) && after.ring[0].bytes == bytes,
{
    let count = lemma_populated(before, key, range, bytes, requested, after);
    let state = settled(before, key, range, count);
    let cleared = state.cleared(key, range);
    state.lemma_cleared(key, range);
    lemma_payload_bounds(cleared.ring);
    crate::shard_lemmas::lemma_payload_push(cleared.ring, after.ring.last());
    assert(after.ring.last().range == range);
    assert(state.ready(key, range));
    assert(state.fits(key, range));
}

/// A download beside which everything fits displaces exactly what it
/// supersedes: partial overlaps and other objects stay.
pub proof fn fitting_downloads_displace_only_what_they_cover(
    before: ShardState,
    key: Seq<char>,
    range: Interval,
    bytes: Seq<u8>,
    requested: Option<Interval>,
    after: ShardState,
    slot: int,
)
    requires
        before.valid(),
        range.valid(),
        bytes.len() == range.len(),
        populated(before, key, range, bytes, requested, after),
        !before.covered(key, range),
        before.fits(key, range),
        0 <= slot < before.ring.len(),
    ensures
        after.ring.contains(before.ring[slot]) <==> !before.superseded(slot, key, range),
{
    let count = lemma_populated(before, key, range, bytes, requested, after);
    assert(before.relieved_times(key, range, 0) == before);
    if count > 0 {
        assert(!before.relieved_times(key, range, 0nat).ready(key, range));
    }
    let cleared = before.cleared(key, range);
    before.lemma_cleared(key, range);
    let extent = before.ring[slot];
    if before.superseded(slot, key, range) {
        if after.ring.contains(extent) {
            let at = choose|at: int| 0 <= at < after.ring.len() && after.ring[at] == extent;
            if at < cleared.ring.len() {
                assert(cleared.ring[at] == extent);
                assert(cleared.superseded(at, key, range));
            } else {
                assert(before.covers_at(slot, key, range));
            }
        }
    } else {
        assert(cleared.ring.contains(extent));
        let at = choose|at: int| 0 <= at < cleared.ring.len() && cleared.ring[at] == extent;
        assert(after.ring[at] == extent);
    }
}

/// Everything retained after a population is the download or was retained
/// before, whole or in part.
pub proof fn population_invents_nothing(
    before: ShardState,
    key: Seq<char>,
    range: Interval,
    bytes: Seq<u8>,
    requested: Option<Interval>,
    after: ShardState,
    slot: int,
)
    requires
        before.valid(),
        range.valid(),
        bytes.len() == range.len(),
        populated(before, key, range, bytes, requested, after),
        0 <= slot < after.ring.len(),
    ensures
        has_origin(after.ring[slot], before) || (after.exact_at(slot, key, range)
            && after.ring[slot].bytes == bytes),
{
    let count = lemma_populated(before, key, range, bytes, requested, after);
    let state = settled(before, key, range, count);
    let cleared = state.cleared(key, range);
    state.lemma_cleared(key, range);
    if before.covered(key, range) {
        assert(before.ring[slot] == after.ring[slot]);
        lemma_derived_self(before.ring[slot]);
    } else if slot < cleared.ring.len() {
        assert(after.ring[slot] == cleared.ring[slot]);
        assert(state.ring.contains(cleared.ring[slot]));
        let at = choose|at: int| 0 <= at < state.ring.len() && state.ring[at] == cleared.ring[slot];
        assert(has_origin(state.ring[at], before));
    }
}

proof fn lemma_cleared_accesses(state: ShardState, key: Seq<char>, range: Interval)
    requires
        state.valid(),
    ensures
        state.cleared(key, range).same_accesses(state, key),
    decreases state.ring.len(),
{
    if exists|slot: int| #[trigger] state.first_superseded(slot, key, range) {
        let slot = choose|slot: int| #[trigger] state.first_superseded(slot, key, range);
        let next = state.detached(slot, true);
        state.lemma_detached(slot, true);
        assert(state.objects.contains_key(state.ring[slot].key));
        lemma_cleared_accesses(next, key, range);
        let result = state.cleared(key, range);
        assert forall|other: Seq<char>| #[trigger] result.objects.contains_key(other) implies result.objects[other].accesses
            == state.record_of(other).accesses && (other != key ==> state.objects.contains_key(
            other,
        )) by {
            assert(result.objects[other].accesses == next.record_of(other).accesses);
        }
    }
}

/// Populating the cache creates no access: what is still remembered of any
/// object is what was remembered before.
pub proof fn population_creates_no_access(
    before: ShardState,
    key: Seq<char>,
    range: Interval,
    bytes: Seq<u8>,
    after: ShardState,
)
    requires
        before.valid(),
        range.valid(),
        bytes.len() == range.len(),
        populated(before, key, range, bytes, None, after),
    ensures
        after.same_accesses(before, key),
{
    let count = lemma_populated(before, key, range, bytes, None, after);
    let state = settled(before, key, range, count);
    lemma_cleared_accesses(state, key, range);
    let cleared = state.cleared(key, range);
    assert forall|other: Seq<char>| #[trigger] after.objects.contains_key(other) implies after.objects[other].accesses
        == before.record_of(other).accesses && (other != key ==> before.objects.contains_key(
        other,
    )) by {
        if !state.covered(key, range) {
            if other != key {
                assert(cleared.objects.contains_key(other));
            }
            assert(state.objects.contains_key(other) ==> state.objects[other].accesses
                == before.record_of(other).accesses);
            assert(cleared.objects.contains_key(other) ==> cleared.objects[other].accesses
                == state.record_of(other).accesses);
        }
    }
}

/// A download that comes with the request it answers records that request
/// exactly once toward its object.
pub proof fn population_records_its_request_once(
    before: ShardState,
    key: Seq<char>,
    range: Interval,
    bytes: Seq<u8>,
    requested: Interval,
    after: ShardState,
)
    requires
        before.valid(),
        range.valid(),
        bytes.len() == range.len(),
        populated(before, key, range, bytes, Some(requested), after),
    ensures
        after.clock == before.clock.saturating_add(1),
        after.metrics.access == before.metrics.access.wrapping_add(1),
        after.objects.contains_key(key),
        after.objects[key].accesses == recorded(
            before.record_of(key).accesses,
            requested,
            after.clock,
        ),
{
    let count = lemma_populated(before, key, range, bytes, Some(requested), after);
    let state = settled(before, key, range, count);
    lemma_cleared_accesses(state, key, range);
    state.lemma_cleared(key, range);
    let cleared = state.cleared(key, range);
    if state.covered(key, range) {
        let slot = choose|slot: int| #[trigger] state.covers_at(slot, key, range);
        assert(state.objects.contains_key(state.ring[slot].key));
    } else {
        assert(cleared.objects.contains_key(key) ==> cleared.objects[key].accesses
            == state.record_of(key).accesses);
    }
}

/// A recorded access appends exactly its request, once, to what is remembered of
/// its object, whichever extents the object still has, and changes no extent.
/// Toward an object of which nothing is remembered it only advances the clock.
pub proof fn accesses_are_recorded_whatever_is_retained(
    state: ShardState,
    key: Seq<char>,
    requested: Interval,
    other: Seq<char>,
)
    requires
        state.valid(),
    ensures
        state.accessed(key, requested).ring == state.ring,
        state.accessed(key, requested).used() == state.used(),
        state.accessed(key, requested).clock == state.clock.saturating_add(1),
        state.objects.contains_key(key) ==> state.accessed(key, requested).record_of(key).accesses
            == recorded(state.record_of(key).accesses, requested, state.clock.saturating_add(1)),
        held(state.ring, key) ==> state.objects.contains_key(key),
        !state.objects.contains_key(key) ==> state.accessed(key, requested).objects
            == state.objects,
        other != key ==> state.accessed(key, requested).record_of(other) == state.record_of(other),
{
}

/// A hit appends exactly its request to the object's accesses and changes no
/// extent. A miss changes nothing but the count of misses.
pub proof fn lookups_record_exactly_their_request(
    state: ShardState,
    key: Seq<char>,
    requested: Interval,
    other: Seq<char>,
)
    requires
        state.valid(),
    ensures
        state.looked_up(key, requested).ring == state.ring,
        state.covered(key, requested) ==> {
            &&& state.looked_up(key, requested).objects[key].accesses == recorded(
                state.objects[key].accesses,
                requested,
                state.clock.saturating_add(1),
            )
            &&& other != key ==> state.looked_up(key, requested).record_of(other)
                == state.record_of(other)
        },
        !state.covered(key, requested) ==> state.looked_up(key, requested) == (ShardState {
            metrics: state.metrics.looked_up(false),
            ..state
        }),
{
}

/// Within its grace no extent is trimmed, yet grace never keeps one from being
/// evicted.
pub proof fn grace_delays_trimming_but_not_eviction(
    state: ShardState,
    key: Seq<char>,
    range: Interval,
    slot: int,
)
    requires
        state.valid(),
        state.victim(slot, key, range),
        state.clock - state.ring[slot].admitted_at < COMPACTION_GRACE_ACCESSES,
    ensures
        state.relieved(key, range) == state.rotated().evicted(slot, key),
{
    state.lemma_victim(slot, key, range);
}

/// Trimming an extent keeps every remembered request that it covered
/// answerable, releases at least a quarter of it, and records no access.
pub proof fn trimming_keeps_observed_requests(
    state: ShardState,
    key: Seq<char>,
    range: Interval,
    slot: int,
    i: int,
)
    requires
        state.valid(),
        state.can_relieve(key, range),
        state.victim(slot, key, range),
        state.trims(slot),
        0 <= i < state.requests_at(slot).len(),
        state.requests_at(slot)[i].valid(),
        state.ring[slot].range.covers(state.requests_at(slot)[i]),
    ensures
        state.relieved(key, range).covered(state.ring[slot].key, state.requests_at(slot)[i]),
        4 * (state.used() - state.relieved(key, range).used()) >= state.ring[slot].range.len(),
        state.relieved(key, range).same_accesses(state, key),
        state.relieved(key, range).objects[state.ring[slot].key].accesses
            == state.objects[state.ring[slot].key].accesses,
{
    let requests = state.requests_at(slot);
    let source = state.ring[slot].range;
    let object = state.ring[slot].key;
    let request = requests[i];
    let retained = grouping(source, requests);
    let turned = state.rotated();
    let fragments = state.trimmed(slot);
    lemma_payload_bounds(state.ring);
    state.lemma_rotated();
    state.lemma_victim(slot, key, range);
    state.lemma_trimmed(slot);
    turned.lemma_compacted(slot, fragments);
    turned.lemma_accepts_fragments(slot, fragments);
    turned.lemma_detached(slot, true);
    lemma_relieved_derived(state, key, range);
    let emptied = turned.detached(slot, true);
    emptied.lemma_republished(object, fragments);
    lemma_grouping(source, requests);
    covered_requests_stay_coverable(source, requests, retained, i);
    let j = choose|j: int| 0 <= j < retained.len() && (#[trigger] retained[j]).covers(request);
    assert(ranges_of(fragments)[j] == fragments[j].range);
    lemma_republished_covers(emptied, object, fragments, j);
    let next = emptied.republished(object, fragments);
    let at = choose|at: int| #[trigger] next.covers_at(at, object, retained[j]);
    assert(state.relieved(key, range).covers_at(at, object, request));
}

/// Once published, every fragment is covered.
pub proof fn lemma_republished_covers(
    state: ShardState,
    key: Seq<char>,
    fragments: Seq<Fragment>,
    j: int,
)
    requires
        state.accepts(key, fragments),
        0 <= j < fragments.len(),
    ensures
        state.republished(key, fragments).covered(key, fragments[j].range),
    decreases fragments.len(),
{
    let next = state.republished_first(key, fragments);
    let rest = fragments.drop_first();
    state.lemma_republish_step(key, fragments);
    if j > 0 {
        lemma_republished_covers(next, key, rest, j - 1);
        assert(rest[j - 1] == fragments[j]);
    } else {
        next.lemma_republished(key, rest);
        let slot = if state.covered(key, fragments[0].range) {
            choose|slot: int| #[trigger] state.covers_at(slot, key, fragments[0].range)
        } else {
            next.ring.len() - 1
        };
        assert(next.covers_at(slot, key, fragments[0].range));
        let result = next.republished(key, rest);
        assert(result.ring[slot] == next.ring[slot]);
        assert(result.covers_at(slot, key, fragments[0].range));
    }
}

/// Removing a range takes exactly its extent, and with an object's last extent
/// what was remembered of the object.
pub proof fn removal_releases_the_extent_and_an_empty_object(
    state: ShardState,
    key: Seq<char>,
    range: Interval,
    slot: int,
)
    requires
        state.valid(),
        state.exact_at(slot, key, range),
    ensures
        state.removed(key, range).valid(),
        state.removed(key, range).used() == state.used() - range.len(),
        state.removed(key, range).ring.len() == state.ring.len() - 1,
        forall|other: int| !#[trigger] state.removed(key, range).exact_at(other, key, range),
        state.removed(key, range).objects.contains_key(key) <==> held(
            state.removed(key, range).ring,
            key,
        ),
{
    state.lemma_exact_unique(slot, key, range);
    state.lemma_detached(slot, false);
    lemma_vacated(state.ring, slot);
    let detached = state.detached(slot, false);
    let next = state.removed(key, range);
    assert(next.ring == detached.ring);
    assert forall|other: int| !#[trigger] next.exact_at(other, key, range) by {
        if next.exact_at(other, key, range) {
            let from = if other == slot { state.ring.len() - 1 } else { other };
            assert(next.ring[other] == state.ring[from]);
            assert(state.exact_at(from, key, range));
            state.lemma_exact_unique(from, key, range);
        }
    }
    assert forall|one: int, other: int|
        #![trigger next.ring[one], next.ring[other]]
        0 <= one < next.ring.len() && 0 <= other < next.ring.len() && one != other implies {
        &&& next.ring[one].id != next.ring[other].id
        &&& next.ring[one].key == next.ring[other].key ==> !next.ring[one].range.covers(
            next.ring[other].range,
        )
    } by {
        assert(detached.ring[one].id != detached.ring[other].id);
    }
}

impl CacheState {
    /// There is a shard, and every shard is valid.
    pub open spec fn valid(self) -> bool {
        &&& self.shards.len() > 0
        &&& forall|i: int| 0 <= i < self.shards.len() ==> (#[trigger] self.shards[i]).valid()
    }

    /// Whether every shard holds the bytes of `source`.
    pub open spec fn faithful(self, source: spec_fn(Seq<char>, int) -> u8) -> bool {
        forall|i: int| 0 <= i < self.shards.len() ==> (#[trigger] self.shards[i]).faithful(source)
    }
}

/// A cache fed with the bytes of its source keeps holding them, and no other
/// shard than the object's own changes.
pub proof fn caching_downloads_keeps_source_bytes(
    before: CacheState,
    source: spec_fn(Seq<char>, int) -> u8,
    key: Seq<char>,
    download: Download,
    requested: Option<Interval>,
    after: CacheState,
)
    requires
        before.valid(),
        before.faithful(source),
        download.well_formed(),
        source_bytes(source, key, download.interval(), download.payload()),
        before.populated(key, download, requested, after),
    ensures
        after.faithful(source),
        after.home(key).covered(key, download.interval()),
        after.shards.len() == before.shards.len(),
        forall|i: int|
            0 <= i < after.shards.len() && i != before.index(key) ==> #[trigger] after.shards[i]
                == before.shards[i],
{
    let home = before.index(key);
    vstd::arithmetic::div_mod::lemma_mod_bound(
        crate::keys::key_hash(key) as int,
        before.shards.len() as int,
    );
    assert(before.shards[home].valid());
    assert(before.shards[home].faithful(source));
    population_keeps_source_bytes(
        before.home(key),
        source,
        key,
        download.interval(),
        download.payload(),
        requested,
        after.home(key),
    );
    downloads_are_found_again(
        before.home(key),
        key,
        download.interval(),
        download.payload(),
        requested,
        after.home(key),
    );
    assert forall|i: int| 0 <= i < after.shards.len() implies (#[trigger] after.shards[i]).faithful(
        source,
    ) by {
        if i != home {
            assert(after.shards[i] == before.shards[i]);
        }
    }
}

/// A lookup in a cache that holds the bytes of its source is answered with
/// exactly the requested source bytes.
pub proof fn cache_answers_are_the_requested_source_bytes(
    cache: CacheState,
    source: spec_fn(Seq<char>, int) -> u8,
    key: Seq<char>,
    requested: Interval,
    slot: int,
)
    requires
        cache.valid(),
        cache.faithful(source),
        requested.valid(),
        cache.home(key).answers(slot, key, requested),
    ensures
        source_bytes(source, key, requested, cache.home(key).bytes_at(slot, requested)),
{
    vstd::arithmetic::div_mod::lemma_mod_bound(
        crate::keys::key_hash(key) as int,
        cache.shards.len() as int,
    );
    assert(cache.shards[cache.index(key)].valid());
    assert(cache.shards[cache.index(key)].faithful(source));
    answers_are_the_requested_source_bytes(cache.home(key), source, key, requested, slot);
}

/// A fetch that succeeds returns exactly the requested source bytes, and leaves
/// only source bytes cached; one that fails changes nothing.
pub proof fn fetches_return_the_requested_source_bytes<E>(
    before: CacheState,
    source: spec_fn(Seq<char>, int) -> u8,
    key: Seq<char>,
    requested: ByteRange,
    outcome: Result<Download, E>,
    result: Result<Bytes, GetOrFetchError<E>>,
    after: CacheState,
)
    requires
        before.valid(),
        before.faithful(source),
        requested@.valid(),
        outcome is Ok ==> outcome->Ok_0.well_formed() && source_bytes(
            source,
            key,
            outcome->Ok_0.interval(),
            outcome->Ok_0.payload(),
        ),
        fetched(before, key, requested, outcome, result, after),
    ensures
        result is Ok <==> outcome is Ok && outcome->Ok_0.interval().covers(requested@),
        result is Ok ==> source_bytes(source, key, requested@, payload::contents(result->Ok_0)),
        after.faithful(source),
        result is Err ==> after == before,
{
    if result is Ok {
        let download = outcome->Ok_0;
        let bytes = payload::contents(result->Ok_0);
        let all = download.payload();
        let range = download.interval();
        caching_downloads_keeps_source_bytes(
            before,
            source,
            key,
            download,
            Some(requested@),
            after,
        );
        assert forall|i: int| 0 <= i < bytes.len() implies #[trigger] bytes[i] == source(
            key,
            requested@.start + i,
        ) by {
            let at = requested@.start - range.start + i;
            assert(bytes[i] == all[at]);
        }
    }
}

} // verus!

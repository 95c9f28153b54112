//! What a shard does between the planning and the publication of a copy.

use vstd::prelude::*;

use crate::compaction_work::{PreparedCompaction, Target};
use crate::laws::{
    lemma_admitted, lemma_recounted, lemma_settled_covered, population_keeps_shards_valid,
    removal_releases_the_extent_and_an_empty_object,
};
use crate::range::Interval;
use crate::shard::{populated, pressure_outcome, settles, AdmissionStep};
use crate::shard_lemmas::{lemma_vacated, ranges_of};
use crate::shard_state::{Fragment, ShardState};
use crate::staleness::{
    lemma_accessed_behind, lemma_attached_behind, lemma_cleared_behind, lemma_detached_behind,
    lemma_populated_behind, lemma_relieved_behind, lemma_republished_behind, lemma_taken,
    outdated_copies_are_rejected,
};

verus! {

impl ShardState {
    /// Whether every extent of this shard that already had its identity in
    /// `earlier` is one of `earlier`, unchanged.
    pub open spec fn follows(self, earlier: ShardState) -> bool {
        &&& earlier.last_id <= self.last_id
        &&& forall|slot: int|
            0 <= slot < self.ring.len() && (#[trigger] self.ring[slot]).id <= earlier.last_id
                ==> earlier.ring.contains(self.ring[slot])
    }

    /// Whether this shard has exactly the extents of `key` that `earlier` had,
    /// and remembers exactly the same of the object.
    pub open spec fn leaves(self, earlier: ShardState, key: Seq<char>) -> bool {
        &&& earlier.objects.contains_key(key) ==> self.objects.contains_key(key)
            && self.objects[key] == earlier.objects[key]
        &&& !self.lost(earlier, key)
        &&& !earlier.lost(self, key)
    }

    /// Whether an extent of `key` that `earlier` had is gone from this shard.
    pub open spec fn lost(self, earlier: ShardState, key: Seq<char>) -> bool {
        exists|slot: int|
            0 <= slot < earlier.ring.len() && (#[trigger] earlier.ring[slot]).key == key
                && !self.ring.contains(earlier.ring[slot])
    }
}

proof fn lemma_follows_chain(third: ShardState, second: ShardState, first: ShardState)
    requires
        second.follows(first),
        third.follows(second),
    ensures
        third.follows(first),
{
    assert forall|slot: int|
        0 <= slot < third.ring.len() && (#[trigger] third.ring[slot]).id
            <= first.last_id implies first.ring.contains(third.ring[slot]) by {
        assert(second.ring.contains(third.ring[slot]));
        let at = choose|at: int| 0 <= at < second.ring.len() && second.ring[at] == third.ring[slot];
        assert(first.ring.contains(second.ring[at]));
    }
}

proof fn lemma_leaves_chain(
    third: ShardState,
    second: ShardState,
    first: ShardState,
    key: Seq<char>,
)
    requires
        second.leaves(first, key),
        third.leaves(second, key),
    ensures
        third.leaves(first, key),
{
    assert forall|slot: int|
        0 <= slot < first.ring.len() && (#[trigger] first.ring[slot]).key
            == key implies third.ring.contains(first.ring[slot]) by {
        assert(second.ring.contains(first.ring[slot]));
        let at = choose|at: int| 0 <= at < second.ring.len() && second.ring[at] == first.ring[slot];
        assert(third.ring.contains(second.ring[at]));
    }
    assert forall|slot: int|
        0 <= slot < third.ring.len() && (#[trigger] third.ring[slot]).key
            == key implies first.ring.contains(third.ring[slot]) by {
        assert(second.ring.contains(third.ring[slot]));
        let at = choose|at: int| 0 <= at < second.ring.len() && second.ring[at] == third.ring[slot];
        assert(first.ring.contains(second.ring[at]));
    }
}

/// What goes from a shard that left the object alone was there before.
proof fn lemma_lost_since(third: ShardState, second: ShardState, first: ShardState, key: Seq<char>)
    requires
        second.leaves(first, key),
        third.lost(second, key),
    ensures
        third.lost(first, key),
{
    let slot = choose|slot: int|
        0 <= slot < second.ring.len() && (#[trigger] second.ring[slot]).key == key
            && !third.ring.contains(second.ring[slot]);
    assert(first.ring.contains(second.ring[slot]));
    let at = choose|at: int| 0 <= at < first.ring.len() && first.ring[at] == second.ring[slot];
    assert(!third.ring.contains(first.ring[at]));
}

/// What is gone stays gone.
proof fn lemma_lost_stays(third: ShardState, second: ShardState, first: ShardState, key: Seq<char>)
    requires
        first.valid(),
        second.follows(first),
        third.follows(second),
        second.lost(first, key),
    ensures
        third.lost(first, key),
{
    let slot = choose|slot: int|
        0 <= slot < first.ring.len() && (#[trigger] first.ring[slot]).key == key
            && !second.ring.contains(first.ring[slot]);
    let extent = first.ring[slot];
    assert(extent.id <= first.last_id);
    if third.ring.contains(extent) {
        let at = choose|at: int| 0 <= at < third.ring.len() && third.ring[at] == extent;
        assert(second.ring.contains(third.ring[at]));
    }
}

/// A shard with the same extents and identities follows, and leaves whatever it
/// remembers the same of.
proof fn lemma_same_ring(next: ShardState, state: ShardState, key: Seq<char>)
    requires
        next.ring == state.ring,
        next.last_id == state.last_id,
    ensures
        next.follows(state),
        (state.objects.contains_key(key) ==> next.objects.contains_key(key) && next.objects[key]
            == state.objects[key]) ==> next.leaves(state, key),
{
    assert forall|slot: int| 0 <= slot < next.ring.len() implies state.ring.contains(
        #[trigger] next.ring[slot],
    ) by {
        assert(state.ring[slot] == next.ring[slot]);
    }
}

/// Giving an extent up keeps every other one, and touches no other object.
proof fn lemma_detached_step(state: ShardState, slot: int, preserve: bool, key: Seq<char>)
    requires
        state.valid(),
        0 <= slot < state.ring.len(),
    ensures
        state.detached(slot, preserve).follows(state),
        state.ring[slot].key != key ==> state.detached(slot, preserve).leaves(state, key),
        !state.detached(slot, preserve).ring.contains(state.ring[slot]),
{
    let next = state.detached(slot, preserve);
    let last = state.ring.len() - 1;
    lemma_vacated(state.ring, slot);
    assert forall|other: int| 0 <= other < next.ring.len() implies state.ring.contains(
        #[trigger] next.ring[other],
    ) && next.ring[other].id != state.ring[slot].id by {
        let from = if other == slot {
            last
        } else {
            other
        };
        assert(next.ring[other] == state.ring[from]);
    }
    if state.ring[slot].key != key {
        assert forall|other: int|
            0 <= other < state.ring.len() && (#[trigger] state.ring[other]).key
                == key implies next.ring.contains(state.ring[other]) by {
            let at = if other == last {
                slot
            } else {
                other
            };
            assert(next.ring[at] == state.ring[other]);
        }
    }
}

/// A further extent keeps every other one, and touches no other object.
proof fn lemma_attached_step(
    state: ShardState,
    key: Seq<char>,
    range: Interval,
    bytes: Seq<u8>,
    other: Seq<char>,
)
    requires
        state.valid(),
        state.last_id < u64::MAX,
    ensures
        state.attached(key, range, bytes).follows(state),
        key != other ==> state.attached(key, range, bytes).leaves(state, other),
{
    let next = state.attached(key, range, bytes);
    assert forall|slot: int|
        0 <= slot < next.ring.len() && (#[trigger] next.ring[slot]).id
            <= state.last_id implies state.ring.contains(next.ring[slot]) by {
        assert(next.ring[slot] == state.ring[slot]);
    }
    assert forall|slot: int| 0 <= slot < state.ring.len() implies next.ring.contains(
        #[trigger] state.ring[slot],
    ) by {
        assert(next.ring[slot] == state.ring[slot]);
    }
}

proof fn lemma_cleared_step(
    state: ShardState,
    key: Seq<char>,
    range: Interval,
    other: Seq<char>,
)
    requires
        state.valid(),
    ensures
        state.cleared(key, range).follows(state),
        key != other ==> state.cleared(key, range).leaves(state, other),
    decreases state.ring.len(),
{
    if exists|slot: int| #[trigger] state.first_superseded(slot, key, range) {
        let slot = choose|slot: int| #[trigger] state.first_superseded(slot, key, range);
        let next = state.detached(slot, true);
        state.lemma_detached(slot, true);
        lemma_vacated(state.ring, slot);
        lemma_detached_step(state, slot, true, other);
        lemma_cleared_step(next, key, range, other);
        lemma_follows_chain(next.cleared(key, range), next, state);
        if key != other {
            lemma_leaves_chain(next.cleared(key, range), next, state, other);
        }
    } else {
        lemma_same_ring(state, state, other);
    }
}

/// A publication replaces its extent, keeps every other one, and touches no
/// other object.
proof fn lemma_compacted_step(
    state: ShardState,
    slot: int,
    fragments: Seq<Fragment>,
    key: Seq<char>,
)
    requires
        state.valid(),
        0 <= slot < state.ring.len(),
        crate::compaction::separated(ranges_of(fragments)),
        state.can_compact(slot, fragments),
        forall|i: int|
            0 <= i < fragments.len() ==> (#[trigger] fragments[i]).bytes.len()
                == fragments[i].range.len() && state.ring[slot].range.covers(fragments[i].range),
    ensures
        state.compacted(slot, fragments).valid(),
        state.compacted(slot, fragments).follows(state),
        state.ring[slot].key != key ==> state.compacted(slot, fragments).leaves(state, key),
        !state.compacted(slot, fragments).ring.contains(state.ring[slot]),
{
    let object = state.ring[slot].key;
    let emptied = state.detached(slot, true);
    let next = emptied.republished(object, fragments);
    let result = state.compacted(slot, fragments);
    state.lemma_accepts_fragments(slot, fragments);
    state.lemma_compacted(slot, fragments);
    lemma_detached_step(state, slot, true, key);
    lemma_republished_step(emptied, object, fragments, key);
    lemma_follows_chain(next, emptied, state);
    if object != key {
        lemma_leaves_chain(next, emptied, state, key);
    }
    assert(result.ring == next.ring);
    assert(state.ring[slot].id <= state.last_id);
    if next.ring.contains(state.ring[slot]) {
        let at = choose|at: int| 0 <= at < next.ring.len() && next.ring[at] == state.ring[slot];
        assert(emptied.ring.contains(next.ring[at]));
    }
}

proof fn lemma_republished_step(
    state: ShardState,
    key: Seq<char>,
    fragments: Seq<Fragment>,
    other: Seq<char>,
)
    requires
        state.accepts(key, fragments),
    ensures
        state.republished(key, fragments).follows(state),
        key != other ==> state.republished(key, fragments).leaves(state, other),
    decreases fragments.len(),
{
    if fragments.len() > 0 {
        let next = state.republished_first(key, fragments);
        let rest = fragments.drop_first();
        state.lemma_republish_step(key, fragments);
        if state.covered(key, fragments[0].range) {
            lemma_same_ring(next, state, other);
        } else {
            lemma_attached_step(state, key, fragments[0].range, fragments[0].bytes, other);
        }
        lemma_republished_step(next, key, rest, other);
        lemma_follows_chain(next.republished(key, rest), next, state);
        if key != other {
            lemma_leaves_chain(next.republished(key, rest), next, state, other);
        }
    } else {
        lemma_same_ring(state, state, other);
    }
}

/// A publication outdates every copy of its object.
proof fn lemma_compacted_outdates(
    target: Target,
    state: ShardState,
    slot: int,
    fragments: Seq<Fragment>,
)
    requires
        state.valid(),
        target.behind(state, 0),
        target.generation < u64::MAX,
        0 <= slot < state.ring.len(),
        state.ring[slot].key == target.key,
        crate::compaction::separated(ranges_of(fragments)),
        state.can_compact(slot, fragments),
        forall|i: int|
            0 <= i < fragments.len() ==> (#[trigger] fragments[i]).bytes.len()
                == fragments[i].range.len() && state.ring[slot].range.covers(fragments[i].range),
    ensures
        target.outdated(state.compacted(slot, fragments)),
{
    let emptied = state.detached(slot, true);
    state.lemma_accepts_fragments(slot, fragments);
    lemma_detached_behind(target, 0, state, slot, true);
    lemma_republished_behind(target, 1, emptied, target.key, fragments);
    assert(state.compacted(slot, fragments).ring == emptied.republished(
        target.key,
        fragments,
    ).ring);
}

/// Completing an admission touches its own object only.
proof fn lemma_admitted_step(
    state: ShardState,
    key: Seq<char>,
    range: Interval,
    bytes: Seq<u8>,
    requested: Option<Interval>,
    other: Seq<char>,
)
    requires
        state.valid(),
        state.covered(key, range) || state.last_id < u64::MAX,
    ensures
        state.admitted(key, range, bytes, requested).follows(state),
        key != other || (state.covered(key, range) && requested is None) ==> state.admitted(
            key,
            range,
            bytes,
            requested,
        ).leaves(state, other),
{
    let cleared = state.cleared(key, range);
    let next = if state.covered(key, range) {
        lemma_same_ring(state, state, other);
        state
    } else {
        state.lemma_cleared(key, range);
        lemma_cleared_step(state, key, range, other);
        lemma_attached_step(cleared, key, range, bytes, other);
        let next = cleared.attached(key, range, bytes);
        lemma_follows_chain(next, cleared, state);
        if key != other {
            lemma_leaves_chain(next, cleared, state, other);
        }
        next
    };
    let result = state.admitted(key, range, bytes, requested);
    lemma_same_ring(result, next, other);
    lemma_follows_chain(result, next, state);
    if key != other || (state.covered(key, range) && requested is None) {
        lemma_leaves_chain(result, next, state, other);
    }
}

/// A pressure decision either leaves an object alone, or gives one of its
/// extents up and outdates its copies.
proof fn lemma_relieved_step(target: Target, state: ShardState, key: Seq<char>, range: Interval)
    requires
        state.valid(),
        state.can_relieve(key, range),
        target.behind(state, 0),
        target.generation < u64::MAX,
    ensures
        state.relieved(key, range).follows(state),
        state.relieved(key, range).leaves(state, target.key) || (target.outdated(
            state.relieved(key, range),
        ) && state.relieved(key, range).lost(state, target.key)),
{
    let turned = state.rotated();
    state.lemma_rotated();
    lemma_same_ring(turned, state, target.key);
    if exists|slot: int| #[trigger] state.victim(slot, key, range) {
        let slot = choose|slot: int| #[trigger] state.victim(slot, key, range);
        state.lemma_victim(slot, key, range);
        assert(target.behind(turned, 0));
        if state.trims(slot) {
            let fragments = state.trimmed(slot);
            state.lemma_trimmed(slot);
            lemma_compacted_step(turned, slot, fragments, target.key);
            if state.ring[slot].key == target.key {
                lemma_compacted_outdates(target, turned, slot, fragments);
            }
        } else {
            lemma_evicted_step(target, state, slot, key);
        }
    }
}

/// An eviction either leaves an object alone, or gives one of its extents up and
/// outdates its copies.
proof fn lemma_evicted_step(target: Target, state: ShardState, slot: int, key: Seq<char>)
    requires
        state.valid(),
        0 <= slot < state.ring.len(),
        target.behind(state, 0),
        target.generation < u64::MAX,
    ensures
        state.rotated().evicted(slot, key).follows(state),
        state.ring[slot].key != target.key ==> state.rotated().evicted(slot, key).leaves(
            state,
            target.key,
        ),
        state.ring[slot].key == target.key ==> target.outdated(state.rotated().evicted(slot, key))
            && state.rotated().evicted(slot, key).lost(state, target.key),
{
    let turned = state.rotated();
    let preserve = state.ring[slot].key == key;
    let next = turned.detached(slot, preserve);
    state.lemma_rotated();
    assert(target.behind(turned, 0));
    lemma_detached_step(turned, slot, preserve, target.key);
    lemma_detached_behind(target, 0, turned, slot, preserve);
    assert(turned.evicted(slot, key).ring == next.ring);
    assert(turned.evicted(slot, key).objects == next.objects);
}

/// Pressure either leaves an object alone, or gives one of its extents up and
/// outdates its copies.
proof fn lemma_relieved_times_step(
    target: Target,
    state: ShardState,
    key: Seq<char>,
    range: Interval,
    count: nat,
)
    requires
        state.valid(),
        state.admissible(key, range),
        state.unsettled(key, range, count),
        target.behind(state, 0),
        target.generation < u64::MAX,
    ensures
        ({
            let result = state.relieved_times(key, range, count);
            &&& result.valid()
            &&& result.follows(state)
            &&& target.behind(result, 0)
            &&& result.leaves(state, target.key) || (target.outdated(result) && result.lost(
                state,
                target.key,
            ))
        }),
    decreases count,
{
    if count == 0 {
        lemma_same_ring(state, state, target.key);
    } else {
        let before = state.relieved_times(key, range, (count - 1) as nat);
        let after = before.relieved(key, range);
        assert(state.unsettled(key, range, (count - 1) as nat));
        lemma_relieved_times_step(target, state, key, range, (count - 1) as nat);
        before.lemma_relieved(key, range);
        lemma_relieved_step(target, before, key, range);
        lemma_relieved_behind(target, 0, before, key, range);
        lemma_follows_chain(after, before, state);
        if before.leaves(state, target.key) {
            if after.leaves(before, target.key) {
                lemma_leaves_chain(after, before, state, target.key);
            } else {
                lemma_lost_since(after, before, state, target.key);
            }
        } else {
            lemma_relieved_behind(target, 1, before, key, range);
            lemma_lost_stays(after, before, state, target.key);
        }
    }
}

/// One thing that a shard can be asked to do, with what it answered where that
/// matters for what comes next.
pub enum Operation {
    /// To look up a range.
    LookUp { key: Seq<char>, range: Interval },
    /// To record an access.
    Record { key: Seq<char>, range: Interval },
    /// To remove a range.
    Remove { key: Seq<char>, range: Interval },
    /// To cache a download, with its request if there is one.
    Insert { key: Seq<char>, range: Interval, bytes: Seq<u8>, requested: Option<Interval> },
    /// To take one step of caching a download.
    Step {
        key: Seq<char>,
        range: Interval,
        bytes: Seq<u8>,
        requested: Option<Interval>,
        allow_compaction: bool,
        step: AdmissionStep,
    },
    /// To publish a copy.
    Publish { prepared: PreparedCompaction },
}

impl Operation {
    /// Whether the operation takes a shard from `before` to `after`.
    pub open spec fn leads(self, before: ShardState, after: ShardState) -> bool {
        match self {
            Operation::LookUp { key, range } => after == before.looked_up(key, range),
            Operation::Record { key, range } => after == before.accessed(key, range),
            Operation::Remove { key, range } => after == if exists|slot: int| #[trigger]
                before.exact_at(slot, key, range) {
                before.removed(key, range)
            } else {
                before
            },
            Operation::Insert { key, range, bytes, requested } => {
                &&& range.valid()
                &&& bytes.len() == range.len()
                &&& populated(before, key, range, bytes, requested, after)
            },
            Operation::Step { key, range, bytes, requested, allow_compaction, step } => {
                &&& range.valid()
                &&& bytes.len() == range.len()
                &&& before.can_complete(key, range)
                &&& step is Complete <==> before.ready(key, range)
                &&& step is Complete ==> after == before.admitted(key, range, bytes, requested)
                &&& step !is Complete ==> pressure_outcome(
                    before,
                    key,
                    range,
                    allow_compaction,
                    step,
                    after,
                )
            },
            Operation::Publish { prepared } => {
                let target = prepared.target();
                &&& prepared.sound()
                &&& if exists|slot: int| #[trigger] target.current_at(before, slot) {
                    &&& before.can_compact(
                        before.slot_of(target.key, target.source),
                        prepared.fragments(),
                    )
                    &&& after == before.compacted(
                        before.slot_of(target.key, target.source),
                        prepared.fragments(),
                    )
                } else {
                    after == before
                }
            },
        }
    }

    /// Whether the operation, from `before` to `after`, is a recorded access, an
    /// insertion, a removal, an eviction or a compaction of the object `key`.
    pub open spec fn touches(self, before: ShardState, after: ShardState, key: Seq<char>) -> bool {
        match self {
            Operation::LookUp { key: object, range } => object == key && before.covered(
                object,
                range,
            ),
            Operation::Record { key: object, range } => object == key,
            Operation::Remove { key: object, range } => object == key && exists|slot: int|
                #[trigger] before.exact_at(slot, object, range),
            Operation::Insert { key: object, range, bytes, requested } => if object == key {
                !before.covered(object, range) || requested is Some
            } else {
                after.lost(before, key)
            },
            Operation::Step { key: object, range, bytes, requested, allow_compaction, step } => {
                if step is Complete {
                    object == key && (!before.covered(object, range) || requested is Some)
                } else {
                    after.lost(before, key)
                }
            },
            Operation::Publish { prepared } => prepared.target().key == key && exists|slot: int|
                #[trigger] prepared.target().current_at(before, slot),
        }
    }
}

/// What one operation does to an object and to its copies.
proof fn lemma_operation(
    operation: Operation,
    before: ShardState,
    after: ShardState,
    target: Target,
)
    requires
        before.valid(),
        operation.leads(before, after),
        target.behind(before, 0),
        target.generation < u64::MAX,
    ensures
        after.valid(),
        after.follows(before),
        operation.touches(before, after, target.key) ==> target.outdated(after),
        !operation.touches(before, after, target.key) ==> after.leaves(before, target.key),
{
    match operation {
        Operation::LookUp { key, range } => {
            before.lemma_looked_up(key, range);
            lemma_same_ring(after, before, target.key);
            lemma_accessed_behind(target, 0, before, key, range);
        },
        Operation::Record { key, range } => {
            before.lemma_accessed(key, range);
            lemma_same_ring(after, before, target.key);
            lemma_accessed_behind(target, 0, before, key, range);
        },
        Operation::Remove { key, range } => {
            lemma_removed_step(target, before, key, range, after);
        },
        Operation::Insert { key, range, bytes, requested } => {
            lemma_inserted_step(target, before, key, range, bytes, requested, after);
        },
        Operation::Step { key, range, bytes, requested, allow_compaction, step } => {
            if step is Complete {
                lemma_completed_step(target, before, key, range, bytes, requested);
            } else {
                lemma_pressed_step(target, before, key, range, allow_compaction, step, after);
            }
        },
        Operation::Publish { prepared } => {
            lemma_published_step(target, before, prepared, after);
        },
    }
}

proof fn lemma_removed_step(
    target: Target,
    before: ShardState,
    key: Seq<char>,
    range: Interval,
    after: ShardState,
)
    requires
        before.valid(),
        target.behind(before, 0),
        target.generation < u64::MAX,
        (Operation::Remove { key, range }).leads(before, after),
    ensures
        after.valid(),
        after.follows(before),
        (Operation::Remove { key, range }).touches(before, after, target.key) ==> target.outdated(
            after,
        ),
        !(Operation::Remove { key, range }).touches(before, after, target.key) ==> after.leaves(
            before,
            target.key,
        ),
{
    if exists|slot: int| #[trigger] before.exact_at(slot, key, range) {
        let slot = choose|slot: int| #[trigger] before.exact_at(slot, key, range);
        let next = before.detached(slot, false);
        removal_releases_the_extent_and_an_empty_object(before, key, range, slot);
        before.lemma_exact_unique(slot, key, range);
        lemma_detached_step(before, slot, false, target.key);
        lemma_detached_behind(target, 0, before, slot, false);
        assert(after.ring == next.ring && after.objects == next.objects);
    } else {
        lemma_same_ring(after, before, target.key);
    }
}

proof fn lemma_completed_step(
    target: Target,
    before: ShardState,
    key: Seq<char>,
    range: Interval,
    bytes: Seq<u8>,
    requested: Option<Interval>,
)
    requires
        before.valid(),
        range.valid(),
        bytes.len() == range.len(),
        before.covered(key, range) || before.last_id < u64::MAX,
        target.behind(before, 0),
        target.generation < u64::MAX,
    ensures
        ({
            let after = before.admitted(key, range, bytes, requested);
            let touched = key == target.key && (!before.covered(key, range) || requested is Some);
            &&& after.valid()
            &&& after.follows(before)
            &&& touched ==> target.outdated(after)
            &&& !touched ==> after.leaves(before, target.key)
        }),
{
    lemma_admitted(before, key, range, bytes, requested);
    lemma_admitted_step(before, key, range, bytes, requested, target.key);
    if key == target.key {
        if before.covered(key, range) {
            let counted = ShardState { metrics: before.metrics.found_redundant(), ..before };
            lemma_recounted(before, counted);
            assert(target.behind(counted, 0));
            if let Some(requested) = requested {
                lemma_accessed_behind(target, 0, counted, key, requested);
            }
        } else {
            lemma_admitted_outdates(target, before, bytes, range, requested);
        }
    }
}

/// Completing an admission of a further extent outdates every copy of its object.
proof fn lemma_admitted_outdates(
    target: Target,
    before: ShardState,
    bytes: Seq<u8>,
    range: Interval,
    requested: Option<Interval>,
)
    requires
        before.valid(),
        range.valid(),
        bytes.len() == range.len(),
        !before.covered(target.key, range),
        before.last_id < u64::MAX,
        target.behind(before, 0),
        target.generation < u64::MAX,
    ensures
        target.outdated(before.admitted(target.key, range, bytes, requested)),
{
    let key = target.key;
    let cleared = before.cleared(key, range);
    before.lemma_cleared(key, range);
    lemma_cleared_behind(target, 0, before, key, range);
    lemma_attached_behind(target, 0, cleared, key, range, bytes);
    cleared.lemma_attached(key, range, bytes);
    let attached = cleared.attached(key, range, bytes);
    let counted = before.admitted(key, range, bytes, None);
    lemma_recounted(attached, counted);
    assert(target.outdated(counted));
    if let Some(requested) = requested {
        lemma_accessed_behind(target, 1, counted, key, requested);
    }
}

proof fn lemma_pressed_step(
    target: Target,
    before: ShardState,
    key: Seq<char>,
    range: Interval,
    allow_compaction: bool,
    step: AdmissionStep,
    after: ShardState,
)
    requires
        before.valid(),
        target.behind(before, 0),
        target.generation < u64::MAX,
        pressure_outcome(before, key, range, allow_compaction, step, after),
    ensures
        after.valid(),
        after.follows(before),
        after.lost(before, target.key) ==> target.outdated(after),
        !after.lost(before, target.key) ==> after.leaves(before, target.key),
{
    before.lemma_rotated();
    lemma_same_ring(before.rotated(), before, target.key);
    if after != before.rotated() {
        let slot = choose|slot: int|
            {
                &&& #[trigger] before.victim(slot, key, range)
                &&& !(allow_compaction && before.trims(slot))
                &&& after == before.rotated().evicted(slot, key)
            };
        assert(before.eligible(slot, key, range));
        before.lemma_evicted(slot, key);
        lemma_evicted_step(target, before, slot, key);
    }
}

proof fn lemma_published_step(
    target: Target,
    before: ShardState,
    prepared: PreparedCompaction,
    after: ShardState,
)
    requires
        before.valid(),
        target.behind(before, 0),
        target.generation < u64::MAX,
        (Operation::Publish { prepared }).leads(before, after),
    ensures
        after.valid(),
        after.follows(before),
        (Operation::Publish { prepared }).touches(before, after, target.key) ==> target.outdated(
            after,
        ),
        !(Operation::Publish { prepared }).touches(before, after, target.key) ==> after.leaves(
            before,
            target.key,
        ),
{
    let own = prepared.target();
    if exists|slot: int| #[trigger] own.current_at(before, slot) {
        let slot = choose|slot: int| #[trigger] own.current_at(before, slot);
        let fragments = prepared.fragments();
        before.lemma_exact_unique(slot, own.key, own.source);
        assert(ranges_of(fragments) =~= prepared.kept());
        lemma_compacted_step(before, slot, fragments, target.key);
        if own.key == target.key {
            lemma_compacted_outdates(target, before, slot, fragments);
        }
    } else {
        lemma_same_ring(after, before, target.key);
    }
}

proof fn lemma_inserted_step(
    target: Target,
    before: ShardState,
    key: Seq<char>,
    range: Interval,
    bytes: Seq<u8>,
    requested: Option<Interval>,
    after: ShardState,
)
    requires
        before.valid(),
        target.behind(before, 0),
        target.generation < u64::MAX,
        range.valid(),
        bytes.len() == range.len(),
        populated(before, key, range, bytes, requested, after),
    ensures
        after.valid(),
        after.follows(before),
        ({
            let touched = if key == target.key {
                !before.covered(key, range) || requested is Some
            } else {
                after.lost(before, target.key)
            };
            &&& touched ==> target.outdated(after)
            &&& !touched ==> after.leaves(before, target.key)
        }),
{
    let count = choose|count: nat| #[trigger]
        settles(before, key, range, count) && after == before.relieved_times(
            key,
            range,
            count,
        ).admitted(key, range, bytes, requested);
    let state = before.relieved_times(key, range, count);
    population_keeps_shards_valid(before, key, range, bytes, requested, after);
    lemma_relieved_times_step(target, before, key, range, count);
    lemma_settled_covered(before, key, range, count);
    lemma_completed_step(target, state, key, range, bytes, requested);
    lemma_follows_chain(after, state, before);
    if key == target.key {
        if before.covered(key, range) {
            assert(before.relieved_times(key, range, 0) == before);
            if count > 0 {
                assert(!before.relieved_times(key, range, 0nat).ready(key, range));
            }
        } else {
            lemma_populated_behind(target, 0, before, key, range, bytes, requested, after);
        }
    } else if state.leaves(before, target.key) {
        lemma_leaves_chain(after, state, before, target.key);
    } else {
        lemma_lost_stays(after, state, before, target.key);
        lemma_populated_outdated(target, state, key, range, bytes, requested);
    }
}

/// Completing an admission brings no outdated copy back.
proof fn lemma_populated_outdated(
    target: Target,
    state: ShardState,
    key: Seq<char>,
    range: Interval,
    bytes: Seq<u8>,
    requested: Option<Interval>,
)
    requires
        state.valid(),
        range.valid(),
        bytes.len() == range.len(),
        state.covered(key, range) || state.last_id < u64::MAX,
        target.outdated(state),
        key != target.key,
    ensures
        target.outdated(state.admitted(key, range, bytes, requested)),
{
    let after = state.admitted(key, range, bytes, requested);
    lemma_admitted_step(state, key, range, bytes, requested, target.key);
    assert forall|at: int|
        0 <= at < after.ring.len() && (#[trigger] after.ring[at]).id == target.id implies {
        &&& after.ring[at].key == target.key
        &&& after.objects[target.key].generation >= target.generation + 1
    } by {
        assert(state.ring.contains(after.ring[at]));
        let from = choose|from: int| 0 <= from < state.ring.len() && state.ring[from]
            == after.ring[at];
        assert(state.objects.contains_key(state.ring[from].key));
    }
}

/// No operation brings an outdated copy back.
proof fn lemma_operation_outdated(
    operation: Operation,
    before: ShardState,
    after: ShardState,
    target: Target,
)
    requires
        before.valid(),
        operation.leads(before, after),
        target.outdated(before),
        target.generation < u64::MAX,
    ensures
        after.valid(),
        after.follows(before),
        target.outdated(after),
{
    assert(target.behind(before, 0));
    lemma_operation(operation, before, after, target);
    if !operation.touches(before, after, target.key) {
        assert forall|at: int|
            0 <= at < after.ring.len() && (#[trigger] after.ring[at]).id == target.id implies {
            &&& after.ring[at].key == target.key
            &&& after.objects[target.key].generation >= target.generation + 1
        } by {
            assert(before.ring.contains(after.ring[at]));
            let from = choose|from: int| 0 <= from < before.ring.len() && before.ring[from]
                == after.ring[at];
            assert(before.objects.contains_key(before.ring[from].key));
        }
    }
}

/// A target is not behind a shard that left its object alone.
proof fn lemma_left_behind(first: ShardState, slot: int, later: ShardState)
    requires
        first.valid(),
        0 <= slot < first.ring.len(),
        later.follows(first),
        later.leaves(first, first.ring[slot].key),
    ensures
        Target::at(first, slot).behind(later, 0),
{
    let target = Target::at(first, slot);
    assert(first.ring[slot].id <= first.last_id);
    assert(first.objects.contains_key(first.ring[slot].key));
    assert forall|at: int|
        0 <= at < later.ring.len() && (#[trigger] later.ring[at]).id == target.id implies {
        &&& later.ring[at].key == target.key
        &&& later.objects[target.key].generation >= target.generation
    } by {
        assert(first.ring.contains(later.ring[at]));
    }
}

/// A copy is published exactly if nothing touched its object since it was
/// planned, whatever else the shard did meanwhile: no access of the object was
/// recorded, and none of its extents came, went or was compacted. The extent to
/// be replaced is then the very one that was planned for.
pub proof fn copies_are_published_iff_untouched(
    states: Seq<ShardState>,
    operations: Seq<Operation>,
    slot: int,
)
    requires
        states.len() == operations.len() + 1,
        states[0].valid(),
        0 <= slot < states[0].ring.len(),
        states[0].objects[states[0].ring[slot].key].generation < u64::MAX,
        forall|i: int|
            0 <= i < operations.len() ==> (#[trigger] operations[i]).leads(states[i], states[i + 1]),
    ensures
        ({
            let target = Target::at(states[0], slot);
            let last = states.last();
            &&& last.valid()
            &&& (exists|at: int| #[trigger] target.current_at(last, at)) <==> forall|i: int|
                0 <= i < operations.len() ==> !(#[trigger] operations[i]).touches(
                    states[i],
                    states[i + 1],
                    target.key,
                )
            &&& forall|at: int| #[trigger]
                target.current_at(last, at) ==> last.ring[at] == states[0].ring[slot]
                    && last.objects[target.key] == states[0].objects[target.key]
        }),
{
    let target = Target::at(states[0], slot);
    let last = states.last();
    let untouched = forall|i: int|
        0 <= i < operations.len() ==> !(#[trigger] operations[i]).touches(
            states[i],
            states[i + 1],
            target.key,
        );
    lemma_trace(states, operations, slot);
    if untouched {
        assert(last.ring.contains(states[0].ring[slot]));
        let at = choose|at: int| 0 <= at < last.ring.len() && last.ring[at]
            == states[0].ring[slot];
        assert(target.current_at(last, at));
    } else {
        outdated_copies_are_rejected(target, last);
    }
    assert forall|at: int| #[trigger] target.current_at(last, at) implies last.ring[at]
        == states[0].ring[slot] by {
        assert(states[0].ring[slot].id <= states[0].last_id);
        assert(states[0].ring.contains(last.ring[at]));
    }
}

proof fn lemma_trace(states: Seq<ShardState>, operations: Seq<Operation>, slot: int)
    requires
        states.len() == operations.len() + 1,
        states[0].valid(),
        0 <= slot < states[0].ring.len(),
        states[0].objects[states[0].ring[slot].key].generation < u64::MAX,
        forall|i: int|
            0 <= i < operations.len() ==> (#[trigger] operations[i]).leads(states[i], states[i + 1]),
    ensures
        ({
            let target = Target::at(states[0], slot);
            let last = states.last();
            let untouched = forall|i: int|
                0 <= i < operations.len() ==> !(#[trigger] operations[i]).touches(
                    states[i],
                    states[i + 1],
                    target.key,
                );
            &&& last.valid()
            &&& last.follows(states[0])
            &&& untouched ==> last.leaves(states[0], target.key)
            &&& !untouched ==> target.outdated(last)
        }),
    decreases operations.len(),
{
    let target = Target::at(states[0], slot);
    assert(states[0].objects.contains_key(states[0].ring[slot].key));
    lemma_taken(states[0], slot);
    if operations.len() == 0 {
        lemma_same_ring(states[0], states[0], target.key);
    } else {
        let earlier = operations.drop_last();
        let visited = states.drop_last();
        let operation = operations.last();
        let before = visited.last();
        let after = states.last();
        assert forall|i: int| 0 <= i < earlier.len() implies (#[trigger] earlier[i]).leads(
            visited[i],
            visited[i + 1],
        ) by {
            assert(operations[i].leads(states[i], states[i + 1]));
        }
        lemma_trace(visited, earlier, slot);
        assert(operations[earlier.len() as int].leads(before, after));
        let untouched = forall|i: int|
            0 <= i < earlier.len() ==> !(#[trigger] earlier[i]).touches(
                visited[i],
                visited[i + 1],
                target.key,
            );
        if untouched {
            assert(target.behind(before, 0)) by {
                lemma_left_behind(states[0], slot, before);
            }
            lemma_operation(operation, before, after, target);
            lemma_follows_chain(after, before, states[0]);
            if operation.touches(before, after, target.key) {
                let last = earlier.len() as int;
                assert(operations[last].touches(states[last], states[last + 1], target.key));
            } else {
                lemma_leaves_chain(after, before, states[0], target.key);
            }
            assert forall|i: int|
                0 <= i < earlier.len() implies !(#[trigger] operations[i]).touches(
                states[i],
                states[i + 1],
                target.key,
            ) by {
                assert(!earlier[i].touches(visited[i], visited[i + 1], target.key));
            }
        } else {
            let i = choose|i: int|
                0 <= i < earlier.len() && (#[trigger] earlier[i]).touches(
                    visited[i],
                    visited[i + 1],
                    target.key,
                );
            assert(operations[i].touches(states[i], states[i + 1], target.key));
            lemma_operation_outdated(operation, before, after, target);
            lemma_follows_chain(after, before, states[0]);
        }
    }
}

} // verus!

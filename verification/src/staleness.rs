//! Compaction copies and what happens to their objects meanwhile.
//!
//! A copy is made while its shard can change. Whatever touches the object in
//! between outdates the copy, and an outdated copy is never published.

use vstd::prelude::*;

use crate::compaction_work::Target;
use crate::range::Interval;
use crate::shard::{populated, settles};
use crate::shard_lemmas::{lemma_payload_bounds, lemma_vacated, ranges_of};
use crate::shard_state::{held, Fragment, ShardState};

verus! {

impl Target {
    /// Whether the target's extent is gone, or its object is at least `by`
    /// generations further.
    pub open spec fn behind(self, state: ShardState, by: int) -> bool {
        &&& self.id <= state.last_id
        &&& forall|slot: int|
            0 <= slot < state.ring.len() && (#[trigger] state.ring[slot]).id == self.id ==> {
                &&& state.ring[slot].key == self.key
                &&& state.objects[self.key].generation >= self.generation + by
            }
    }

    /// Whether the target's extent is gone, or its object has changed since.
    pub open spec fn outdated(self, state: ShardState) -> bool {
        self.behind(state, 1)
    }
}

/// A target is not behind the state that it was taken from.
pub proof fn lemma_taken(state: ShardState, slot: int)
    requires
        state.valid(),
        0 <= slot < state.ring.len(),
    ensures
        Target::at(state, slot).behind(state, 0),
{
    let target = Target::at(state, slot);
    assert(state.ring[slot].id <= state.last_id);
    assert forall|other: int|
        0 <= other < state.ring.len() && (#[trigger] state.ring[other]).id == target.id implies {
        &&& state.ring[other].key == target.key
        &&& state.objects[target.key].generation >= target.generation
    } by {
        assert(state.ring[slot].id == target.id);
    }
}

/// Giving an extent up brings no target back, and its object's targets fall behind.
pub proof fn lemma_detached_behind(
    target: Target,
    by: int,
    state: ShardState,
    slot: int,
    preserve: bool,
)
    requires
        state.valid(),
        target.behind(state, by),
        0 <= slot < state.ring.len(),
    ensures
        target.behind(state.detached(slot, preserve), by),
        by == 0 && state.ring[slot].key == target.key && target.generation < u64::MAX
            ==> target.outdated(state.detached(slot, preserve)),
{
    let next = state.detached(slot, preserve);
    lemma_vacated(state.ring, slot);
    assert forall|at: int|
        0 <= at < next.ring.len() && (#[trigger] next.ring[at]).id == target.id implies {
        &&& next.ring[at].key == target.key
        &&& next.objects[target.key].generation >= target.generation + by
        &&& by == 0 && state.ring[slot].key == target.key && target.generation < u64::MAX
            ==> next.objects[target.key].generation >= target.generation + 1
    } by {
        let from = if at == slot {
            state.ring.len() - 1
        } else {
            at
        };
        assert(next.ring[at] == state.ring[from]);
        assert(held(next.ring, target.key));
    }
}

/// A further extent brings no target back, and its object's targets fall behind.
pub proof fn lemma_attached_behind(
    target: Target,
    by: int,
    state: ShardState,
    key: Seq<char>,
    range: Interval,
    bytes: Seq<u8>,
)
    requires
        state.valid(),
        target.behind(state, by),
        state.last_id < u64::MAX,
    ensures
        target.behind(state.attached(key, range, bytes), by),
        by == 0 && key == target.key && target.generation < u64::MAX ==> target.outdated(
            state.attached(key, range, bytes),
        ),
{
    let next = state.attached(key, range, bytes);
    assert forall|at: int|
        0 <= at < next.ring.len() && (#[trigger] next.ring[at]).id == target.id implies {
        &&& next.ring[at].key == target.key
        &&& next.objects[target.key].generation >= target.generation + by
        &&& by == 0 && key == target.key && target.generation < u64::MAX
            ==> next.objects[target.key].generation >= target.generation + 1
    } by {
        assert(at < state.ring.len());
        assert(next.ring[at] == state.ring[at]);
        assert(state.objects.contains_key(state.ring[at].key));
    }
}

/// An access brings no target back, and its object's targets fall behind.
pub proof fn lemma_accessed_behind(
    target: Target,
    by: int,
    state: ShardState,
    key: Seq<char>,
    requested: Interval,
)
    requires
        state.valid(),
        target.behind(state, by),
    ensures
        target.behind(state.accessed(key, requested), by),
        by == 0 && key == target.key && target.generation < u64::MAX ==> target.outdated(
            state.accessed(key, requested),
        ),
{
    let next = state.accessed(key, requested);
    assert(next.ring == state.ring);
    assert forall|at: int|
        0 <= at < next.ring.len() && (#[trigger] next.ring[at]).id == target.id implies {
        &&& next.ring[at].key == target.key
        &&& next.objects[target.key].generation >= target.generation + by
        &&& by == 0 && key == target.key && target.generation < u64::MAX
            ==> next.objects[target.key].generation >= target.generation + 1
    } by {
        assert(next.ring[at] == state.ring[at]);
        assert(state.objects.contains_key(state.ring[at].key));
    }
}

pub proof fn lemma_cleared_behind(
    target: Target,
    by: int,
    state: ShardState,
    key: Seq<char>,
    range: Interval,
)
    requires
        state.valid(),
        target.behind(state, by),
    ensures
        target.behind(state.cleared(key, range), by),
    decreases state.ring.len(),
{
    if exists|slot: int| #[trigger] state.first_superseded(slot, key, range) {
        let slot = choose|slot: int| #[trigger] state.first_superseded(slot, key, range);
        state.lemma_detached(slot, true);
        lemma_vacated(state.ring, slot);
        lemma_detached_behind(target, by, state, slot, true);
        lemma_cleared_behind(target, by, state.detached(slot, true), key, range);
    }
}

pub proof fn lemma_republished_behind(
    target: Target,
    by: int,
    state: ShardState,
    key: Seq<char>,
    fragments: Seq<Fragment>,
)
    requires
        state.accepts(key, fragments),
        target.behind(state, by),
    ensures
        target.behind(state.republished(key, fragments), by),
    decreases fragments.len(),
{
    if fragments.len() > 0 {
        state.lemma_republish_step(key, fragments);
        if !state.covered(key, fragments[0].range) {
            lemma_attached_behind(
                target,
                by,
                state,
                key,
                fragments[0].range,
                fragments[0].bytes,
            );
        }
        lemma_republished_behind(
            target,
            by,
            state.republished_first(key, fragments),
            key,
            fragments.drop_first(),
        );
    }
}

proof fn lemma_compacted_behind(
    target: Target,
    by: int,
    state: ShardState,
    slot: int,
    fragments: Seq<Fragment>,
)
    requires
        state.valid(),
        target.behind(state, by),
        0 <= slot < state.ring.len(),
        crate::compaction::separated(ranges_of(fragments)),
        state.can_compact(slot, fragments),
        forall|i: int|
            0 <= i < fragments.len() ==> (#[trigger] fragments[i]).bytes.len()
                == fragments[i].range.len() && state.ring[slot].range.covers(fragments[i].range),
    ensures
        target.behind(state.compacted(slot, fragments), by),
{
    let key = state.ring[slot].key;
    let emptied = state.detached(slot, true);
    let next = emptied.republished(key, fragments);
    state.lemma_accepts_fragments(slot, fragments);
    lemma_detached_behind(target, by, state, slot, true);
    lemma_republished_behind(target, by, emptied, key, fragments);
    assert(state.compacted(slot, fragments).ring == next.ring);
}

pub proof fn lemma_relieved_behind(
    target: Target,
    by: int,
    state: ShardState,
    key: Seq<char>,
    range: Interval,
)
    requires
        state.valid(),
        target.behind(state, by),
        state.can_relieve(key, range),
    ensures
        target.behind(state.relieved(key, range), by),
{
    let turned = state.rotated();
    state.lemma_rotated();
    assert(target.behind(turned, by));
    if exists|slot: int| #[trigger] state.victim(slot, key, range) {
        let slot = choose|slot: int| #[trigger] state.victim(slot, key, range);
        state.lemma_victim(slot, key, range);
        lemma_payload_bounds(state.ring);
        assert(state.ring[slot].range.len() <= state.used());
        if state.trims(slot) {
            state.lemma_trimmed(slot);
            lemma_compacted_behind(target, by, turned, slot, state.trimmed(slot));
        } else {
            let preserve = state.ring[slot].key == key;
            lemma_detached_behind(target, by, turned, slot, preserve);
            assert(turned.evicted(slot, key).ring == turned.detached(slot, preserve).ring);
        }
    }
}

proof fn lemma_relieved_times_behind(
    target: Target,
    by: int,
    state: ShardState,
    key: Seq<char>,
    range: Interval,
    count: nat,
)
    requires
        state.valid(),
        target.behind(state, by),
        state.admissible(key, range),
        state.unsettled(key, range, count),
    ensures
        target.behind(state.relieved_times(key, range, count), by),
        state.relieved_times(key, range, count).valid(),
    decreases count,
{
    if count > 0 {
        let before = state.relieved_times(key, range, (count - 1) as nat);
        assert(state.unsettled(key, range, (count - 1) as nat));
        lemma_relieved_times_behind(target, by, state, key, range, (count - 1) as nat);
        before.lemma_relieved(key, range);
        lemma_relieved_behind(target, by, before, key, range);
    }
}

pub proof fn lemma_populated_behind(
    target: Target,
    by: int,
    before: ShardState,
    key: Seq<char>,
    range: Interval,
    bytes: Seq<u8>,
    requested: Option<Interval>,
    after: ShardState,
)
    requires
        before.valid(),
        range.valid(),
        bytes.len() == range.len(),
        populated(before, key, range, bytes, requested, after),
        target.behind(before, by),
    ensures
        target.behind(after, by),
        by == 0 && key == target.key && target.generation < u64::MAX && !before.covered(key, range)
            ==> target.outdated(after),
{
    let count = choose|count: nat| #[trigger] settles(before, key, range, count) && after
        == before.relieved_times(key, range, count).admitted(key, range, bytes, requested);
    let state = before.relieved_times(key, range, count);
    lemma_relieved_times_behind(target, by, before, key, range, count);
    lemma_payload_bounds(state.ring);
    if state.covered(key, range) {
        let counted = ShardState { metrics: state.metrics.found_redundant(), ..state };
        assert(target.behind(counted, by));
        if let Some(requested) = requested {
            lemma_accessed_behind(target, by, counted, key, requested);
        }
        if !before.covered(key, range) {
            crate::laws::lemma_settled_covered(before, key, range, count);
        }
    } else {
        let cleared = state.cleared(key, range);
        state.lemma_cleared(key, range);
        lemma_cleared_behind(target, by, state, key, range);
        lemma_attached_behind(target, by, cleared, key, range, bytes);
        cleared.lemma_attached(key, range, bytes);
        let attached = cleared.attached(key, range, bytes);
        let released = state.admitted(key, range, bytes, None);
        assert(released.ring == attached.ring && released.objects == attached.objects);
        let further = if by == 0 && key == target.key && target.generation < u64::MAX {
            1int
        } else {
            by
        };
        assert(target.behind(released, further));
        if let Some(requested) = requested {
            lemma_accessed_behind(target, further, released, key, requested);
        }
    }
}

/// Whatever touches an object outdates every copy that was planned before: a
/// hit, any recorded access, the removal of any of its extents, and the
/// admission of a further one.
pub proof fn touching_an_object_outdates_its_copies(
    state: ShardState,
    slot: int,
    range: Interval,
    bytes: Seq<u8>,
    requested: Option<Interval>,
    after: ShardState,
)
    requires
        state.valid(),
        0 <= slot < state.ring.len(),
        state.objects[state.ring[slot].key].generation < u64::MAX,
    ensures
        state.covered(state.ring[slot].key, range) ==> Target::at(state, slot).outdated(
            state.looked_up(state.ring[slot].key, range),
        ),
        Target::at(state, slot).outdated(state.accessed(state.ring[slot].key, range)),
        (exists|at: int| #[trigger] state.exact_at(at, state.ring[slot].key, range))
            ==> Target::at(state, slot).outdated(state.removed(state.ring[slot].key, range)),
        range.valid() && bytes.len() == range.len()
            && !state.covered(state.ring[slot].key, range) && populated(
            state,
            state.ring[slot].key,
            range,
            bytes,
            requested,
            after,
        ) ==> Target::at(state, slot).outdated(after),
{
    let key = state.ring[slot].key;
    let target = Target::at(state, slot);
    lemma_taken(state, slot);
    lemma_accessed_behind(target, 0, state, key, range);
    if state.covered(key, range) {
        assert(state.looked_up(key, range).ring == state.accessed(key, range).ring);
    }
    if exists|at: int| #[trigger] state.exact_at(at, key, range) {
        let at = choose|at: int| #[trigger] state.exact_at(at, key, range);
        state.lemma_exact_unique(at, key, range);
        lemma_detached_behind(target, 0, state, at, false);
        assert(state.removed(key, range).ring == state.detached(at, false).ring);
    }
    if range.valid() && bytes.len() == range.len()
        && !state.covered(key, range) && populated(state, key, range, bytes, requested, after) {
        lemma_populated_behind(target, 0, state, key, range, bytes, requested, after);
    }
}

/// A copy that is outdated stays so, whatever comes next: a lookup, a recorded
/// access, a removal, or the admission of any download.
pub proof fn outdated_copies_stay_outdated(
    target: Target,
    state: ShardState,
    key: Seq<char>,
    range: Interval,
    bytes: Seq<u8>,
    requested: Option<Interval>,
    after: ShardState,
)
    requires
        state.valid(),
        target.outdated(state),
    ensures
        target.outdated(state.looked_up(key, range)),
        target.outdated(state.accessed(key, range)),
        (exists|at: int| #[trigger] state.exact_at(at, key, range)) ==> target.outdated(
            state.removed(key, range),
        ),
        range.valid() && bytes.len() == range.len()
            && populated(state, key, range, bytes, requested, after) ==> target.outdated(after),
{
    lemma_accessed_behind(target, 1, state, key, range);
    if state.covered(key, range) {
        assert(state.looked_up(key, range).ring == state.accessed(key, range).ring);
    }
    if exists|at: int| #[trigger] state.exact_at(at, key, range) {
        let at = choose|at: int| #[trigger] state.exact_at(at, key, range);
        state.lemma_exact_unique(at, key, range);
        lemma_detached_behind(target, 1, state, at, false);
        assert(state.removed(key, range).ring == state.detached(at, false).ring);
    }
    if range.valid() && bytes.len() == range.len()
        && populated(state, key, range, bytes, requested, after) {
        lemma_populated_behind(target, 1, state, key, range, bytes, requested, after);
    }
}

/// An outdated copy is never published.
pub proof fn outdated_copies_are_rejected(target: Target, state: ShardState)
    requires
        target.outdated(state),
    ensures
        forall|slot: int| !#[trigger] target.current_at(state, slot),
{
}

} // verus!

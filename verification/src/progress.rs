//! How admissions come to their end.

use vstd::prelude::*;

use crate::admission_lemmas::bystander;
use crate::range::Interval;
use crate::retention::{eligible_samples_have_a_victim, victim_is_unique};
use crate::shard::{pressure_outcome, AdmissionStep};
use crate::shard_lemmas::lemma_payload_bounds;
use crate::shard_state::ShardState;

verus! {

/// Once an admission may no longer trim, each of its steps that does not
/// complete evicts one whole victim, or turns to the next sample.
pub proof fn barred_steps_only_evict(
    before: ShardState,
    key: Seq<char>,
    range: Interval,
    step: AdmissionStep,
    after: ShardState,
)
    requires
        before.valid(),
        pressure_outcome(before, key, range, false, step, after),
    ensures
        step is Retry,
        after == before.pressed(key, range),
        after.valid(),
        after.last_id == before.last_id,
        0 <= after.used() <= before.used(),
{
    before.lemma_rotated();
    lemma_payload_bounds(before.ring);
    if exists|slot: int| #[trigger] before.victim(slot, key, range) {
        let slot = choose|slot: int| #[trigger] before.victim(slot, key, range);
        assert(before.eligible(slot, key, range));
        let evicted = choose|slot: int|
            {
                &&& #[trigger] before.victim(slot, key, range)
                &&& after == before.rotated().evicted(slot, key)
            };
        victim_is_unique(before, key, range, slot, evicted);
        before.lemma_evicted(slot, key);
    }
}

/// An admission that may no longer trim completes after finitely many of its
/// steps, so refused copies cannot starve it.
pub proof fn barred_admissions_complete(state: ShardState, key: Seq<char>, range: Interval)
    requires
        state.valid(),
    ensures
        exists|count: nat|
            (#[trigger] state.pressed_times(key, range, count)).ready(key, range),
    decreases
        state.used(),
        if state.ready(key, range) {
            0int
        } else {
            1 + state.distance(bystander(state.ring, key, range))
        },
{
    if state.ready(key, range) {
        assert(state.pressed_times(key, range, 0) == state);
    } else {
        let next = state.pressed(key, range);
        state.lemma_rotated();
        lemma_payload_bounds(state.ring);
        state.lemma_bystander(key, range);
        eligible_samples_have_a_victim(state, key, range);
        if exists|slot: int| #[trigger] state.victim(slot, key, range) {
            let slot = choose|slot: int| #[trigger] state.victim(slot, key, range);
            state.lemma_evicted(slot, key);
        } else {
            state.lemma_rotation_progress(key, range);
            assert(next.ring == state.ring);
        }
        barred_admissions_complete(next, key, range);
        let count = choose|count: nat|
            (#[trigger] next.pressed_times(key, range, count)).ready(key, range);
        assert(state.pressed_times(key, range, count + 1) == next.pressed_times(key, range, count));
    }
}

} // verus!

//! How pressure decisions make room for an admission.

use vstd::prelude::*;

use crate::compaction::{grouping, lemma_grouping, total_len};
use crate::range::Interval;
use crate::ranges::part;
use crate::retention::victim_is_unique;
use crate::shard_lemmas::{lemma_payload_bounds, lemma_vacated, ranges_of};
use crate::shard_state::{vacated, Extent, Fragment, ShardState, POLICY_SAMPLE_SIZE};

verus! {

/// Some slot of `ring` that admitting `range` of `key` does not supersede.
pub open spec fn bystander(ring: Seq<Extent>, key: Seq<char>, range: Interval) -> int {
    choose|slot: int|
        0 <= slot < ring.len() && !((#[trigger] ring[slot]).key == key && range.covers(
            ring[slot].range,
        ))
}

impl ShardState {
    /// The identities used so far, and what pressure could use up at most.
    pub open spec fn headroom_used(self) -> int {
        self.last_id + 3 * self.used()
    }

    /// No more extents are attached than there are fragments.
    pub proof fn lemma_attachments(self, key: Seq<char>, fragments: Seq<Fragment>)
        ensures
            self.attachments(key, fragments) <= fragments.len(),
        decreases fragments.len(),
    {
        if fragments.len() > 0 {
            let rest = fragments.drop_first();
            self.lemma_attachments(key, rest);
            self.attached(key, fragments[0].range, fragments[0].bytes).lemma_attachments(key, rest);
        }
    }

    /// How many of `fragments` of `key` no extent covers.
    pub open spec fn uncovered(self, key: Seq<char>, fragments: Seq<Fragment>) -> nat
        decreases fragments.len(),
    {
        if fragments.len() == 0 {
            0
        } else {
            let rest = self.uncovered(key, fragments.drop_first());
            if self.covered(key, fragments[0].range) {
                rest
            } else {
                1 + rest
            }
        }
    }

    /// Shards that cover the same fragments leave as many of them uncovered.
    proof fn lemma_uncovered_alike(
        self,
        other: ShardState,
        key: Seq<char>,
        fragments: Seq<Fragment>,
    )
        requires
            forall|i: int|
                0 <= i < fragments.len() ==> self.covered(key, (#[trigger] fragments[i]).range)
                    == other.covered(key, fragments[i].range),
        ensures
            self.uncovered(key, fragments) == other.uncovered(key, fragments),
        decreases fragments.len(),
    {
        if fragments.len() > 0 {
            let rest = fragments.drop_first();
            assert forall|i: int| 0 <= i < rest.len() implies self.covered(
                key,
                (#[trigger] rest[i]).range,
            ) == other.covered(key, rest[i].range) by {
                assert(rest[i] == fragments[i + 1]);
            }
            self.lemma_uncovered_alike(other, key, rest);
            assert(self.covered(key, fragments[0].range) == other.covered(
                key,
                fragments[0].range,
            ));
        }
    }

    /// Separated fragments do not cover each other, so those are attached that no
    /// extent covers to begin with.
    pub proof fn lemma_attachments_uncovered(self, key: Seq<char>, fragments: Seq<Fragment>)
        requires
            crate::compaction::separated(ranges_of(fragments)),
        ensures
            self.attachments(key, fragments) == self.uncovered(key, fragments),
        decreases fragments.len(),
    {
        if fragments.len() > 0 {
            let rest = fragments.drop_first();
            let ranges = ranges_of(fragments);
            let next = self.attached(key, fragments[0].range, fragments[0].bytes);
            assert(ranges_of(rest) =~= ranges.drop_first());
            assert(crate::compaction::separated(ranges_of(rest))) by {
                assert forall|i: int| 0 <= i < ranges_of(rest).len() implies (
                #[trigger] ranges_of(rest)[i]).valid() by {
                    assert(ranges_of(rest)[i] == ranges[i + 1]);
                }
                assert forall|i: int, j: int| 0 <= i < j < ranges_of(rest).len() implies (
                #[trigger] ranges_of(rest)[i]).end < (#[trigger] ranges_of(rest)[j]).start by {
                    assert(ranges[i + 1].end < ranges[j + 1].start);
                }
            }
            self.lemma_attachments_uncovered(key, rest);
            next.lemma_attachments_uncovered(key, rest);
            assert forall|i: int| 0 <= i < rest.len() implies next.covered(
                key,
                (#[trigger] rest[i]).range,
            ) == self.covered(key, rest[i].range) by {
                let range = rest[i].range;
                assert(range == ranges[i + 1]);
                assert(ranges[0].end < ranges[i + 1].start);
                assert(ranges[i + 1].valid());
                if self.covered(key, range) {
                    let at = choose|at: int| #[trigger] self.covers_at(at, key, range);
                    assert(next.covers_at(at, key, range));
                }
                if next.covered(key, range) {
                    let at = choose|at: int| #[trigger] next.covers_at(at, key, range);
                    assert(at < self.ring.len());
                    assert(self.covers_at(at, key, range));
                }
            }
            next.lemma_uncovered_alike(self, key, rest);
        }
    }

    /// While headroom is left, identities are left for one pressure decision.
    pub proof fn lemma_headroom_relieves(self, key: Seq<char>, range: Interval)
        requires
            self.valid(),
            self.headroom_used() <= u64::MAX,
        ensures
            self.can_relieve(key, range),
    {
        lemma_payload_bounds(self.ring);
        assert forall|slot: int| #[trigger]
            self.victim(slot, key, range) && self.trims(slot) implies self.rotated().can_compact(
            slot,
            self.trimmed(slot),
        ) by {
            self.lemma_victim(slot, key, range);
            self.lemma_trimmed(slot);
            assert(self.ring[slot].valid());
            self.rotated().detached(slot, true).lemma_attachments(
                self.ring[slot].key,
                self.trimmed(slot),
            );
        }
    }

    /// While headroom is left, identities are left for every admission.
    pub proof fn lemma_headroom_admits(self, key: Seq<char>, range: Interval)
        requires
            self.valid(),
            self.headroom_used() < u64::MAX,
        ensures
            self.admissible(key, range),
    {
        assert forall|count: nat| #[trigger]
            self.unsettled(key, range, count) implies self.relieved_times(
            key,
            range,
            count,
        ).can_step(key, range) by {
            let state = self.relieved_times(key, range, count);
            self.lemma_headroom_stays(key, range, count);
            lemma_payload_bounds(state.ring);
            state.lemma_headroom_relieves(key, range);
        }
    }

    proof fn lemma_headroom_stays(self, key: Seq<char>, range: Interval, count: nat)
        requires
            self.valid(),
            self.headroom_used() < u64::MAX,
        ensures
            self.relieved_times(key, range, count).valid(),
            self.relieved_times(key, range, count).headroom_used() < u64::MAX,
        decreases count,
    {
        if count > 0 {
            let state = self.relieved_times(key, range, (count - 1) as nat);
            self.lemma_headroom_stays(key, range, (count - 1) as nat);
            state.lemma_headroom_relieves(key, range);
            state.lemma_relieved(key, range);
        }
    }

    /// An admission that is not ready has an extent beside what it supersedes.
    pub proof fn lemma_bystander(self, key: Seq<char>, range: Interval)
        requires
            self.valid(),
            !self.ready(key, range),
        ensures
            0 <= bystander(self.ring, key, range) < self.ring.len(),
            !self.superseded(bystander(self.ring, key, range), key, range),
    {
        let cleared = self.cleared(key, range);
        self.lemma_cleared(key, range);
        lemma_payload_bounds(cleared.ring);
        if cleared.ring.len() == 0 {
            assert(cleared.used() == 0);
        }
        let kept = cleared.ring[0];
        assert(self.ring.contains(kept));
        let slot = choose|slot: int| 0 <= slot < self.ring.len() && self.ring[slot] == kept;
        assert(!cleared.superseded(0, key, range));
        assert(!(self.ring[slot].key == key && range.covers(self.ring[slot].range)));
    }

    /// A sample without a victim brings the cursor closer to such an extent.
    pub proof fn lemma_rotation_progress(self, key: Seq<char>, range: Interval)
        requires
            self.valid(),
            !self.ready(key, range),
            forall|slot: int| !#[trigger] self.eligible(slot, key, range),
        ensures
            0 <= self.rotated().distance(bystander(self.ring, key, range)) < self.distance(
                bystander(self.ring, key, range),
            ),
    {
        let slot = bystander(self.ring, key, range);
        self.lemma_bystander(key, range);
        assert(!self.eligible(slot, key, range));
        let len = self.ring.len() as int;
        let moved = self.cursor + POLICY_SAMPLE_SIZE;
        if moved < len {
            vstd::arithmetic::div_mod::lemma_small_mod(moved as nat, len as nat);
        } else {
            vstd::arithmetic::div_mod::lemma_fundamental_div_mod_converse(
                moved,
                len,
                1,
                moved - len,
            );
        }
    }

    /// A victim exists exactly if the sample holds something to give up.
    pub proof fn lemma_no_victim(self, key: Seq<char>, range: Interval)
        requires
            forall|slot: int| !#[trigger] self.eligible(slot, key, range),
        ensures
            self.relieved(key, range) == self.rotated(),
    {
        if exists|slot: int| #[trigger] self.victim(slot, key, range) {
            let slot = choose|slot: int| #[trigger] self.victim(slot, key, range);
            assert(self.eligible(slot, key, range));
        }
    }

    /// A pressure decision with a victim trims or evicts exactly that one.
    pub proof fn lemma_victim(self, slot: int, key: Seq<char>, range: Interval)
        requires
            self.valid(),
            self.victim(slot, key, range),
        ensures
            0 <= slot < self.ring.len(),
            self.relieved(key, range) == (if self.trims(slot) {
                self.rotated().compacted(slot, self.trimmed(slot))
            } else {
                self.rotated().evicted(slot, key)
            }),
    {
        let chosen = choose|chosen: int| #[trigger] self.victim(chosen, key, range);
        victim_is_unique(self, key, range, slot, chosen);
    }

    /// What trimming an extent yields: separated parts of its payload that
    /// leave out at least a quarter of it.
    pub proof fn lemma_trimmed(self, slot: int)
        requires
            self.valid(),
            0 <= slot < self.ring.len(),
            self.trims(slot),
        ensures
            ranges_of(self.trimmed(slot)) == grouping(
                self.ring[slot].range,
                self.requests_at(slot),
            ),
            crate::compaction::separated(ranges_of(self.trimmed(slot))),
            forall|i: int|
                0 <= i < self.trimmed(slot).len() ==> {
                    &&& self.ring[slot].range.covers((#[trigger] self.trimmed(slot)[i]).range)
                    &&& self.trimmed(slot)[i].range.valid()
                    &&& self.trimmed(slot)[i].bytes == part(
                        self.ring[slot].bytes,
                        self.ring[slot].range,
                        self.trimmed(slot)[i].range,
                    )
                    &&& self.trimmed(slot)[i].bytes.len() == self.trimmed(slot)[i].range.len()
                },
            self.trimmed(slot).len() <= total_len(ranges_of(self.trimmed(slot))),
            total_len(ranges_of(self.trimmed(slot))) <= 3 * (self.ring[slot].range.len()
                - total_len(ranges_of(self.trimmed(slot)))),
    {
        let source = self.ring[slot].range;
        let retained = grouping(source, self.requests_at(slot));
        let fragments = self.trimmed(slot);
        lemma_grouping(source, self.requests_at(slot));
        assert(self.ring[slot].valid());
        assert(ranges_of(fragments) =~= retained);
        assert forall|i: int| 0 <= i < fragments.len() implies {
            &&& source.covers((#[trigger] fragments[i]).range)
            &&& fragments[i].range.valid()
            &&& fragments[i].bytes == part(self.ring[slot].bytes, source, fragments[i].range)
            &&& fragments[i].bytes.len() == fragments[i].range.len()
        } by {
            assert(fragments[i].range == retained[i]);
            assert(retained[i].valid());
        }
    }

    /// A compaction keeps the shard valid and releases at least what its plan does.
    pub proof fn lemma_compacted(self, slot: int, fragments: Seq<Fragment>)
        requires
            self.valid(),
            0 <= slot < self.ring.len(),
            crate::compaction::separated(ranges_of(fragments)),
            self.can_compact(slot, fragments),
            forall|i: int|
                0 <= i < fragments.len() ==> (#[trigger] fragments[i]).bytes.len()
                    == fragments[i].range.len() && self.ring[slot].range.covers(fragments[i].range),
        ensures
            self.compacted(slot, fragments).valid(),
            0 <= self.compacted(slot, fragments).used() <= self.used() - self.ring[slot].range.len()
                + total_len(ranges_of(fragments)),
            self.compacted(slot, fragments).last_id <= self.last_id + fragments.len(),
            self.compacted(slot, fragments).clock == self.clock,
            self.compacted(slot, fragments).capacity == self.capacity,
            self.compacted(slot, fragments).compaction == self.compaction,
    {
        let emptied = self.detached(slot, true);
        let key = self.ring[slot].key;
        self.lemma_accepts_fragments(slot, fragments);
        self.lemma_detached(slot, true);
        emptied.lemma_republished(key, fragments);
        let next = emptied.republished(key, fragments);
        let result = self.compacted(slot, fragments);
        assert(result.ring == next.ring);
        assert forall|one: int, other: int|
            #![trigger result.ring[one], result.ring[other]]
            0 <= one < result.ring.len() && 0 <= other < result.ring.len() && one != other implies {
            &&& result.ring[one].id != result.ring[other].id
            &&& result.ring[one].key == result.ring[other].key ==> !result.ring[one].range.covers(
                result.ring[other].range,
            )
        } by {
            assert(next.ring[one].id != next.ring[other].id);
        }
    }

    /// An eviction keeps the shard valid and releases the whole payload.
    pub proof fn lemma_evicted(self, slot: int, key: Seq<char>)
        requires
            self.valid(),
            0 <= slot < self.ring.len(),
        ensures
            ({
                let result = self.rotated().evicted(slot, key);
                &&& result.valid()
                &&& result.ring == vacated(self.ring, slot)
                &&& 0 <= result.used() == self.used() - self.ring[slot].range.len()
                &&& result.used() < self.used()
                &&& result.last_id == self.last_id
                &&& result.capacity == self.capacity
                &&& result.compaction == self.compaction
                &&& result.clock == self.clock
            }),
    {
        self.lemma_rotated();
        let turned = self.rotated();
        let preserve = self.ring[slot].key == key;
        turned.lemma_detached(slot, preserve);
        let next = turned.detached(slot, preserve);
        let result = turned.evicted(slot, key);
        lemma_payload_bounds(result.ring);
        lemma_vacated(self.ring, slot);
        assert(self.ring[slot].valid());
        assert(result.ring == next.ring);
        assert forall|one: int, other: int|
            #![trigger result.ring[one], result.ring[other]]
            0 <= one < result.ring.len() && 0 <= other < result.ring.len() && one != other implies {
            &&& result.ring[one].id != result.ring[other].id
            &&& result.ring[one].key == result.ring[other].key ==> !result.ring[one].range.covers(
                result.ring[other].range,
            )
        } by {
            assert(next.ring[one].id != next.ring[other].id);
        }
    }

    /// One pressure decision keeps the shard valid, uses up no headroom, and
    /// releases payload unless its sample holds nothing to give up.
    pub proof fn lemma_relieved(self, key: Seq<char>, range: Interval)
        requires
            self.valid(),
            self.can_relieve(key, range),
        ensures
            self.relieved(key, range).valid(),
            self.relieved(key, range).headroom_used() <= self.headroom_used(),
            0 <= self.relieved(key, range).used() <= self.used(),
            self.relieved(key, range).capacity == self.capacity,
            self.relieved(key, range).compaction == self.compaction,
            self.relieved(key, range).clock == self.clock,
            (exists|slot: int| #[trigger] self.victim(slot, key, range)) ==> self.relieved(
                key,
                range,
            ).used() < self.used(),
    {
        self.lemma_rotated();
        lemma_payload_bounds(self.ring);
        let turned = self.rotated();
        if exists|slot: int| #[trigger] self.victim(slot, key, range) {
            let slot = choose|slot: int| #[trigger] self.victim(slot, key, range);
            self.lemma_victim(slot, key, range);
            assert(self.ring[slot].valid());
            if self.trims(slot) {
                self.lemma_trimmed(slot);
                turned.lemma_compacted(slot, self.trimmed(slot));
            } else {
                self.lemma_evicted(slot, key);
            }
        }
    }
}

} // verus!

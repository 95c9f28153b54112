//! One cache shard: range indexes, access evidence, and payload accounting.

use bytes::Bytes;
use rustc_hash::FxHashMap;
use vstd::prelude::*;

use crate::admission_lemmas::bystander;
use crate::candidates::{
    extent_of, lemma_forgotten, lemma_remembered, lemma_unlinked, lemma_with_entry, linked,
    records_of, ring_of, state_of, unlinked, with_entry, without_entry, Candidate, CandidateRef,
    PolicyCandidates,
};
use crate::compaction::{grouping, intervals_of, plan_compaction, total_len};
use crate::compaction_work::{fragments_in, CompactionWork, PreparedCompaction, Target};
use crate::evidence::Access;
use crate::keys::ObjectKey;
use crate::metrics::MemoryMetrics;
use crate::objects;
use crate::payload;
use crate::range::{ByteRange, Interval};
use crate::ranges::{CachedRanges, Entry, ObjectState};
use crate::retention::{
    compare_retention, retention_order_is_total, retention_order_is_transitive,
    victim_is_unique, Victim,
};
use crate::shard_lemmas::{lemma_payload_bounds, lemma_vacated, ranges_of};
use crate::shard_state::{
    CompactionMode, Fragment, ShardState, COMPACTION_GRACE_ACCESSES,
    POLICY_SAMPLE_SIZE,
};

verus! {

/// Range indexes, access evidence, and payload accounting of one partition.
pub struct Shard {
    capacity: u64,
    used_bytes: u64,
    ranges: FxHashMap<ObjectKey, CachedRanges>,
    access_clock: u64,
    next_entry_id: u64,
    candidates: PolicyCandidates,
    compaction_mode: CompactionMode,
    metrics: MemoryMetrics,
}

/// One bounded admission action. Callers repeat until `Complete`.
pub enum AdmissionStep {
    /// The admission is done.
    Complete,
    /// Pressure was relieved by one decision; try again.
    Retry,
    /// Copy and publish this compaction, then try again.
    Compact(CompactionWork),
}

/// Existing entries fully covered by one larger download.
struct Superseded {
    ranges: Vec<ByteRange>,
    bytes: u64,
}

/// Usage removed while admitting one download.
struct Removal {
    bytes: u64,
    entries: u64,
}

/// The interval of an optional range.
pub open spec fn interval_of(range: Option<ByteRange>) -> Option<Interval> {
    match range {
        Some(range) => Some(range@),
        None => None,
    }
}

/// What one pressure decision for admitting `range` of `key` yields: it turns
/// the sample, and evicts the victim or hands out its compaction.
pub open spec fn pressure_outcome(
    before: ShardState,
    key: Seq<char>,
    range: Interval,
    allow_compaction: bool,
    step: AdmissionStep,
    after: ShardState,
) -> bool {
    match step {
        AdmissionStep::Complete => false,
        AdmissionStep::Retry => {
            ||| {
                &&& forall|slot: int| !#[trigger] before.eligible(slot, key, range)
                &&& after == before.rotated()
            }
            ||| exists|slot: int|
                {
                    &&& #[trigger] before.victim(slot, key, range)
                    &&& !(allow_compaction && before.trims(slot))
                    &&& after == before.rotated().evicted(slot, key)
                }
        },
        AdmissionStep::Compact(work) => {
            &&& allow_compaction
            &&& after == before.rotated()
            &&& exists|slot: int|
                {
                    &&& #[trigger] before.victim(slot, key, range)
                    &&& before.trims(slot)
                    &&& work.target() == Target::at(before, slot)
                    &&& work.kept() == grouping(before.ring[slot].range, before.requests_at(slot))
                    &&& work.source_payload() == before.ring[slot].bytes
                }
        },
    }
}

/// Whether the admission of `range` of `key` completes after exactly `count`
/// pressure decisions.
pub open spec fn settles(state: ShardState, key: Seq<char>, range: Interval, count: nat) -> bool {
    &&& state.relieved_times(key, range, count).ready(key, range)
    &&& state.unsettled(key, range, count)
}

/// Whether a shard goes from `before` to `after` when `bytes`, downloaded as
/// `range` of `key`, are cached: pressure decisions follow one another until
/// the admission completes, and identities are left for all of them.
pub open spec fn populated(
    before: ShardState,
    key: Seq<char>,
    range: Interval,
    bytes: Seq<u8>,
    requested: Option<Interval>,
    after: ShardState,
) -> bool {
    &&& before.admissible(key, range)
    &&& exists|count: nat|
        #[trigger] settles(before, key, range, count) && after == before.relieved_times(
            key,
            range,
            count,
        ).admitted(key, range, bytes, requested)
}

/// The states of the objects that a map holds.
spec fn states_of(held_objects: Map<Seq<char>, CachedRanges>) -> Map<Seq<char>, ObjectState> {
    held_objects.map_values(|ranges: CachedRanges| ranges@)
}

impl View for Shard {
    type V = ShardState;

    closed spec fn view(&self) -> ShardState {
        ShardState {
            capacity: self.capacity,
            compaction: self.compaction_mode,
            ring: ring_of(self.states(), self.candidates.refs()),
            cursor: self.candidates.cursor as int,
            objects: records_of(self.states()),
            clock: self.access_clock,
            last_id: self.next_entry_id,
            metrics: self.metrics,
        }
    }
}

/// A run of pressure decisions whose steps all had their identities, up to the
/// one that completes, had all the identities it needed.
proof fn lemma_settled_run(start: ShardState, key: Seq<char>, range: Interval, count: nat)
    requires
        settles(start, key, range, count),
        start.relieved_times(key, range, count).can_complete(key, range),
        forall|i: nat| i < count ==> (#[trigger] start.relieved_times(key, range, i)).can_step(
            key,
            range,
        ),
    ensures
        start.admissible(key, range),
{
    assert forall|other: nat| #[trigger]
        start.unsettled(key, range, other) implies start.relieved_times(key, range, other).can_step(
        key,
        range,
    ) by {
        if other > count {
            assert(!start.relieved_times(key, range, count).ready(key, range));
        }
    }
}

/// A retry without a trim is one pressure decision, and brings the admission
/// closer to its end.
proof fn lemma_retried(before: ShardState, key: Seq<char>, range: Interval, after: ShardState)
    requires
        before.valid(),
        !before.ready(key, range),
        pressure_outcome(before, key, range, true, AdmissionStep::Retry, after),
    ensures
        before.can_relieve(key, range),
        after == before.relieved(key, range),
        0 <= after.used() <= before.used(),
        after.used() == before.used() ==> {
            let slot = bystander(before.ring, key, range);
            &&& after.ring == before.ring
            &&& 0 <= after.distance(slot) < before.distance(slot)
        },
{
    if forall|slot: int| !#[trigger] before.eligible(slot, key, range) {
        before.lemma_no_victim(key, range);
        before.lemma_rotation_progress(key, range);
        assert(before.rotated().ring == before.ring);
        lemma_payload_bounds(before.ring);
        assert forall|slot: int| #[trigger] before.victim(slot, key, range) implies false by {
            assert(before.eligible(slot, key, range));
        }
    } else {
        let slot = choose|slot: int|
            {
                &&& #[trigger] before.victim(slot, key, range)
                &&& !before.trims(slot)
                &&& after == before.rotated().evicted(slot, key)
            };
        before.lemma_victim(slot, key, range);
        assert forall|other: int| #[trigger] before.victim(other, key, range) implies other
            == slot by {
            victim_is_unique(before, key, range, slot, other);
        }
        before.lemma_relieved(key, range);
    }
}

/// A trim that has its identities is one pressure decision, and releases payload.
proof fn lemma_trimmed_victim(before: ShardState, key: Seq<char>, range: Interval, slot: int)
    requires
        before.valid(),
        before.victim(slot, key, range),
        before.trims(slot),
        before.rotated().can_compact(slot, before.trimmed(slot)),
    ensures
        before.can_relieve(key, range),
        before.rotated().compacted(slot, before.trimmed(slot)) == before.relieved(key, range),
        0 <= before.relieved(key, range).used() < before.used(),
{
    before.lemma_victim(slot, key, range);
    assert forall|other: int| #[trigger] before.victim(other, key, range) implies other == slot by {
        victim_is_unique(before, key, range, slot, other);
    }
    before.lemma_relieved(key, range);
}

/// Returns whether an admission may go on trimming after one attempt to publish:
/// a hot source can invalidate every copy, so a refused publication makes the
/// admission fall back to bounded eviction and it cannot starve while other
/// accesses keep succeeding.
pub fn after_publication(published: bool, allow_compaction: bool) -> (allowed: bool)
    ensures
        allowed == (published && allow_compaction),
{
    published && allow_compaction
}

impl Shard {
    spec fn states(&self) -> Map<Seq<char>, ObjectState> {
        states_of(objects::objects(self.ranges))
    }

    /// Every entry is registered, and the used bytes are those retained.
    spec fn structured(&self) -> bool {
        &&& forall|key: Seq<char>| #[trigger]
            objects::objects(self.ranges).contains_key(key) ==> objects::objects(
                self.ranges,
            )[key].well_formed()
        &&& linked(self.states(), self.candidates.refs())
        &&& self.candidates.well_formed()
        &&& self@.valid()
        &&& self.used_bytes == self@.used()
    }

    /// The indexes, candidates, accounting and gauges agree with one another.
    pub closed spec fn well_formed(&self) -> bool {
        &&& self.structured()
        &&& self@.measured()
    }

    /// What holds of every well-formed shard.
    pub proof fn lemma_well_formed(&self)
        requires
            self.well_formed(),
        ensures
            self@.valid(),
            self@.measured(),
            0 <= self@.used() <= u64::MAX,
            self@.ring.len() <= u64::MAX,
    {
    }

    /// A slot holds the entry its candidate refers to.
    proof fn lemma_slot(&self, slot: int)
        requires
            self.structured(),
            0 <= slot < self.candidates.refs().len(),
        ensures
            ({
                let candidate = self.candidates.refs()[slot];
                let entry = self.states()[candidate.key].entries[candidate.start];
                &&& self@.ring.len() == self.candidates.refs().len()
                &&& self@.ring[slot] == extent_of(candidate.key, entry)
                &&& objects::objects(self.ranges).contains_key(candidate.key)
                &&& self.states().contains_key(candidate.key)
                &&& self.states()[candidate.key].entries.contains_key(candidate.start)
                &&& self.states()[candidate.key] == objects::objects(self.ranges)[candidate.key]@
                &&& entry.id == candidate.id
                &&& entry.candidate_slot == slot
                &&& entry.range@.start == candidate.start
                &&& entry.well_formed()
            }),
    {
        let candidate = self.candidates.refs()[slot];
        assert(self.states().contains_key(candidate.key));
        assert(self.states()[candidate.key].valid());
        assert(self.states()[candidate.key].entries.contains_key(candidate.start));
    }

    /// An indexed entry is the extent at its slot.
    proof fn lemma_entry(&self, key: Seq<char>, start: u64)
        requires
            self.structured(),
            self.states().contains_key(key),
            self.states()[key].entries.contains_key(start),
        ensures
            ({
                let entry = self.states()[key].entries[start];
                let slot = entry.candidate_slot as int;
                &&& 0 <= slot < self@.ring.len()
                &&& self@.ring.len() == self.candidates.refs().len()
                &&& self.candidates.refs()[slot] == (Candidate { key, start, id: entry.id })
                &&& self@.ring[slot] == extent_of(key, entry)
                &&& entry.well_formed()
                &&& entry.range@.start == start
            }),
    {
        let entry = self.states()[key].entries[start];
        let slot = entry.candidate_slot as int;
        assert(self.candidates.refs()[slot].key == key);
        self.lemma_slot(slot);
    }

    /// One extent of an object covers a range exactly if its state does.
    proof fn lemma_covered(&self, key: Seq<char>, range: Interval)
        requires
            self.structured(),
        ensures
            self@.covered(key, range) <==> self.states().contains_key(key)
                && self.states()[key].covers(range),
            self.states().contains_key(key) <==> objects::objects(self.ranges).contains_key(key),
            self.states().contains_key(key) <==> self@.objects.contains_key(key),
            self.states().contains_key(key) ==> self.states()[key] == objects::objects(
                self.ranges,
            )[key]@,
    {
        if self@.covered(key, range) {
            let slot = choose|slot: int| #[trigger] self@.covers_at(slot, key, range);
            self.lemma_slot(slot);
        }
        if self.states().contains_key(key) && self.states()[key].covers(range) {
            let start = choose|start: u64| #[trigger]
                self.states()[key].entries.contains_key(start)
                    && self.states()[key].entries[start].range@.covers(range);
            self.lemma_entry(key, start);
            let slot = self.states()[key].entries[start].candidate_slot as int;
            assert(self@.covers_at(slot, key, range));
        }
    }

    /// Creates an empty shard.
    pub fn new(capacity: u64, compaction_mode: CompactionMode) -> (shard: Self)
        ensures
            shard.well_formed(),
            shard@ == ShardState::empty(capacity, compaction_mode),
    {
        let shard = Self {
            capacity,
            used_bytes: 0,
            ranges: objects::empty(),
            access_clock: 0,
            next_entry_id: 0,
            candidates: PolicyCandidates::new(),
            compaction_mode,
            metrics: MemoryMetrics::noop(),
        };
        proof {
            assert(shard.states() =~= Map::empty());
            assert(shard@.ring =~= Seq::empty());
            assert(shard@.objects =~= Map::empty());
        }
        shard
    }

    /// Detaches the entry with exactly the supplied key, range and, if given,
    /// identity, and returns its payload length.
    fn detach_entry(
        &mut self,
        object_key: &ObjectKey,
        range: ByteRange,
        expected_id: Option<u64>,
        preserve_access: bool,
    ) -> (detached: Option<u64>)
        requires
            old(self).structured(),
        ensures
            final(self).structured(),
            match detached {
                Some(bytes) => {
                    let slot = old(self)@.slot_of(object_key@, range@);
                    &&& old(self)@.exact_at(slot, object_key@, range@)
                    &&& expected_id is Some ==> old(self)@.ring[slot].id == expected_id->0
                    &&& final(self)@ == old(self)@.detached(slot, preserve_access)
                    &&& bytes == range@.len()
                },
                None => {
                    &&& final(self)@ == old(self)@
                    &&& forall|slot: int| #[trigger]
                        old(self)@.exact_at(slot, object_key@, range@) ==> expected_id is Some
                            && old(self)@.ring[slot].id != expected_id->0
                },
            },
    {
        let ghost key = object_key@;
        let ghost before = self.states();
        let ghost refs = self.candidates.refs();
        proof {
            use_type_invariant(&range);
            self.lemma_covered(key, range@);
            assert forall|slot: int| #[trigger] self@.exact_at(slot, key, range@) implies {
                &&& before.contains_key(key)
                &&& before[key].entries.contains_key(range@.start)
                &&& self@.ring[slot] == extent_of(key, before[key].entries[range@.start])
            } by {
                self.lemma_slot(slot);
            }
        }
        let slot: usize;
        let bytes: u64;
        match objects::get(&self.ranges, object_key) {
            Some(entries) => match entries.get(range.start()) {
                Some(current) => {
                    proof {
                        self.lemma_entry(key, range@.start);
                    }
                    if current.range.start() != range.start() || current.range.end() != range.end() {
                        return None;
                    }
                    if let Some(expected) = expected_id {
                        if expected != current.id {
                            return None;
                        }
                    }
                    slot = current.candidate_slot;
                    bytes = payload::length(&current.bytes) as u64;
                },
                None => {
                    return None;
                },
            },
            None => {
                return None;
            },
        }
        proof {
            assert(self@.exact_at(slot as int, key, range@));
            self@.lemma_exact_unique(slot as int, key, range@);
            self@.lemma_detached(slot as int, preserve_access);
            lemma_unlinked(before, refs, slot);
        }
        let mut object_is_empty = false;
        if let Some(entries) = objects::get_mut(&mut self.ranges, object_key) {
            let _ = entries.remove(range.start());
            object_is_empty = entries.is_empty();
        }
        proof {
            assert(self.states() =~= without_entry(before, key, range@.start));
            assert(object_is_empty == (forall|start: u64|
                !self.states()[key].entries.contains_key(start)));
        }
        let moved = self.candidates.remove(slot);
        if let Some(moved) = moved {
            let ghost taken = self.states();
            proof {
                let last = refs.len() - 1;
                old(self).lemma_slot(last);
                assert(refs[last] != refs[slot as int]) by {
                    old(self).lemma_slot(slot as int);
                }
                assert(objects::objects(self.ranges).contains_key(moved.object_key@));
            }
            if let Some(entries) = objects::get_mut(&mut self.ranges, &moved.object_key) {
                entries.move_to_slot(moved.start, slot);
            }
            assert(self.states() =~= crate::candidates::with_slot(taken, moved@, slot));
        }
        assert(self.states() == unlinked(before, refs, slot));
        let ghost unlinked_states = self.states();
        if object_is_empty && !preserve_access {
            proof {
                lemma_forgotten(unlinked_states, self.candidates.refs(), key);
            }
            objects::remove(&mut self.ranges, object_key);
            assert(self.states() =~= unlinked_states.remove(key));
        }
        self.used_bytes = self.used_bytes - bytes;
        proof {
            assert(self@ =~= old(self)@.detached(slot as int, preserve_access));
        }
        Some(bytes)
    }

    /// Indexes and registers one entry that neither covers nor is covered by
    /// another of its object.
    fn attach_entry(&mut self, object_key: &ObjectKey, range: ByteRange, bytes: Bytes)
        requires
            old(self).structured(),
            payload::contents(bytes).len() == range@.len(),
            old(self)@.last_id < u64::MAX,
            old(self)@.used() + range@.len() <= u64::MAX,
            !old(self)@.covered(object_key@, range@),
            forall|slot: int| !#[trigger] old(self)@.superseded(slot, object_key@, range@),
        ensures
            final(self).structured(),
            final(self)@ == old(self)@.attached(
                object_key@,
                range@,
                payload::contents(bytes),
            ),
    {
        let ghost key = object_key@;
        let ghost before = self.states();
        let ghost refs = self.candidates.refs();
        let ghost state = state_of(before, key);
        proof {
            use_type_invariant(&range);
            self.lemma_covered(key, range@);
            self@.lemma_attached(key, range@, payload::contents(bytes));
            assert forall|start: u64| #[trigger] state.entries.contains_key(start) implies !range@.covers(
                state.entries[start].range@,
            ) by {
                self.lemma_entry(key, start);
                let slot = state.entries[start].candidate_slot as int;
                assert(!self@.superseded(slot, key, range@));
            }
        }
        self.used_bytes = self.used_bytes + payload::length(&bytes) as u64;
        let id = self.next_entry_id + 1;
        self.next_entry_id = id;
        let candidate_slot = self.candidates.register(
            CandidateRef { object_key: object_key.clone(), start: range.start(), id },
        );
        let entry = Entry { id, range, bytes, candidate_slot, admitted_at: self.access_clock };
        proof {
            lemma_with_entry(before, refs, key, entry);
        }
        if objects::get(&self.ranges, object_key).is_none() {
            objects::insert(&mut self.ranges, object_key.clone(), CachedRanges::new());
        }
        if let Some(entries) = objects::get_mut(&mut self.ranges, object_key) {
            assert(entries@ == state);
            entries.insert(entry);
        }
        proof {
            assert(self.states() =~= with_entry(before, key, entry));
            assert(self@ =~= old(self)@.attached(key, range@, payload::contents(bytes)));
        }
    }

    /// Advances the access clock and records the request as evidence toward its
    /// object, if anything is remembered of that.
    fn record_successful_access(&mut self, object_key: &ObjectKey, requested_range: ByteRange)
        requires
            old(self).structured(),
        ensures
            final(self).structured(),
            final(self)@ == old(self)@.accessed(object_key@, requested_range@),
    {
        let ghost key = object_key@;
        let ghost before = self.states();
        let ghost refs = self.candidates.refs();
        proof {
            self.lemma_covered(key, requested_range@);
            self@.lemma_accessed(key, requested_range@);
        }
        self.access_clock = self.access_clock.saturating_add(1);
        if let Some(entries) = objects::get_mut(&mut self.ranges, object_key) {
            entries.observe(requested_range, self.access_clock);
        }
        self.metrics.record_access();
        proof {
            if before.contains_key(key) {
                let state = ObjectState {
                    entries: before[key].entries,
                    accesses: crate::evidence::recorded(
                        before[key].accesses,
                        requested_range@,
                        self.access_clock,
                    ),
                    generation: before[key].generation.saturating_add(1),
                };
                lemma_remembered(before, refs, key, state);
                assert(self.states() =~= before.insert(key, state));
            } else {
                assert(self.states() =~= before);
            }
            assert(self@ =~= old(self)@.accessed(key, requested_range@));
        }
    }

    /// Looks up one covering range and records its exact request on a hit.
    pub fn get(&mut self, object_key: &ObjectKey, requested_range: ByteRange) -> (found: Option<Bytes>)
        requires
            old(self).well_formed(),
        ensures
            final(self).well_formed(),
            final(self)@ == old(self)@.looked_up(object_key@, requested_range@),
            match found {
                Some(bytes) => exists|slot: int| #[trigger]
                    old(self)@.answers(slot, object_key@, requested_range@)
                        && payload::contents(bytes) == old(self)@.bytes_at(slot, requested_range@),
                None => !old(self)@.covered(object_key@, requested_range@),
            },
    {
        let ghost key = object_key@;
        proof {
            self.lemma_covered(key, requested_range@);
        }
        let found = match objects::get(&self.ranges, object_key) {
            Some(entries) => match entries.covering(requested_range) {
                Some(entry) => {
                    let bytes = entry.requested_bytes(requested_range);
                    proof {
                        let slot = entry.candidate_slot as int;
                        self.lemma_entry(key, entry.range@.start);
                        assert(self@.covers_at(slot, key, requested_range@));
                        assert forall|other: int| #[trigger]
                            self@.covers_at(other, key, requested_range@) implies self@.ring[other].range.start
                            <= self@.ring[slot].range.start by {
                            self.lemma_slot(other);
                            let start = self.candidates.refs()[other].start;
                            assert(entries@.entries.contains_key(start));
                        }
                        assert(self@.answers(slot, key, requested_range@));
                    }
                    Some(bytes)
                },
                None => None,
            },
            None => None,
        };
        if found.is_none() {
            self.metrics.record_lookup(false);
            assert(self.states() == old(self).states());
            return None;
        }
        self.record_successful_access(object_key, requested_range);
        self.metrics.record_lookup(true);
        found
    }

    /// Finds the entries that a download of `range` supersedes.
    fn superseded_by(&self, object_key: &ObjectKey, range: ByteRange) -> (superseded: Superseded)
        requires
            self.structured(),
        ensures
            self@.lists(object_key@, range@, intervals_of(superseded.ranges@)),
            superseded.bytes == self@.used() - self@.cleared(object_key@, range@).used(),
    {
        let ghost key = object_key@;
        let ranges = match objects::get(&self.ranges, object_key) {
            Some(entries) => entries.superseded_by(range),
            None => Vec::new(),
        };
        let ghost list = intervals_of(ranges@);
        proof {
            self.lemma_covered(key, range@);
            assert forall|i: int| 0 <= i < list.len() implies self@.exact_at(
                self@.slot_of(key, #[trigger] list[i]),
                key,
                list[i],
            ) && range@.covers(list[i]) by {
                let state = self.states()[key];
                assert(state.lists_superseded(range@, list));
                assert(state.entries.contains_key(list[i].start));
                self.lemma_entry(key, list[i].start);
                let slot = state.entries[list[i].start].candidate_slot as int;
                assert(self@.exact_at(slot, key, list[i]));
            }
            assert forall|slot: int| #[trigger] self@.superseded(slot, key, range@) implies list.contains(
                self@.ring[slot].range,
            ) by {
                self.lemma_slot(slot);
                let state = self.states()[key];
                assert(state.lists_superseded(range@, list));
                let start = self.candidates.refs()[slot].start;
                assert(state.entries.contains_key(start));
            }
            assert(self@.lists(key, range@, list));
        }
        let mut bytes: u64 = 0;
        let mut index: usize = 0;
        let ghost mut rest = self@;
        assert(list.skip(0) =~= list);
        while index < ranges.len()
            invariant
                index <= ranges@.len(),
                list == intervals_of(ranges@),
                rest.valid(),
                rest.lists(key, range@, list.skip(index as int)),
                rest.cleared(key, range@) == self@.cleared(key, range@),
                bytes == self@.used() - rest.used(),
                self@.used() <= u64::MAX,
            decreases ranges.len() - index,
        {
            proof {
                let remaining = list.skip(index as int);
                assert(remaining[0] == ranges@[index as int]@);
                let slot = rest.slot_of(key, remaining[0]);
                rest.lemma_clear_step(key, range@, remaining);
                rest.lemma_detached(slot, true);
                assert(rest.ring[slot].range == remaining[0]);
                assert(remaining.drop_first() =~= list.skip(index + 1));
                rest = rest.detached(slot, true);
            }
            bytes = bytes + ranges[index].len();
            index += 1;
        }
        proof {
            assert(list.skip(index as int) =~= Seq::<Interval>::empty());
            rest.lemma_clear_done(key, range@);
        }
        Superseded { ranges, bytes }
    }

    /// Detaches the listed superseded entries in order.
    fn remove_superseded(
        &mut self,
        object_key: &ObjectKey,
        Ghost(range): Ghost<Interval>,
        ranges: &Vec<ByteRange>,
    ) -> (removal: Removal)
        requires
            old(self).structured(),
            old(self)@.lists(object_key@, range, intervals_of(ranges@)),
        ensures
            final(self).structured(),
            final(self)@ == old(self)@.cleared(object_key@, range),
            removal.bytes == old(self)@.used() - final(self)@.used(),
            removal.entries == old(self)@.ring.len() - final(self)@.ring.len(),
    {
        let ghost key = object_key@;
        let ghost list = intervals_of(ranges@);
        let mut removal = Removal { bytes: 0, entries: 0 };
        let mut index: usize = 0;
        assert(list.skip(0) =~= list);
        while index < ranges.len()
            invariant
                index <= ranges@.len(),
                key == object_key@,
                list == intervals_of(ranges@),
                self.structured(),
                self@.lists(key, range, list.skip(index as int)),
                self@.cleared(key, range) == old(self)@.cleared(key, range),
                removal.bytes == old(self)@.used() - self@.used(),
                removal.entries == old(self)@.ring.len() - self@.ring.len(),
                removal.entries == index,
                old(self)@.used() <= u64::MAX,
            decreases ranges.len() - index,
        {
            proof {
                let remaining = list.skip(index as int);
                assert(remaining[0] == ranges@[index as int]@);
                let slot = self@.slot_of(key, remaining[0]);
                self@.lemma_clear_step(key, range, remaining);
                self@.lemma_detached(slot, true);
                lemma_vacated(self@.ring, slot);
                assert(remaining.drop_first() =~= list.skip(index + 1));
            }
            let bytes = self.detach_entry(object_key, ranges[index], None, true).unwrap();
            removal.bytes = removal.bytes + bytes;
            removal.entries = removal.entries + 1;
            index += 1;
        }
        proof {
            assert(list.skip(index as int) =~= Seq::<Interval>::empty());
            self@.lemma_clear_done(key, range);
        }
        removal
    }

    /// Removes one entry with exactly the supplied key and range.
    pub fn remove(&mut self, object_key: &ObjectKey, range: ByteRange) -> (removed: bool)
        requires
            old(self).well_formed(),
        ensures
            final(self).well_formed(),
            removed <==> exists|slot: int| #[trigger]
                old(self)@.exact_at(slot, object_key@, range@),
            final(self)@ == (if removed {
                old(self)@.removed(object_key@, range@)
            } else {
                old(self)@
            }),
    {
        match self.detach_entry(object_key, range, None, false) {
            Some(bytes) => {
                proof {
                    let slot = old(self)@.slot_of(object_key@, range@);
                    old(self)@.lemma_detached(slot, false);
                    lemma_vacated(old(self)@.ring, slot);
                }
                self.metrics.decrease_usage(bytes, 1);
                self.metrics.record_remove();
                true
            },
            None => false,
        }
    }

    /// Selects the lowest recent retrieval value per retained byte in a bounded sample.
    fn pressure_candidate(
        &mut self,
        admitting_key: &ObjectKey,
        admitting_range: ByteRange,
    ) -> (victim: Option<Victim>)
        requires
            old(self).structured(),
        ensures
            final(self).structured(),
            final(self)@ == old(self)@.rotated(),
            match victim {
                Some(victim) => exists|slot: int| #[trigger]
                    old(self)@.victim(slot, admitting_key@, admitting_range@) && victim.stands_for(
                        old(self)@,
                        slot,
                    ),
                None => forall|slot: int|
                    !#[trigger] old(self)@.eligible(slot, admitting_key@, admitting_range@),
            },
    {
        let ghost key = admitting_key@;
        let ghost range = admitting_range@;
        let ghost state = self@;
        let ghost states = self.states();
        proof {
            self@.lemma_rotated();
        }
        let window = self.candidates.sample();
        let sample_start = window.0;
        let sample_count = window.1;
        let candidate_count = self.candidates.entries.len();
        proof {
            assert(self.states() == states);
            assert(self@ =~= state.rotated());
        }
        let mut victim: Option<Victim> = None;
        let ghost mut best: int = 0;
        let mut offset: usize = 0;
        while offset < sample_count
            invariant
                self.structured(),
                self@ == state.rotated(),
                state.valid(),
                key == admitting_key@,
                range == admitting_range@,
                offset <= sample_count <= candidate_count,
                candidate_count == state.ring.len(),
                candidate_count == self.candidates.entries@.len(),
                sample_start == state.cursor,
                sample_count > 0 ==> sample_start < candidate_count,
                sample_count == (if candidate_count < POLICY_SAMPLE_SIZE {
                    candidate_count
                } else {
                    POLICY_SAMPLE_SIZE
                }),
                match victim {
                    Some(current) => {
                        &&& state.eligible(best, key, range)
                        &&& state.distance(best) < offset
                        &&& current.stands_for(state, best)
                        &&& forall|slot: int| #[trigger]
                            state.eligible(slot, key, range) && state.distance(slot) < offset
                                && slot != best ==> state.weaker(best, slot)
                    },
                    None => forall|slot: int| #[trigger]
                        state.eligible(slot, key, range) ==> state.distance(slot) >= offset,
                },
            decreases sample_count - offset,
        {
            let slot = crate::candidates::ring_slot(sample_start, offset, candidate_count);
            let candidate = &self.candidates.entries[slot];
            proof {
                self.lemma_slot(slot as int);
                assert(self.candidates.refs()[slot as int] == candidate@);
                assert(state.distance(slot as int) == offset);
                assert forall|other: int|
                    0 <= other < state.ring.len() && #[trigger] state.distance(other)
                        == offset implies other == slot by {}
            }
            let entries = objects::get(&self.ranges, &candidate.object_key).unwrap();
            let entry = entries.get(candidate.start).unwrap();
            let superseded = candidate.object_key == *admitting_key && admitting_range.contains(
                entry.range,
            );
            assert(superseded == state.superseded(slot as int, key, range));
            if !superseded {
                let candidate_victim = Victim {
                    object_key: candidate.object_key.clone(),
                    range: entry.range,
                    id: entry.id,
                    bytes: payload::length(&entry.bytes) as u64,
                    retrieval_value: entries.accesses().retention_value(
                        entry.range,
                        self.access_clock,
                    ),
                };
                assert(candidate_victim.stands_for(state, slot as int));
                assert(state.eligible(slot as int, key, range));
                let replaces = match &victim {
                    Some(current) => {
                        let lower = compare_retention(&candidate_victim, current);
                        proof {
                            assert(best != slot);
                            assert(state.ring[best].id != state.ring[slot as int].id);
                            assert(lower == state.weaker(slot as int, best));
                            retention_order_is_total(state, slot as int, best);
                        }
                        lower
                    },
                    None => true,
                };
                if replaces {
                    proof {
                        assert forall|other: int| #[trigger]
                            state.eligible(other, key, range) && state.distance(other) < offset + 1
                                && other != slot implies state.weaker(slot as int, other) by {
                            if victim is Some && other != best {
                                assert(state.weaker(best, other));
                                retention_order_is_transitive(state, slot as int, best, other);
                            }
                        }
                        best = slot as int;
                    }
                    victim = Some(candidate_victim);
                }
            }
            offset += 1;
        }
        proof {
            if victim is Some {
                assert(state.victim(best, key, range));
            }
        }
        victim
    }

    /// Plans compaction only for the selected victim, after its grace expires.
    fn compaction_work(&self, victim: &Victim, Ghost(slot): Ghost<int>) -> (work: Option<
        CompactionWork,
    >)
        requires
            self.structured(),
            victim.stands_for(self@, slot),
        ensures
            match work {
                Some(work) => {
                    &&& self@.trims(slot)
                    &&& work.target() == Target::at(self@, slot)
                    &&& work.kept() == crate::compaction::grouping(
                        self@.ring[slot].range,
                        self@.requests_at(slot),
                    )
                    &&& work.source_payload() == self@.ring[slot].bytes
                },
                None => !self@.trims(slot),
            },
    {
        if self.compaction_mode != CompactionMode::ValueAware {
            return None;
        }
        proof {
            self.lemma_slot(slot);
        }
        let entries = objects::get(&self.ranges, &victim.object_key).unwrap();
        let entry = entries.get(victim.range.start()).unwrap();
        assert(extent_of(victim.object_key@, *entry) == self@.ring[slot]);
        if self.access_clock.saturating_sub(entry.admitted_at) < COMPACTION_GRACE_ACCESSES {
            return None;
        }
        let requests = entries.accesses().active_ranges(self.access_clock);
        assert(intervals_of(requests@) == self@.requests_at(slot));
        match plan_compaction(entry.range, requests.as_slice()) {
            Some(plan) => Some(
                CompactionWork::new(
                    victim.object_key.clone(),
                    victim.id,
                    entries.generation(),
                    plan,
                    entry.bytes.clone(),
                ),
            ),
            None => None,
        }
    }

    /// Publishes copied compaction output only if source metadata is unchanged.
    pub fn publish_compaction(&mut self, prepared: PreparedCompaction) -> (published: bool)
        requires
            old(self).well_formed(),
            forall|slot: int| #[trigger]
                prepared.target().current_at(old(self)@, slot) ==> old(self)@.can_compact(
                    slot,
                    prepared.fragments(),
                ),
        ensures
            final(self).well_formed(),
            prepared.sound(),
            published <==> exists|slot: int| #[trigger]
                prepared.target().current_at(old(self)@, slot),
            published ==> prepared.target().current_at(
                old(self)@,
                old(self)@.slot_of(prepared.target().key, prepared.target().source),
            ),
            final(self)@ == (if published {
                old(self)@.compacted(
                    old(self)@.slot_of(prepared.target().key, prepared.target().source),
                    prepared.fragments(),
                )
            } else {
                old(self)@
            }),
    {
        let ghost target = prepared.target();
        let ghost fragments = prepared.fragments();
        let ghost kept = prepared.kept();
        let ghost key = target.key;
        let (object_key, source, id, generation, retained) = prepared.into_parts();
        proof {
            self.lemma_covered(key, source@);
            assert forall|slot: int| #[trigger] target.current_at(self@, slot) implies {
                &&& self.states()[key].generation == generation
                &&& self@.slot_of(key, source@) == slot
            } by {
                self.lemma_slot(slot);
                self@.lemma_exact_unique(slot, key, source@);
            }
        }
        let valid = match objects::get(&self.ranges, &object_key) {
            Some(entries) => {
                proof {
                    assert(self@.objects[key].generation == entries@.generation);
                }
                entries.generation() == generation
            },
            None => false,
        };
        if !valid {
            return false;
        }
        let source_bytes = match self.detach_entry(&object_key, source, Some(id), true) {
            Some(bytes) => bytes,
            None => {
                return false;
            },
        };
        let ghost slot = old(self)@.slot_of(key, source@);
        let ghost emptied = self@;
        proof {
            assert(target.current_at(old(self)@, slot));
            assert(ranges_of(fragments) =~= kept);
            old(self)@.lemma_accepts_fragments(slot, fragments);
            old(self)@.lemma_detached(slot, true);
            lemma_vacated(old(self)@.ring, slot);
            emptied.lemma_republished(key, fragments);
            assert(fragments.skip(0) =~= fragments);
        }
        let mut retained_bytes: u64 = 0;
        let mut retained_entries: u64 = 0;
        let mut index: usize = 0;
        while index < retained.len()
            invariant
                index <= retained@.len(),
                key == object_key@,
                fragments == fragments_in(retained@),
                self.structured(),
                self@.accepts(key, fragments.skip(index as int)),
                self@.republished(key, fragments.skip(index as int)) == emptied.republished(
                    key,
                    fragments,
                ),
                retained_bytes == self@.used() - emptied.used(),
                retained_entries == self@.ring.len() - emptied.ring.len(),
                retained_entries <= index,
                self@.used() + total_len(ranges_of(fragments.skip(index as int))) <= u64::MAX,
                emptied.used() >= 0,
            decreases retained.len() - index,
        {
            let ghost rest = fragments.skip(index as int);
            let ghost before = self@;
            let retained_range = retained[index].0;
            proof {
                assert(rest[0] == fragments[index as int]);
                assert(rest[0].range == retained_range@);
                assert(rest[0].bytes == payload::contents(retained@[index as int].1));
                self@.lemma_republish_step(key, rest);
                assert(rest.drop_first() =~= fragments.skip(index + 1));
                self.lemma_covered(key, retained_range@);
                before.republished_first(key, rest).lemma_republished(key, rest.drop_first());
            }
            let covered = match objects::get(&self.ranges, &object_key) {
                Some(entries) => entries.covering(retained_range).is_some(),
                None => false,
            };
            if !covered {
                let bytes = retained[index].1.clone();
                retained_bytes = retained_bytes + payload::length(&bytes) as u64;
                retained_entries = retained_entries + 1;
                self.attach_entry(&object_key, retained_range, bytes);
            }
            index += 1;
        }
        assert(fragments.skip(index as int) =~= Seq::<Fragment>::empty());
        let reclaimed = source_bytes - retained_bytes;
        self.metrics.decrease_usage(source_bytes, 1);
        if retained_entries != 0 {
            self.metrics.increase_usage(retained_bytes, retained_entries);
        }
        self.metrics.record_compaction(reclaimed);
        proof {
            assert(self@ =~= old(self)@.compacted(slot, fragments));
            lemma_payload_bounds(self@.ring);
        }
        true
    }

    /// Admits a download that fits once it replaced what it supersedes.
    fn complete_admission(
        &mut self,
        object_key: &ObjectKey,
        range: ByteRange,
        bytes: &Bytes,
        requested_range: Option<ByteRange>,
        superseded: &Superseded,
    )
        requires
            old(self).well_formed(),
            payload::contents(*bytes).len() == range@.len(),
            old(self)@.last_id < u64::MAX,
            !old(self)@.covered(object_key@, range@),
            old(self)@.fits(object_key@, range@),
            old(self)@.lists(object_key@, range@, intervals_of(superseded.ranges@)),
        ensures
            final(self).well_formed(),
            final(self)@ == old(self)@.admitted(
                object_key@,
                range@,
                payload::contents(*bytes),
                interval_of(requested_range),
            ),
    {
        let ghost key = object_key@;
        let ghost state = self@;
        let ghost cleared = state.cleared(key, range@);
        proof {
            use_type_invariant(&range);
            state.lemma_cleared(key, range@);
            lemma_payload_bounds(state.ring);
            cleared.lemma_attached(key, range@, payload::contents(*bytes));
        }
        let removal = self.remove_superseded(object_key, Ghost(range@), &superseded.ranges);
        self.attach_entry(object_key, range, bytes.clone());
        proof {
            lemma_payload_bounds(self@.ring);
        }
        let added_bytes = payload::length(bytes) as u64;
        if removal.entries != 0 {
            self.metrics.decrease_usage(removal.bytes, removal.entries);
        }
        self.metrics.increase_usage(added_bytes, 1);
        self.metrics.record_insert(removal.entries != 0);
        assert(self.well_formed());
        if let Some(requested_range) = requested_range {
            self.record_successful_access(object_key, requested_range);
        }
    }

    /// Takes one pressure decision for an admission that does not fit.
    fn relieve(
        &mut self,
        object_key: &ObjectKey,
        range: ByteRange,
        allow_compaction: bool,
    ) -> (step: AdmissionStep)
        requires
            old(self).well_formed(),
        ensures
            final(self).well_formed(),
            pressure_outcome(
                old(self)@,
                object_key@,
                range@,
                allow_compaction,
                step,
                final(self)@,
            ),
    {
        let ghost key = object_key@;
        let ghost state = self@;
        let victim = match self.pressure_candidate(object_key, range) {
            Some(victim) => victim,
            None => {
                // A rotating bounded sample can temporarily consist entirely of
                // entries superseded by this admission. Advancing its cursor and
                // retrying gives amortized full coverage without one long scan.
                return AdmissionStep::Retry;
            },
        };
        let ghost slot = choose|slot: int| #[trigger]
            state.victim(slot, key, range@) && victim.stands_for(state, slot);
        assert(victim.stands_for(self@, slot));
        if allow_compaction {
            if let Some(work) = self.compaction_work(&victim, Ghost(slot)) {
                return AdmissionStep::Compact(work);
            }
        }
        let same_object = victim.object_key == *object_key;
        let ghost turned = self@;
        proof {
            assert(turned.exact_at(slot, victim.object_key@, victim.range@));
            turned.lemma_exact_unique(slot, victim.object_key@, victim.range@);
            turned.lemma_detached(slot, same_object);
            lemma_vacated(turned.ring, slot);
        }
        let removed = self.detach_entry(
            &victim.object_key,
            victim.range,
            Some(victim.id),
            same_object,
        ).unwrap();
        self.metrics.decrease_usage(removed, 1);
        self.metrics.record_evictions(1);
        assert(self@ =~= turned.evicted(slot, key));
        AdmissionStep::Retry
    }

    /// Advances one bounded admission action while holding the shard lock.
    pub fn admission_step(
        &mut self,
        object_key: &ObjectKey,
        range: ByteRange,
        bytes: &Bytes,
        requested_range: Option<ByteRange>,
        allow_compaction: bool,
    ) -> (step: AdmissionStep)
        requires
            old(self).well_formed(),
            payload::contents(*bytes).len() == range@.len(),
            old(self)@.can_complete(object_key@, range@),
        ensures
            final(self).well_formed(),
            step is Complete <==> old(self)@.ready(object_key@, range@),
            step is Complete ==> final(self)@ == old(self)@.admitted(
                object_key@,
                range@,
                payload::contents(*bytes),
                interval_of(requested_range),
            ),
            step !is Complete ==> pressure_outcome(
                old(self)@,
                object_key@,
                range@,
                allow_compaction,
                step,
                final(self)@,
            ),
    {
        let ghost key = object_key@;
        proof {
            self.lemma_covered(key, range@);
            self@.lemma_cleared(key, range@);
        }
        let redundant = match objects::get(&self.ranges, object_key) {
            Some(entries) => entries.covering(range).is_some(),
            None => false,
        };
        if redundant {
            self.metrics.record_redundant();
            assert(self.well_formed());
            if let Some(requested_range) = requested_range {
                self.record_successful_access(object_key, requested_range);
            }
            return AdmissionStep::Complete;
        }
        let superseded = self.superseded_by(object_key, range);
        let added_bytes = payload::length(bytes) as u64;
        let effective_used = self.used_bytes - superseded.bytes;
        let target = self.capacity.saturating_sub(added_bytes);
        if effective_used <= target {
            self.complete_admission(object_key, range, bytes, requested_range, &superseded);
            return AdmissionStep::Complete;
        }
        self.relieve(object_key, range, allow_compaction)
    }

    /// Returns whether the next step of an admission has the identity that it
    /// needs if it completes.
    pub fn can_complete(&self, object_key: &ObjectKey, range: ByteRange) -> (can_complete: bool)
        requires
            self.well_formed(),
        ensures
            can_complete == self@.can_complete(object_key@, range@),
    {
        if self.next_entry_id < u64::MAX {
            return true;
        }
        proof {
            self.lemma_covered(object_key@, range@);
            self@.lemma_cleared(object_key@, range@);
        }
        let redundant = match objects::get(&self.ranges, object_key) {
            Some(entries) => entries.covering(range).is_some(),
            None => false,
        };
        let superseded = self.superseded_by(object_key, range);
        let target = self.capacity.saturating_sub(range.len());
        redundant || self.used_bytes - superseded.bytes > target
    }

    /// Caches one downloaded range, and records the request it came with, if any.
    ///
    /// Pressure decisions make room until the download fits or is redundant.
    pub fn insert(
        &mut self,
        object_key: &ObjectKey,
        downloaded_range: ByteRange,
        bytes: &Bytes,
        requested_range: Option<ByteRange>,
    )
        requires
            old(self).well_formed(),
            payload::contents(*bytes).len() == downloaded_range@.len(),
            old(self)@.admissible(object_key@, downloaded_range@),
        ensures
            final(self).well_formed(),
            populated(
                old(self)@,
                object_key@,
                downloaded_range@,
                payload::contents(*bytes),
                interval_of(requested_range),
                final(self)@,
            ),
    {
        self.try_insert(object_key, downloaded_range, bytes, requested_range);
    }

    /// Caches one downloaded range as `insert` does, and returns whether
    /// identities were left for all of it.
    pub fn try_insert(
        &mut self,
        object_key: &ObjectKey,
        downloaded_range: ByteRange,
        bytes: &Bytes,
        requested_range: Option<ByteRange>,
    ) -> (inserted: bool)
        requires
            old(self).well_formed(),
            payload::contents(*bytes).len() == downloaded_range@.len(),
        ensures
            final(self).well_formed(),
            inserted == old(self)@.admissible(object_key@, downloaded_range@),
            inserted ==> populated(
                old(self)@,
                object_key@,
                downloaded_range@,
                payload::contents(*bytes),
                interval_of(requested_range),
                final(self)@,
            ),
            !inserted ==> old(self)@.exhausted(object_key@, downloaded_range@, final(self)@),
    {
        let ghost key = object_key@;
        let ghost range = downloaded_range@;
        let ghost start = self@;
        let mut allow_compaction = true;
        let ghost mut count: nat = 0;
        loop
            invariant
                self.well_formed(),
                allow_compaction,
                key == object_key@,
                range == downloaded_range@,
                payload::contents(*bytes).len() == range.len(),
                start == old(self)@,
                self@ == start.relieved_times(key, range, count),
                start.unsettled(key, range, count),
                forall|i: nat| i < count ==> (#[trigger] start.relieved_times(key, range, i)).can_step(
                    key,
                    range,
                ),
            decreases
                self@.used(),
                if self@.ready(key, range) {
                    0int
                } else {
                    1 + self@.distance(bystander(self@.ring, key, range))
                },
        {
            let ghost before = self@;
            if !self.can_complete(object_key, downloaded_range) {
                proof {
                    assert(!before.can_step(key, range));
                    assert(start.unsettled(key, range, count));
                }
                return false;
            }
            proof {
                lemma_payload_bounds(before.ring);
                if !before.ready(key, range) {
                    before.lemma_bystander(key, range);
                }
            }
            let step = self.admission_step(
                object_key,
                downloaded_range,
                bytes,
                requested_range,
                allow_compaction,
            );
            match step {
                AdmissionStep::Complete => {
                    proof {
                        assert(settles(start, key, range, count));
                        lemma_settled_run(start, key, range, count);
                    }
                    return true;
                },
                AdmissionStep::Retry => {
                    proof {
                        lemma_retried(before, key, range, self@);
                    }
                },
                AdmissionStep::Compact(work) => {
                    let ghost slot = choose|slot: int|
                        {
                            &&& #[trigger] before.victim(slot, key, range)
                            &&& before.trims(slot)
                            &&& work.target() == Target::at(before, slot)
                            &&& work.kept() == grouping(
                                before.ring[slot].range,
                                before.requests_at(slot),
                            )
                            &&& work.source_payload() == before.ring[slot].bytes
                        };
                    // Payload copying needs no access to the shard. Publication
                    // revalidates both the source and its object's generation
                    // before changing the index.
                    let prepared = work.copy_payload();
                    proof {
                        before.lemma_victim(slot, key, range);
                        before.lemma_trimmed(slot);
                        assert(prepared.fragments() == before.trimmed(slot));
                        assert(prepared.target().current_at(self@, slot));
                        self@.lemma_exact_unique(slot, before.ring[slot].key, before.ring[slot].range);
                    }
                    if !self.can_publish(&prepared) {
                        proof {
                            assert(!before.can_relieve(key, range));
                            assert(start.unsettled(key, range, count));
                        }
                        return false;
                    }
                    let published = self.publish_compaction(prepared);
                    allow_compaction = after_publication(published, allow_compaction);
                    proof {
                        lemma_trimmed_victim(before, key, range, slot);
                    }
                },
            }
            proof {
                assert(self@ == before.relieved(key, range));
                assert(before.can_step(key, range));
                count = count + 1;
            }
        }
    }

    /// Records one successful lookup's exact requested range.
    pub fn record_access(&mut self, object_key: &ObjectKey, requested_range: ByteRange)
        requires
            old(self).well_formed(),
        ensures
            final(self).well_formed(),
            final(self)@ == old(self)@.accessed(object_key@, requested_range@),
    {
        self.record_successful_access(object_key, requested_range);
    }

    /// Returns the payload bytes retained.
    pub fn used_bytes(&self) -> (used: u64)
        requires
            self.well_formed(),
        ensures
            used == self@.used(),
    {
        self.used_bytes
    }

    /// Returns the number of entries retained.
    pub fn entry_count(&self) -> (count: usize)
        requires
            self.well_formed(),
        ensures
            count == self@.ring.len(),
    {
        self.candidates.entries.len()
    }

    /// Returns the number of registered policy candidates.
    pub fn candidate_count(&self) -> (count: usize)
        requires
            self.well_formed(),
        ensures
            count == self@.ring.len(),
    {
        self.candidates.entries.len()
    }

    /// Returns the counters and gauges.
    pub fn metrics(&self) -> (metrics: MemoryMetrics)
        ensures
            metrics == self@.metrics,
    {
        self.metrics
    }

    /// Gives up the shard and returns its metrics, with nothing retained any more.
    pub fn into_metrics(self) -> (metrics: MemoryMetrics)
        requires
            self.well_formed(),
        ensures
            metrics == (MemoryMetrics { payload_bytes: 0, entries: 0, ..self@.metrics }),
    {
        let mut metrics = self.metrics;
        let entries = self.entry_count() as u64;
        if entries != 0 {
            metrics.decrease_usage(self.used_bytes, entries);
        }
        proof {
            if entries == 0 {
                assert(self@.used() == 0);
            }
        }
        metrics
    }

    /// Returns whether identities are left for one more admission of any range,
    /// whatever pressure uses up.
    pub fn has_headroom(&self) -> (headroom: bool)
        requires
            self.well_formed(),
        ensures
            headroom == (self@.headroom_used() < u64::MAX),
            headroom ==> forall|key: Seq<char>, range: Interval| #[trigger]
                self@.admissible(key, range),
    {
        proof {
            lemma_payload_bounds(self@.ring);
            if self@.headroom_used() < u64::MAX {
                assert forall|key: Seq<char>, range: Interval| #[trigger]
                    self@.admissible(key, range) by {
                    self@.lemma_headroom_admits(key, range);
                }
            }
        }
        (self.next_entry_id as u128) + 3 * (self.used_bytes as u128) < u64::MAX as u128
    }

    /// Returns whether a prepared compaction's extent is still the one to replace.
    fn is_current(&self, prepared: &PreparedCompaction) -> (current: bool)
        requires
            self.well_formed(),
        ensures
            current <==> exists|slot: int| #[trigger] prepared.target().current_at(self@, slot),
    {
        let ghost target = prepared.target();
        let (object_key, source, id, generation) = prepared.replaces();
        let ghost key = object_key@;
        proof {
            use_type_invariant(&source);
            self.lemma_covered(key, source@);
            assert forall|slot: int| #[trigger] target.current_at(self@, slot) implies {
                &&& self.states()[key].generation == generation
                &&& self.states().contains_key(key)
                &&& self.states()[key].entries.contains_key(source@.start)
                &&& self@.ring[slot] == extent_of(key, self.states()[key].entries[source@.start])
            } by {
                self.lemma_slot(slot);
            }
        }
        let entries = match objects::get(&self.ranges, object_key) {
            Some(entries) => entries,
            None => {
                return false;
            },
        };
        let current = match entries.get(source.start()) {
            Some(current) => current,
            None => {
                return false;
            },
        };
        proof {
            self.lemma_entry(key, source@.start);
            let slot = current.candidate_slot as int;
            assert(self@.objects[key].generation == entries@.generation);
            assert(self@.ring[slot] == extent_of(key, *current));
            assert(target.current_at(self@, slot) <==> entries@.generation == generation
                && current.range@ == source@ && current.id == id);
        }
        entries.generation() == generation && current.range.start() == source.start()
            && current.range.end() == source.end() && current.id == id
    }

    /// Returns whether a prepared compaction can be published or refused:
    /// identities are left for it, or its extent is no longer the one to replace.
    pub fn can_publish(&self, prepared: &PreparedCompaction) -> (can_publish: bool)
        requires
            self.well_formed(),
        ensures
            can_publish == forall|slot: int| #[trigger]
                prepared.target().current_at(self@, slot) ==> self@.can_compact(
                    slot,
                    prepared.fragments(),
                ),
    {
        let ghost target = prepared.target();
        let ghost fragments = prepared.fragments();
        let count = prepared.fragment_count();
        let left = u64::MAX - self.next_entry_id;
        if count as u64 <= left {
            proof {
                assert forall|slot: int| #[trigger] target.current_at(
                    self@,
                    slot,
                ) implies self@.can_compact(slot, fragments) by {
                    self@.detached(slot, true).lemma_attachments(target.key, fragments);
                }
            }
            return true;
        }
        if !self.is_current(prepared) {
            return true;
        }
        let (object_key, source, _id, _generation) = prepared.replaces();
        let ghost key = object_key@;
        let ghost slot = choose|slot: int| #[trigger] target.current_at(self@, slot);
        let ghost emptied = self@.detached(slot, true);
        let mut fresh: u64 = 0;
        let mut index: usize = count;
        while index > 0
            invariant
                index <= count,
                count == fragments.len(),
                fragments == prepared.fragments(),
                self.well_formed(),
                key == object_key@,
                self@.exact_at(slot, key, source@),
                emptied == self@.detached(slot, true),
                fresh == emptied.uncovered(key, fragments.skip(index as int)),
                fresh <= count - index,
            decreases index,
        {
            index -= 1;
            let range = prepared.fragment_range(index);
            let covered = self.covered_beside(object_key, range, source, Ghost(slot));
            proof {
                let rest = fragments.skip(index as int);
                assert(rest[0] == fragments[index as int]);
                assert(rest.drop_first() =~= fragments.skip(index + 1));
            }
            if !covered {
                fresh = fresh + 1;
            }
        }
        proof {
            assert(fragments.skip(0) =~= fragments);
            assert(ranges_of(fragments) =~= prepared.kept());
            emptied.lemma_attachments_uncovered(key, fragments);
            assert forall|other: int| #[trigger] target.current_at(self@, other) implies other
                == slot by {
                self@.lemma_exact_unique(other, key, source@);
                self@.lemma_exact_unique(slot, key, source@);
            }
        }
        fresh <= left
    }

    /// Returns whether an extent of the object covers `range` other than the one
    /// that is exactly `source`.
    fn covered_beside(
        &self,
        object_key: &ObjectKey,
        range: ByteRange,
        source: ByteRange,
        Ghost(slot): Ghost<int>,
    ) -> (covered: bool)
        requires
            self.well_formed(),
            self@.exact_at(slot, object_key@, source@),
        ensures
            covered == self@.detached(slot, true).covered(object_key@, range@),
    {
        let ghost key = object_key@;
        let ghost emptied = self@.detached(slot, true);
        let ghost last = self@.ring.len() - 1;
        proof {
            self.lemma_slot(slot);
            self.lemma_covered(key, range@);
            lemma_vacated(self@.ring, slot);
        }
        let covered = match objects::get(&self.ranges, object_key) {
            Some(entries) => entries.covered_beside(range, source.start()),
            None => false,
        };
        proof {
            let state = self.states()[key];
            if covered {
                let start = choose|start: u64| #[trigger]
                    state.entries.contains_key(start) && start != source@.start
                        && state.entries[start].range@.covers(range@);
                self.lemma_entry(key, start);
                let other = state.entries[start].candidate_slot as int;
                let at = if other == last {
                    slot
                } else {
                    other
                };
                assert(self@.covers_at(other, key, range@));
                assert(other != slot);
                assert(emptied.ring[at] == self@.ring[other]);
                assert(emptied.covers_at(at, key, range@));
            }
            if emptied.covered(key, range@) {
                let at = choose|at: int| #[trigger] emptied.covers_at(at, key, range@);
                let other = if at == slot {
                    last
                } else {
                    at
                };
                assert(emptied.ring[at] == self@.ring[other]);
                self.lemma_slot(other);
                let start = self.candidates.refs()[other].start;
                assert(state.entries.contains_key(start));
                if start == source@.start {
                    assert(self@.ring[other].id == self@.ring[slot].id);
                }
            }
        }
        covered
    }

    /// Lists the accesses remembered toward an object, oldest first.
    pub fn accessed_ranges(&self, object_key: &ObjectKey) -> (ranges: Vec<ByteRange>)
        requires
            self.well_formed(),
        ensures
            intervals_of(ranges@) == self@.record_of(object_key@).accesses.map_values(
                |access: Access| access.range,
            ),
    {
        match objects::get(&self.ranges, object_key) {
            Some(entries) => entries.accesses().ranges(),
            None => {
                let ranges: Vec<ByteRange> = Vec::new();
                assert(intervals_of(ranges@) =~= Seq::<Access>::empty().map_values(
                    |access: Access| access.range,
                ));
                ranges
            },
        }
    }

    /// Returns the number of accesses remembered toward an object.
    pub fn access_evidence_len(&self, object_key: &ObjectKey) -> (len: usize)
        requires
            self.well_formed(),
        ensures
            len == self@.record_of(object_key@).accesses.len(),
    {
        match objects::get(&self.ranges, object_key) {
            Some(entries) => entries.accesses().len(),
            None => 0,
        }
    }
}

} // verus!

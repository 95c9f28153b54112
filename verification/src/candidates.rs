//! The candidate ring that pressure samples, and its link to the object index.

use vstd::prelude::*;

use crate::keys::ObjectKey;
use crate::payload;
use crate::ranges::{Entry, ObjectState};
use crate::shard_state::{held, vacated, Extent, ObjectRecord, POLICY_SAMPLE_SIZE};

verus! {

/// What a candidate refers to: an entry by its object, start and identity.
#[verifier::ext_equal]
pub struct Candidate {
    pub key: Seq<char>,
    pub start: u64,
    pub id: u64,
}

/// One registered entry.
pub struct CandidateRef {
    pub object_key: ObjectKey,
    pub start: u64,
    pub id: u64,
}

impl View for CandidateRef {
    type V = Candidate;

    open spec fn view(&self) -> Candidate {
        Candidate { key: self.object_key@, start: self.start, id: self.id }
    }
}

impl Clone for CandidateRef {
    fn clone(&self) -> (candidate: Self)
        ensures
            candidate@ == self@,
    {
        CandidateRef { object_key: self.object_key.clone(), start: self.start, id: self.id }
    }
}

/// Dense candidate ring with O(1) registration/removal and rotating samples.
pub struct PolicyCandidates {
    pub entries: Vec<CandidateRef>,
    pub cursor: usize,
}

impl PolicyCandidates {
    /// The candidates by slot.
    pub open spec fn refs(&self) -> Seq<Candidate> {
        self.entries@.map_values(|candidate: CandidateRef| candidate@)
    }

    /// The cursor points into the ring, or to its start.
    pub open spec fn well_formed(&self) -> bool {
        self.cursor < self.entries@.len() || self.cursor == 0
    }

    /// Creates an empty ring.
    pub fn new() -> (ring: Self)
        ensures
            ring.refs() == Seq::<Candidate>::empty(),
            ring.cursor == 0,
    {
        let ring = PolicyCandidates { entries: Vec::new(), cursor: 0 };
        assert(ring.refs() =~= Seq::<Candidate>::empty());
        ring
    }

    /// Appends a candidate and returns its slot.
    pub fn register(&mut self, candidate: CandidateRef) -> (slot: usize)
        ensures
            slot == old(self).refs().len(),
            final(self).refs() == old(self).refs().push(candidate@),
            final(self).cursor == old(self).cursor,
    {
        let slot = self.entries.len();
        self.entries.push(candidate);
        assert(self.refs() =~= old(self).refs().push(candidate@));
        slot
    }

    /// Removes `slot` and returns the candidate moved into it, if any.
    pub fn remove(&mut self, slot: usize) -> (moved: Option<CandidateRef>)
        requires
            slot < old(self).refs().len(),
            old(self).well_formed(),
        ensures
            final(self).well_formed(),
            final(self).refs() == old(self).refs().update(
                slot as int,
                old(self).refs().last(),
            ).drop_last(),
            final(self).cursor == (if old(self).refs().len() == 1 {
                0
            } else {
                old(self).cursor as int % (old(self).refs().len() - 1)
            }),
            match moved {
                Some(moved) => slot < old(self).refs().len() - 1 && moved@ == old(self).refs().last(),
                None => slot == old(self).refs().len() - 1,
            },
    {
        let last = self.entries.len() - 1;
        let _ = self.entries.swap_remove(slot);
        assert(self.refs() =~= old(self).refs().update(
            slot as int,
            old(self).refs().last(),
        ).drop_last());
        let moved = if slot != last {
            assert(self.entries@[slot as int]@ == old(self).refs().last());
            Some(self.entries[slot].clone())
        } else {
            None
        };
        if self.entries.len() == 0 {
            self.cursor = 0;
        } else {
            self.cursor = self.cursor % self.entries.len();
        }
        moved
    }

    /// Takes the next sample, as its first slot and its length, and moves past it.
    pub fn sample(&mut self) -> (window: (usize, usize))
        requires
            old(self).well_formed(),
        ensures
            final(self).well_formed(),
            final(self).refs() == old(self).refs(),
            window.0 == old(self).cursor,
            window.1 == (if old(self).refs().len() < POLICY_SAMPLE_SIZE {
                old(self).refs().len() as int
            } else {
                POLICY_SAMPLE_SIZE as int
            }),
            final(self).cursor == (if old(self).refs().len() == 0 {
                0
            } else {
                (window.0 + window.1) % (old(self).refs().len() as int)
            }),
    {
        let len = self.entries.len();
        let count = if len < POLICY_SAMPLE_SIZE { len } else { POLICY_SAMPLE_SIZE };
        if count == 0 {
            return (0, 0);
        }
        let start = self.cursor;
        self.cursor = ring_slot(start, count, len);
        (start, count)
    }
}

/// Returns the slot `offset` places after `start` on a ring of `len` slots.
pub fn ring_slot(start: usize, offset: usize, len: usize) -> (slot: usize)
    requires
        start < len,
        offset <= len,
    ensures
        slot == (start + offset) % (len as int),
        slot < len,
        slot == (if offset < len - start {
            start + offset
        } else {
            start + offset - len
        }),
{
    if offset < len - start {
        proof {
            vstd::arithmetic::div_mod::lemma_small_mod((start + offset) as nat, len as nat);
        }
        start + offset
    } else {
        proof {
            vstd::arithmetic::div_mod::lemma_fundamental_div_mod_converse(
                start + offset,
                len as int,
                1,
                start + offset - len,
            );
        }
        offset - (len - start)
    }
}

/// The extent that `entry` of the object `key` stands for.
pub open spec fn extent_of(key: Seq<char>, entry: Entry) -> Extent {
    Extent {
        key,
        id: entry.id,
        range: entry.range@,
        bytes: payload::contents(entry.bytes),
        admitted_at: entry.admitted_at,
    }
}

/// The extents that `refs` refer to, in the same order.
pub open spec fn ring_of(states: Map<Seq<char>, ObjectState>, refs: Seq<Candidate>) -> Seq<Extent> {
    refs.map_values(
        |candidate: Candidate|
            extent_of(candidate.key, states[candidate.key].entries[candidate.start]),
    )
}

/// What the objects remember besides their entries.
pub open spec fn records_of(states: Map<Seq<char>, ObjectState>) -> Map<Seq<char>, ObjectRecord> {
    states.map_values(
        |state: ObjectState|
            ObjectRecord { accesses: state.accesses, generation: state.generation },
    )
}

/// Each entry is registered once, and knows its slot.
pub open spec fn linked(states: Map<Seq<char>, ObjectState>, refs: Seq<Candidate>) -> bool {
    &&& forall|key: Seq<char>| #[trigger] states.contains_key(key) ==> states[key].valid()
    &&& forall|slot: int|
        0 <= slot < refs.len() ==> {
            &&& states.contains_key((#[trigger] refs[slot]).key)
            &&& states[refs[slot].key].entries.contains_key(refs[slot].start)
            &&& states[refs[slot].key].entries[refs[slot].start].id == refs[slot].id
            &&& states[refs[slot].key].entries[refs[slot].start].candidate_slot == slot
        }
    &&& forall|key: Seq<char>, start: u64|
        #![trigger states[key].entries.contains_key(start)]
        states.contains_key(key) && states[key].entries.contains_key(start) ==> {
            let slot = states[key].entries[start].candidate_slot as int;
            &&& slot < refs.len()
            &&& refs[slot].key == key
            &&& refs[slot].start == start
        }
}

/// `states` after the entry at `start` of `key` was taken out.
pub open spec fn without_entry(
    states: Map<Seq<char>, ObjectState>,
    key: Seq<char>,
    start: u64,
) -> Map<Seq<char>, ObjectState> {
    states.insert(
        key,
        ObjectState {
            entries: states[key].entries.remove(start),
            accesses: states[key].accesses,
            generation: states[key].generation.saturating_add(1),
        },
    )
}

/// `states` after the entry that `candidate` refers to moved to `slot`.
pub open spec fn with_slot(
    states: Map<Seq<char>, ObjectState>,
    candidate: Candidate,
    slot: usize,
) -> Map<Seq<char>, ObjectState> {
    let state = states[candidate.key];
    states.insert(
        candidate.key,
        ObjectState {
            entries: state.entries.insert(
                candidate.start,
                Entry { candidate_slot: slot, ..state.entries[candidate.start] },
            ),
            ..state
        },
    )
}

/// `states` and its ring after the entry at `slot` was taken out.
pub open spec fn unlinked(
    states: Map<Seq<char>, ObjectState>,
    refs: Seq<Candidate>,
    slot: usize,
) -> Map<Seq<char>, ObjectState> {
    let taken = without_entry(states, refs[slot as int].key, refs[slot as int].start);
    if slot < refs.len() - 1 {
        with_slot(taken, refs.last(), slot)
    } else {
        taken
    }
}

/// Taking an entry out keeps the rest linked and vacates its slot.
pub proof fn lemma_unlinked(states: Map<Seq<char>, ObjectState>, refs: Seq<Candidate>, slot: usize)
    requires
        linked(states, refs),
        slot < refs.len(),
    ensures
        ({
            let next = unlinked(states, refs, slot);
            let rest = refs.update(slot as int, refs.last()).drop_last();
            let key = refs[slot as int].key;
            &&& linked(next, rest)
            &&& ring_of(next, rest) == vacated(ring_of(states, refs), slot as int)
            &&& next.contains_key(key)
            &&& next[key].accesses == states[key].accesses
            &&& next[key].generation == states[key].generation.saturating_add(1)
            &&& records_of(next) == records_of(states).insert(
                key,
                records_of(states)[key].advanced(),
            )
            &&& (forall|start: u64| !next[key].entries.contains_key(start)) <==> !held(
                ring_of(next, rest),
                key,
            )
            &&& (forall|start: u64| !next[key].entries.contains_key(start)) <==> (forall|start: u64|
                !without_entry(states, key, refs[slot as int].start)[key].entries.contains_key(
                    start,
                ))
        }),
{
    let next = unlinked(states, refs, slot);
    let rest = refs.update(slot as int, refs.last()).drop_last();
    let gone = refs[slot as int];
    let last = refs.last();
    let taken = without_entry(states, gone.key, gone.start);
    let moves = slot < refs.len() - 1;
    assert(states.contains_key(gone.key));
    assert(states.contains_key(last.key));
    // Different slots hold different entries.
    assert forall|one: int, other: int|
        #![trigger refs[one], refs[other]]
        0 <= one < refs.len() && 0 <= other < refs.len() && one != other implies refs[one].key
        != refs[other].key || refs[one].start != refs[other].start by {
        assert(states[refs[one].key].entries[refs[one].start].candidate_slot == one);
        assert(states[refs[other].key].entries[refs[other].start].candidate_slot == other);
    }
    if moves {
        assert(last.key != gone.key || last.start != gone.start);
        assert(taken.contains_key(last.key));
        assert(taken[last.key].entries.contains_key(last.start));
    }
    // Entries other than the one taken out and the one moved stay as they were.
    assert forall|key: Seq<char>, start: u64|
        #![trigger next[key].entries.contains_key(start)]
        states.contains_key(key) implies {
        &&& next.contains_key(key)
        &&& next[key].entries.contains_key(start) <==> states[key].entries.contains_key(start) && !(
        key == gone.key && start == gone.start)
        &&& next[key].entries.contains_key(start) ==> next[key].entries[start] == (if moves && key
            == last.key && start == last.start {
            Entry { candidate_slot: slot, ..states[key].entries[start] }
        } else {
            states[key].entries[start]
        })
    } by {}
    assert forall|key: Seq<char>| #[trigger] next.contains_key(key) implies states.contains_key(
        key,
    ) && next[key].valid() by {
        assert(states[key].valid());
        assert forall|start: u64| #[trigger] next[key].entries.contains_key(start) implies {
            &&& next[key].entries[start].well_formed()
            &&& next[key].entries[start].range@.start == start
        } by {
            assert(states[key].entries.contains_key(start));
        }
        assert forall|start: u64, later: u64|
            #![trigger next[key].entries[start], next[key].entries[later]]
            next[key].entries.contains_key(start) && next[key].entries.contains_key(later) && start
                < later implies next[key].entries[start].range@.end
            < next[key].entries[later].range@.end by {
            assert(states[key].entries.contains_key(start));
            assert(states[key].entries.contains_key(later));
            assert(states[key].entries[start].range@.end < states[key].entries[later].range@.end);
        }
    }
    assert forall|i: int| 0 <= i < rest.len() implies {
        &&& next.contains_key((#[trigger] rest[i]).key)
        &&& next[rest[i].key].entries.contains_key(rest[i].start)
        &&& next[rest[i].key].entries[rest[i].start].id == rest[i].id
        &&& next[rest[i].key].entries[rest[i].start].candidate_slot == i
    } by {
        let from = if i == slot { refs.len() - 1 } else { i };
        assert(rest[i] == refs[from]);
        assert(refs[from].key != gone.key || refs[from].start != gone.start);
        assert(states[rest[i].key].entries.contains_key(rest[i].start));
        assert(next[rest[i].key].entries.contains_key(rest[i].start));
        if moves && rest[i].key == last.key && rest[i].start == last.start {
            assert(from == refs.len() - 1);
        }
    }
    assert forall|key: Seq<char>, start: u64|
        #![trigger next[key].entries.contains_key(start)]
        next.contains_key(key) && next[key].entries.contains_key(start) implies {
        let at = next[key].entries[start].candidate_slot as int;
        &&& at < rest.len()
        &&& rest[at].key == key
        &&& rest[at].start == start
    } by {
        assert(states[key].entries.contains_key(start));
        let was = states[key].entries[start].candidate_slot as int;
        assert(refs[was].key == key && refs[was].start == start);
        assert(was != slot);
        if was == refs.len() - 1 {
            assert(moves);
        } else {
            assert(rest[was] == refs[was]);
        }
    }
    let before = ring_of(states, refs);
    let after = ring_of(next, rest);
    assert forall|i: int| 0 <= i < rest.len() implies #[trigger] after[i] == vacated(
        before,
        slot as int,
    )[i] by {
        let from = if i == slot { refs.len() - 1 } else { i };
        assert(rest[i] == refs[from]);
        assert(next[rest[i].key].entries.contains_key(rest[i].start));
        assert(before.update(slot as int, before.last())[i] == before[from]);
    }
    assert(after =~= vacated(before, slot as int));
    assert(records_of(next) =~= records_of(states).insert(
        gone.key,
        records_of(states)[gone.key].advanced(),
    ));
    if held(after, gone.key) {
        let i = choose|i: int| 0 <= i < after.len() && (#[trigger] after[i]).key == gone.key;
        assert(next[rest[i].key].entries.contains_key(rest[i].start));
    }
    if exists|start: u64| next[gone.key].entries.contains_key(start) {
        let start = choose|start: u64| next[gone.key].entries.contains_key(start);
        let at = next[gone.key].entries[start].candidate_slot as int;
        assert(after[at].key == gone.key);
    }
    assert forall|start: u64| next[gone.key].entries.contains_key(start) <==> taken[gone.key].entries.contains_key(
        start,
    ) by {}
}

/// `states` with `entry` of `key` indexed.
pub open spec fn with_entry(
    states: Map<Seq<char>, ObjectState>,
    key: Seq<char>,
    entry: Entry,
) -> Map<Seq<char>, ObjectState> {
    let state = state_of(states, key);
    states.insert(
        key,
        ObjectState {
            entries: state.entries.insert(entry.range@.start, entry),
            accesses: state.accesses,
            generation: state.generation.saturating_add(1),
        },
    )
}

/// The state of `key`, which is empty for an object not in `states`.
pub open spec fn state_of(states: Map<Seq<char>, ObjectState>, key: Seq<char>) -> ObjectState {
    if states.contains_key(key) {
        states[key]
    } else {
        ObjectState { entries: Map::empty(), accesses: Seq::empty(), generation: 0 }
    }
}

/// Indexing an entry that is registered in the next slot keeps all linked.
pub proof fn lemma_with_entry(
    states: Map<Seq<char>, ObjectState>,
    refs: Seq<Candidate>,
    key: Seq<char>,
    entry: Entry,
)
    requires
        linked(states, refs),
        entry.well_formed(),
        entry.candidate_slot == refs.len(),
        !state_of(states, key).covers(entry.range@),
        forall|start: u64| #[trigger]
            state_of(states, key).entries.contains_key(start) ==> !entry.range@.covers(
                state_of(states, key).entries[start].range@,
            ),
    ensures
        ({
            let next = with_entry(states, key, entry);
            let all = refs.push(Candidate { key, start: entry.range@.start, id: entry.id });
            &&& linked(next, all)
            &&& ring_of(next, all) == ring_of(states, refs).push(extent_of(key, entry))
            &&& records_of(next) == records_of(states).insert(
                key,
                ObjectRecord {
                    accesses: state_of(states, key).accesses,
                    generation: state_of(states, key).generation,
                }.advanced(),
            )
        }),
{
    let next = with_entry(states, key, entry);
    let candidate = Candidate { key, start: entry.range@.start, id: entry.id };
    let all = refs.push(candidate);
    let state = state_of(states, key);
    assert(state.valid());
    assert(!state.entries.contains_key(candidate.start)) by {
        if state.entries.contains_key(candidate.start) {
            let other = state.entries[candidate.start];
            assert(other.range@.start == candidate.start);
            assert(!other.range@.covers(entry.range@));
            assert(!entry.range@.covers(other.range@));
        }
    }
    assert(next[key].valid()) by {
        assert forall|start: u64, later: u64|
            #![trigger next[key].entries[start], next[key].entries[later]]
            next[key].entries.contains_key(start) && next[key].entries.contains_key(later) && start
                < later implies next[key].entries[start].range@.end
            < next[key].entries[later].range@.end by {
            if start == candidate.start {
                assert(state.entries.contains_key(later));
                assert(!entry.range@.covers(state.entries[later].range@));
            } else if later == candidate.start {
                assert(state.entries.contains_key(start));
                assert(!state.entries[start].range@.covers(entry.range@));
            } else {
                assert(state.entries[start].range@.end < state.entries[later].range@.end);
            }
        }
        assert forall|start: u64| #[trigger] next[key].entries.contains_key(start) implies {
            &&& next[key].entries[start].well_formed()
            &&& next[key].entries[start].range@.start == start
        } by {
            if start != candidate.start {
                assert(state.entries.contains_key(start));
            }
        }
    }
    assert forall|i: int| 0 <= i < all.len() implies {
        &&& next.contains_key((#[trigger] all[i]).key)
        &&& next[all[i].key].entries.contains_key(all[i].start)
        &&& next[all[i].key].entries[all[i].start].id == all[i].id
        &&& next[all[i].key].entries[all[i].start].candidate_slot == i
    } by {
        if i < refs.len() {
            assert(all[i] == refs[i]);
        }
    }
    assert forall|other: Seq<char>, start: u64|
        #![trigger next[other].entries.contains_key(start)]
        next.contains_key(other) && next[other].entries.contains_key(start) implies {
        let slot = next[other].entries[start].candidate_slot as int;
        &&& slot < all.len()
        &&& all[slot].key == other
        &&& all[slot].start == start
    } by {
        if other == key && start == candidate.start {
            assert(all[refs.len() as int] == candidate);
        } else {
            assert(states.contains_key(other));
            assert(states[other].entries.contains_key(start));
            let slot = states[other].entries[start].candidate_slot as int;
            assert(all[slot] == refs[slot]);
        }
    }
    let before = ring_of(states, refs);
    let after = ring_of(next, all);
    assert forall|i: int| 0 <= i < all.len() implies #[trigger] after[i] == before.push(
        extent_of(key, entry),
    )[i] by {
        if i < refs.len() {
            assert(all[i] == refs[i]);
            assert(states[refs[i].key].entries.contains_key(refs[i].start));
        }
    }
    assert(after =~= before.push(extent_of(key, entry)));
    assert(records_of(next) =~= records_of(states).insert(
        key,
        ObjectRecord { accesses: state.accesses, generation: state.generation }.advanced(),
    ));
}

/// Changing what an object remembers leaves its entries linked.
pub proof fn lemma_remembered(
    states: Map<Seq<char>, ObjectState>,
    refs: Seq<Candidate>,
    key: Seq<char>,
    state: ObjectState,
)
    requires
        linked(states, refs),
        states.contains_key(key),
        state.entries == states[key].entries,
    ensures
        linked(states.insert(key, state), refs),
        ring_of(states.insert(key, state), refs) == ring_of(states, refs),
        records_of(states.insert(key, state)) == records_of(states).insert(
            key,
            ObjectRecord { accesses: state.accesses, generation: state.generation },
        ),
{
    let next = states.insert(key, state);
    assert(states[key].valid());
    assert(state.valid());
    assert forall|other: Seq<char>| #[trigger] next.contains_key(other) implies next[other].valid()
        && next[other].entries == states[other].entries && states.contains_key(other) by {}
    assert forall|slot: int| 0 <= slot < refs.len() implies {
        &&& next.contains_key((#[trigger] refs[slot]).key)
        &&& next[refs[slot].key].entries == states[refs[slot].key].entries
    } by {}
    assert forall|other: Seq<char>, start: u64|
        #![trigger next[other].entries.contains_key(start)]
        next.contains_key(other) && next[other].entries.contains_key(start) implies {
        let slot = next[other].entries[start].candidate_slot as int;
        &&& slot < refs.len()
        &&& refs[slot].key == other
        &&& refs[slot].start == start
    } by {
        assert(states[other].entries.contains_key(start));
    }
    assert(ring_of(next, refs) =~= ring_of(states, refs));
    assert(records_of(next) =~= records_of(states).insert(
        key,
        ObjectRecord { accesses: state.accesses, generation: state.generation },
    ));
}

/// Forgetting an object without entries leaves the rest linked.
pub proof fn lemma_forgotten(
    states: Map<Seq<char>, ObjectState>,
    refs: Seq<Candidate>,
    key: Seq<char>,
)
    requires
        linked(states, refs),
        states.contains_key(key),
        forall|start: u64| !states[key].entries.contains_key(start),
    ensures
        linked(states.remove(key), refs),
        ring_of(states.remove(key), refs) == ring_of(states, refs),
        records_of(states.remove(key)) == records_of(states).remove(key),
{
    let next = states.remove(key);
    assert forall|slot: int| 0 <= slot < refs.len() implies {
        &&& next.contains_key((#[trigger] refs[slot]).key)
        &&& next[refs[slot].key] == states[refs[slot].key]
    } by {}
    assert forall|other: Seq<char>, start: u64|
        #![trigger next[other].entries.contains_key(start)]
        next.contains_key(other) && next[other].entries.contains_key(start) implies {
        let slot = next[other].entries[start].candidate_slot as int;
        &&& slot < refs.len()
        &&& refs[slot].key == other
        &&& refs[slot].start == start
    } by {
        assert(states[other].entries.contains_key(start));
    }
    assert(ring_of(next, refs) =~= ring_of(states, refs));
    assert(records_of(next) =~= records_of(states).remove(key));
}

} // verus!

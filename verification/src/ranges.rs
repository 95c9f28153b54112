//! The ordered cached ranges of one object.

use bytes::Bytes;
use vstd::prelude::*;

use crate::evidence::{Access, AccessEvidence};
use crate::payload;
use crate::range::{ByteRange, Interval};

verus! {

/// One retained downloaded range.
pub struct Entry {
    /// Monotonic identity used for revalidation and policy tie-breaking.
    pub id: u64,
    /// Exact object interval represented by `bytes`.
    pub range: ByteRange,
    /// Retained payload; lookup results share slices of this allocation.
    pub bytes: Bytes,
    /// Slot in the bounded-work policy candidate ring.
    pub candidate_slot: usize,
    /// Successful-access clock at admission.
    pub admitted_at: u64,
}

impl Entry {
    /// The payload has exactly the length of the non-empty range.
    pub open spec fn well_formed(self) -> bool {
        &&& self.range@.valid()
        &&& payload::contents(self.bytes).len() == self.range@.len()
    }

    /// Returns exactly the requested bytes of the retained payload.
    pub fn requested_bytes(&self, requested_range: ByteRange) -> (bytes: Bytes)
        requires
            self.well_formed(),
            self.range@.covers(requested_range@),
        ensures
            payload::contents(bytes) == part(
                payload::contents(self.bytes),
                self.range@,
                requested_range@,
            ),
    {
        let len = payload::length(&self.bytes);
        let start = (requested_range.start() - self.range.start()) as usize;
        let end = (requested_range.end() - self.range.start()) as usize;
        payload::slice(&self.bytes, start, end)
    }
}

/// The bytes of `wanted` within `bytes`, which hold the offsets of `range`.
pub open spec fn part(bytes: Seq<u8>, range: Interval, wanted: Interval) -> Seq<u8> {
    bytes.subrange(wanted.start - range.start, wanted.end - range.start)
}

/// What one object has cached: its entries by start offset, the accesses it
/// remembers, and the generation of both.
#[verifier::ext_equal]
pub struct ObjectState {
    pub entries: Map<u64, Entry>,
    pub accesses: Seq<Access>,
    pub generation: u64,
}

impl ObjectState {
    /// Each entry stands at its start, and no cached range covers another:
    /// starts and ends both increase.
    pub open spec fn valid(self) -> bool {
        &&& forall|start: u64| #[trigger]
            self.entries.contains_key(start) ==> self.entries[start].well_formed()
                && self.entries[start].range@.start == start
        &&& forall|start: u64, later: u64|
            #![trigger self.entries[start], self.entries[later]]
            self.entries.contains_key(start) && self.entries.contains_key(later) && start < later
                ==> self.entries[start].range@.end < self.entries[later].range@.end
    }

    /// Whether the entry at `start` is the last one that starts at or before `offset`.
    pub open spec fn predecessor(self, start: u64, offset: u64) -> bool {
        &&& self.entries.contains_key(start)
        &&& start <= offset
        &&& forall|other: u64| #[trigger]
            self.entries.contains_key(other) && other <= offset ==> other <= start
    }

    /// Whether some single entry covers `range`.
    pub open spec fn covers(self, range: Interval) -> bool {
        exists|start: u64| #[trigger]
            self.entries.contains_key(start) && self.entries[start].range@.covers(range)
    }

    /// `ranges` lists exactly the cached ranges that `range` covers, ascending.
    pub open spec fn lists_superseded(self, range: Interval, ranges: Seq<Interval>) -> bool {
        &&& forall|i: int|
            0 <= i < ranges.len() ==> {
                &&& self.entries.contains_key((#[trigger] ranges[i]).start)
                &&& self.entries[ranges[i].start].range@ == ranges[i]
                &&& range.covers(ranges[i])
            }
        &&& forall|i: int, j: int|
            0 <= i < j < ranges.len() ==> (#[trigger] ranges[i]).start < (
            #[trigger] ranges[j]).start
        &&& forall|start: u64| #[trigger]
            self.entries.contains_key(start) && range.covers(self.entries[start].range@)
                ==> ranges.contains(self.entries[start].range@)
    }
}

/// Ordered cached downloaded ranges for one cache key.
///
/// No cached range fully contains another. Partial overlaps remain indexed.
/// Because starts and ends both increase, the predecessor of a request start
/// is the only possible covering entry.
pub struct CachedRanges {
    /// Entries ordered by exact start for predecessor-based covering lookup.
    by_start: Vec<Entry>,
    /// Exact access evidence shared by this object's retained extents.
    accesses: AccessEvidence,
    /// Structural and access generation used by copy-outside-lock compaction.
    generation: u64,
}

/// Whether some entry of `list` starts at `start`.
spec fn listed(list: Seq<Entry>, start: u64) -> bool {
    exists|i: int| 0 <= i < list.len() && (#[trigger] list[i]).range@.start == start
}

/// The position of an entry of `list` that starts at `start`.
spec fn position_of(list: Seq<Entry>, start: u64) -> int {
    choose|i: int| 0 <= i < list.len() && (#[trigger] list[i]).range@.start == start
}

/// The entries of `list` by start.
spec fn index_of(list: Seq<Entry>) -> Map<u64, Entry> {
    Map::new(|start: u64| listed(list, start), |start: u64| list[position_of(list, start)])
}

/// Starts and ends both increase along `list`.
spec fn increasing(list: Seq<Entry>) -> bool {
    forall|i: int, j: int|
        0 <= i < j < list.len() ==> (#[trigger] list[i]).range@.start < (
        #[trigger] list[j]).range@.start && list[i].range@.end < list[j].range@.end
}

proof fn lemma_index_at(list: Seq<Entry>, i: int)
    requires
        increasing(list),
        0 <= i < list.len(),
    ensures
        index_of(list).contains_key(list[i].range@.start),
        index_of(list)[list[i].range@.start] == list[i],
{
    let start = list[i].range@.start;
    assert(listed(list, start));
    let p = position_of(list, start);
    if p < i {
        assert(list[p].range@.start < list[i].range@.start);
    } else if p > i {
        assert(list[i].range@.start < list[p].range@.start);
    }
}

proof fn lemma_index_has(list: Seq<Entry>, start: u64) -> (i: int)
    requires
        index_of(list).contains_key(start),
    ensures
        0 <= i < list.len(),
        list[i].range@.start == start,
        index_of(list)[start] == list[i],
{
    position_of(list, start)
}

impl View for CachedRanges {
    type V = ObjectState;

    closed spec fn view(&self) -> ObjectState {
        ObjectState {
            entries: index_of(self.by_start@),
            accesses: self.accesses@,
            generation: self.generation,
        }
    }
}

impl CachedRanges {
    /// The entries are ordered without containment and match their payloads.
    pub closed spec fn well_formed(&self) -> bool {
        &&& increasing(self.by_start@)
        &&& forall|i: int| 0 <= i < self.by_start@.len() ==> (#[trigger] self.by_start@[i]).well_formed()
        &&& self.accesses.well_formed()
    }

    /// Creates the state of an object with nothing cached.
    pub fn new() -> (ranges: Self)
        ensures
            ranges.well_formed(),
            ranges@ == (ObjectState {
                entries: Map::empty(),
                accesses: Seq::empty(),
                generation: 0,
            }),
    {
        let ranges = Self {
            by_start: Vec::new(),
            accesses: AccessEvidence::default(),
            generation: 0,
        };
        assert(ranges@.entries =~= Map::empty());
        ranges
    }

    /// Returns the number of entries that start before `offset`, or at it if `inclusive`.
    fn boundary(&self, offset: u64, inclusive: bool) -> (position: usize)
        requires
            self.well_formed(),
        ensures
            position <= self.by_start@.len(),
            forall|i: int|
                0 <= i < position ==> (#[trigger] self.by_start@[i]).range@.start < offset || (
                inclusive && self.by_start@[i].range@.start == offset),
            forall|i: int|
                position <= i < self.by_start@.len() ==> (#[trigger] self.by_start@[i]).range@.start
                    > offset || (!inclusive && self.by_start@[i].range@.start == offset),
    {
        let mut low: usize = 0;
        let mut high: usize = self.by_start.len();
        while low < high
            invariant
                self.well_formed(),
                low <= high <= self.by_start@.len(),
                forall|i: int|
                    0 <= i < low ==> (#[trigger] self.by_start@[i]).range@.start < offset || (
                    inclusive && self.by_start@[i].range@.start == offset),
                forall|i: int|
                    high <= i < self.by_start@.len() ==> (
                    #[trigger] self.by_start@[i]).range@.start > offset || (!inclusive
                        && self.by_start@[i].range@.start == offset),
            decreases high - low,
        {
            let middle = low + (high - low) / 2;
            let start = self.by_start[middle].range.start();
            if start < offset || (inclusive && start == offset) {
                low = middle + 1;
            } else {
                high = middle;
            }
        }
        low
    }

    /// Returns the entry that starts exactly at `start`.
    pub fn get(&self, start: u64) -> (entry: Option<&Entry>)
        requires
            self.well_formed(),
        ensures
            match entry {
                Some(entry) => self@.entries.contains_key(start) && *entry == self@.entries[start],
                None => !self@.entries.contains_key(start),
            },
    {
        let position = self.boundary(start, false);
        if position < self.by_start.len() && self.by_start[position].range.start() == start {
            proof {
                lemma_index_at(self.by_start@, position as int);
            }
            return Some(&self.by_start[position]);
        }
        proof {
            if self@.entries.contains_key(start) {
                let i = lemma_index_has(self.by_start@, start);
            }
        }
        None
    }

    /// Returns the entry that covers `range`, which is the predecessor of its start.
    pub fn covering(&self, range: ByteRange) -> (entry: Option<&Entry>)
        requires
            self.well_formed(),
        ensures
            match entry {
                Some(entry) => {
                    let start = entry.range@.start;
                    &&& self@.predecessor(start, range@.start)
                    &&& *entry == self@.entries[start]
                    &&& entry.range@.covers(range@)
                    &&& entry.well_formed()
                    &&& self@.covers(range@)
                },
                None => !self@.covers(range@),
            },
    {
        let position = self.boundary(range.start(), true);
        if position > 0 {
            proof {
                lemma_index_at(self.by_start@, position - 1);
            }
            let entry = &self.by_start[position - 1];
            if entry.range.contains(range) {
                proof {
                    let start = entry.range@.start;
                    assert forall|other: u64| #[trigger]
                        self@.entries.contains_key(other) && other <= range@.start implies other
                        <= start by {
                        let i = lemma_index_has(self.by_start@, other);
                        if i < position - 1 {
                            assert(self.by_start@[i].range@.start
                                < self.by_start@[position - 1].range@.start);
                        }
                    }
                    assert(self@.predecessor(start, range@.start));
                    assert(self@.entries.contains_key(start));
                }
                return Some(entry);
            }
        }
        proof {
            if self@.covers(range@) {
                let start = choose|start: u64| #[trigger]
                    self@.entries.contains_key(start) && self@.entries[start].range@.covers(range@);
                let i = lemma_index_has(self.by_start@, start);
                assert(i < position);
                if i < position - 1 {
                    assert(self.by_start@[i].range@.end < self.by_start@[position - 1].range@.end);
                }
            }
        }
        None
    }

    /// Returns whether an entry covers `range` other than the one at `start`.
    pub fn covered_beside(&self, range: ByteRange, start: u64) -> (covered: bool)
        requires
            self.well_formed(),
        ensures
            covered == exists|other: u64| #[trigger]
                self@.entries.contains_key(other) && other != start
                    && self@.entries[other].range@.covers(range@),
    {
        let mut position: usize = 0;
        while position < self.by_start.len()
            invariant
                position <= self.by_start@.len(),
                self.well_formed(),
                forall|i: int|
                    0 <= i < position ==> (#[trigger] self.by_start@[i]).range@.start == start
                        || !self.by_start@[i].range@.covers(range@),
            decreases self.by_start.len() - position,
        {
            let entry = &self.by_start[position];
            if entry.range.start() != start && entry.range.contains(range) {
                proof {
                    lemma_index_at(self.by_start@, position as int);
                    assert(self@.entries.contains_key(entry.range@.start));
                }
                return true;
            }
            position += 1;
        }
        proof {
            assert forall|other: u64| #[trigger] self@.entries.contains_key(other) && other
                != start implies !self@.entries[other].range@.covers(range@) by {
                let i = lemma_index_has(self.by_start@, other);
            }
        }
        false
    }

    /// Lists the entries that `range` covers, ascending by start.
    pub fn superseded_by(&self, range: ByteRange) -> (ranges: Vec<ByteRange>)
        requires
            self.well_formed(),
        ensures
            self@.lists_superseded(range@, crate::compaction::intervals_of(ranges@)),
    {
        let mut ranges: Vec<ByteRange> = Vec::new();
        let mut position = self.boundary(range.start(), false);
        let ghost from = position;
        while position < self.by_start.len() && self.by_start[position].range.start() < range.end()
            invariant
                self.well_formed(),
                from <= position <= self.by_start@.len(),
                forall|i: int|
                    0 <= i < ranges@.len() ==> {
                        &&& self@.entries.contains_key((#[trigger] ranges@[i])@.start)
                        &&& self@.entries[ranges@[i]@.start].range@ == ranges@[i]@
                        &&& range@.covers(ranges@[i]@)
                    },
                forall|i: int, j: int|
                    0 <= i < j < ranges@.len() ==> (#[trigger] ranges@[i])@.start < (
                    #[trigger] ranges@[j])@.start,
                forall|i: int, j: int|
                    0 <= i < ranges@.len() && position <= j < self.by_start@.len() ==> (
                    #[trigger] ranges@[i])@.start < (#[trigger] self.by_start@[j]).range@.start,
                forall|i: int|
                    from <= i < position && range@.covers((#[trigger] self.by_start@[i]).range@)
                        ==> ranges@.contains(self.by_start@[i].range),
            decreases self.by_start.len() - position,
        {
            let entry = &self.by_start[position];
            let ghost before = ranges@;
            proof {
                lemma_index_at(self.by_start@, position as int);
                assert forall|j: int| position < j < self.by_start@.len() implies entry.range@.start
                    < (#[trigger] self.by_start@[j]).range@.start by {}
            }
            if range.contains(entry.range) {
                ranges.push(entry.range);
                proof {
                    assert forall|i: int|
                        from <= i < position + 1 && range@.covers(
                            (#[trigger] self.by_start@[i]).range@,
                        ) implies ranges@.contains(self.by_start@[i].range) by {
                        if i == position {
                            assert(ranges@[before.len() as int] == self.by_start@[i].range);
                        } else {
                            let k = choose|k: int|
                                0 <= k < before.len() && before[k] == self.by_start@[i].range;
                            assert(ranges@[k] == before[k]);
                        }
                    }
                }
            }
            position += 1;
        }
        proof {
            let listed_ranges = crate::compaction::intervals_of(ranges@);
            assert forall|start: u64| #[trigger]
                self@.entries.contains_key(start) && range@.covers(
                    self@.entries[start].range@,
                ) implies listed_ranges.contains(self@.entries[start].range@) by {
                let i = lemma_index_has(self.by_start@, start);
                assert(self.by_start@[i].well_formed());
                if position < self.by_start@.len() && i >= position {
                    if i > position {
                        assert(self.by_start@[position as int].range@.start
                            < self.by_start@[i].range@.start);
                    }
                }
                assert(ranges@.contains(self.by_start@[i].range));
                let k = choose|k: int| 0 <= k < ranges@.len() && ranges@[k] == self.by_start@[i].range;
                assert(listed_ranges[k] == self@.entries[start].range@);
            }
        }
        ranges
    }

    /// Indexes one entry that neither covers nor is covered by another.
    pub fn insert(&mut self, entry: Entry)
        requires
            old(self).well_formed(),
            entry.well_formed(),
            !old(self)@.covers(entry.range@),
            forall|start: u64| #[trigger]
                old(self)@.entries.contains_key(start) ==> !entry.range@.covers(
                    old(self)@.entries[start].range@,
                ),
        ensures
            final(self).well_formed(),
            !old(self)@.entries.contains_key(entry.range@.start),
            final(self)@ == (ObjectState {
                entries: old(self)@.entries.insert(entry.range@.start, entry),
                accesses: old(self)@.accesses,
                generation: old(self)@.generation.saturating_add(1),
            }),
    {
        let ghost before = self.by_start@;
        let ghost state = self@;
        let start = entry.range.start();
        let position = self.boundary(start, false);
        proof {
            assert forall|i: int| 0 <= i < before.len() implies {
                &&& i < position ==> (#[trigger] before[i]).range@.start < entry.range@.start
                    && before[i].range@.end < entry.range@.end
                &&& i >= position ==> entry.range@.start < before[i].range@.start
                    && entry.range@.end < before[i].range@.end
            } by {
                lemma_index_at(before, i);
                assert(state.entries.contains_key(before[i].range@.start));
                assert(before[i].well_formed());
            }
        }
        self.by_start.insert(position, entry);
        self.generation = self.generation.saturating_add(1);
        proof {
            let after = self.by_start@;
            assert(after =~= before.insert(position as int, entry));
            assert(increasing(after)) by {
                assert forall|i: int, j: int| 0 <= i < j < after.len() implies (
                #[trigger] after[i]).range@.start < (#[trigger] after[j]).range@.start
                    && after[i].range@.end < after[j].range@.end by {
                    let from = if i < position { i } else { i - 1 };
                    let to = if j < position { j } else { j - 1 };
                    if i != position && j != position {
                        assert(before[from].range@.start < before[to].range@.start);
                    } else if i == position {
                        assert(after[j] == before[to]);
                    } else {
                        assert(after[i] == before[from]);
                    }
                }
            }
            assert forall|i: int| 0 <= i < after.len() implies (
            #[trigger] after[i]).well_formed() by {
                let from = if i < position { i } else { i - 1 };
                if i != position {
                    assert(before[from].well_formed());
                }
            }
            assert(!state.entries.contains_key(start)) by {
                if state.entries.contains_key(start) {
                    let i = lemma_index_has(before, start);
                }
            }
            let expected = state.entries.insert(start, entry);
            assert forall|s: u64| self@.entries.contains_key(s) <==> expected.contains_key(s) by {
                if self@.entries.contains_key(s) {
                    let i = lemma_index_has(after, s);
                    if i != position {
                        lemma_index_at(before, if i < position { i } else { i - 1 });
                    }
                }
                if expected.contains_key(s) {
                    if s == start {
                        lemma_index_at(after, position as int);
                    } else {
                        let i = lemma_index_has(before, s);
                        lemma_index_at(after, if i < position { i } else { i + 1 });
                    }
                }
            }
            assert forall|s: u64| #[trigger] self@.entries.contains_key(s) implies self@.entries[s]
                == expected[s] by {
                let i = lemma_index_has(after, s);
                if i != position {
                    lemma_index_at(before, if i < position { i } else { i - 1 });
                }
            }
            assert(self@.entries =~= expected);
        }
    }

    /// Takes out the entry that starts exactly at `start`.
    pub fn remove(&mut self, start: u64) -> (entry: Entry)
        requires
            old(self).well_formed(),
            old(self)@.entries.contains_key(start),
        ensures
            final(self).well_formed(),
            entry == old(self)@.entries[start],
            entry.well_formed(),
            final(self)@ == (ObjectState {
                entries: old(self)@.entries.remove(start),
                accesses: old(self)@.accesses,
                generation: old(self)@.generation.saturating_add(1),
            }),
    {
        let ghost before = self.by_start@;
        let ghost state = self@;
        let position = self.boundary(start, false);
        proof {
            let i = lemma_index_has(before, start);
            if i > position {
                assert(before[position as int].range@.start < before[i].range@.start);
            }
            assert(i == position);
        }
        let entry = self.by_start.remove(position);
        self.generation = self.generation.saturating_add(1);
        proof {
            let after = self.by_start@;
            assert(increasing(after)) by {
                assert forall|i: int, j: int| 0 <= i < j < after.len() implies (
                #[trigger] after[i]).range@.start < (#[trigger] after[j]).range@.start
                    && after[i].range@.end < after[j].range@.end by {
                    let from = if i < position { i } else { i + 1 };
                    let to = if j < position { j } else { j + 1 };
                    assert(before[from].range@.start < before[to].range@.start);
                }
            }
            assert forall|i: int| 0 <= i < after.len() implies (
            #[trigger] after[i]).well_formed() by {
                assert(before[if i < position { i } else { i + 1 }].well_formed());
            }
            let expected = state.entries.remove(start);
            assert forall|s: u64| self@.entries.contains_key(s) <==> expected.contains_key(s) by {
                if self@.entries.contains_key(s) {
                    let i = lemma_index_has(after, s);
                    let from = if i < position { i } else { i + 1 };
                    lemma_index_at(before, from);
                    if s == start {
                        if from < position {
                            assert(before[from].range@.start < before[position as int].range@.start);
                        } else {
                            assert(before[position as int].range@.start < before[from].range@.start);
                        }
                    }
                }
                if expected.contains_key(s) {
                    let i = lemma_index_has(before, s);
                    lemma_index_at(after, if i < position { i } else { i - 1 });
                }
            }
            assert forall|s: u64| #[trigger] self@.entries.contains_key(s) implies self@.entries[s]
                == expected[s] by {
                let i = lemma_index_has(after, s);
                lemma_index_at(before, if i < position { i } else { i + 1 });
            }
            assert(self@.entries =~= expected);
        }
        entry
    }

    /// Points the entry that starts at `start` to another candidate slot.
    pub fn move_to_slot(&mut self, start: u64, slot: usize)
        requires
            old(self).well_formed(),
            old(self)@.entries.contains_key(start),
        ensures
            final(self).well_formed(),
            final(self)@ == (ObjectState {
                entries: old(self)@.entries.insert(
                    start,
                    Entry { candidate_slot: slot, ..old(self)@.entries[start] },
                ),
                ..old(self)@
            }),
    {
        let ghost before = self.by_start@;
        let ghost state = self@;
        let position = self.boundary(start, false);
        proof {
            let i = lemma_index_has(before, start);
            if i > position {
                assert(before[position as int].range@.start < before[i].range@.start);
            }
            assert(i == position);
        }
        self.by_start[position].candidate_slot = slot;
        proof {
            let after = self.by_start@;
            let moved = Entry { candidate_slot: slot, ..before[position as int] };
            assert(after =~= before.update(position as int, moved));
            assert(increasing(after)) by {
                assert forall|i: int, j: int| 0 <= i < j < after.len() implies (
                #[trigger] after[i]).range@.start < (#[trigger] after[j]).range@.start
                    && after[i].range@.end < after[j].range@.end by {
                    assert(before[i].range@.start < before[j].range@.start);
                }
            }
            assert forall|i: int| 0 <= i < after.len() implies (
            #[trigger] after[i]).well_formed() by {
                assert(before[i].well_formed());
            }
            let expected = state.entries.insert(start, moved);
            assert forall|s: u64| self@.entries.contains_key(s) <==> expected.contains_key(s) by {
                if self@.entries.contains_key(s) {
                    let i = lemma_index_has(after, s);
                    lemma_index_at(before, i);
                }
                if expected.contains_key(s) {
                    let i = lemma_index_has(before, s);
                    lemma_index_at(after, i);
                }
            }
            assert forall|s: u64| #[trigger] self@.entries.contains_key(s) implies self@.entries[s]
                == expected[s] by {
                let i = lemma_index_has(after, s);
                lemma_index_at(before, i);
            }
            assert(self@.entries =~= expected);
        }
    }

    /// Records one exact request and starts a new generation.
    pub fn observe(&mut self, requested: ByteRange, access_clock: u64)
        requires
            old(self).well_formed(),
        ensures
            final(self).well_formed(),
            final(self)@ == (ObjectState {
                entries: old(self)@.entries,
                accesses: crate::evidence::recorded(
                    old(self)@.accesses,
                    requested@,
                    access_clock,
                ),
                generation: old(self)@.generation.saturating_add(1),
            }),
    {
        self.generation = self.generation.saturating_add(1);
        self.accesses.record(requested, access_clock);
    }

    /// Returns whether nothing is cached.
    pub fn is_empty(&self) -> (empty: bool)
        requires
            self.well_formed(),
        ensures
            empty == (forall|start: u64| !self@.entries.contains_key(start)),
            empty == (self@.entries =~= Map::empty()),
    {
        let empty = self.by_start.len() == 0;
        proof {
            if !empty {
                lemma_index_at(self.by_start@, 0);
                assert(self@.entries.contains_key(self.by_start@[0].range@.start));
            }
        }
        empty
    }

    /// Returns the access evidence.
    pub fn accesses(&self) -> (accesses: &AccessEvidence)
        requires
            self.well_formed(),
        ensures
            accesses@ == self@.accesses,
            accesses.well_formed(),
    {
        &self.accesses
    }

    /// Returns the current generation.
    pub fn generation(&self) -> (generation: u64)
        ensures
            generation == self@.generation,
    {
        self.generation
    }
}

} // verus!

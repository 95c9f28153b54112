//! How the shard model's operations keep it valid and change its usage.

use vstd::prelude::*;

use crate::compaction::{separated, total_len};
use crate::range::Interval;
use crate::shard_state::{held, payload_of, vacated, Extent, Fragment, ShardState};

verus! {

pub proof fn lemma_payload_update(ring: Seq<Extent>, slot: int, extent: Extent)
    requires
        0 <= slot < ring.len(),
    ensures
        payload_of(ring.update(slot, extent)) == payload_of(ring) - ring[slot].range.len()
            + extent.range.len(),
    decreases ring.len(),
{
    let updated = ring.update(slot, extent);
    if slot == ring.len() - 1 {
        assert(updated.drop_last() =~= ring.drop_last());
    } else {
        assert(updated.drop_last() =~= ring.drop_last().update(slot, extent));
        lemma_payload_update(ring.drop_last(), slot, extent);
    }
}

pub proof fn lemma_payload_push(ring: Seq<Extent>, extent: Extent)
    ensures
        payload_of(ring.push(extent)) == payload_of(ring) + extent.range.len(),
{
    assert(ring.push(extent).drop_last() =~= ring);
}

/// Every extent counts, so the payload is at least each one's length and at
/// least their number.
pub proof fn lemma_payload_bounds(ring: Seq<Extent>)
    requires
        forall|slot: int| 0 <= slot < ring.len() ==> (#[trigger] ring[slot]).range.valid(),
    ensures
        payload_of(ring) >= ring.len(),
        forall|slot: int|
            0 <= slot < ring.len() ==> (#[trigger] ring[slot]).range.len() <= payload_of(ring),
    decreases ring.len(),
{
    if ring.len() > 0 {
        let rest = ring.drop_last();
        lemma_payload_bounds(rest);
        assert(ring.last().range.valid());
        assert forall|slot: int| 0 <= slot < ring.len() implies (#[trigger] ring[slot]).range.len()
            <= payload_of(ring) by {
            if slot < rest.len() {
                assert(rest[slot] == ring[slot]);
            }
        }
    }
}

pub proof fn lemma_vacated(ring: Seq<Extent>, slot: int)
    requires
        0 <= slot < ring.len(),
    ensures
        vacated(ring, slot).len() == ring.len() - 1,
        forall|other: int|
            0 <= other < ring.len() - 1 ==> #[trigger] vacated(ring, slot)[other] == (if other
                == slot {
                ring[ring.len() - 1]
            } else {
                ring[other]
            }),
        payload_of(vacated(ring, slot)) == payload_of(ring) - ring[slot].range.len(),
{
    lemma_payload_update(ring, slot, ring.last());
    let updated = ring.update(slot, ring.last());
    assert(updated.last() == ring.last());
}

/// The ranges of `fragments`.
pub open spec fn ranges_of(fragments: Seq<Fragment>) -> Seq<Interval> {
    fragments.map_values(|fragment: Fragment| fragment.range)
}

pub proof fn lemma_total_len_front(intervals: Seq<Interval>)
    requires
        intervals.len() > 0,
    ensures
        total_len(intervals) == intervals[0].len() + total_len(intervals.drop_first()),
    decreases intervals.len(),
{
    if intervals.len() == 1 {
        assert(intervals.drop_last() =~= Seq::<Interval>::empty());
        assert(intervals.drop_first() =~= Seq::<Interval>::empty());
    } else {
        lemma_total_len_front(intervals.drop_last());
        assert(intervals.drop_first().drop_last() =~= intervals.drop_last().drop_first());
        assert(intervals.drop_first().last() == intervals.last());
    }
}

impl ShardState {
    pub proof fn lemma_detached(self, slot: int, preserve: bool)
        requires
            self.valid(),
            0 <= slot < self.ring.len(),
        ensures
            self.detached(slot, preserve).valid(),
            self.detached(slot, preserve).used() == self.used() - self.ring[slot].range.len(),
            self.detached(slot, preserve).used() >= 0,
    {
        let next = self.detached(slot, preserve);
        let key = self.ring[slot].key;
        lemma_vacated(self.ring, slot);
        assert forall|other: int| 0 <= other < next.ring.len() implies {
            &&& (#[trigger] next.ring[other]).valid()
            &&& next.ring[other].id <= next.last_id
            &&& next.ring[other].admitted_at <= next.clock
            &&& next.objects.contains_key(next.ring[other].key)
        } by {
            let from = if other == slot { self.ring.len() - 1 } else { other };
            assert(next.ring[other] == self.ring[from]);
            if next.ring[other].key == key {
                assert(held(next.ring, key));
            }
        }
        assert forall|one: int, other: int|
            #![trigger next.ring[one], next.ring[other]]
            0 <= one < next.ring.len() && 0 <= other < next.ring.len() && one != other implies {
            &&& next.ring[one].id != next.ring[other].id
            &&& next.ring[one].key == next.ring[other].key ==> !next.ring[one].range.covers(
                next.ring[other].range,
            )
        } by {
            let from = if one == slot { self.ring.len() - 1 } else { one };
            let to = if other == slot { self.ring.len() - 1 } else { other };
            assert(next.ring[one] == self.ring[from]);
            assert(next.ring[other] == self.ring[to]);
        }
        lemma_payload_bounds(next.ring);
        if next.ring.len() > 0 {
            vstd::arithmetic::div_mod::lemma_mod_bound(self.cursor, next.ring.len() as int);
        }
    }

    /// At most one extent of an object is exactly a given range.
    pub proof fn lemma_exact_unique(self, slot: int, key: Seq<char>, range: Interval)
        requires
            self.valid(),
            self.exact_at(slot, key, range),
        ensures
            self.slot_of(key, range) == slot,
    {
        let other = self.slot_of(key, range);
        assert(self.exact_at(other, key, range));
        if other != slot {
            assert(!self.ring[slot].range.covers(self.ring[other].range));
        }
    }

    pub proof fn lemma_attached(self, key: Seq<char>, range: Interval, bytes: Seq<u8>)
        requires
            self.valid(),
            range.valid(),
            bytes.len() == range.len(),
            self.last_id < u64::MAX,
            !self.covered(key, range),
            forall|slot: int| !#[trigger] self.superseded(slot, key, range),
        ensures
            self.attached(key, range, bytes).valid(),
            self.attached(key, range, bytes).used() == self.used() + range.len(),
    {
        let next = self.attached(key, range, bytes);
        let last = self.ring.len() as int;
        lemma_payload_push(self.ring, next.ring[last]);
        assert forall|one: int, other: int|
            #![trigger next.ring[one], next.ring[other]]
            0 <= one < next.ring.len() && 0 <= other < next.ring.len() && one != other implies {
            &&& next.ring[one].id != next.ring[other].id
            &&& next.ring[one].key == next.ring[other].key ==> !next.ring[one].range.covers(
                next.ring[other].range,
            )
        } by {
            if one < last {
                assert(next.ring[one] == self.ring[one]);
            }
            if other < last {
                assert(next.ring[other] == self.ring[other]);
            }
            if one == last {
                assert(!self.superseded(other, key, range));
            } else if other == last {
                assert(!self.covers_at(one, key, range));
            }
        }
        assert forall|slot: int| 0 <= slot < next.ring.len() implies {
            &&& (#[trigger] next.ring[slot]).valid()
            &&& next.ring[slot].id <= next.last_id
            &&& next.ring[slot].admitted_at <= next.clock
            &&& next.objects.contains_key(next.ring[slot].key)
        } by {
            if slot < last {
                assert(next.ring[slot] == self.ring[slot]);
            }
        }
    }

    /// A lookup keeps the shard valid and every extent as it is.
    pub proof fn lemma_looked_up(self, key: Seq<char>, requested: Interval)
        requires
            self.valid(),
        ensures
            self.looked_up(key, requested).valid(),
            self.looked_up(key, requested).ring == self.ring,
            self.looked_up(key, requested).last_id == self.last_id,
    {
        self.lemma_accessed(key, requested);
        let next = self.looked_up(key, requested);
        assert forall|one: int, other: int|
            #![trigger next.ring[one], next.ring[other]]
            0 <= one < next.ring.len() && 0 <= other < next.ring.len() && one != other implies {
            &&& next.ring[one].id != next.ring[other].id
            &&& next.ring[one].key == next.ring[other].key ==> !next.ring[one].range.covers(
                next.ring[other].range,
            )
        } by {
            assert(self.ring[one].id != self.ring[other].id);
        }
    }

    pub proof fn lemma_accessed(self, key: Seq<char>, requested: Interval)
        requires
            self.valid(),
        ensures
            self.accessed(key, requested).valid(),
            self.accessed(key, requested).ring == self.ring,
    {
        let next = self.accessed(key, requested);
        assert forall|slot: int| 0 <= slot < next.ring.len() implies {
            &&& (#[trigger] next.ring[slot]).valid()
            &&& next.ring[slot].id <= next.last_id
            &&& next.ring[slot].admitted_at <= next.clock
            &&& next.objects.contains_key(next.ring[slot].key)
        } by {
            assert(next.ring[slot] == self.ring[slot]);
        }
        assert forall|one: int, other: int|
            #![trigger next.ring[one], next.ring[other]]
            0 <= one < next.ring.len() && 0 <= other < next.ring.len() && one != other implies {
            &&& next.ring[one].id != next.ring[other].id
            &&& next.ring[one].key == next.ring[other].key ==> !next.ring[one].range.covers(
                next.ring[other].range,
            )
        } by {
            assert(self.ring[one].id != self.ring[other].id);
        }
    }

    pub proof fn lemma_rotated(self)
        requires
            self.valid(),
        ensures
            self.rotated().valid(),
            self.rotated().used() == self.used(),
    {
        let next = self.rotated();
        if self.ring.len() > 0 {
            vstd::arithmetic::div_mod::lemma_mod_bound(
                self.cursor + (if self.ring.len() < 64 { self.ring.len() as int } else { 64 }),
                self.ring.len() as int,
            );
        }
        assert forall|one: int, other: int|
            #![trigger next.ring[one], next.ring[other]]
            0 <= one < next.ring.len() && 0 <= other < next.ring.len() && one != other implies {
            &&& next.ring[one].id != next.ring[other].id
            &&& next.ring[one].key == next.ring[other].key ==> !next.ring[one].range.covers(
                next.ring[other].range,
            )
        } by {
            assert(self.ring[one].id != self.ring[other].id);
        }
    }

    /// Among superseded extents one starts first.
    proof fn lemma_first_superseded(self, key: Seq<char>, range: Interval, some: int)
        requires
            self.superseded(some, key, range),
        ensures
            exists|slot: int| #[trigger] self.first_superseded(slot, key, range),
        decreases self.ring[some].range.start,
    {
        if !self.first_superseded(some, key, range) {
            let other = choose|other: int| #[trigger]
                self.superseded(other, key, range) && self.ring[other].range.start
                    < self.ring[some].range.start;
            self.lemma_first_superseded(key, range, other);
        }
    }

    pub proof fn lemma_cleared(self, key: Seq<char>, range: Interval)
        requires
            self.valid(),
        ensures
            self.cleared(key, range).valid(),
            0 <= self.cleared(key, range).used() <= self.used(),
            self.cleared(key, range).ring.len() <= self.ring.len(),
            self.cleared(key, range).ring.len() == self.ring.len() ==> self.cleared(key, range)
                == self,
            self.cleared(key, range).capacity == self.capacity,
            self.cleared(key, range).compaction == self.compaction,
            self.cleared(key, range).clock == self.clock,
            self.cleared(key, range).last_id == self.last_id,
            self.cleared(key, range).metrics == self.metrics,
            forall|slot: int| !#[trigger] self.cleared(key, range).superseded(slot, key, range),
            forall|slot: int|
                0 <= slot < self.cleared(key, range).ring.len() ==> self.ring.contains(
                    #[trigger] self.cleared(key, range).ring[slot],
                ),
            forall|slot: int|
                0 <= slot < self.ring.len() && !self.superseded(slot, key, range)
                    ==> self.cleared(key, range).ring.contains(#[trigger] self.ring[slot]),
            self.cleared(key, range).covered(key, range) ==> self.covered(key, range),
        decreases self.ring.len(),
    {
        let result = self.cleared(key, range);
        if exists|slot: int| #[trigger] self.first_superseded(slot, key, range) {
            let slot = choose|slot: int| #[trigger] self.first_superseded(slot, key, range);
            let next = self.detached(slot, true);
            self.lemma_detached(slot, true);
            lemma_vacated(self.ring, slot);
            next.lemma_cleared(key, range);
            lemma_payload_bounds(self.ring);
            assert forall|i: int| 0 <= i < result.ring.len() implies self.ring.contains(
                #[trigger] result.ring[i],
            ) by {
                assert(next.ring.contains(result.ring[i]));
                let j = choose|j: int| 0 <= j < next.ring.len() && next.ring[j] == result.ring[i];
                let from = if j == slot { self.ring.len() - 1 } else { j };
                assert(self.ring[from] == next.ring[j]);
            }
            assert forall|i: int|
                0 <= i < self.ring.len() && !self.superseded(i, key, range) implies result.ring.contains(
                #[trigger] self.ring[i],
            ) by {
                let to = if i == self.ring.len() - 1 { slot } else { i };
                assert(next.ring[to] == self.ring[i]);
                assert(!next.superseded(to, key, range));
            }
        } else {
            assert forall|slot: int| !#[trigger] self.superseded(slot, key, range) by {
                if self.superseded(slot, key, range) {
                    self.lemma_first_superseded(key, range, slot);
                }
            }
            lemma_payload_bounds(self.ring);
        }
        if result.covered(key, range) {
            let i = choose|i: int| #[trigger] result.covers_at(i, key, range);
            assert(self.ring.contains(result.ring[i]));
            let j = choose|j: int| 0 <= j < self.ring.len() && self.ring[j] == result.ring[i];
            assert(self.covers_at(j, key, range));
        }
    }

    /// `list` holds exactly the ranges that `range` of `key` supersedes, ascending.
    pub open spec fn lists(self, key: Seq<char>, range: Interval, list: Seq<Interval>) -> bool {
        &&& forall|i: int|
            0 <= i < list.len() ==> self.exact_at(
                self.slot_of(key, #[trigger] list[i]),
                key,
                list[i],
            ) && range.covers(list[i])
        &&& forall|i: int, j: int|
            0 <= i < j < list.len() ==> (#[trigger] list[i]).start < (#[trigger] list[j]).start
        &&& forall|slot: int| #[trigger]
            self.superseded(slot, key, range) ==> list.contains(self.ring[slot].range)
    }

    /// The first listed extent is detached next, and the rest stay listed.
    pub proof fn lemma_clear_step(self, key: Seq<char>, range: Interval, list: Seq<Interval>)
        requires
            self.valid(),
            self.lists(key, range, list),
            list.len() > 0,
        ensures
            self.superseded(self.slot_of(key, list[0]), key, range),
            self.cleared(key, range) == self.detached(self.slot_of(key, list[0]), true).cleared(
                key,
                range,
            ),
            self.detached(self.slot_of(key, list[0]), true).lists(key, range, list.drop_first()),
    {
        let slot = self.slot_of(key, list[0]);
        let next = self.detached(slot, true);
        let rest = list.drop_first();
        assert(self.exact_at(slot, key, list[0]));
        assert(self.superseded(slot, key, range));
        assert forall|other: int| #[trigger] self.superseded(other, key, range) implies self.ring[slot].range.start
            <= self.ring[other].range.start by {
            assert(list.contains(self.ring[other].range));
            let i = choose|i: int| 0 <= i < list.len() && list[i] == self.ring[other].range;
            if i > 0 {
                assert(list[0].start < list[i].start);
            }
        }
        assert(self.first_superseded(slot, key, range));
        let chosen = choose|chosen: int| #[trigger] self.first_superseded(chosen, key, range);
        assert(self.first_superseded(chosen, key, range));
        if chosen != slot {
            assert(self.superseded(chosen, key, range));
            assert(self.ring[slot].range.start == self.ring[chosen].range.start);
            assert(!self.ring[slot].range.covers(self.ring[chosen].range));
            assert(!self.ring[chosen].range.covers(self.ring[slot].range));
        }
        self.lemma_detached(slot, true);
        lemma_vacated(self.ring, slot);
        assert forall|i: int| 0 <= i < rest.len() implies next.exact_at(
            next.slot_of(key, #[trigger] rest[i]),
            key,
            rest[i],
        ) && range.covers(rest[i]) by {
            assert(rest[i] == list[i + 1]);
            assert(list[0].start < list[i + 1].start);
            let at = self.slot_of(key, rest[i]);
            assert(self.exact_at(at, key, list[i + 1]));
            let to = if at == self.ring.len() - 1 { slot } else { at };
            assert(next.ring[to] == self.ring[at]);
            assert(next.exact_at(to, key, rest[i]));
        }
        assert forall|i: int, j: int| 0 <= i < j < rest.len() implies (#[trigger] rest[i]).start < (
        #[trigger] rest[j]).start by {
            assert(list[i + 1].start < list[j + 1].start);
        }
        assert forall|other: int| #[trigger] next.superseded(other, key, range) implies rest.contains(
            next.ring[other].range,
        ) by {
            let from = if other == slot { self.ring.len() - 1 } else { other };
            assert(next.ring[other] == self.ring[from]);
            assert(self.superseded(from, key, range));
            let i = choose|i: int| 0 <= i < list.len() && list[i] == self.ring[from].range;
            if i == 0 {
                assert(from != slot);
                assert(!self.ring[slot].range.covers(self.ring[from].range));
            }
            assert(rest[i - 1] == list[i]);
        }
    }

    /// With nothing listed, nothing is superseded.
    pub proof fn lemma_clear_done(self, key: Seq<char>, range: Interval)
        requires
            self.lists(key, range, Seq::empty()),
        ensures
            self.cleared(key, range) == self,
    {
        if exists|slot: int| #[trigger] self.first_superseded(slot, key, range) {
            let slot = choose|slot: int| #[trigger] self.first_superseded(slot, key, range);
            assert(self.superseded(slot, key, range));
            assert(Seq::<Interval>::empty().contains(self.ring[slot].range));
        }
    }

    /// Whether `fragments` of `key` can be attached one by one: they are valid
    /// and separated, and cover no extent of the object.
    pub open spec fn accepts(self, key: Seq<char>, fragments: Seq<Fragment>) -> bool {
        &&& self.valid()
        &&& separated(ranges_of(fragments))
        &&& self.last_id + self.attachments(key, fragments) <= u64::MAX
        &&& forall|i: int|
            0 <= i < fragments.len() ==> (#[trigger] fragments[i]).bytes.len()
                == fragments[i].range.len()
        &&& forall|i: int, slot: int|
            #![trigger fragments[i], self.ring[slot]]
            0 <= i < fragments.len() ==> !self.superseded(slot, key, fragments[i].range)
    }

    /// The shard after the first of `fragments` was attached unless covered.
    pub open spec fn republished_first(
        self,
        key: Seq<char>,
        fragments: Seq<Fragment>,
    ) -> ShardState {
        if self.covered(key, fragments[0].range) {
            self
        } else {
            self.attached(key, fragments[0].range, fragments[0].bytes)
        }
    }

    pub proof fn lemma_republish_step(self, key: Seq<char>, fragments: Seq<Fragment>)
        requires
            self.accepts(key, fragments),
            fragments.len() > 0,
        ensures
            fragments[0].range.valid(),
            forall|slot: int| !#[trigger] self.superseded(slot, key, fragments[0].range),
            self.republished_first(key, fragments).accepts(key, fragments.drop_first()),
            self.republished(key, fragments) == self.republished_first(key, fragments).republished(
                key,
                fragments.drop_first(),
            ),
            self.republished_first(key, fragments).used() == self.used() + (if self.covered(
                key,
                fragments[0].range,
            ) {
                0
            } else {
                fragments[0].range.len()
            }),
            total_len(ranges_of(fragments)) == fragments[0].range.len() + total_len(
                ranges_of(fragments.drop_first()),
            ),
    {
        let next = self.republished_first(key, fragments);
        let rest = fragments.drop_first();
        let ranges = ranges_of(fragments);
        assert(ranges[0] == fragments[0].range);
        assert(ranges[0].valid());
        assert forall|slot: int| !#[trigger] self.superseded(slot, key, fragments[0].range) by {
            if self.superseded(slot, key, fragments[0].range) {
                let extent = self.ring[slot];
            }
        }
        if !self.covered(key, fragments[0].range) {
            self.lemma_attached(key, fragments[0].range, fragments[0].bytes);
        }
        assert(ranges_of(rest) =~= ranges.drop_first());
        lemma_total_len_front(ranges);
        assert(separated(ranges_of(rest))) by {
            assert forall|i: int| 0 <= i < ranges_of(rest).len() implies (
            #[trigger] ranges_of(rest)[i]).valid() by {
                assert(ranges_of(rest)[i] == ranges[i + 1]);
            }
            assert forall|i: int, j: int| 0 <= i < j < ranges_of(rest).len() implies (
            #[trigger] ranges_of(rest)[i]).end < (#[trigger] ranges_of(rest)[j]).start by {
                assert(ranges[i + 1].end < ranges[j + 1].start);
            }
        }
        assert forall|i: int| 0 <= i < rest.len() implies (#[trigger] rest[i]).bytes.len()
            == rest[i].range.len() by {
            assert(rest[i] == fragments[i + 1]);
        }
        assert forall|i: int, slot: int|
            #![trigger rest[i], next.ring[slot]]
            0 <= i < rest.len() implies !next.superseded(slot, key, rest[i].range) by {
            assert(rest[i] == fragments[i + 1]);
            if 0 <= slot < self.ring.len() {
                assert(next.ring[slot] == self.ring[slot]);
                assert(!self.superseded(slot, key, fragments[i + 1].range));
            } else if next.superseded(slot, key, rest[i].range) {
                assert(next.ring[slot].range == ranges[0]);
                assert(ranges[0].end < ranges[i + 1].start);
            }
        }
    }

    pub proof fn lemma_republished(self, key: Seq<char>, fragments: Seq<Fragment>)
        requires
            self.accepts(key, fragments),
        ensures
            ({
                let result = self.republished(key, fragments);
                let old_len = self.ring.len();
                let new_len = result.ring.len();
                &&& result.valid()
                &&& self.used() <= result.used() <= self.used() + total_len(ranges_of(fragments))
                &&& old_len <= new_len <= old_len + fragments.len()
                &&& new_len - old_len == self.attachments(key, fragments)
                &&& new_len == old_len ==> result.used() == self.used()
                &&& result.last_id - self.last_id == new_len - old_len
                &&& result.capacity == self.capacity
                &&& result.compaction == self.compaction
                &&& result.clock == self.clock
                &&& result.metrics == self.metrics
                &&& result.cursor == self.cursor
                &&& forall|slot: int| 0 <= slot < old_len ==> #[trigger] result.ring[slot] == self.ring[slot]
                &&& forall|slot: int|
                    old_len <= slot < new_len ==> {
                        &&& (#[trigger] result.ring[slot]).key == key
                        &&& result.ring[slot].admitted_at == self.clock
                        &&& fragments.contains(
                            Fragment {
                                range: result.ring[slot].range,
                                bytes: result.ring[slot].bytes,
                            },
                        )
                    }
                &&& forall|other: Seq<char>|
                    #![trigger result.objects.contains_key(other)]
                    other != key ==> (result.objects.contains_key(other) <==> self.objects.contains_key(
                        other,
                    )) && (self.objects.contains_key(other) ==> result.objects[other]
                        == self.objects[other])
                &&& self.objects.contains_key(key) ==> result.objects.contains_key(key)
                    && result.objects[key].accesses == self.objects[key].accesses
            }),
        decreases fragments.len(),
    {
        let result = self.republished(key, fragments);
        if fragments.len() == 0 {
            assert(ranges_of(fragments) =~= Seq::<Interval>::empty());
        } else {
            let next = self.republished_first(key, fragments);
            let rest = fragments.drop_first();
            self.lemma_republish_step(key, fragments);
            next.lemma_republished(key, rest);
            if self.covered(key, fragments[0].range) {
                assert(next == self);
            } else {
                assert(next.ring.len() == self.ring.len() + 1);
            }
            assert forall|slot: int| self.ring.len() <= slot < result.ring.len() implies {
                &&& (#[trigger] result.ring[slot]).key == key
                &&& result.ring[slot].admitted_at == self.clock
                &&& fragments.contains(
                    Fragment { range: result.ring[slot].range, bytes: result.ring[slot].bytes },
                )
            } by {
                let fragment = Fragment {
                    range: result.ring[slot].range,
                    bytes: result.ring[slot].bytes,
                };
                if slot < next.ring.len() {
                    assert(result.ring[slot] == next.ring[slot]);
                    assert(fragments[0] =~= fragment);
                } else {
                    assert(rest.contains(fragment));
                    let i = choose|i: int| 0 <= i < rest.len() && rest[i] == fragment;
                    assert(fragments[i + 1] == fragment);
                }
            }
            assert forall|slot: int| 0 <= slot < self.ring.len() implies #[trigger] result.ring[slot]
                == self.ring[slot] by {
                assert(next.ring[slot] == self.ring[slot]);
            }
        }
    }

    /// A shard without `slot` accepts separated fragments of what stood there.
    pub proof fn lemma_accepts_fragments(self, slot: int, fragments: Seq<Fragment>)
        requires
            self.valid(),
            0 <= slot < self.ring.len(),
            separated(ranges_of(fragments)),
            self.can_compact(slot, fragments),
            forall|i: int|
                0 <= i < fragments.len() ==> (#[trigger] fragments[i]).bytes.len()
                    == fragments[i].range.len() && self.ring[slot].range.covers(fragments[i].range),
        ensures
            self.detached(slot, true).accepts(self.ring[slot].key, fragments),
    {
        let next = self.detached(slot, true);
        self.lemma_detached(slot, true);
        lemma_vacated(self.ring, slot);
        assert forall|i: int, other: int|
            #![trigger fragments[i], next.ring[other]]
            0 <= i < fragments.len() implies !next.superseded(
            other,
            self.ring[slot].key,
            fragments[i].range,
        ) by {
            if 0 <= other < next.ring.len() {
                let from = if other == slot { self.ring.len() - 1 } else { other };
                assert(next.ring[other] == self.ring[from]);
                assert(self.ring[slot].id != self.ring[from].id);
            }
        }
    }
}

} // verus!

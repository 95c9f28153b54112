//! Bounded, ageable evidence of exact requests for one object.

use std::collections::VecDeque;

use vstd::prelude::*;

use crate::range::{ByteRange, Interval};

verus! {

/// Target 125-ms source-request cost at 80 MB/s, as equivalent transferred bytes.
pub const FIXED_RETRIEVAL_EQUIVALENT_BYTES: u64 = 10_000_000;

/// Maximum exact access events retained for one object key.
pub const MAX_ACCESS_EVENTS_PER_KEY: usize = 64;

/// Maximum same-shard successful-access age that still contributes.
pub const EVIDENCE_LIFETIME_ACCESSES: u64 = 32_768;

/// One exact requested interval and the shard clock at which it was observed.
#[verifier::ext_equal]
pub struct Access {
    pub range: Interval,
    pub observed_at: u64,
}

impl Access {
    /// Whether the access still has policy value at `clock`.
    pub open spec fn active(self, clock: u64) -> bool {
        clock - self.observed_at <= EVIDENCE_LIFETIME_ACCESSES
    }

    /// The modeled cost of retrieving the access from the source again.
    pub open spec fn retrieval_cost(self) -> int {
        FIXED_RETRIEVAL_EQUIVALENT_BYTES + self.range.len()
    }

    /// What the access contributes at `clock` to an extent that holds `extent`.
    pub open spec fn credit(self, extent: Interval, clock: u64) -> int {
        if self.active(clock) && extent.covers(self.range) {
            self.retrieval_cost()
        } else {
            0
        }
    }
}

/// `accesses` without its leading accesses that expired by `clock`.
pub open spec fn unexpired(accesses: Seq<Access>, clock: u64) -> Seq<Access>
    decreases accesses.len(),
{
    if accesses.len() > 0 && !accesses[0].active(clock) {
        unexpired(accesses.drop_first(), clock)
    } else {
        accesses
    }
}

/// `accesses` after one more access: the expired prefix goes, the oldest access
/// goes if the bound is reached, and the new access is appended.
pub open spec fn recorded(accesses: Seq<Access>, range: Interval, clock: u64) -> Seq<Access> {
    let live = unexpired(accesses, clock);
    let room = if live.len() == MAX_ACCESS_EVENTS_PER_KEY {
        live.drop_first()
    } else {
        live
    };
    room.push(Access { range, observed_at: clock })
}

/// The summed credit of `accesses` toward `extent`.
pub open spec fn total_credit(accesses: Seq<Access>, extent: Interval, clock: u64) -> int
    decreases accesses.len(),
{
    if accesses.len() == 0 {
        0
    } else {
        total_credit(accesses.drop_last(), extent, clock) + accesses.last().credit(extent, clock)
    }
}

/// The retention value of `extent`: its summed credit, saturating at `u64::MAX`.
pub open spec fn value_of(accesses: Seq<Access>, extent: Interval, clock: u64) -> u64 {
    let total = total_credit(accesses, extent, clock);
    if total > u64::MAX {
        u64::MAX
    } else {
        total as u64
    }
}

/// The requested intervals that are still active at `clock`, oldest first.
pub open spec fn active_intervals(accesses: Seq<Access>, clock: u64) -> Seq<Interval> {
    accesses.filter(|access: Access| access.active(clock)).map_values(|access: Access| access.range)
}

/// One exact requested range and its shard-local observation clock.
#[derive(Clone, Copy, Debug, PartialEq, Eq, Structural)]
struct AccessEvent {
    range: ByteRange,
    observed_at: u64,
}

impl View for AccessEvent {
    type V = Access;

    closed spec fn view(&self) -> Access {
        Access { range: self.range@, observed_at: self.observed_at }
    }
}

/// Bounded access evidence for one complete object key.
///
/// Events are not coalesced: repeated requests remain repeated evidence until
/// they expire or are displaced by the per-key bound.
pub struct AccessEvidence {
    events: VecDeque<AccessEvent>,
}

impl View for AccessEvidence {
    type V = Seq<Access>;

    closed spec fn view(&self) -> Seq<Access> {
        self.events@.map_values(|event: AccessEvent| event@)
    }
}

impl Default for AccessEvidence {
    /// Evidence of no access.
    fn default() -> (evidence: Self)
        ensures
            evidence@ == Seq::<Access>::empty(),
            evidence.well_formed(),
    {
        let evidence = Self { events: VecDeque::new() };
        assert(evidence@ =~= Seq::<Access>::empty());
        evidence
    }
}

impl AccessEvidence {
    /// No more events than the per-key bound, each of a valid range.
    pub open spec fn well_formed(&self) -> bool {
        &&& self@.len() <= MAX_ACCESS_EVENTS_PER_KEY
        &&& forall|i: int| 0 <= i < self@.len() ==> (#[trigger] self@[i]).range.valid()
    }

    /// Appends one exact request, dropping what expired or exceeds the bound.
    pub fn record(&mut self, range: ByteRange, access_clock: u64)
        requires
            old(self).well_formed(),
        ensures
            final(self).well_formed(),
            final(self)@ == recorded(old(self)@, range@, access_clock),
    {
        proof {
            use_type_invariant(&range);
        }
        self.expire(access_clock);
        let ghost live = self@;
        if self.events.len() == MAX_ACCESS_EVENTS_PER_KEY {
            let _ = self.events.pop_front();
            assert(self@ =~= live.drop_first());
        }
        let ghost room = self@;
        self.events.push_back(AccessEvent { range, observed_at: access_clock });
        assert(self@ =~= room.push(Access { range: range@, observed_at: access_clock }));
    }

    /// Drops the leading events that have no policy value left.
    pub fn expire(&mut self, access_clock: u64)
        requires
            old(self).well_formed(),
        ensures
            final(self).well_formed(),
            final(self)@ == unexpired(old(self)@, access_clock),
    {
        while self.events.len() > 0 && !is_active(self.events[0], access_clock)
            invariant
                self.well_formed(),
                unexpired(self@, access_clock) == unexpired(old(self)@, access_clock),
            decreases self.events.len(),
        {
            let ghost before = self@;
            let _ = self.events.pop_front();
            assert(self@ =~= before.drop_first());
        }
        assert(self.events@.len() > 0 ==> self@[0] == self.events@[0]@);
    }

    /// Lists the exact requested ranges that still have policy value.
    pub fn active_ranges(&self, access_clock: u64) -> (ranges: Vec<ByteRange>)
        requires
            self.well_formed(),
        ensures
            ranges@.map_values(|range: ByteRange| range@) == active_intervals(self@, access_clock),
            forall|i: int| 0 <= i < ranges@.len() ==> (#[trigger] ranges@[i])@.valid(),
            ranges@.len() <= self@.len(),
    {
        let mut ranges: Vec<ByteRange> = Vec::new();
        let ghost active = |access: Access| access.active(access_clock);
        let ghost seen = |range: ByteRange| range@;
        let ghost requested = |access: Access| access.range;
        let mut index: usize = 0;
        proof {
            reveal(Seq::filter);
            assert(self@.take(0) =~= Seq::<Access>::empty());
            assert(ranges@.map_values(seen) =~= active_intervals(self@.take(0), access_clock));
        }
        while index < self.events.len()
            invariant
                index <= self.events@.len(),
                self.well_formed(),
                active == (|access: Access| access.active(access_clock)),
                seen == (|range: ByteRange| range@),
                requested == (|access: Access| access.range),
                ranges@.len() <= index,
                ranges@.map_values(seen) == active_intervals(self@.take(index as int), access_clock),
                forall|i: int| 0 <= i < ranges@.len() ==> (#[trigger] ranges@[i])@.valid(),
            decreases self.events.len() - index,
        {
            let event = self.events[index];
            let ghost before = ranges@;
            let ghost next = self@.take(index + 1);
            proof {
                assert(next.drop_last() =~= self@.take(index as int));
                assert(next.last() == event@);
                reveal(Seq::filter);
            }
            if is_active(event, access_clock) {
                ranges.push(event.range);
                proof {
                    assert(self@[index as int].range.valid());
                    let kept = next.drop_last().filter(active);
                    assert(next.filter(active) == kept.push(event@));
                    assert(kept.push(event@).map_values(requested) =~= kept.map_values(requested).push(event@.range));
                    assert(ranges@.map_values(seen) =~= before.map_values(seen).push(event.range@));
                }
            } else {
                assert(next.filter(active) == next.drop_last().filter(active));
            }
            index += 1;
        }
        assert(self@.take(index as int) =~= self@);
        ranges
    }

    /// Sums modeled source retrieval cost for active events covered by an extent.
    pub fn retention_value(&self, extent: ByteRange, access_clock: u64) -> (value: u64)
        requires
            self.well_formed(),
        ensures
            value == value_of(self@, extent@, access_clock),
    {
        let mut value: u64 = 0;
        let mut index: usize = 0;
        assert(self@.take(0) =~= Seq::<Access>::empty());
        while index < self.events.len()
            invariant
                index <= self.events@.len(),
                self.well_formed(),
                value == value_of(self@.take(index as int), extent@, access_clock),
                total_credit(self@.take(index as int), extent@, access_clock) >= 0,
            decreases self.events.len() - index,
        {
            let event = self.events[index];
            let ghost next = self@.take(index + 1);
            proof {
                assert(next.drop_last() =~= self@.take(index as int));
                assert(next.last() == event@);
                assert(self@[index as int].range.valid());
            }
            if is_active(event, access_clock) && extent.contains(event.range) {
                let cost = FIXED_RETRIEVAL_EQUIVALENT_BYTES.saturating_add(event.range.len());
                value = value.saturating_add(cost);
            }
            index += 1;
        }
        assert(self@.take(index as int) =~= self@);
        value
    }

    /// Lists every retained requested range, oldest first.
    pub fn ranges(&self) -> (ranges: Vec<ByteRange>)
        ensures
            ranges@.map_values(|range: ByteRange| range@) == self@.map_values(
                |access: Access| access.range,
            ),
    {
        let mut ranges: Vec<ByteRange> = Vec::new();
        let mut index: usize = 0;
        while index < self.events.len()
            invariant
                index <= self.events@.len(),
                ranges@.len() == index,
                forall|i: int| 0 <= i < index ==> (#[trigger] ranges@[i])@ == self@[i].range,
            decreases self.events.len() - index,
        {
            ranges.push(self.events[index].range);
            index += 1;
        }
        assert(ranges@.map_values(|range: ByteRange| range@) =~= self@.map_values(
            |access: Access| access.range,
        ));
        ranges
    }

    /// Returns the number of retained events.
    pub fn len(&self) -> (len: usize)
        ensures
            len == self@.len(),
    {
        self.events.len()
    }
}

/// Whether an event still has policy value at `access_clock`.
fn is_active(event: AccessEvent, access_clock: u64) -> (active: bool)
    ensures
        active == event@.active(access_clock),
{
    access_clock.saturating_sub(event.observed_at) <= EVIDENCE_LIFETIME_ACCESSES
}

proof fn lemma_credit_front(accesses: Seq<Access>, extent: Interval, clock: u64)
    requires
        accesses.len() > 0,
    ensures
        total_credit(accesses, extent, clock) == accesses[0].credit(extent, clock) + total_credit(
            accesses.drop_first(),
            extent,
            clock,
        ),
    decreases accesses.len(),
{
    if accesses.len() == 1 {
        assert(accesses.drop_last() =~= Seq::<Access>::empty());
        assert(accesses.drop_first() =~= Seq::<Access>::empty());
    } else {
        lemma_credit_front(accesses.drop_last(), extent, clock);
        assert(accesses.drop_first().drop_last() =~= accesses.drop_last().drop_first());
        assert(accesses.drop_first().last() == accesses.last());
    }
}

/// Dropping expired accesses changes no value.
proof fn lemma_unexpired_credit(accesses: Seq<Access>, extent: Interval, clock: u64)
    ensures
        total_credit(unexpired(accesses, clock), extent, clock) == total_credit(
            accesses,
            extent,
            clock,
        ),
    decreases accesses.len(),
{
    if accesses.len() > 0 && !accesses[0].active(clock) {
        lemma_credit_front(accesses, extent, clock);
        lemma_unexpired_credit(accesses.drop_first(), extent, clock);
    }
}

/// Every access is of a non-empty range.
pub open spec fn valid_accesses(accesses: Seq<Access>) -> bool {
    forall|i: int| 0 <= i < accesses.len() ==> (#[trigger] accesses[i]).range.valid()
}

proof fn lemma_credit_not_negative(accesses: Seq<Access>, extent: Interval, clock: u64)
    requires
        valid_accesses(accesses),
    ensures
        total_credit(accesses, extent, clock) >= 0,
    decreases accesses.len(),
{
    if accesses.len() > 0 {
        assert(accesses.last().range.valid());
        lemma_credit_not_negative(accesses.drop_last(), extent, clock);
    }
}

/// Another access increases the value of every extent that covers it, as long
/// as it displaces no older access and the value does not saturate.
pub proof fn repeated_access_increases_value(
    accesses: Seq<Access>,
    range: Interval,
    extent: Interval,
    clock: u64,
)
    requires
        valid_accesses(accesses),
        range.valid(),
        extent.covers(range),
        unexpired(accesses, clock).len() < MAX_ACCESS_EVENTS_PER_KEY,
        value_of(accesses, extent, clock) < u64::MAX,
    ensures
        value_of(recorded(accesses, range, clock), extent, clock) > value_of(
            accesses,
            extent,
            clock,
        ),
{
    let live = unexpired(accesses, clock);
    lemma_unexpired_credit(accesses, extent, clock);
    lemma_credit_not_negative(accesses, extent, clock);
    let added = Access { range, observed_at: clock };
    assert(live.push(added).drop_last() =~= live);
    assert(added.credit(extent, clock) > 0);
}

/// Evidence older than its lifetime gives no extent any value.
pub proof fn stale_evidence_expires(accesses: Seq<Access>, extent: Interval, clock: u64)
    requires
        forall|i: int|
            0 <= i < accesses.len() ==> clock - (#[trigger] accesses[i]).observed_at
                > EVIDENCE_LIFETIME_ACCESSES,
    ensures
        value_of(accesses, extent, clock) == 0,
        unexpired(accesses, clock).len() == 0,
    decreases accesses.len(),
{
    lemma_stale_credit(accesses, extent, clock);
    if accesses.len() > 0 {
        assert(!accesses[0].active(clock));
        let rest = accesses.drop_first();
        assert forall|i: int| 0 <= i < rest.len() implies clock - (#[trigger] rest[i]).observed_at
            > EVIDENCE_LIFETIME_ACCESSES by {
            assert(rest[i] == accesses[i + 1]);
        }
        stale_evidence_expires(rest, extent, clock);
    }
}

proof fn lemma_stale_credit(accesses: Seq<Access>, extent: Interval, clock: u64)
    requires
        forall|i: int| 0 <= i < accesses.len() ==> !(#[trigger] accesses[i]).active(clock),
    ensures
        total_credit(accesses, extent, clock) == 0,
    decreases accesses.len(),
{
    if accesses.len() > 0 {
        assert(!accesses.last().active(clock));
        lemma_stale_credit(accesses.drop_last(), extent, clock);
    }
}

/// Only accesses that an extent covers whole give it value.
pub proof fn only_covered_requests_are_credited(
    accesses: Seq<Access>,
    extent: Interval,
    clock: u64,
)
    requires
        forall|i: int|
            0 <= i < accesses.len() ==> !extent.covers((#[trigger] accesses[i]).range),
    ensures
        value_of(accesses, extent, clock) == 0,
{
    lemma_uncovered_credit(accesses, extent, clock);
}

proof fn lemma_uncovered_credit(accesses: Seq<Access>, extent: Interval, clock: u64)
    requires
        forall|i: int|
            0 <= i < accesses.len() ==> !extent.covers((#[trigger] accesses[i]).range),
    ensures
        total_credit(accesses, extent, clock) == 0,
    decreases accesses.len(),
{
    if accesses.len() > 0 {
        assert(!extent.covers(accesses.last().range));
        lemma_uncovered_credit(accesses.drop_last(), extent, clock);
    }
}

/// Recording keeps the evidence within its bound, newest access last.
pub proof fn evidence_stays_bounded(accesses: Seq<Access>, range: Interval, clock: u64)
    requires
        accesses.len() <= MAX_ACCESS_EVENTS_PER_KEY,
    ensures
        0 < recorded(accesses, range, clock).len() <= MAX_ACCESS_EVENTS_PER_KEY,
        recorded(accesses, range, clock).last() == (Access { range, observed_at: clock }),
{
    lemma_unexpired_len(accesses, clock);
}

proof fn lemma_unexpired_len(accesses: Seq<Access>, clock: u64)
    ensures
        unexpired(accesses, clock).len() <= accesses.len(),
    decreases accesses.len(),
{
    if accesses.len() > 0 && !accesses[0].active(clock) {
        lemma_unexpired_len(accesses.drop_first(), clock);
    }
}

/// Recording a request puts it last, observed at that clock, behind the accesses
/// remembered before in their order. Of those go, from the oldest on, the ones that
/// are more than 32,768 accesses old, and one more where 64 would otherwise be
/// left.
pub proof fn recording_keeps_the_recent_requests(
    accesses: Seq<Access>,
    range: Interval,
    clock: u64,
)
    ensures
        ({
            let after = recorded(accesses, range, clock);
            let dropped = accesses.len() + 1 - after.len();
            &&& after.len() > 0
            &&& after.last() == Access { range, observed_at: clock }
            &&& 0 <= dropped <= accesses.len()
            &&& after.drop_last() == accesses.skip(dropped)
            &&& forall|i: int|
                0 <= i < dropped ==> clock - (#[trigger] accesses[i]).observed_at > 32_768 || (i
                    == dropped - 1 && accesses.len() - i == 64)
            &&& dropped < accesses.len() ==> clock - accesses[dropped].observed_at <= 32_768 || (
            dropped > 0 && accesses.len() - dropped == 63)
            &&& accesses.len() <= 64 ==> after.len() <= 64
        }),
{
    let live = unexpired(accesses, clock);
    lemma_unexpired_suffix(accesses, clock);
    let expired = accesses.len() - live.len();
    let after = recorded(accesses, range, clock);
    let dropped = accesses.len() + 1 - after.len();
    assert(after.drop_last() =~= accesses.skip(dropped));
}

proof fn lemma_unexpired_suffix(accesses: Seq<Access>, clock: u64)
    ensures
        ({
            let live = unexpired(accesses, clock);
            let expired = accesses.len() - live.len();
            &&& 0 <= expired <= accesses.len()
            &&& live == accesses.skip(expired)
            &&& forall|i: int| 0 <= i < expired ==> !(#[trigger] accesses[i]).active(clock)
            &&& expired < accesses.len() ==> accesses[expired].active(clock)
        }),
    decreases accesses.len(),
{
    if accesses.len() > 0 && !accesses[0].active(clock) {
        let rest = accesses.drop_first();
        lemma_unexpired_suffix(rest, clock);
        let live = unexpired(accesses, clock);
        let expired = accesses.len() - live.len();
        assert(live =~= accesses.skip(expired));
        assert forall|i: int| 0 <= i < expired implies !(#[trigger] accesses[i]).active(clock) by {
            if i > 0 {
                assert(rest[i - 1] == accesses[i]);
            }
        }
        if expired < accesses.len() {
            assert(rest[expired - 1] == accesses[expired]);
        }
    } else {
        assert(accesses.skip(0) =~= accesses);
    }
}

/// Expiration takes exactly the leading accesses that are more than 32,768 accesses
/// old, and keeps the others in their order.
pub proof fn expiration_takes_the_old_prefix(accesses: Seq<Access>, clock: u64)
    ensures
        ({
            let live = unexpired(accesses, clock);
            let expired = accesses.len() - live.len();
            &&& 0 <= expired <= accesses.len()
            &&& live == accesses.skip(expired)
            &&& forall|i: int|
                0 <= i < expired ==> clock - (#[trigger] accesses[i]).observed_at > 32_768
            &&& expired < accesses.len() ==> clock - accesses[expired].observed_at <= 32_768
        }),
{
    lemma_unexpired_suffix(accesses, clock);
}

/// An extent nobody requested has no value. One more access adds 10,000,000 and its
/// length to the value, up to what fits, if it is at most 32,768 accesses old and
/// lies within the extent, and nothing otherwise.
pub proof fn value_grows_access_by_access(
    accesses: Seq<Access>,
    extent: Interval,
    clock: u64,
    access: Access,
)
    requires
        access.range.valid(),
        forall|i: int| 0 <= i < accesses.len() ==> (#[trigger] accesses[i]).range.valid(),
    ensures
        value_of(Seq::empty(), extent, clock) == 0,
        ({
            let counts = clock - access.observed_at <= 32_768 && extent.start <= access.range.start
                && access.range.end <= extent.end;
            let sum = value_of(accesses, extent, clock) + 10_000_000 + (access.range.end
                - access.range.start);
            value_of(accesses.push(access), extent, clock) == if !counts {
                value_of(accesses, extent, clock) as int
            } else if sum > u64::MAX {
                u64::MAX as int
            } else {
                sum
            }
        }),
{
    assert(accesses.push(access).drop_last() =~= accesses);
    lemma_credit_nonnegative(accesses, extent, clock);
}

proof fn lemma_credit_nonnegative(accesses: Seq<Access>, extent: Interval, clock: u64)
    requires
        forall|i: int| 0 <= i < accesses.len() ==> (#[trigger] accesses[i]).range.valid(),
    ensures
        total_credit(accesses, extent, clock) >= 0,
    decreases accesses.len(),
{
    if accesses.len() > 0 {
        lemma_credit_nonnegative(accesses.drop_last(), extent, clock);
    }
}

/// The active requests are those of the accesses that are at most 32,768 accesses
/// old, in their order.
pub proof fn active_requests_are_the_recent_ones(
    accesses: Seq<Access>,
    clock: u64,
    access: Access,
)
    ensures
        active_intervals(Seq::empty(), clock) == Seq::<Interval>::empty(),
        active_intervals(accesses.push(access), clock) == if clock - access.observed_at <= 32_768 {
            active_intervals(accesses, clock).push(access.range)
        } else {
            active_intervals(accesses, clock)
        },
{
    reveal(Seq::filter);
    let active = |access: Access| access.active(clock);
    let range = |access: Access| access.range;
    assert(accesses.push(access).drop_last() =~= accesses);
    let kept = accesses.filter(active);
    assert(kept.push(access).map_values(range) =~= kept.map_values(range).push(access.range));
    assert(Seq::<Access>::empty().filter(active) =~= Seq::empty());
    assert(active_intervals(Seq::empty(), clock) =~= Seq::<Interval>::empty());
}

} // verus!

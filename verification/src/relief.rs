//! What a pressure decision gives up, and what it keeps.

use vstd::prelude::*;
use vstd::set_lib::set_int_range;

use crate::admissions::lemma_cursor_kept;
use crate::compaction::{
    compactable, covered, covered_requests_stay_coverable, grouping, lemma_grouping, separated,
    total_len, wanted,
};
use crate::compaction_work::Target;
use crate::evidence::{active_intervals, active_requests_are_the_recent_ones, value_of, Access};
use crate::laws::trimming_keeps_observed_requests;
use crate::range::Interval;
use crate::retention::{eligible_samples_have_a_victim, victim_is_unique};
use crate::shard::{populated, pressure_outcome, settles, AdmissionStep};
use crate::shard_lemmas::{lemma_vacated, ranges_of};
use crate::shard_state::{CompactionMode, Fragment, ShardState};

verus! {

proof fn lemma_covered_offsets(intervals: Seq<Interval>)
    requires
        separated(intervals),
    ensures
        Set::new(|offset: int| covered(intervals, offset)).finite(),
        Set::new(|offset: int| covered(intervals, offset)).len() == total_len(intervals),
    decreases intervals.len(),
{
    let offsets = Set::new(|offset: int| covered(intervals, offset));
    if intervals.len() == 0 {
        assert(offsets =~= Set::empty());
    } else {
        let rest = intervals.drop_last();
        let last = intervals.last();
        let others = Set::new(|offset: int| covered(rest, offset));
        let own = set_int_range(last.start as int, last.end as int);
        assert forall|i: int| 0 <= i < rest.len() implies (#[trigger] rest[i]).valid() by {
            assert(intervals[i].valid());
        }
        assert forall|i: int, j: int| 0 <= i < j < rest.len() implies (#[trigger] rest[i]).end < (
        #[trigger] rest[j]).start by {
            assert(intervals[i].end < intervals[j].start);
        }
        lemma_covered_offsets(rest);
        assert(intervals[intervals.len() - 1].valid());
        vstd::set_lib::lemma_int_range(last.start as int, last.end as int);
        assert(others.disjoint(own)) by {
            assert forall|offset: int| others.contains(offset) && own.contains(offset) implies false by {
                let i = choose|i: int| 0 <= i < rest.len() && (#[trigger] rest[i]).has(offset);
                assert(intervals[i].end < intervals[intervals.len() - 1].start);
            }
        }
        vstd::set_lib::lemma_set_disjoint_lens(others, own);
        assert(offsets =~= others + own) by {
            assert forall|offset: int| offsets.contains(offset) implies (others + own).contains(
                offset,
            ) by {
                let i = choose|i: int|
                    0 <= i < intervals.len() && (#[trigger] intervals[i]).has(offset);
                if i < rest.len() {
                    assert(rest[i].has(offset));
                }
            }
            assert forall|offset: int| (others + own).contains(offset) implies offsets.contains(
                offset,
            ) by {
                if others.contains(offset) {
                    let i = choose|i: int| 0 <= i < rest.len() && (#[trigger] rest[i]).has(offset);
                    assert(intervals[i].has(offset));
                } else {
                    assert(intervals[intervals.len() - 1].has(offset));
                }
            }
        }
    }
}

/// The length of ranges that are apart is the number of the offsets in them.
pub proof fn lengths_count_the_offsets(intervals: Seq<Interval>, offsets: Set<int>)
    requires
        forall|i: int| 0 <= i < intervals.len() ==> (#[trigger] intervals[i]).start
            < intervals[i].end,
        forall|i: int, j: int|
            0 <= i < j < intervals.len() ==> (#[trigger] intervals[i]).end < (
            #[trigger] intervals[j]).start,
        forall|offset: int| #[trigger]
            offsets.contains(offset) <==> exists|i: int|
                0 <= i < intervals.len() && (#[trigger] intervals[i]).start <= offset
                    < intervals[i].end,
    ensures
        offsets.finite(),
        offsets.len() == total_len(intervals),
{
    let inside = Set::new(|offset: int| covered(intervals, offset));
    assert forall|offset: int| inside.contains(offset) <==> offsets.contains(offset) by {
        if inside.contains(offset) {
            let i = choose|i: int| 0 <= i < intervals.len() && (#[trigger] intervals[i]).has(offset);
            assert(intervals[i].start <= offset);
        }
        if offsets.contains(offset) {
            let i = choose|i: int|
                0 <= i < intervals.len() && (#[trigger] intervals[i]).start <= offset
                    < intervals[i].end;
            assert(intervals[i].has(offset));
        }
    }
    assert(inside =~= offsets);
    lemma_covered_offsets(intervals);
}

/// Offsets of `source` outside separated parts of it number at most what the parts
/// leave of it, and offsets inside them at most what they hold.
proof fn lemma_offsets_left(source: Interval, parts: Seq<Interval>, offsets: Set<int>)
    requires
        source.valid(),
        separated(parts),
        forall|i: int| 0 <= i < parts.len() ==> source.covers(#[trigger] parts[i]),
        offsets.finite(),
    ensures
        (forall|offset: int| #[trigger]
            offsets.contains(offset) ==> source.has(offset) && !covered(parts, offset))
            ==> offsets.len() <= source.len() - total_len(parts),
        (forall|offset: int| #[trigger] offsets.contains(offset) ==> covered(parts, offset))
            ==> offsets.len() <= total_len(parts),
{
    let inside = Set::new(|offset: int| covered(parts, offset));
    let all = set_int_range(source.start as int, source.end as int);
    lemma_covered_offsets(parts);
    vstd::set_lib::lemma_int_range(source.start as int, source.end as int);
    if forall|offset: int| #[trigger]
        offsets.contains(offset) ==> source.has(offset) && !covered(parts, offset) {
        assert(offsets.disjoint(inside));
        vstd::set_lib::lemma_set_disjoint_lens(offsets, inside);
        assert forall|offset: int| (offsets + inside).contains(offset) implies all.contains(
            offset,
        ) by {
            if inside.contains(offset) {
                let i = choose|i: int| 0 <= i < parts.len() && (#[trigger] parts[i]).has(offset);
                assert(source.covers(parts[i]));
            }
        }
        vstd::set_lib::lemma_len_subset(offsets + inside, all);
    }
    if forall|offset: int| #[trigger] offsets.contains(offset) ==> covered(parts, offset) {
        vstd::set_lib::lemma_len_subset(offsets, inside);
    }
}

/// The request of an access that is still active is listed.
proof fn lemma_active_listed(accesses: Seq<Access>, clock: u64, i: int) -> (j: int)
    requires
        0 <= i < accesses.len(),
        clock - accesses[i].observed_at <= 32_768,
    ensures
        0 <= j < active_intervals(accesses, clock).len(),
        active_intervals(accesses, clock)[j] == accesses[i].range,
    decreases accesses.len(),
{
    let rest = accesses.drop_last();
    active_requests_are_the_recent_ones(rest, clock, accesses.last());
    assert(rest.push(accesses.last()) =~= accesses);
    if i < rest.len() {
        lemma_active_listed(rest, clock, i)
    } else {
        active_intervals(accesses, clock).len() - 1
    }
}

/// A listed request is that of an access that is still active.
proof fn lemma_active_origin(accesses: Seq<Access>, clock: u64, j: int) -> (i: int)
    requires
        0 <= j < active_intervals(accesses, clock).len(),
    ensures
        0 <= i < accesses.len(),
        clock - accesses[i].observed_at <= 32_768,
        active_intervals(accesses, clock)[j] == accesses[i].range,
    decreases accesses.len(),
{
    let unseen = Access { range: Interval { start: 0, end: 0 }, observed_at: 0 };
    active_requests_are_the_recent_ones(accesses, clock, unseen);
    assert(accesses.len() == 0 ==> accesses =~= Seq::empty());
    let rest = accesses.drop_last();
    active_requests_are_the_recent_ones(rest, clock, accesses.last());
    assert(accesses.len() > 0 ==> rest.push(accesses.last()) =~= accesses);
    if j < active_intervals(rest, clock).len() {
        lemma_active_origin(rest, clock, j)
    } else {
        accesses.len() - 1
    }
}

/// An offset is wanted exactly if an active request within the extent has it.
proof fn lemma_wanted(state: ShardState, slot: int, accesses: Seq<Access>, offset: int)
    requires
        0 <= slot < state.ring.len(),
        accesses == state.objects[state.ring[slot].key].accesses,
    ensures
        wanted(state.ring[slot].range, state.requests_at(slot), offset) <==> exists|i: int|
            {
                &&& 0 <= i < accesses.len()
                &&& state.clock - (#[trigger] accesses[i]).observed_at <= 32_768
                &&& state.ring[slot].range.start <= accesses[i].range.start
                &&& accesses[i].range.end <= state.ring[slot].range.end
                &&& accesses[i].range.start <= offset < accesses[i].range.end
            },
{
    let source = state.ring[slot].range;
    let requests = state.requests_at(slot);
    if wanted(source, requests, offset) {
        let j = choose|j: int|
            0 <= j < requests.len() && source.covers(requests[j]) && (
            #[trigger] requests[j]).has(offset);
        let i = lemma_active_origin(accesses, state.clock, j);
        assert(accesses[i].range.start <= offset < accesses[i].range.end);
    }
    assert forall|i: int|
        0 <= i < accesses.len() && state.clock - (#[trigger] accesses[i]).observed_at <= 32_768
            && source.start <= accesses[i].range.start && accesses[i].range.end <= source.end
            && accesses[i].range.start <= offset < accesses[i].range.end implies wanted(
        source,
        requests,
        offset,
    ) by {
        let j = lemma_active_listed(accesses, state.clock, i);
        assert(requests[j].has(offset));
    }
}

/// A value-aware shard trims an extent that was admitted at least 64 accesses ago,
/// has an active request within it, and whose offsets outside such requests are at
/// least a quarter of it, however few those requests are.
pub proof fn worthwhile_extents_are_trimmed(
    state: ShardState,
    slot: int,
    accesses: Seq<Access>,
    some: int,
    outside: Set<int>,
)
    requires
        state.valid(),
        0 <= slot < state.ring.len(),
        accesses == state.objects[state.ring[slot].key].accesses,
        state.compaction == CompactionMode::ValueAware,
        state.clock - state.ring[slot].admitted_at >= 64,
        0 <= some < accesses.len(),
        state.clock - accesses[some].observed_at <= 32_768,
        state.ring[slot].range.start <= accesses[some].range.start < accesses[some].range.end
            <= state.ring[slot].range.end,
        outside.finite(),
        forall|offset: int| #[trigger]
            outside.contains(offset) ==> state.ring[slot].range.start <= offset
                < state.ring[slot].range.end,
        forall|offset: int, i: int|
            #[trigger] outside.contains(offset) && 0 <= i < accesses.len() && state.clock - (
            #[trigger] accesses[i]).observed_at <= 32_768 && state.ring[slot].range.start
                <= accesses[i].range.start && accesses[i].range.end <= state.ring[slot].range.end
                ==> !(accesses[i].range.start <= offset < accesses[i].range.end),
        4 * outside.len() >= state.ring[slot].range.end - state.ring[slot].range.start,
    ensures
        state.trims(slot),
{
    let source = state.ring[slot].range;
    let requests = state.requests_at(slot);
    let retained = grouping(source, requests);
    assert(state.ring[slot].valid());
    lemma_grouping(source, requests);
    lemma_wanted(state, slot, accesses, accesses[some].range.start as int);
    assert(covered(retained, accesses[some].range.start as int));
    assert forall|offset: int| #[trigger] outside.contains(offset) implies source.has(offset)
        && !covered(retained, offset) by {
        lemma_wanted(state, slot, accesses, offset);
    }
    lemma_offsets_left(source, retained, outside);
}

/// An extent is not trimmed in a shard that does not compact, nor while fewer than
/// 64 accesses passed since it was admitted, nor without an active request within
/// it, nor where the offsets of such requests leave less than a quarter of it.
pub proof fn other_extents_are_not_trimmed(
    state: ShardState,
    slot: int,
    accesses: Seq<Access>,
    requested: Set<int>,
)
    requires
        state.valid(),
        0 <= slot < state.ring.len(),
        accesses == state.objects[state.ring[slot].key].accesses,
        requested.finite(),
        forall|offset: int| #[trigger]
            requested.contains(offset) ==> exists|i: int|
                {
                    &&& 0 <= i < accesses.len()
                    &&& state.clock - (#[trigger] accesses[i]).observed_at <= 32_768
                    &&& state.ring[slot].range.start <= accesses[i].range.start
                    &&& accesses[i].range.end <= state.ring[slot].range.end
                    &&& accesses[i].range.start <= offset < accesses[i].range.end
                },
        ({
            let len = state.ring[slot].range.end - state.ring[slot].range.start;
            ||| state.compaction == CompactionMode::Disabled
            ||| state.clock - state.ring[slot].admitted_at < 64
            ||| 4 * (len - requested.len()) < len
            ||| forall|i: int|
                0 <= i < accesses.len() && state.clock - (#[trigger] accesses[i]).observed_at
                    <= 32_768 && accesses[i].range.start < accesses[i].range.end ==> !(
                state.ring[slot].range.start <= accesses[i].range.start && accesses[i].range.end
                    <= state.ring[slot].range.end)
        }),
    ensures
        !state.trims(slot),
{
    let source = state.ring[slot].range;
    let requests = state.requests_at(slot);
    let retained = grouping(source, requests);
    assert(state.ring[slot].valid());
    lemma_grouping(source, requests);
    assert forall|offset: int| #[trigger] requested.contains(offset) implies covered(
        retained,
        offset,
    ) by {
        lemma_wanted(state, slot, accesses, offset);
    }
    lemma_offsets_left(source, retained, requested);
    if retained.len() > 0 {
        assert(retained[0].valid());
        assert(retained[0].has(retained[0].start as int));
        assert(covered(retained, retained[0].start as int));
        lemma_wanted(state, slot, accesses, retained[0].start as int);
    }
}

/// Under pressure a value-aware shard keeps what was requested of a victim that was
/// admitted at least 64 accesses ago: if some active request lies within the victim
/// and the offsets outside all such requests are at least a quarter of it, then it is
/// trimmed and not evicted. Every such request stays covered by one extent, the victim
/// itself is gone, and of its other offsets nothing is added anywhere.
pub proof fn pressure_keeps_the_requests_of_worthwhile_victims(
    state: ShardState,
    key: Seq<char>,
    range: Interval,
    slot: int,
    accesses: Seq<Access>,
    some: int,
    outside: Set<int>,
    after: ShardState,
)
    requires
        state.valid(),
        state.can_relieve(key, range),
        state.victim(slot, key, range),
        accesses == state.objects[state.ring[slot].key].accesses,
        state.compaction == CompactionMode::ValueAware,
        state.clock - state.ring[slot].admitted_at >= 64,
        0 <= some < accesses.len(),
        state.clock - accesses[some].observed_at <= 32_768,
        state.ring[slot].range.start <= accesses[some].range.start < accesses[some].range.end
            <= state.ring[slot].range.end,
        outside.finite(),
        forall|offset: int| #[trigger]
            outside.contains(offset) ==> state.ring[slot].range.start <= offset
                < state.ring[slot].range.end,
        forall|offset: int, i: int|
            #[trigger] outside.contains(offset) && 0 <= i < accesses.len() && state.clock - (
            #[trigger] accesses[i]).observed_at <= 32_768 && state.ring[slot].range.start
                <= accesses[i].range.start && accesses[i].range.end <= state.ring[slot].range.end
                ==> !(accesses[i].range.start <= offset < accesses[i].range.end),
        4 * outside.len() >= state.ring[slot].range.end - state.ring[slot].range.start,
        after == state.relieved(key, range),
    ensures
        forall|i: int|
            0 <= i < accesses.len() && state.clock - (#[trigger] accesses[i]).observed_at <= 32_768
                && state.ring[slot].range.start <= accesses[i].range.start < accesses[i].range.end
                <= state.ring[slot].range.end ==> exists|at: int|
                0 <= at < after.ring.len() && (#[trigger] after.ring[at]).key
                    == state.ring[slot].key && after.ring[at].range.start
                    <= accesses[i].range.start && accesses[i].range.end
                    <= after.ring[at].range.end,
        forall|other: int|
            0 <= other < state.ring.len() && other != slot ==> after.ring.contains(
                #[trigger] state.ring[other],
            ),
        !after.ring.contains(state.ring[slot]),
        forall|at: int, offset: int|
            0 <= at < after.ring.len() && !state.ring.contains(#[trigger] after.ring[at])
                && after.ring[at].range.start <= offset < after.ring[at].range.end
                ==> !#[trigger] outside.contains(offset),
        4 * (state.used() - after.used()) >= state.ring[slot].range.end
            - state.ring[slot].range.start,
        ({
            let turned = if state.ring.len() <= 64 {
                state.cursor
            } else {
                (state.cursor + 64) % state.ring.len() as int
            };
            after.cursor == if turned < state.ring.len() - 1 {
                turned
            } else {
                0
            }
        }),
        after.metrics.compact == state.metrics.compact.wrapping_add(1),
        after.metrics.compacted_payload_bytes == state.metrics.compacted_payload_bytes.wrapping_add(
            (state.used() - after.used()) as u64,
        ),
        after.metrics.evict == state.metrics.evict,
        after.objects[state.ring[slot].key].accesses == accesses,
        after.clock == state.clock,
        forall|at: int|
            0 <= at < after.ring.len() && !state.ring.contains(#[trigger] after.ring[at])
                ==> after.ring[at].admitted_at == state.clock && after.ring[at].key
                == state.ring[slot].key,
        forall|at: int|
            0 <= at < state.ring.len() - 1 ==> #[trigger] after.ring[at] == if at == slot {
                state.ring.last()
            } else {
                state.ring[at]
            },
        forall|i: int, j: int|
            state.ring.len() - 1 <= i < j < after.ring.len() ==> (
            #[trigger] after.ring[i]).range.end < (#[trigger] after.ring[j]).range.start,
{
    let source = state.ring[slot].range;
    let object = state.ring[slot].key;
    let requests = state.requests_at(slot);
    let retained = grouping(source, requests);
    let turned = state.rotated();
    let fragments = state.trimmed(slot);
    worthwhile_extents_are_trimmed(state, slot, accesses, some, outside);
    state.lemma_rotated();
    state.lemma_victim(slot, key, range);
    state.lemma_trimmed(slot);
    turned.lemma_accepts_fragments(slot, fragments);
    turned.lemma_detached(slot, true);
    lemma_vacated(state.ring, slot);
    samples_follow_one_another_around_the_ring(state, slot);
    lemma_cursor_kept(turned.cursor, state.ring.len() as int);
    let emptied = turned.detached(slot, true);
    emptied.lemma_republished(object, fragments);
    lemma_attached_ascending(emptied, object, fragments);
    lemma_grouping(source, requests);
    assert forall|i: int|
        0 <= i < accesses.len() && state.clock - (#[trigger] accesses[i]).observed_at <= 32_768
            && source.start <= accesses[i].range.start < accesses[i].range.end
            <= source.end implies exists|at: int|
        0 <= at < after.ring.len() && (#[trigger] after.ring[at]).key == object
            && after.ring[at].range.start <= accesses[i].range.start && accesses[i].range.end
            <= after.ring[at].range.end by {
        let j = lemma_active_listed(accesses, state.clock, i);
        trimming_keeps_observed_requests(state, key, range, slot, j);
        let at = choose|at: int| #[trigger] after.covers_at(at, object, requests[j]);
        assert(after.ring[at].key == object);
    }
    let own = lemma_active_listed(accesses, state.clock, some);
    trimming_keeps_observed_requests(state, key, range, slot, own);
    assert forall|other: int| 0 <= other < state.ring.len() && other != slot implies after.ring.contains(
        #[trigger] state.ring[other],
    ) by {
        let at = if other == state.ring.len() - 1 {
            slot
        } else {
            other
        };
        assert(emptied.ring[at] == state.ring[other]);
        assert(after.ring[at] == emptied.ring[at]);
    }
    assert forall|at: int, offset: int|
        0 <= at < after.ring.len() && !state.ring.contains(#[trigger] after.ring[at])
            && after.ring[at].range.start <= offset
            < after.ring[at].range.end implies !#[trigger] outside.contains(offset) by {
        if at < emptied.ring.len() {
            let from = if at == slot {
                state.ring.len() - 1
            } else {
                at
            };
            assert(after.ring[at] == state.ring[from]);
        } else {
            let fragment = Fragment {
                range: after.ring[at].range,
                bytes: after.ring[at].bytes,
            };
            assert(fragments.contains(fragment));
            let j = choose|j: int| 0 <= j < fragments.len() && fragments[j] == fragment;
            assert(ranges_of(fragments)[j] == fragments[j].range);
            assert(retained[j].has(offset));
            assert(covered(retained, offset));
            lemma_wanted(state, slot, accesses, offset);
        }
    }
    assert forall|at: int|
        0 <= at < after.ring.len() && !state.ring.contains(
            #[trigger] after.ring[at],
        ) implies after.ring[at].admitted_at == state.clock && after.ring[at].key == object by {
        if at < emptied.ring.len() {
            let from = if at == slot {
                state.ring.len() - 1
            } else {
                at
            };
            assert(after.ring[at] == state.ring[from]);
        }
    }
    if after.ring.contains(state.ring[slot]) {
        let at = choose|at: int| 0 <= at < after.ring.len() && after.ring[at] == state.ring[slot];
        if at < emptied.ring.len() {
            let from = if at == slot {
                state.ring.len() - 1
            } else {
                at
            };
            assert(after.ring[at] == state.ring[from]);
            assert(state.ring[from].id != state.ring[slot].id);
        } else {
            assert(after.ring[at].id > state.last_id);
        }
    }
}

/// The fragments of one extent are attached in ascending order.
proof fn lemma_attached_ascending(state: ShardState, key: Seq<char>, fragments: Seq<Fragment>)
    requires
        state.accepts(key, fragments),
    ensures
        ({
            let result = state.republished(key, fragments);
            forall|i: int, j: int|
                state.ring.len() <= i < j < result.ring.len() ==> (
                #[trigger] result.ring[i]).range.end < (#[trigger] result.ring[j]).range.start
        }),
    decreases fragments.len(),
{
    let result = state.republished(key, fragments);
    state.lemma_republished(key, fragments);
    if fragments.len() > 0 {
        let next = state.republished_first(key, fragments);
        let rest = fragments.drop_first();
        state.lemma_republish_step(key, fragments);
        next.lemma_republished(key, rest);
        lemma_attached_ascending(next, key, rest);
        assert forall|i: int, j: int| state.ring.len() <= i < j < result.ring.len() implies (
        #[trigger] result.ring[i]).range.end < (#[trigger] result.ring[j]).range.start by {
            if i < next.ring.len() {
                assert(result.ring[i] == next.ring[i]);
                let fragment = Fragment {
                    range: result.ring[j].range,
                    bytes: result.ring[j].bytes,
                };
                assert(rest.contains(fragment));
                let at = choose|at: int| 0 <= at < rest.len() && rest[at] == fragment;
                assert(ranges_of(fragments)[at + 1] == fragments[at + 1].range);
                assert(ranges_of(fragments)[0] == fragments[0].range);
            }
        }
    }
}

/// Any other victim is evicted whole: exactly that extent goes, and no other changes.
/// What was remembered of its object stays if the object has another extent or is the
/// one being admitted, and is forgotten otherwise.
pub proof fn pressure_evicts_other_victims_whole(
    state: ShardState,
    key: Seq<char>,
    range: Interval,
    slot: int,
    accesses: Seq<Access>,
    requested: Set<int>,
    after: ShardState,
)
    requires
        state.valid(),
        state.victim(slot, key, range),
        accesses == state.objects[state.ring[slot].key].accesses,
        requested.finite(),
        forall|offset: int| #[trigger]
            requested.contains(offset) ==> exists|i: int|
                {
                    &&& 0 <= i < accesses.len()
                    &&& state.clock - (#[trigger] accesses[i]).observed_at <= 32_768
                    &&& state.ring[slot].range.start <= accesses[i].range.start
                    &&& accesses[i].range.end <= state.ring[slot].range.end
                    &&& accesses[i].range.start <= offset < accesses[i].range.end
                },
        ({
            let len = state.ring[slot].range.end - state.ring[slot].range.start;
            ||| state.compaction == CompactionMode::Disabled
            ||| state.clock - state.ring[slot].admitted_at < 64
            ||| 4 * (len - requested.len()) < len
            ||| forall|i: int|
                0 <= i < accesses.len() && state.clock - (#[trigger] accesses[i]).observed_at
                    <= 32_768 && accesses[i].range.start < accesses[i].range.end ==> !(
                state.ring[slot].range.start <= accesses[i].range.start && accesses[i].range.end
                    <= state.ring[slot].range.end)
        }),
        after == state.relieved(key, range),
    ensures
        after.ring.len() == state.ring.len() - 1,
        forall|other: int|
            0 <= other < state.ring.len() && other != slot ==> after.ring.contains(
                #[trigger] state.ring[other],
            ),
        !after.ring.contains(state.ring[slot]),
        forall|at: int|
            0 <= at < after.ring.len() ==> #[trigger] after.ring[at] == if at == slot {
                state.ring.last()
            } else {
                state.ring[at]
            },
        ({
            let turned = if state.ring.len() <= 64 {
                state.cursor
            } else {
                (state.cursor + 64) % state.ring.len() as int
            };
            after.cursor == if turned < state.ring.len() - 1 {
                turned
            } else {
                0
            }
        }),
        state.used() - after.used() == state.ring[slot].range.end - state.ring[slot].range.start,
        after.metrics.evict == state.metrics.evict.wrapping_add(1),
        after.metrics.compact == state.metrics.compact,
        after.clock == state.clock,
        after.last_id == state.last_id,
        after.objects.contains_key(state.ring[slot].key) <==> state.ring[slot].key == key || exists|
            other: int,
        |
            0 <= other < state.ring.len() && other != slot && (#[trigger] state.ring[other]).key
                == state.ring[slot].key,
        after.objects.contains_key(state.ring[slot].key)
            ==> after.objects[state.ring[slot].key].accesses == accesses,
        forall|object: Seq<char>|
            object != state.ring[slot].key ==> (#[trigger] after.record_of(object))
                == state.record_of(object),
{
    other_extents_are_not_trimmed(state, slot, accesses, requested);
    state.lemma_victim(slot, key, range);
    state.lemma_evicted(slot, key);
    samples_follow_one_another_around_the_ring(state, slot);
    state.lemma_rotated();
    lemma_cursor_kept(state.rotated().cursor, state.ring.len() as int);
    lemma_vacated(state.ring, slot);
    let object = state.ring[slot].key;
    assert forall|other: int| 0 <= other < state.ring.len() && other != slot implies after.ring.contains(
        #[trigger] state.ring[other],
    ) by {
        let at = if other == state.ring.len() - 1 {
            slot
        } else {
            other
        };
        assert(after.ring[at] == state.ring[other]);
    }
    assert forall|at: int| 0 <= at < after.ring.len() implies (#[trigger] after.ring[at])
        != state.ring[slot] by {
        let from = if at == slot {
            state.ring.len() - 1
        } else {
            at
        };
        assert(after.ring[at] == state.ring[from]);
        assert(state.ring[from].id != state.ring[slot].id);
    }
    if crate::shard_state::held(after.ring, object) {
        let at = choose|at: int| 0 <= at < after.ring.len() && (
        #[trigger] after.ring[at]).key == object;
        let from = if at == slot {
            state.ring.len() - 1
        } else {
            at
        };
        assert(after.ring[at] == state.ring[from]);
        assert(state.ring[from].key == object);
    }
    assert forall|other: int|
        0 <= other < state.ring.len() && other != slot && (#[trigger] state.ring[other]).key
            == object implies crate::shard_state::held(after.ring, object) by {
        assert(after.ring.contains(state.ring[other]));
        let at = choose|at: int| 0 <= at < after.ring.len() && after.ring[at] == state.ring[other];
        assert(after.ring[at].key == object);
    }
    assert(state.objects.contains_key(object));
}

/// A plan to keep only the requests within `source` exists where some request lies
/// within it and the offsets outside such requests are at least a quarter of it.
pub proof fn plans_are_made_where_a_quarter_is_released(
    source: Interval,
    requests: Seq<Interval>,
    some: int,
    outside: Set<int>,
)
    requires
        source.valid(),
        0 <= some < requests.len(),
        source.start <= requests[some].start < requests[some].end <= source.end,
        outside.finite(),
        forall|offset: int| #[trigger]
            outside.contains(offset) ==> source.start <= offset < source.end,
        forall|offset: int, i: int|
            #[trigger] outside.contains(offset) && 0 <= i < requests.len() && source.start <= (
            #[trigger] requests[i]).start && requests[i].end <= source.end ==> !(
            requests[i].start <= offset < requests[i].end),
        4 * outside.len() >= source.end - source.start,
    ensures
        compactable(source, requests),
{
    let retained = grouping(source, requests);
    lemma_grouping(source, requests);
    assert(requests[some].has(requests[some].start as int));
    assert(wanted(source, requests, requests[some].start as int));
    assert(covered(retained, requests[some].start as int));
    lemma_offsets_left(source, retained, outside);
}

/// No plan exists where no request lies within `source`, or where the offsets of such
/// requests leave less than a quarter of it.
pub proof fn plans_are_not_made_otherwise(
    source: Interval,
    requests: Seq<Interval>,
    requested: Set<int>,
)
    requires
        source.valid(),
        requested.finite(),
        forall|offset: int| #[trigger]
            requested.contains(offset) ==> exists|i: int|
                0 <= i < requests.len() && source.start <= (#[trigger] requests[i]).start
                    && requests[i].end <= source.end && requests[i].start <= offset
                    < requests[i].end,
        4 * (source.end - source.start - requested.len()) < source.end - source.start || forall|
            i: int,
        |
            0 <= i < requests.len() && (#[trigger] requests[i]).start < requests[i].end ==> !(
            source.start <= requests[i].start && requests[i].end <= source.end),
    ensures
        !compactable(source, requests),
{
    let retained = grouping(source, requests);
    lemma_grouping(source, requests);
    assert forall|offset: int| #[trigger] requested.contains(offset) implies covered(
        retained,
        offset,
    ) by {
        let i = choose|i: int|
            0 <= i < requests.len() && source.start <= (#[trigger] requests[i]).start
                && requests[i].end <= source.end && requests[i].start <= offset < requests[i].end;
        assert(requests[i].has(offset));
        assert(wanted(source, requests, offset));
    }
    lemma_offsets_left(source, retained, requested);
    if retained.len() > 0 {
        assert(retained[0].has(retained[0].start as int));
        assert(covered(retained, retained[0].start as int));
        assert(wanted(source, requests, retained[0].start as int));
    }
}

/// The parts that a plan keeps are non-empty, ascending and apart, each offset in them
/// was requested within the source, and every request within the source lies in one
/// of them.
pub proof fn plans_keep_exactly_the_requested_offsets(
    source: Interval,
    requests: Seq<Interval>,
    kept: Seq<Interval>,
    at: int,
    offset: int,
)
    requires
        kept == grouping(source, requests),
    ensures
        forall|j: int| 0 <= j < kept.len() ==> (#[trigger] kept[j]).start < kept[j].end,
        forall|j: int, k: int|
            0 <= j < k < kept.len() ==> (#[trigger] kept[j]).end < (#[trigger] kept[k]).start,
        0 <= at < kept.len() && kept[at].start <= offset < kept[at].end ==> exists|i: int|
                0 <= i < requests.len() && source.start <= (#[trigger] requests[i]).start
                    && requests[i].end <= source.end && requests[i].start <= offset
                    < requests[i].end,
        forall|i: int|
            0 <= i < requests.len() && source.start <= (#[trigger] requests[i]).start
                < requests[i].end <= source.end ==> exists|j: int|
                0 <= j < kept.len() && (#[trigger] kept[j]).start <= requests[i].start
                    && requests[i].end <= kept[j].end,
{
    lemma_grouping(source, requests);
    if 0 <= at < kept.len() && kept[at].start <= offset < kept[at].end {
        assert(kept[at].has(offset));
        assert(covered(kept, offset));
        assert(wanted(source, requests, offset));
        let i = choose|i: int|
            0 <= i < requests.len() && source.covers(requests[i]) && (
            #[trigger] requests[i]).has(offset);
        assert(requests[i].start <= offset);
    }
    assert forall|i: int|
        0 <= i < requests.len() && source.start <= (#[trigger] requests[i]).start < requests[i].end
            <= source.end implies exists|j: int|
        0 <= j < kept.len() && (#[trigger] kept[j]).start <= requests[i].start && requests[i].end
            <= kept[j].end by {
        covered_requests_stay_coverable(source, requests, kept, i);
        let j = choose|j: int| 0 <= j < kept.len() && (#[trigger] kept[j]).covers(requests[i]);
        assert(kept[j].start <= requests[i].start);
    }
}

/// The next sample holds the 64 slots from the cursor on around the ring, or all of
/// them, and no other; the one after it starts where it ends.
pub proof fn samples_follow_one_another_around_the_ring(state: ShardState, slot: int)
    requires
        state.valid(),
        0 <= slot < state.ring.len(),
    ensures
        state.sampled(slot) <==> exists|j: int|
            0 <= j < 64 && slot == #[trigger] ((state.cursor + j) % state.ring.len() as int),
        state.ring.len() <= 64 ==> state.sampled(slot),
        state.rotated().cursor == if state.ring.len() <= 64 {
            state.cursor
        } else {
            (state.cursor + 64) % state.ring.len() as int
        },
        state.rotated().ring == state.ring,
        state.rotated().objects == state.objects,
        state.rotated().metrics == state.metrics,
        state.rotated().clock == state.clock,
        state.rotated().last_id == state.last_id,
{
    let len = state.ring.len() as int;
    let far = state.distance(slot);
    assert(0 <= far < len);
    vstd::arithmetic::div_mod::lemma_small_mod(slot as nat, len as nat);
    vstd::arithmetic::div_mod::lemma_small_mod(state.cursor as nat, len as nat);
    vstd::arithmetic::div_mod::lemma_mod_add_multiples_vanish(slot, len);
    vstd::arithmetic::div_mod::lemma_mod_add_multiples_vanish(state.cursor, len);
    assert((state.cursor + far) % len == slot);
    if state.ring.len() <= 64 {
        assert((state.cursor + len) % len == state.cursor);
    }
    assert forall|j: int|
        0 <= j < 64 && slot == #[trigger] ((state.cursor + j) % len) implies far < 64 by {
        let turns = (state.cursor + j) / len;
        vstd::arithmetic::div_mod::lemma_fundamental_div_mod(state.cursor + j, len);
        assert(state.cursor + j == turns * len + slot) by (nonlinear_arith)
            requires
                state.cursor + j == len * turns + slot,
        ;
        if turns >= 2 {
            assert(turns * len >= 2 * len) by (nonlinear_arith)
                requires
                    turns >= 2,
                    len > 0,
            ;
        } else if turns < 0 {
            assert(turns * len <= -len) by (nonlinear_arith)
                requires
                    turns <= -1,
                    len > 0,
            ;
        } else if turns == 0 {
            assert(turns * len == 0) by (nonlinear_arith)
                requires
                    turns == 0,
            ;
        } else {
            assert(turns * len == len) by (nonlinear_arith)
                requires
                    turns == 1,
            ;
        }
    }
}

/// A pressure decision gives up an extent if and only if one of the sampled extents is
/// not superseded. It is the one with the least retrieval value per retained byte, and
/// of equal ones the oldest.
pub proof fn victims_have_the_least_value_per_byte(
    state: ShardState,
    key: Seq<char>,
    range: Interval,
    slot: int,
    j: int,
)
    requires
        state.valid(),
        state.victim(slot, key, range),
        0 <= j < 64,
        state.ring.len() > 0,
    ensures
        0 <= slot < state.ring.len(),
        exists|i: int|
            0 <= i < 64 && slot == #[trigger] ((state.cursor + i) % state.ring.len() as int),
        !(state.ring[slot].key == key && range.start <= state.ring[slot].range.start
            && state.ring[slot].range.end <= range.end),
        ({
            let other = (state.cursor + j) % state.ring.len() as int;
            let superseded = state.ring[other].key == key && range.start
                <= state.ring[other].range.start && state.ring[other].range.end <= range.end;
            let own = value_of(
                state.objects[state.ring[slot].key].accesses,
                state.ring[slot].range,
                state.clock,
            ) * (state.ring[other].range.end - state.ring[other].range.start);
            let others = value_of(
                state.objects[state.ring[other].key].accesses,
                state.ring[other].range,
                state.clock,
            ) * (state.ring[slot].range.end - state.ring[slot].range.start);
            other != slot && !superseded ==> own < others || (own == others && state.ring[slot].id
                < state.ring[other].id)
        }),
{
    samples_follow_one_another_around_the_ring(state, slot);
    let len = state.ring.len() as int;
    let other = (state.cursor + j) % len;
    vstd::arithmetic::div_mod::lemma_mod_bound(state.cursor + j, len);
    samples_follow_one_another_around_the_ring(state, other);
    assert(state.sampled(other));
    if !state.superseded(other, key, range) && other != slot {
        assert(state.eligible(other, key, range));
        assert(state.weaker(slot, other));
    }
}

/// A pressure decision finds a victim exactly if some sampled extent is not superseded,
/// and only turns to the next sample otherwise.
pub proof fn pressure_finds_a_victim_in_any_useful_sample(
    state: ShardState,
    key: Seq<char>,
    range: Interval,
)
    requires
        state.valid(),
    ensures
        (exists|slot: int| #[trigger] state.victim(slot, key, range)) <==> exists|slot: int|
            0 <= slot < state.ring.len() && state.sampled(slot) && !((
            #[trigger] state.ring[slot]).key == key && range.start
                <= state.ring[slot].range.start && state.ring[slot].range.end <= range.end),
        !(exists|slot: int| #[trigger] state.victim(slot, key, range)) ==> state.relieved(
            key,
            range,
        ) == state.rotated(),
{
    eligible_samples_have_a_victim(state, key, range);
    assert forall|slot: int|
        0 <= slot < state.ring.len() && state.sampled(slot) && !((#[trigger] state.ring[slot]).key
            == key && range.start <= state.ring[slot].range.start && state.ring[slot].range.end
            <= range.end) implies state.eligible(slot, key, range) by {}
    if exists|slot: int| #[trigger] state.eligible(slot, key, range) {
        let slot = choose|slot: int| #[trigger] state.eligible(slot, key, range);
        assert(state.ring[slot].valid());
    }
}

/// A step of an admission that may trim hands such a victim out to be trimmed, and does
/// not evict it: the copy is to keep every active request within it, of its own bytes,
/// and no extent changes meanwhile.
pub proof fn pressure_steps_hand_out_worthwhile_victims(
    state: ShardState,
    key: Seq<char>,
    range: Interval,
    slot: int,
    accesses: Seq<Access>,
    some: int,
    outside: Set<int>,
    step: AdmissionStep,
    after: ShardState,
)
    requires
        state.valid(),
        state.victim(slot, key, range),
        accesses == state.objects[state.ring[slot].key].accesses,
        state.compaction == CompactionMode::ValueAware,
        state.clock - state.ring[slot].admitted_at >= 64,
        0 <= some < accesses.len(),
        state.clock - accesses[some].observed_at <= 32_768,
        state.ring[slot].range.start <= accesses[some].range.start < accesses[some].range.end
            <= state.ring[slot].range.end,
        outside.finite(),
        forall|offset: int| #[trigger]
            outside.contains(offset) ==> state.ring[slot].range.start <= offset
                < state.ring[slot].range.end,
        forall|offset: int, i: int|
            #[trigger] outside.contains(offset) && 0 <= i < accesses.len() && state.clock - (
            #[trigger] accesses[i]).observed_at <= 32_768 && state.ring[slot].range.start
                <= accesses[i].range.start && accesses[i].range.end <= state.ring[slot].range.end
                ==> !(accesses[i].range.start <= offset < accesses[i].range.end),
        4 * outside.len() >= state.ring[slot].range.end - state.ring[slot].range.start,
        pressure_outcome(state, key, range, true, step, after),
    ensures
        step is Compact,
        step->Compact_0.target().key == state.ring[slot].key,
        step->Compact_0.target().source == state.ring[slot].range,
        step->Compact_0.target().id == state.ring[slot].id,
        step->Compact_0.target().generation == state.objects[state.ring[slot].key].generation,
        step->Compact_0.source_payload() == state.ring[slot].bytes,
        forall|i: int|
            0 <= i < accesses.len() && state.clock - (#[trigger] accesses[i]).observed_at <= 32_768
                && state.ring[slot].range.start <= accesses[i].range.start < accesses[i].range.end
                <= state.ring[slot].range.end ==> exists|j: int|
                0 <= j < step->Compact_0.kept().len() && (
                #[trigger] step->Compact_0.kept()[j]).start <= accesses[i].range.start
                    && accesses[i].range.end <= step->Compact_0.kept()[j].end,
        after.cursor == if state.ring.len() <= 64 {
            state.cursor
        } else {
            (state.cursor + 64) % state.ring.len() as int
        },
        after.ring == state.ring,
        after.objects == state.objects,
        after.metrics == state.metrics,
        after.clock == state.clock,
{
    let source = state.ring[slot].range;
    let requests = state.requests_at(slot);
    worthwhile_extents_are_trimmed(state, slot, accesses, some, outside);
    samples_follow_one_another_around_the_ring(state, slot);
    if step is Retry {
        assert(state.eligible(slot, key, range));
        let other = choose|other: int|
            {
                &&& #[trigger] state.victim(other, key, range)
                &&& !state.trims(other)
                &&& after == state.rotated().evicted(other, key)
            };
        victim_is_unique(state, key, range, slot, other);
    }
    let work = step->Compact_0;
    let kept = work.kept();
    let chosen = choose|chosen: int|
        {
            &&& #[trigger] state.victim(chosen, key, range)
            &&& state.trims(chosen)
            &&& work.target() == Target::at(state, chosen)
            &&& work.kept() == grouping(state.ring[chosen].range, state.requests_at(chosen))
            &&& work.source_payload() == state.ring[chosen].bytes
        };
    victim_is_unique(state, key, range, slot, chosen);
    lemma_grouping(source, requests);
    assert forall|i: int|
        0 <= i < accesses.len() && state.clock - (#[trigger] accesses[i]).observed_at <= 32_768
            && source.start <= accesses[i].range.start < accesses[i].range.end
            <= source.end implies exists|j: int|
        0 <= j < kept.len() && (#[trigger] kept[j]).start <= accesses[i].range.start
            && accesses[i].range.end <= kept[j].end by {
        let at = lemma_active_listed(accesses, state.clock, i);
        covered_requests_stay_coverable(source, requests, kept, at);
        let j = choose|j: int| 0 <= j < kept.len() && (#[trigger] kept[j]).covers(requests[at]);
        assert(kept[j].start <= accesses[i].range.start);
    }
}

/// A step of an admission evicts any other victim whole, and every victim if it may no
/// longer trim.
pub proof fn pressure_steps_evict_other_victims_whole(
    state: ShardState,
    key: Seq<char>,
    range: Interval,
    slot: int,
    accesses: Seq<Access>,
    requested: Set<int>,
    step: AdmissionStep,
    after: ShardState,
)
    requires
        state.valid(),
        state.victim(slot, key, range),
        accesses == state.objects[state.ring[slot].key].accesses,
        requested.finite(),
        forall|offset: int| #[trigger]
            requested.contains(offset) ==> exists|i: int|
                {
                    &&& 0 <= i < accesses.len()
                    &&& state.clock - (#[trigger] accesses[i]).observed_at <= 32_768
                    &&& state.ring[slot].range.start <= accesses[i].range.start
                    &&& accesses[i].range.end <= state.ring[slot].range.end
                    &&& accesses[i].range.start <= offset < accesses[i].range.end
                },
        ({
            let len = state.ring[slot].range.end - state.ring[slot].range.start;
            ||| state.compaction == CompactionMode::Disabled
            ||| state.clock - state.ring[slot].admitted_at < 64
            ||| 4 * (len - requested.len()) < len
            ||| forall|i: int|
                0 <= i < accesses.len() && state.clock - (#[trigger] accesses[i]).observed_at
                    <= 32_768 && accesses[i].range.start < accesses[i].range.end ==> !(
                state.ring[slot].range.start <= accesses[i].range.start && accesses[i].range.end
                    <= state.ring[slot].range.end)
        }),
        pressure_outcome(state, key, range, true, step, after) || pressure_outcome(
            state,
            key,
            range,
            false,
            step,
            after,
        ),
    ensures
        step is Retry,
        after == state.relieved(key, range),
        after.ring.len() == state.ring.len() - 1,
        !after.ring.contains(state.ring[slot]),
        forall|other: int|
            0 <= other < state.ring.len() && other != slot ==> after.ring.contains(
                #[trigger] state.ring[other],
            ),
{
    other_extents_are_not_trimmed(state, slot, accesses, requested);
    assert(state.eligible(slot, key, range));
    state.lemma_victim(slot, key, range);
    if step is Compact {
        let chosen = choose|chosen: int|
            #[trigger] state.victim(chosen, key, range) && state.trims(chosen);
        victim_is_unique(state, key, range, slot, chosen);
    } else if step is Retry {
        let other = choose|other: int|
            #[trigger] state.victim(other, key, range) && after == state.rotated().evicted(
                other,
                key,
            );
        victim_is_unique(state, key, range, slot, other);
        pressure_evicts_other_victims_whole(
            state,
            key,
            range,
            slot,
            accesses,
            requested,
            after,
        );
    }
}

/// A step of an admission that may no longer trim evicts its victim whole, whatever was
/// requested of it: exactly that extent goes.
pub proof fn barred_steps_evict_every_victim_whole(
    state: ShardState,
    key: Seq<char>,
    range: Interval,
    slot: int,
    step: AdmissionStep,
    after: ShardState,
)
    requires
        state.valid(),
        state.victim(slot, key, range),
        pressure_outcome(state, key, range, false, step, after),
    ensures
        step is Retry,
        after.ring.len() == state.ring.len() - 1,
        forall|at: int|
            0 <= at < after.ring.len() ==> #[trigger] after.ring[at] == if at == slot {
                state.ring.last()
            } else {
                state.ring[at]
            },
        ({
            let turned = if state.ring.len() <= 64 {
                state.cursor
            } else {
                (state.cursor + 64) % state.ring.len() as int
            };
            after.cursor == if turned < state.ring.len() - 1 {
                turned
            } else {
                0
            }
        }),
        after.metrics.evict == state.metrics.evict.wrapping_add(1),
        after.metrics.compact == state.metrics.compact,
        after.clock == state.clock,
        after.last_id == state.last_id,
{
    assert(state.eligible(slot, key, range));
    if step is Retry {
        let other = choose|other: int|
            #[trigger] state.victim(other, key, range) && after == state.rotated().evicted(
                other,
                key,
            );
        victim_is_unique(state, key, range, slot, other);
        state.lemma_evicted(slot, key);
        samples_follow_one_another_around_the_ring(state, slot);
        state.lemma_rotated();
        lemma_cursor_kept(state.rotated().cursor, state.ring.len() as int);
    }
}

/// A step whose sample holds nothing but parts of the download gives nothing up, and only
/// turns to the next sample.
pub proof fn steps_turn_past_samples_of_parts(
    state: ShardState,
    key: Seq<char>,
    range: Interval,
    allow_compaction: bool,
    step: AdmissionStep,
    after: ShardState,
)
    requires
        state.valid(),
        state.ring.len() > 0,
        forall|slot: int|
            0 <= slot < state.ring.len() && state.sampled(slot) ==> (
            #[trigger] state.ring[slot]).key == key && range.start <= state.ring[slot].range.start
                && state.ring[slot].range.end <= range.end,
        pressure_outcome(state, key, range, allow_compaction, step, after),
    ensures
        step is Retry,
        after.cursor == if state.ring.len() <= 64 {
            state.cursor
        } else {
            (state.cursor + 64) % state.ring.len() as int
        },
        after.ring == state.ring,
        after.objects == state.objects,
        after.metrics == state.metrics,
        after.clock == state.clock,
        after.last_id == state.last_id,
{
    assert forall|slot: int| !#[trigger] state.eligible(slot, key, range) by {
        if state.sampled(slot) {
            assert(state.ring[slot].key == key);
        }
    }
    samples_follow_one_another_around_the_ring(state, 0);
    if step is Compact {
        let slot = choose|slot: int| #[trigger] state.victim(slot, key, range);
        assert(state.eligible(slot, key, range));
    } else if !(after == state.rotated()) {
        let slot = choose|slot: int| #[trigger] state.victim(slot, key, range);
        assert(state.eligible(slot, key, range));
    }
}

/// One decision before `count` others is one decision after them.
proof fn lemma_decided_first(state: ShardState, key: Seq<char>, range: Interval, count: nat)
    ensures
        state.relieved(key, range).relieved_times(key, range, count) == state.relieved_times(
            key,
            range,
            count + 1,
        ),
    decreases count,
{
    reveal_with_fuel(ShardState::relieved_times, 2);
    if count > 0 {
        lemma_decided_first(state, key, range, (count - 1) as nat);
    }
}

/// Caching a download under pressure is a pressure decision and then caching the download:
/// every decision is made alike, and goes by what the ones before it left.
pub proof fn populations_make_one_decision_after_another(
    before: ShardState,
    key: Seq<char>,
    range: Interval,
    bytes: Seq<u8>,
    requested: Option<Interval>,
    after: ShardState,
)
    requires
        populated(before, key, range, bytes, requested, after),
        !before.ready(key, range),
    ensures
        before.can_relieve(key, range),
        populated(before.relieved(key, range), key, range, bytes, requested, after),
{
    let next = before.relieved(key, range);
    let count = choose|count: nat|
        #[trigger] settles(before, key, range, count) && after == before.relieved_times(
            key,
            range,
            count,
        ).admitted(key, range, bytes, requested);
    assert(before.relieved_times(key, range, 0) == before);
    assert(before.unsettled(key, range, 0nat));
    assert(count > 0);
    let rest = (count - 1) as nat;
    lemma_decided_first(before, key, range, rest);
    assert forall|n: nat| #[trigger] next.unsettled(key, range, n) implies next.relieved_times(
        key,
        range,
        n,
    ).can_step(key, range) by {
        lemma_decided_first(before, key, range, n);
        assert(before.unsettled(key, range, n + 1)) by {
            assert forall|i: nat| i < n + 1 implies !(#[trigger] before.relieved_times(
                key,
                range,
                i,
            )).ready(key, range) by {
                if i > 0 {
                    lemma_decided_first(before, key, range, (i - 1) as nat);
                    assert(!next.relieved_times(key, range, (i - 1) as nat).ready(key, range));
                }
            }
        }
    }
    assert(next.unsettled(key, range, rest)) by {
        assert forall|i: nat| i < rest implies !(#[trigger] next.relieved_times(
            key,
            range,
            i,
        )).ready(key, range) by {
            lemma_decided_first(before, key, range, i);
            assert(!before.relieved_times(key, range, i + 1).ready(key, range));
        }
    }
    assert(settles(next, key, range, rest));
}

} // verus!

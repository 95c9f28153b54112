//! What admitting a download, and removing a range, comes to.

use vstd::prelude::*;

use crate::metrics::MemoryMetrics;
use crate::range::Interval;
use crate::shard::{populated, settles};
use crate::shard_lemmas::{lemma_payload_bounds, lemma_payload_push, lemma_vacated};
use crate::shard_state::{held, payload_of, vacated, Extent, ShardState};

verus! {

/// The bytes of `ring` that stay beside `range` of `key`: those of every extent that
/// is not a part of it.
pub open spec fn bytes_beside(ring: Seq<Extent>, key: Seq<char>, range: Interval) -> int
    decreases ring.len(),
{
    if ring.len() == 0 {
        0
    } else {
        let last = ring.last();
        let inside = last.key == key && range.start <= last.range.start && last.range.end
            <= range.end;
        bytes_beside(ring.drop_last(), key, range) + if inside {
            0
        } else {
            last.range.end - last.range.start
        }
    }
}

proof fn lemma_beside_update(
    ring: Seq<Extent>,
    slot: int,
    extent: Extent,
    key: Seq<char>,
    range: Interval,
)
    requires
        0 <= slot < ring.len(),
    ensures
        bytes_beside(ring.update(slot, extent), key, range) == bytes_beside(ring, key, range)
            - bytes_beside(seq![ring[slot]], key, range) + bytes_beside(seq![extent], key, range),
    decreases ring.len(),
{
    let updated = ring.update(slot, extent);
    reveal_with_fuel(bytes_beside, 2);
    if slot == ring.len() - 1 {
        assert(updated.drop_last() =~= ring.drop_last());
    } else {
        assert(updated.drop_last() =~= ring.drop_last().update(slot, extent));
        lemma_beside_update(ring.drop_last(), slot, extent, key, range);
    }
}

/// Taking out an extent that is superseded leaves the bytes beside as they are.
proof fn lemma_beside_vacated(ring: Seq<Extent>, slot: int, key: Seq<char>, range: Interval)
    requires
        0 <= slot < ring.len(),
        ring[slot].key == key,
        range.start <= ring[slot].range.start,
        ring[slot].range.end <= range.end,
    ensures
        bytes_beside(vacated(ring, slot), key, range) == bytes_beside(ring, key, range),
{
    let updated = ring.update(slot, ring.last());
    reveal_with_fuel(bytes_beside, 2);
    lemma_beside_update(ring, slot, ring.last(), key, range);
    assert(updated.last() == ring.last());
    assert(seq![ring.last()].drop_last() =~= Seq::<Extent>::empty());
    assert(seq![ring[slot]].drop_last() =~= Seq::<Extent>::empty());
}

/// Where nothing is superseded, all bytes stay beside.
proof fn lemma_beside_all(ring: Seq<Extent>, key: Seq<char>, range: Interval)
    requires
        forall|slot: int|
            0 <= slot < ring.len() ==> !((#[trigger] ring[slot]).key == key && range.start
                <= ring[slot].range.start && ring[slot].range.end <= range.end),
    ensures
        bytes_beside(ring, key, range) == payload_of(ring),
    decreases ring.len(),
{
    if ring.len() > 0 {
        let rest = ring.drop_last();
        assert forall|slot: int| 0 <= slot < rest.len() implies !((#[trigger] rest[slot]).key == key
            && range.start <= rest[slot].range.start && rest[slot].range.end <= range.end) by {
            assert(rest[slot] == ring[slot]);
        }
        lemma_beside_all(rest, key, range);
        assert(ring[ring.len() - 1] == ring.last());
    }
}

proof fn lemma_cleared_beside(state: ShardState, key: Seq<char>, range: Interval)
    requires
        state.valid(),
    ensures
        state.cleared(key, range).used() == bytes_beside(state.ring, key, range),
    decreases state.ring.len(),
{
    if exists|slot: int| #[trigger] state.first_superseded(slot, key, range) {
        let slot = choose|slot: int| #[trigger] state.first_superseded(slot, key, range);
        let next = state.detached(slot, true);
        state.lemma_detached(slot, true);
        lemma_vacated(state.ring, slot);
        lemma_beside_vacated(state.ring, slot, key, range);
        lemma_cleared_beside(next, key, range);
    } else {
        state.lemma_cleared(key, range);
        assert forall|slot: int| 0 <= slot < state.ring.len() implies !((
        #[trigger] state.ring[slot]).key == key && range.start <= state.ring[slot].range.start
            && state.ring[slot].range.end <= range.end) by {
            assert(!state.cleared(key, range).superseded(slot, key, range));
        }
        lemma_beside_all(state.ring, key, range);
    }
}

/// A download fits exactly if its bytes and those that stay beside it are within the
/// capacity, or if nothing stays beside it.
pub proof fn downloads_fit_up_to_the_capacity(state: ShardState, key: Seq<char>, range: Interval)
    requires
        state.valid(),
        range.valid(),
    ensures
        state.fits(key, range) <==> {
            ||| bytes_beside(state.ring, key, range) + (range.end - range.start) <= state.capacity
            ||| bytes_beside(state.ring, key, range) == 0
        },
{
    lemma_cleared_beside(state, key, range);
    state.lemma_cleared(key, range);
}

/// A download that completes at once takes no pressure decision.
proof fn lemma_completes_at_once(
    before: ShardState,
    key: Seq<char>,
    range: Interval,
    bytes: Seq<u8>,
    requested: Option<Interval>,
    after: ShardState,
)
    requires
        before.ready(key, range),
        populated(before, key, range, bytes, requested, after),
    ensures
        after == before.admitted(key, range, bytes, requested),
        before.relieved_times(key, range, 0) == before,
        before.can_step(key, range),
{
    let count = choose|count: nat|
        #[trigger] settles(before, key, range, count) && after == before.relieved_times(
            key,
            range,
            count,
        ).admitted(key, range, bytes, requested);
    assert(before.relieved_times(key, range, 0) == before);
    if count > 0 {
        assert(!before.relieved_times(key, range, 0nat).ready(key, range));
    }
    assert(before.unsettled(key, range, 0nat));
}

/// A download that no extent covers, and that fits, evicts and trims nothing. It takes
/// the place of the extents that are a part of it, every other extent stays as it was,
/// and it counts as one insertion, or as one replacement if there were such parts.
pub proof fn fitting_downloads_replace_exactly_their_parts(
    before: ShardState,
    key: Seq<char>,
    range: Interval,
    bytes: Seq<u8>,
    requested: Option<Interval>,
    after: ShardState,
)
    requires
        before.valid(),
        before.measured(),
        before.used() <= u64::MAX,
        range.valid(),
        bytes.len() == range.len(),
        populated(before, key, range, bytes, requested, after),
        forall|slot: int|
            0 <= slot < before.ring.len() && (#[trigger] before.ring[slot]).key == key ==> !(
            before.ring[slot].range.start <= range.start && range.end
                <= before.ring[slot].range.end),
        bytes_beside(before.ring, key, range) + (range.end - range.start) <= before.capacity,
    ensures
        forall|slot: int|
            0 <= slot < before.ring.len() ==> (after.ring.contains(#[trigger] before.ring[slot])
                <==> !(before.ring[slot].key == key && range.start <= before.ring[slot].range.start
                && before.ring[slot].range.end <= range.end)),
        forall|slot: int|
            0 <= slot < after.ring.len() - 1 ==> before.ring.contains(#[trigger] after.ring[slot]),
        after.ring.len() > 0,
        after.ring.last().key == key,
        after.ring.last().range == range,
        after.ring.last().bytes == bytes,
        after.ring.last().admitted_at == before.clock,
        after.ring.last().id == before.last_id + 1,
        after.last_id == before.last_id + 1,
        after.used() == bytes_beside(before.ring, key, range) + (range.end - range.start),
        ({
            let replaces = exists|slot: int|
                0 <= slot < before.ring.len() && (#[trigger] before.ring[slot]).key == key
                    && range.start <= before.ring[slot].range.start && before.ring[slot].range.end
                    <= range.end;
            after.metrics == MemoryMetrics {
                insert: if replaces {
                    before.metrics.insert
                } else {
                    before.metrics.insert.wrapping_add(1)
                },
                replace: if replaces {
                    before.metrics.replace.wrapping_add(1)
                } else {
                    before.metrics.replace
                },
                access: if requested is Some {
                    before.metrics.access.wrapping_add(1)
                } else {
                    before.metrics.access
                },
                payload_bytes: after.used() as u64,
                entries: after.ring.len() as u64,
                ..before.metrics
            }
        }),
{
    let cleared = before.cleared(key, range);
    lemma_cleared_beside(before, key, range);
    before.lemma_cleared(key, range);
    downloads_fit_up_to_the_capacity(before, key, range);
    assert(!before.covered(key, range)) by {
        if before.covered(key, range) {
            let slot = choose|slot: int| #[trigger] before.covers_at(slot, key, range);
            assert(before.ring[slot].key == key);
        }
    }
    lemma_completes_at_once(before, key, range, bytes, requested, after);
    lemma_payload_bounds(before.ring);
    lemma_payload_bounds(cleared.ring);
    let added = after.ring.last();
    assert(after.ring == cleared.ring.push(added));
    lemma_payload_push(cleared.ring, added);
    assert forall|slot: int| 0 <= slot < before.ring.len() implies (after.ring.contains(
        #[trigger] before.ring[slot],
    ) <==> !(before.ring[slot].key == key && range.start <= before.ring[slot].range.start
        && before.ring[slot].range.end <= range.end)) by {
        let extent = before.ring[slot];
        if before.superseded(slot, key, range) {
            if after.ring.contains(extent) {
                let at = choose|at: int| 0 <= at < after.ring.len() && after.ring[at] == extent;
                if at < cleared.ring.len() {
                    assert(cleared.ring[at] == extent);
                    assert(cleared.superseded(at, key, range));
                } else {
                    assert(extent.id <= before.last_id);
                }
            }
        } else {
            assert(cleared.ring.contains(extent));
            let at = choose|at: int| 0 <= at < cleared.ring.len() && cleared.ring[at] == extent;
            assert(after.ring[at] == extent);
        }
    }
    assert forall|slot: int| 0 <= slot < after.ring.len() - 1 implies before.ring.contains(
        #[trigger] after.ring[slot],
    ) by {
        assert(after.ring[slot] == cleared.ring[slot]);
    }
    if cleared.ring.len() == before.ring.len() {
        assert forall|slot: int|
            0 <= slot < before.ring.len() && (#[trigger] before.ring[slot]).key
                == key implies !(range.start <= before.ring[slot].range.start
            && before.ring[slot].range.end <= range.end) by {
            assert(!cleared.superseded(slot, key, range));
        }
    } else {
        if forall|slot: int|
            0 <= slot < before.ring.len() && (#[trigger] before.ring[slot]).key == key ==> !(
            range.start <= before.ring[slot].range.start && before.ring[slot].range.end
                <= range.end) {
            assert forall|slot: int| !#[trigger] before.first_superseded(slot, key, range) by {
                if before.superseded(slot, key, range) {
                    assert(before.ring[slot].key == key);
                }
            }
            assert(cleared == before);
        }
    }
}

/// A download that one extent covers changes no extent, and is counted once, as
/// redundant.
pub proof fn redundant_downloads_change_no_extent(
    before: ShardState,
    key: Seq<char>,
    range: Interval,
    bytes: Seq<u8>,
    requested: Option<Interval>,
    after: ShardState,
    slot: int,
)
    requires
        before.valid(),
        populated(before, key, range, bytes, requested, after),
        0 <= slot < before.ring.len(),
        before.ring[slot].key == key,
        before.ring[slot].range.start <= range.start,
        range.end <= before.ring[slot].range.end,
    ensures
        after.ring == before.ring,
        after.cursor == before.cursor,
        after.last_id == before.last_id,
        after.metrics == (MemoryMetrics {
            redundant: before.metrics.redundant.wrapping_add(1),
            access: if requested is Some {
                before.metrics.access.wrapping_add(1)
            } else {
                before.metrics.access
            },
            ..before.metrics
        }),
        requested is None ==> after.objects == before.objects && after.clock == before.clock,
{
    assert(before.covers_at(slot, key, range));
    lemma_completes_at_once(before, key, range, bytes, requested, after);
}

/// A cursor into a ring stays where it is when the ring loses a slot, unless it points
/// beyond the ring then.
pub proof fn lemma_cursor_kept(cursor: int, len: int)
    requires
        0 <= cursor < len,
    ensures
        len > 1 ==> cursor % (len - 1) == if cursor < len - 1 {
            cursor
        } else {
            0
        },
{
    if len > 1 {
        if cursor < len - 1 {
            vstd::arithmetic::div_mod::lemma_small_mod(cursor as nat, (len - 1) as nat);
        } else {
            vstd::arithmetic::div_mod::lemma_mod_self_0(len - 1);
        }
    }
}

/// Removing the extent that is exactly a range takes that extent and no other, and
/// counts one removal. What was remembered of the object stays as long as it has
/// another extent.
pub proof fn removals_take_exactly_their_extent(
    before: ShardState,
    key: Seq<char>,
    range: Interval,
    slot: int,
    after: ShardState,
)
    requires
        before.valid(),
        before.measured(),
        before.used() <= u64::MAX,
        0 <= slot < before.ring.len(),
        before.ring[slot].key == key,
        before.ring[slot].range == range,
        after == before.removed(key, range),
    ensures
        after.ring.len() == before.ring.len() - 1,
        !after.ring.contains(before.ring[slot]),
        forall|other: int|
            0 <= other < before.ring.len() && other != slot ==> after.ring.contains(
                #[trigger] before.ring[other],
            ),
        forall|other: int|
            0 <= other < after.ring.len() ==> #[trigger] after.ring[other] == if other == slot {
                before.ring.last()
            } else {
                before.ring[other]
            },
        after.cursor == if before.cursor < after.ring.len() {
            before.cursor
        } else {
            0
        },
        after.metrics == (MemoryMetrics {
            remove: before.metrics.remove.wrapping_add(1),
            payload_bytes: (before.metrics.payload_bytes - (range.end - range.start)) as u64,
            entries: (before.metrics.entries - 1) as u64,
            ..before.metrics
        }),
        after.clock == before.clock,
        after.last_id == before.last_id,
        after.objects.contains_key(key) <==> exists|other: int|
            0 <= other < before.ring.len() && other != slot && (#[trigger] before.ring[other]).key
                == key,
        after.objects.contains_key(key) ==> after.objects[key].accesses
            == before.objects[key].accesses,
        forall|object: Seq<char>|
            object != key ==> (#[trigger] after.record_of(object)) == before.record_of(object),
{
    assert(before.exact_at(slot, key, range));
    before.lemma_exact_unique(slot, key, range);
    lemma_vacated(before.ring, slot);
    lemma_cursor_kept(before.cursor, before.ring.len() as int);
    lemma_payload_bounds(before.ring);
    assert(before.ring[slot].valid());
    assert forall|other: int|
        0 <= other < before.ring.len() && other != slot implies after.ring.contains(
        #[trigger] before.ring[other],
    ) by {
        let at = if other == before.ring.len() - 1 {
            slot
        } else {
            other
        };
        assert(after.ring[at] == before.ring[other]);
    }
    assert forall|at: int| 0 <= at < after.ring.len() implies (#[trigger] after.ring[at])
        != before.ring[slot] by {
        let from = if at == slot {
            before.ring.len() - 1
        } else {
            at
        };
        assert(after.ring[at] == before.ring[from]);
        assert(before.ring[from].id != before.ring[slot].id);
    }
    if held(after.ring, key) {
        let at = choose|at: int| 0 <= at < after.ring.len() && (#[trigger] after.ring[at]).key
            == key;
        let from = if at == slot {
            before.ring.len() - 1
        } else {
            at
        };
        assert(after.ring[at] == before.ring[from]);
        assert(before.ring[from].key == key);
    }
    assert forall|other: int|
        0 <= other < before.ring.len() && other != slot && (#[trigger] before.ring[other]).key
            == key implies held(after.ring, key) by {
        assert(after.ring.contains(before.ring[other]));
        let at = choose|at: int| 0 <= at < after.ring.len() && after.ring[at] == before.ring[other];
        assert(after.ring[at].key == key);
    }
}

/// The extents that are a part of a download leave in ascending order: to take out the one
/// that starts first, and then the others, is to take out all of them.
pub proof fn parts_leave_in_ascending_order(
    state: ShardState,
    key: Seq<char>,
    range: Interval,
    first: int,
)
    requires
        state.valid(),
        0 <= first < state.ring.len(),
        state.ring[first].key == key,
        range.start <= state.ring[first].range.start,
        state.ring[first].range.end <= range.end,
        forall|other: int|
            0 <= other < state.ring.len() && (#[trigger] state.ring[other]).key == key
                && range.start <= state.ring[other].range.start && state.ring[other].range.end
                <= range.end ==> state.ring[first].range.start <= state.ring[other].range.start,
    ensures
        state.cleared(key, range) == state.detached(first, true).cleared(key, range),
{
    assert(state.superseded(first, key, range));
    assert forall|other: int| #[trigger] state.superseded(
        other,
        key,
        range,
    ) implies state.ring[first].range.start <= state.ring[other].range.start by {
        assert(state.ring[other].key == key);
    }
    assert(state.first_superseded(first, key, range));
    let chosen = choose|chosen: int| #[trigger] state.first_superseded(chosen, key, range);
    assert(state.superseded(chosen, key, range));
    if chosen != first {
        assert(!state.ring[chosen].range.covers(state.ring[first].range));
        assert(!state.ring[first].range.covers(state.ring[chosen].range));
    }
}

/// Where no extent is a part of a download, none leaves.
pub proof fn other_extents_stay(state: ShardState, key: Seq<char>, range: Interval)
    requires
        forall|slot: int|
            0 <= slot < state.ring.len() && (#[trigger] state.ring[slot]).key == key ==> !(
            range.start <= state.ring[slot].range.start && state.ring[slot].range.end
                <= range.end),
    ensures
        state.cleared(key, range) == state,
{
    assert forall|slot: int| !#[trigger] state.first_superseded(slot, key, range) by {
        if state.superseded(slot, key, range) {
            assert(state.ring[slot].key == key);
        }
    }
}

} // verus!

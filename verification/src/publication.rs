//! What the publication of a copy preserves.

use vstd::prelude::*;

use crate::compaction::{
    compactable, covered, covered_requests_stay_coverable, grouping, lemma_grouping, wanted,
};
use crate::compaction_work::Target;
use crate::laws::{lemma_republished_covers, source_bytes};
use crate::operations::{copies_are_published_iff_untouched, Operation};
use crate::range::Interval;
use crate::ranges::part;
use crate::shard_lemmas::{lemma_vacated, ranges_of};
use crate::shard_state::{fragments_of, Fragment, ShardState};

verus! {

impl ShardState {
    /// Whether some extent of `key` holds the byte at `offset`.
    pub open spec fn serves(self, key: Seq<char>, offset: int) -> bool {
        exists|slot: int|
            0 <= slot < self.ring.len() && (#[trigger] self.ring[slot]).key == key
                && self.ring[slot].range.has(offset)
    }

    /// Whether the extent at `slot` is one of `old`, other than that at `replaced`.
    pub open spec fn retained_at(self, slot: int, old: ShardState, replaced: int) -> bool {
        exists|other: int|
            0 <= other < old.ring.len() && other != replaced && #[trigger] old.ring[other]
                == self.ring[slot]
    }
}

/// What becomes of the requests that the extent at `slot` of `before` covered:
/// each is still covered by one extent. That extent holds the same bytes of it,
/// or was there before beside the replaced one.
pub open spec fn requests_preserved(
    before: ShardState,
    slot: int,
    requests: Seq<Interval>,
    after: ShardState,
) -> bool {
    let key = before.ring[slot].key;
    forall|i: int|
        0 <= i < requests.len() && (#[trigger] requests[i]).valid()
            && before.ring[slot].range.covers(requests[i]) ==> {
            &&& after.covered(key, requests[i])
            &&& forall|at: int| #[trigger]
                after.covers_at(at, key, requests[i]) ==> after.retained_at(at, before, slot)
                    || after.bytes_at(at, requests[i]) == before.bytes_at(slot, requests[i])
        }
}

/// What becomes of the rest of the extent at `slot` of `before`: a byte outside
/// the requests is served only if another extent held it before.
pub open spec fn remainder_released(
    before: ShardState,
    slot: int,
    requests: Seq<Interval>,
    after: ShardState,
) -> bool {
    let key = before.ring[slot].key;
    forall|offset: int| #[trigger]
        before.ring[slot].range.has(offset) && !wanted(before.ring[slot].range, requests, offset)
            && after.serves(key, offset) ==> before.detached(slot, true).serves(key, offset)
}

/// What becomes of everything else: every other extent stays, and the clock and
/// what is remembered of every object's accesses stay the same.
pub open spec fn bystanders_kept(before: ShardState, slot: int, after: ShardState) -> bool {
    &&& forall|other: int|
        0 <= other < before.ring.len() && other != slot ==> after.ring.contains(
            #[trigger] before.ring[other],
        )
    &&& after.clock == before.clock
    &&& after.metrics.access == before.metrics.access
    &&& forall|key: Seq<char>| #[trigger]
        after.objects.contains_key(key) <==> before.objects.contains_key(key)
    &&& forall|key: Seq<char>| #[trigger]
        before.objects.contains_key(key) ==> after.objects[key].accesses
            == before.objects[key].accesses
}

/// A published copy that was planned toward `requests` keeps every request that
/// its source covered answerable, releases the rest of the source, at least a
/// quarter of it, and changes nothing else.
pub proof fn publications_preserve_the_planned_requests(
    state: ShardState,
    slot: int,
    requests: Seq<Interval>,
)
    requires
        state.valid(),
        0 <= slot < state.ring.len(),
        compactable(state.ring[slot].range, requests),
        state.can_compact(
            slot,
            fragments_of(
                state.ring[slot].range,
                state.ring[slot].bytes,
                grouping(state.ring[slot].range, requests),
            ),
        ),
    ensures
        ({
            let source = state.ring[slot].range;
            let fragments = fragments_of(
                source,
                state.ring[slot].bytes,
                grouping(source, requests),
            );
            let after = state.compacted(slot, fragments);
            &&& after.valid()
            &&& requests_preserved(state, slot, requests, after)
            &&& remainder_released(state, slot, requests, after)
            &&& bystanders_kept(state, slot, after)
            &&& 4 * (state.used() - after.used()) >= source.len()
        }),
{
    let key = state.ring[slot].key;
    let source = state.ring[slot].range;
    let bytes = state.ring[slot].bytes;
    let retained = grouping(source, requests);
    let fragments = fragments_of(source, bytes, retained);
    let after = state.compacted(slot, fragments);
    assert(state.ring[slot].valid());
    lemma_grouping(source, requests);
    assert(ranges_of(fragments) =~= retained);
    assert forall|i: int| 0 <= i < fragments.len() implies (#[trigger] fragments[i]).bytes.len()
        == fragments[i].range.len() && source.covers(fragments[i].range) by {
        assert(fragments[i].range == retained[i]);
        assert(retained[i].valid());
    }
    state.lemma_compacted(slot, fragments);
    lemma_compacted_extents(state, slot, fragments);
    assert forall|i: int|
        0 <= i < requests.len() && (#[trigger] requests[i]).valid() && source.covers(
            requests[i],
        ) implies {
        &&& after.covered(key, requests[i])
        &&& forall|at: int| #[trigger]
            after.covers_at(at, key, requests[i]) ==> after.retained_at(at, state, slot)
                || after.bytes_at(at, requests[i]) == state.bytes_at(slot, requests[i])
    } by {
        let request = requests[i];
        covered_requests_stay_coverable(source, requests, retained, i);
        let j = choose|j: int| 0 <= j < retained.len() && (#[trigger] retained[j]).covers(request);
        assert(fragments[j].range == retained[j]);
        let holder = choose|at: int| #[trigger] after.covers_at(at, key, fragments[j].range);
        assert(after.covers_at(holder, key, request));
        assert forall|at: int| #[trigger] after.covers_at(at, key, request) && !after.retained_at(
            at,
            state,
            slot,
        ) implies after.bytes_at(at, request) == state.bytes_at(slot, request) by {
            let extent = after.ring[at];
            let fragment = Fragment { range: extent.range, bytes: extent.bytes };
            assert(fragments.contains(fragment));
            let from = choose|from: int| 0 <= from < fragments.len() && fragments[from]
                == fragment;
            assert(fragments[from].bytes == part(bytes, source, retained[from]));
            assert(part(extent.bytes, extent.range, request) =~= part(bytes, source, request));
        }
    }
    assert forall|offset: int| #[trigger] source.has(offset) && !wanted(source, requests, offset)
        && after.serves(key, offset) implies state.detached(slot, true).serves(key, offset) by {
        let at = choose|at: int|
            0 <= at < after.ring.len() && (#[trigger] after.ring[at]).key == key
                && after.ring[at].range.has(offset);
        if after.retained_at(at, state, slot) {
            let other = choose|other: int|
                0 <= other < state.ring.len() && other != slot && #[trigger] state.ring[other]
                    == after.ring[at];
            lemma_vacated(state.ring, slot);
            let place = if other == state.ring.len() - 1 {
                slot
            } else {
                other
            };
            assert(state.detached(slot, true).ring[place] == state.ring[other]);
        } else {
            let fragment = Fragment {
                range: after.ring[at].range,
                bytes: after.ring[at].bytes,
            };
            assert(fragments.contains(fragment));
            let from = choose|from: int| 0 <= from < fragments.len() && fragments[from]
                == fragment;
            assert(retained[from].has(offset));
            assert(covered(retained, offset));
        }
    }
}

/// What a shard is made of after a publication.
proof fn lemma_compacted_extents(state: ShardState, slot: int, fragments: Seq<Fragment>)
    requires
        state.valid(),
        0 <= slot < state.ring.len(),
        crate::compaction::separated(ranges_of(fragments)),
        state.can_compact(slot, fragments),
        forall|i: int|
            0 <= i < fragments.len() ==> (#[trigger] fragments[i]).bytes.len()
                == fragments[i].range.len() && state.ring[slot].range.covers(fragments[i].range),
    ensures
        ({
            let after = state.compacted(slot, fragments);
            let key = state.ring[slot].key;
            &&& bystanders_kept(state, slot, after)
            &&& forall|i: int|
                0 <= i < fragments.len() ==> after.covered(key, (#[trigger] fragments[i]).range)
            &&& forall|at: int|
                0 <= at < after.ring.len() && !#[trigger] after.retained_at(at, state, slot)
                    ==> fragments.contains(
                    Fragment { range: after.ring[at].range, bytes: after.ring[at].bytes },
                )
        }),
{
    let key = state.ring[slot].key;
    let last = state.ring.len() - 1;
    let emptied = state.detached(slot, true);
    let next = emptied.republished(key, fragments);
    let after = state.compacted(slot, fragments);
    state.lemma_accepts_fragments(slot, fragments);
    state.lemma_detached(slot, true);
    lemma_vacated(state.ring, slot);
    emptied.lemma_republished(key, fragments);
    assert(state.objects.contains_key(key));
    assert(after.ring == next.ring && after.objects == next.objects);
    assert forall|i: int| 0 <= i < fragments.len() implies after.covered(
        key,
        (#[trigger] fragments[i]).range,
    ) by {
        lemma_republished_covers(emptied, key, fragments, i);
        let at = choose|at: int| #[trigger] next.covers_at(at, key, fragments[i].range);
        assert(after.covers_at(at, key, fragments[i].range));
    }
    assert forall|at: int|
        0 <= at < after.ring.len() && !#[trigger] after.retained_at(
            at,
            state,
            slot,
        ) implies fragments.contains(
        Fragment { range: after.ring[at].range, bytes: after.ring[at].bytes },
    ) by {
        if at < emptied.ring.len() {
            let from = if at == slot {
                last
            } else {
                at
            };
            assert(emptied.ring[at] == state.ring[from]);
            assert(after.ring[at] == emptied.ring[at]);
        }
    }
    assert forall|object: Seq<char>| #[trigger] after.objects.contains_key(object)
        <==> state.objects.contains_key(object) by {
        assert(next.objects.contains_key(object) <==> emptied.objects.contains_key(object));
    }
    assert forall|object: Seq<char>| #[trigger] state.objects.contains_key(
        object,
    ) implies after.objects[object].accesses == state.objects[object].accesses by {
        assert(emptied.objects[object].accesses == state.objects[object].accesses);
        assert(next.objects.contains_key(object));
    }
    assert(after.metrics.access == state.metrics.access);
    assert forall|other: int|
        0 <= other < state.ring.len() && other != slot implies after.ring.contains(
        #[trigger] state.ring[other],
    ) by {
        let at = if other == last {
            slot
        } else {
            other
        };
        assert(emptied.ring[at] == state.ring[other]);
        assert(after.ring[at] == emptied.ring[at]);
    }
}

/// Where extents hold the bytes of a source, the requests that a publication
/// preserves keep exactly their bytes.
pub proof fn preserved_requests_keep_their_bytes(
    before: ShardState,
    source: spec_fn(Seq<char>, int) -> u8,
    slot: int,
    requests: Seq<Interval>,
    after: ShardState,
    i: int,
    at: int,
)
    requires
        before.valid(),
        before.faithful(source),
        0 <= slot < before.ring.len(),
        requests_preserved(before, slot, requests, after),
        0 <= i < requests.len(),
        requests[i].valid(),
        before.ring[slot].range.covers(requests[i]),
        after.covers_at(at, before.ring[slot].key, requests[i]),
    ensures
        after.bytes_at(at, requests[i]) == before.bytes_at(slot, requests[i]),
{
    let key = before.ring[slot].key;
    let request = requests[i];
    if after.retained_at(at, before, slot) {
        let other = choose|other: int|
            0 <= other < before.ring.len() && other != slot && #[trigger] before.ring[other]
                == after.ring[at];
        let one = before.ring[slot];
        let two = before.ring[other];
        assert(one.valid() && two.valid());
        assert(source_bytes(source, key, one.range, one.bytes));
        assert(source_bytes(source, key, two.range, two.bytes));
        let left = before.bytes_at(slot, request);
        let right = after.bytes_at(at, request);
        assert forall|k: int| 0 <= k < left.len() implies left[k] == right[k] by {
            assert(left[k] == one.bytes[request.start - one.range.start + k]);
            assert(right[k] == two.bytes[request.start - two.range.start + k]);
        }
        assert(left =~= right);
    }
}

/// A copy that was planned for the extent at `slot` and is published later, after
/// whatever the shard did meanwhile, preserves the requests that were active when
/// it was planned.
pub proof fn late_publications_preserve_the_planned_requests(
    states: Seq<ShardState>,
    operations: Seq<Operation>,
    slot: int,
    at: int,
)
    requires
        states.len() == operations.len() + 1,
        states[0].valid(),
        0 <= slot < states[0].ring.len(),
        states[0].objects[states[0].ring[slot].key].generation < u64::MAX,
        forall|i: int|
            0 <= i < operations.len() ==> (#[trigger] operations[i]).leads(states[i], states[i + 1]),
        states[0].trims(slot),
        Target::at(states[0], slot).current_at(states.last(), at),
        states.last().can_compact(at, states[0].trimmed(slot)),
    ensures
        ({
            let before = states.last();
            let after = before.compacted(at, states[0].trimmed(slot));
            let requests = states[0].requests_at(slot);
            &&& after.valid()
            &&& requests_preserved(before, at, requests, after)
            &&& remainder_released(before, at, requests, after)
            &&& bystanders_kept(before, at, after)
            &&& 4 * (before.used() - after.used()) >= before.ring[at].range.len()
        }),
{
    copies_are_published_iff_untouched(states, operations, slot);
    publications_preserve_the_planned_requests(states.last(), at, states[0].requests_at(slot));
}

} // verus!

//! How pressure ranks the entries it may give up.

use vstd::prelude::*;

use crate::keys::{key_before, text_before, ObjectKey};
use crate::range::ByteRange;
use crate::shard_state::ShardState;

verus! {

/// One entry that a pressure sample may give up.
pub struct Victim {
    pub object_key: ObjectKey,
    pub range: ByteRange,
    pub id: u64,
    pub bytes: u64,
    pub retrieval_value: u64,
}

impl Victim {
    /// Whether this is the extent at `slot` of `state`.
    pub open spec fn stands_for(&self, state: ShardState, slot: int) -> bool {
        &&& 0 <= slot < state.ring.len()
        &&& self.object_key@ == state.ring[slot].key
        &&& self.range@ == state.ring[slot].range
        &&& self.id == state.ring[slot].id
        &&& self.bytes == state.ring[slot].range.len()
        &&& self.retrieval_value == state.value(slot)
    }
}

/// Whether `left` is given up before `right`: lower retrieval value per byte,
/// then the older entry, then key and range order.
pub open spec fn ranks_before(left: Victim, right: Victim) -> bool {
    let one = left.retrieval_value * right.bytes;
    let other = right.retrieval_value * left.bytes;
    ||| one < other
    ||| one == other && left.id < right.id
    ||| one == other && left.id == right.id && text_before(left.object_key@, right.object_key@)
    ||| one == other && left.id == right.id && left.object_key@ == right.object_key@
        && left.range@.before(right.range@)
}

/// Lower retrieval-value density, then the older entry wins victim selection.
pub fn compare_retention(left: &Victim, right: &Victim) -> (lower: bool)
    ensures
        lower == ranks_before(*left, *right),
{
    let one = density_product(left.retrieval_value, right.bytes);
    let other = density_product(right.retrieval_value, left.bytes);
    if one != other {
        return one < other;
    }
    if left.id != right.id {
        return left.id < right.id;
    }
    if key_before(left.object_key.as_str(), right.object_key.as_str()) {
        return true;
    }
    left.object_key == right.object_key && crate::compaction::precedes(left.range, right.range)
}

/// Multiplies without loss, to compare value per byte without division.
fn density_product(value: u64, bytes: u64) -> (product: u128)
    ensures
        product == value * bytes,
{
    proof {
        assert(value * bytes <= u64::MAX * u64::MAX) by (nonlinear_arith)
            requires
                0 <= value <= u64::MAX,
                0 <= bytes <= u64::MAX,
        ;
    }
    value as u128 * bytes as u128
}

/// Value per byte orders transitively, also through equal densities.
proof fn lemma_density_transitive(v1: int, b1: int, v2: int, b2: int, v3: int, b3: int)
    requires
        b1 > 0,
        b2 > 0,
        b3 > 0,
        v1 >= 0,
        v2 >= 0,
        v3 >= 0,
        v1 * b2 <= v2 * b1,
        v2 * b3 <= v3 * b2,
    ensures
        v1 * b3 <= v3 * b1,
        v1 * b3 == v3 * b1 ==> v1 * b2 == v2 * b1 && v2 * b3 == v3 * b2,
{
    assert(v1 * b3 * b2 <= v3 * b1 * b2 && (v1 * b3 * b2 == v3 * b1 * b2 ==> v1 * b2 == v2 * b1
        && v2 * b3 == v3 * b2)) by (nonlinear_arith)
        requires
            b1 > 0,
            b2 > 0,
            b3 > 0,
            v1 * b2 <= v2 * b1,
            v2 * b3 <= v3 * b2,
    {
        assert(v1 * b2 * b3 <= v2 * b1 * b3);
        assert(v2 * b3 * b1 <= v3 * b2 * b1);
        if v1 * b2 < v2 * b1 {
            assert(v1 * b2 * b3 < v2 * b1 * b3);
        }
        if v2 * b3 < v3 * b2 {
            assert(v2 * b3 * b1 < v3 * b2 * b1);
        }
    }
    assert(v1 * b3 * b2 <= v3 * b1 * b2 ==> v1 * b3 <= v3 * b1) by (nonlinear_arith)
        requires
            b2 > 0,
    ;
}

/// What pressure gives up first, it also gives up before anything that ranks later.
pub proof fn retention_order_is_transitive(state: ShardState, first: int, second: int, third: int)
    requires
        state.valid(),
        0 <= first < state.ring.len(),
        0 <= second < state.ring.len(),
        0 <= third < state.ring.len(),
        state.weaker(first, second),
        state.weaker(second, third),
    ensures
        state.weaker(first, third),
{
    assert(state.ring[first].valid());
    assert(state.ring[second].valid());
    assert(state.ring[third].valid());
    lemma_density_transitive(
        state.value(first) as int,
        state.ring[first].range.len(),
        state.value(second) as int,
        state.ring[second].range.len(),
        state.value(third) as int,
        state.ring[third].range.len(),
    );
}

/// Of two extents, pressure gives up exactly one before the other.
pub proof fn retention_order_is_total(state: ShardState, one: int, other: int)
    requires
        state.valid(),
        0 <= one < state.ring.len(),
        0 <= other < state.ring.len(),
        one != other,
    ensures
        state.weaker(one, other) <==> !state.weaker(other, one),
{
    assert(state.ring[one].id != state.ring[other].id);
}

/// At most one extent is the victim of a sample.
pub proof fn victim_is_unique(
    state: ShardState,
    key: Seq<char>,
    range: crate::range::Interval,
    one: int,
    other: int,
)
    requires
        state.valid(),
        state.victim(one, key, range),
        state.victim(other, key, range),
    ensures
        one == other,
{
    if one != other {
        retention_order_is_total(state, one, other);
        assert(state.eligible(other, key, range));
        assert(state.eligible(one, key, range));
    }
}

/// The weakest of the eligible extents in the first `count` slots.
proof fn lemma_weakest(
    state: ShardState,
    key: Seq<char>,
    range: crate::range::Interval,
    eligible: int,
    count: int,
) -> (slot: int)
    requires
        state.valid(),
        state.eligible(eligible, key, range),
        0 <= eligible < count <= state.ring.len(),
    ensures
        slot < count,
        state.eligible(slot, key, range),
        forall|other: int| #[trigger]
            state.eligible(other, key, range) && other < count && other != slot ==> state.weaker(
                slot,
                other,
            ),
    decreases count,
{
    let last = count - 1;
    if !state.eligible(last, key, range) {
        lemma_weakest(state, key, range, eligible, last)
    } else if exists|other: int| #[trigger] state.eligible(other, key, range) && other < last {
        let other = choose|other: int| #[trigger]
            state.eligible(other, key, range) && other < last;
        let slot = lemma_weakest(state, key, range, other, last);
        retention_order_is_total(state, slot, last);
        if state.weaker(slot, last) {
            slot
        } else {
            assert forall|other: int| #[trigger]
                state.eligible(other, key, range) && other < count && other
                    != last implies state.weaker(last, other) by {
                if other != slot {
                    retention_order_is_transitive(state, last, slot, other);
                }
            }
            last
        }
    } else {
        last
    }
}

/// A sample that holds something to give up has a victim.
pub proof fn eligible_samples_have_a_victim(
    state: ShardState,
    key: Seq<char>,
    range: crate::range::Interval,
)
    requires
        state.valid(),
    ensures
        (exists|slot: int| #[trigger] state.eligible(slot, key, range)) <==> exists|slot: int|
            #[trigger] state.victim(slot, key, range),
{
    if exists|slot: int| #[trigger] state.eligible(slot, key, range) {
        let slot = choose|slot: int| #[trigger] state.eligible(slot, key, range);
        let weakest = lemma_weakest(state, key, range, slot, state.ring.len() as int);
        assert(state.victim(weakest, key, range));
    }
    if exists|slot: int| #[trigger] state.victim(slot, key, range) {
        let slot = choose|slot: int| #[trigger] state.victim(slot, key, range);
        assert(state.eligible(slot, key, range));
    }
}

/// The entry with less retrieval value per byte is given up first; of entries with as much,
/// the older one; and of entries of one age, the one whose key or else whose range comes
/// first. Of two entries at most one is given up before the other.
pub proof fn entries_rank_by_value_per_byte_then_age(one: Victim, other: Victim)
    ensures
        ({
            let left = one.retrieval_value * other.bytes;
            let right = other.retrieval_value * one.bytes;
            &&& left < right ==> ranks_before(one, other) && !ranks_before(other, one)
            &&& left == right && one.id < other.id ==> ranks_before(one, other) && !ranks_before(
                other,
                one,
            )
            &&& left == right && one.id == other.id && text_before(one.object_key@, other.object_key@)
                ==> ranks_before(one, other) && !ranks_before(other, one)
            &&& left == right && one.id == other.id && one.object_key@ == other.object_key@ && (
            one.range@.start < other.range@.start || (one.range@.start == other.range@.start
                && one.range@.end < other.range@.end)) ==> ranks_before(one, other)
                && !ranks_before(other, one)
            &&& left == right && one.id == other.id && one.object_key@ == other.object_key@
                && one.range@ == other.range@ ==> !ranks_before(one, other)
        }),
{
    crate::keys::lemma_text_order(one.object_key@, other.object_key@);
}

} // verus!

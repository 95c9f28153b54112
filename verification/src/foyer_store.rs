//! The `foyer_memory::Cache` operations that the comparison engines use.

use bytes::Bytes;
use foyer_memory::{Cache as FoyerCache, CacheBuilder, S3FifoConfig};
use vstd::prelude::*;

use crate::keys::ObjectKey;
use crate::payload;

verus! {

/// The object and the range that an entry is keyed by.
pub type StoreKey = (ObjectKey, u64, u64);

/// The downloaded range that an entry covers, and its bytes.
pub type StoreValue = (u64, u64, Bytes);

/// What a store holds for each object and keyed range: the downloaded range
/// and its bytes.
pub type Holdings = Map<(Seq<char>, u64, u64), (u64, u64, Seq<u8>)>;

/// A sharded, byte-weighted cache of exactly keyed downloads that evicts by
/// S3-FIFO.
#[verifier::external_body]
pub struct FoyerStore {
    cache: FoyerCache<StoreKey, StoreValue>,
}

/// The entries that a store holds.
pub uninterp spec fn held(store: FoyerStore) -> Map<(Seq<char>, u64, u64), (u64, u64, Seq<u8>)>;

/// The capacity and the shard count that a store was made with.
pub uninterp spec fn made_with(store: FoyerStore) -> (usize, usize);

/// The payload bytes of what is held.
pub open spec fn held_bytes(holdings: Holdings) -> nat
    decreases holdings.dom().len(),
    when holdings.dom().finite()
{
    if holdings.dom().is_empty() {
        0
    } else {
        let key = holdings.dom().choose();
        holdings[key].2.len() + held_bytes(holdings.remove(key))
    }
}

/// The payload bytes that the counters of a store made with the given capacity
/// and shard count can add up. Where one shard may hold more than half of the
/// address space, the weights that its evictions remember could overflow, so
/// there it is what fits one shard without an eviction.
pub open spec fn holdable(made_with: (usize, usize)) -> int {
    let share = made_with.0 as int / made_with.1 as int;
    if share <= usize::MAX / 2 {
        usize::MAX as int
    } else {
        share
    }
}

/// The entries whose payload alone exceeds `share` bytes.
pub open spec fn oversized(holdings: Holdings, share: int) -> Holdings {
    holdings.restrict(Set::new(|key: (Seq<char>, u64, u64)| holdings[key].2.len() > share))
}

/// Returns the weight of an entry: its payload bytes.
pub fn weight(value: &StoreValue) -> (weight: usize)
    ensures
        weight == payload::contents(value.2).len(),
{
    payload::length(&value.2)
}

/// `CacheBuilder::build` makes an S3-FIFO cache that holds nothing, with the
/// given capacity divided among the given shards; it panics without a shard.
#[verifier::external_body]
pub(crate) fn foyer_cache(capacity: usize, shards: usize) -> (store: FoyerStore)
    requires
        shards > 0,
    ensures
        (held(store) == Map::<(Seq<char>, u64, u64), (u64, u64, Seq<u8>)>::empty()),
        made_with(store) == (capacity, shards),
{
    let cache = CacheBuilder::new(capacity)
        .with_shards(shards)
        .with_eviction_config(S3FifoConfig::default())
        .with_weighter(|_key: &StoreKey, value: &StoreValue| weight(value))
        .build();
    FoyerStore { cache }
}

/// `Cache::get` finds what is held under exactly the given key, if anything.
/// It only counts the lookup for later evictions.
#[verifier::external_body]
pub(crate) fn lookup(store: &FoyerStore, object_key: &ObjectKey, start: u64, end: u64) -> (found:
    Option<StoreValue>)
    ensures
        match found {
            Some(value) => {
                &&& held(*store).contains_key((object_key@, start, end))
                &&& held(*store)[(object_key@, start, end)] == (
                    value.0,
                    value.1,
                    payload::contents(value.2),
                )
            },
            None => !held(*store).contains_key((object_key@, start, end)),
        },
{
    let key = (object_key.clone(), start, end);
    store.cache.get(&key).map(|entry| entry.value().clone())
}

/// `Cache::insert` holds the value under the key in place of what was held
/// there, and can evict any other entries for it; it evicts none where
/// everything held fits the capacity of one shard together with the value.
/// Otherwise it evicts until the key's shard is within its capacity, or holds
/// no other bytes than the value's; so what a store holds beyond its capacity
/// are entries that exceed a shard's share on their own. Which entries are
/// evicted is left unsaid: the key's shard and the lookups so far decide it.
/// Its counters overflow where more bytes are held
/// than they can add up.
#[verifier::external_body]
pub(crate) fn insert(
    store: &mut FoyerStore,
    object_key: ObjectKey,
    start: u64,
    end: u64,
    value: StoreValue,
)
    requires
        held_bytes(held(*old(store))) + payload::contents(value.2).len() <= holdable(
            made_with(*old(store)),
        ),
    ensures
        made_with(*final(store)) == made_with(*old(store)),
        held(*final(store)).dom().finite(),
        held(*final(store)).contains_key((object_key@, start, end)),
        held(*final(store)).submap_of(
            held(*old(store)).insert(
                (object_key@, start, end),
                (value.0, value.1, payload::contents(value.2)),
            ),
        ),
        held_bytes(held(*old(store))) + payload::contents(value.2).len() <= made_with(
            *old(store),
        ).0 as int / made_with(*old(store)).1 as int ==> held(*final(store)) == held(
            *old(store),
        ).insert(
            (object_key@, start, end),
            (value.0, value.1, payload::contents(value.2)),
        ),
        held_bytes(held(*final(store))) <= made_with(*old(store)).0 + held_bytes(
            oversized(
                held(*final(store)),
                made_with(*old(store)).0 as int / made_with(*old(store)).1 as int,
            ),
        ),
        made_with(*old(store)).1 == 1 ==> held_bytes(held(*final(store))) <= made_with(
            *old(store),
        ).0 || held_bytes(held(*final(store))) == payload::contents(value.2).len(),
{
    store.cache.insert((object_key, start, end), value);
}

/// `Cache::usage` is the weight of everything held, summed in a `usize`.
#[verifier::external_body]
pub(crate) fn usage(store: &FoyerStore) -> (used: usize)
    requires
        held_bytes(held(*store)) <= usize::MAX,
    ensures
        used == held_bytes(held(*store)),
{
    store.cache.usage()
}

/// Any one entry can be counted last.
pub proof fn lemma_held_bytes_remove(holdings: Holdings, key: (Seq<char>, u64, u64))
    requires
        holdings.dom().finite(),
        holdings.contains_key(key),
    ensures
        held_bytes(holdings) == holdings[key].2.len() + held_bytes(holdings.remove(key)),
    decreases holdings.dom().len(),
{
    let first = holdings.dom().choose();
    if first != key {
        let rest = holdings.remove(first);
        lemma_held_bytes_remove(rest, key);
        lemma_held_bytes_remove(holdings.remove(key), first);
        assert(rest.remove(key) =~= holdings.remove(key).remove(first));
    }
}

/// Holding less counts no more.
pub proof fn lemma_held_bytes_submap(part: Holdings, whole: Holdings)
    requires
        whole.dom().finite(),
        part.submap_of(whole),
    ensures
        part.dom().finite(),
        held_bytes(part) <= held_bytes(whole),
    decreases whole.dom().len(),
{
    vstd::set_lib::lemma_len_subset(part.dom(), whole.dom());
    if !whole.dom().is_empty() {
        let key = whole.dom().choose();
        let rest = whole.remove(key);
        if part.contains_key(key) {
            lemma_held_bytes_remove(part, key);
            lemma_held_bytes_submap(part.remove(key), rest);
        } else {
            assert(part.submap_of(rest)) by {
                assert forall|other: (Seq<char>, u64, u64)|
                    part.contains_key(other) implies rest.contains_key(other) && part[other]
                    == rest[other] by {
                    assert(whole.contains_key(other) && whole[other] == part[other]);
                }
            }
            lemma_held_bytes_submap(part, rest);
        }
    } else {
        assert(part.dom() =~= whole.dom());
    }
}

/// Where no entry is empty, one that has all the bytes is all there is.
pub proof fn lemma_held_alone(holdings: Holdings, key: (Seq<char>, u64, u64))
    requires
        holdings.dom().finite(),
        holdings.contains_key(key),
        forall|other: (Seq<char>, u64, u64)| #[trigger]
            holdings.contains_key(other) ==> holdings[other].2.len() > 0,
        held_bytes(holdings) == holdings[key].2.len(),
    ensures
        holdings == map![key => holdings[key]],
{
    let rest = holdings.remove(key);
    lemma_held_bytes_remove(holdings, key);
    assert forall|other: (Seq<char>, u64, u64)| #[trigger] holdings.contains_key(
        other,
    ) implies other == key by {
        if other != key {
            assert(rest.contains_key(other));
            lemma_held_bytes_remove(rest, other);
        }
    }
    assert(holdings =~= map![key => holdings[key]]);
}

} // verus!

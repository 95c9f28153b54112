//! The cache engines that a trace is replayed against.

use bytes::Bytes;
use vstd::prelude::*;

use crate::cache::requested_slice;
use crate::download::Download;
use crate::downloader::{Access, Request};
use crate::foyer_store::{
    foyer_cache, held, held_bytes, holdable, insert, lemma_held_alone, lemma_held_bytes_remove,
    lemma_held_bytes_submap, lookup, made_with, oversized, usage, weight, FoyerStore, Holdings,
};
use crate::keys::ObjectKey;
use crate::laws::downloads_are_found_again;
use crate::payload;
use crate::range::{ByteRange, Interval};
use crate::replay::{Engine, NativeFoyerKeyMode};
use crate::shard::populated;
use crate::shard_state::CompactionMode;
use crate::store::{empty_cache, CacheState, MemoryCache};

verus! {

/// The memory cache under replay.
pub struct FeuerEngine {
    cache: MemoryCache,
}

impl FeuerEngine {
    /// The state of the cache.
    pub closed spec fn cache(&self) -> CacheState {
        self.cache@
    }

    /// Creates an engine with a soft payload-byte target.
    pub fn new(capacity: usize, shards: usize) -> (engine: Self)
        requires
            shards > 0,
        ensures
            engine.ready(),
            engine.cache() == empty_cache(
                capacity as u64,
                shards as int,
                CompactionMode::ValueAware,
            ),
    {
        FeuerEngine { cache: MemoryCache::with_shards_for_benchmark(capacity as u64, shards) }
    }

    /// Returns the payload bytes that the engine retains, or nothing if they
    /// exceed `u64::MAX`.
    pub fn checked_used_payload_bytes(&self) -> (used: Option<u64>)
        requires
            self.ready(),
        ensures
            match used {
                Some(used) => self.countable() && self.retains(used),
                None => !self.countable(),
            },
    {
        self.cache.checked_used_bytes()
    }
}

impl Engine for FeuerEngine {
    closed spec fn ready(&self) -> bool {
        self.cache.well_formed()
    }

    /// One retained range covers the request, and the lookup is recorded.
    open spec fn answers(
        &self,
        request: Request,
        downloaded: Interval,
        hit: bool,
        after: Self,
    ) -> bool {
        let home = self.cache().home(request.key);
        &&& hit == home.covered(request.key, request.range)
        &&& after.cache() == self.cache().with_home(
            request.key,
            home.looked_up(request.key, request.range),
        )
    }

    /// The download is cached and its request recorded, unless the identities
    /// of its shard run out on the way.
    open spec fn takes(
        &self,
        request: Request,
        downloaded: Interval,
        payload: Seq<u8>,
        outcome: Result<(), String>,
        after: Self,
    ) -> bool {
        let before = self.cache();
        match outcome {
            Ok(_) => {
                &&& after.cache() == before.with_home(
                    request.key,
                    after.cache().home(request.key),
                )
                &&& populated(
                    before.home(request.key),
                    request.key,
                    downloaded,
                    payload,
                    Some(request.range),
                    after.cache().home(request.key),
                )
            },
            Err(message) => {
                &&& !before.home(request.key).admissible(request.key, downloaded)
                &&& message@ == "a shard exhausted its in-process entry identities"@
                &&& after.cache() == before.with_home(
                    request.key,
                    after.cache().home(request.key),
                )
                &&& before.home(request.key).exhausted(
                    request.key,
                    downloaded,
                    after.cache().home(request.key),
                )
            },
        }
    }

    open spec fn countable(&self) -> bool {
        self.cache().used() <= u64::MAX
    }

    open spec fn retains(&self, used: u64) -> bool {
        used == self.cache().used()
    }

    fn name(&self) -> (name: &'static str)
        ensures
            name@ == "feuer-value-aware"@,
    {
        "feuer-value-aware"
    }

    fn get(&mut self, access: &Access, downloaded: ByteRange) -> (hit: bool) {
        match self.cache.get(&access.object_key, access.requested) {
            Some(_) => true,
            None => false,
        }
    }

    fn populate(
        &mut self,
        access: &Access,
        downloaded: ByteRange,
        payload: Bytes,
    ) -> (outcome: Result<(), String>) {
        let download = match Download::new(downloaded.start(), payload) {
            Ok(download) => download,
            Err(error) => {
                return Err(error.message());
            },
        };
        assert(download.interval() == downloaded@);
        if self.cache.try_insert_and_record(access.object_key.clone(), download, access.requested) {
            Ok(())
        } else {
            Err("a shard exhausted its in-process entry identities".to_owned())
        }
    }

    fn used_payload_bytes(&self) -> (used: u64) {
        self.cache.used_bytes()
    }
}

/// A cache without containment lookups under replay: entries are found under
/// one exact range alone.
pub struct NativeFoyerEngine {
    store: FoyerStore,
    key_mode: NativeFoyerKeyMode,
    limit: usize,
}

/// Whether what is held can be handed out: every entry covers the range that it
/// is keyed by, with as many bytes as its own range has.
pub open spec fn sound(holdings: Holdings) -> bool {
    forall|key: (Seq<char>, u64, u64)| #[trigger]
        holdings.contains_key(key) ==> {
            let (start, end, bytes) = holdings[key];
            &&& start < end
            &&& bytes.len() == end - start
            &&& (Interval { start, end }).covers(Interval { start: key.1, end: key.2 })
        }
}

impl NativeFoyerEngine {
    /// The entries that the engine holds.
    pub closed spec fn holdings(&self) -> Holdings {
        held(self.store)
    }

    /// The capacity and the shard count that the engine was made with.
    pub closed spec fn made_with(&self) -> (usize, usize) {
        made_with(self.store)
    }

    /// How the engine keys its entries.
    pub closed spec fn mode(&self) -> NativeFoyerKeyMode {
        self.key_mode
    }

    /// What an access is keyed by.
    pub open spec fn keyed(&self, request: Request, downloaded: Interval) -> (Seq<char>, u64, u64) {
        match self.mode() {
            NativeFoyerKeyMode::ExactRequest => {
                (request.key, request.range.start, request.range.end)
            },
            NativeFoyerKeyMode::ExpandedDownload => {
                (request.key, downloaded.start, downloaded.end)
            },
        }
    }

    /// Creates an engine with a payload-byte capacity.
    pub fn new(capacity: usize, shards: usize, key_mode: NativeFoyerKeyMode) -> (engine: Self)
        requires
            shards > 0,
        ensures
            engine.ready(),
            engine.mode() == key_mode,
            engine.holdings() == Map::<(Seq<char>, u64, u64), (u64, u64, Seq<u8>)>::empty(),
            engine.made_with() == (capacity, shards),
    {
        let share = capacity / shards;
        let limit = if share <= usize::MAX / 2 {
            usize::MAX
        } else {
            share
        };
        NativeFoyerEngine { store: foyer_cache(capacity, shards), key_mode, limit }
    }

    /// Returns what an access is keyed by.
    fn key(&self, access: &Access, downloaded: ByteRange) -> (key: (ObjectKey, u64, u64))
        ensures
            (key.0@, key.1, key.2) == self.keyed(access@, downloaded@),
    {
        let range = self.key_mode.range(access, downloaded);
        (access.object_key.clone(), range.start(), range.end())
    }
}

impl Engine for NativeFoyerEngine {
    closed spec fn ready(&self) -> bool {
        &&& self.holdings().dom().finite()
        &&& self.limit == holdable(self.made_with())
        &&& held_bytes(self.holdings()) <= self.limit
        &&& sound(self.holdings())
    }

    /// Something is held under the access's own key; a lookup changes nothing
    /// that is held.
    open spec fn answers(
        &self,
        request: Request,
        downloaded: Interval,
        hit: bool,
        after: Self,
    ) -> bool {
        &&& hit == self.holdings().contains_key(self.keyed(request, downloaded))
        &&& after == self
    }

    /// The download is held under the access's own key, in place of entries
    /// that had to leave for it, unless its bytes can no longer be counted.
    /// Nothing leaves while everything fits the capacity of one shard, and only
    /// entries that exceed a shard's share on their own are held beyond the
    /// capacity. In a single shard such an entry is held alone.
    open spec fn takes(
        &self,
        request: Request,
        downloaded: Interval,
        payload: Seq<u8>,
        outcome: Result<(), String>,
        after: Self,
    ) -> bool {
        let bytes = held_bytes(self.holdings()) + payload.len();
        let key = self.keyed(request, downloaded);
        let all = self.holdings().insert(key, (downloaded.start, downloaded.end, payload));
        match outcome {
            Ok(_) => {
                &&& bytes <= holdable(self.made_with())
                &&& after.mode() == self.mode()
                &&& after.made_with() == self.made_with()
                &&& after.holdings().contains_key(key)
                &&& after.holdings().submap_of(all)
                &&& bytes <= self.made_with().0 as int / self.made_with().1 as int
                    ==> after.holdings() == all
                &&& held_bytes(after.holdings()) <= self.made_with().0 + held_bytes(
                    oversized(
                        after.holdings(),
                        self.made_with().0 as int / self.made_with().1 as int,
                    ),
                )
                &&& self.made_with().1 == 1 ==> held_bytes(after.holdings()) <= self.made_with().0
                    || after.holdings() == map![key => all[key]]
            },
            Err(message) => {
                &&& bytes > holdable(self.made_with())
                &&& message@ == "the retained payload bytes can no longer be counted"@
                &&& after == self
            },
        }
    }

    open spec fn retains(&self, used: u64) -> bool {
        used == held_bytes(self.holdings())
    }

    fn name(&self) -> (name: &'static str)
        ensures
            name@ == (match self.mode() {
                NativeFoyerKeyMode::ExactRequest => "foyer-native-exact-key"@,
                NativeFoyerKeyMode::ExpandedDownload => "foyer-native-expanded-key"@,
            }),
    {
        self.key_mode.name()
    }

    fn get(&mut self, access: &Access, downloaded: ByteRange) -> (hit: bool) {
        let (object_key, start, end) = self.key(access, downloaded);
        let (value_start, value_end, bytes) = match lookup(&self.store, &object_key, start, end) {
            Some(value) => value,
            None => {
                return false;
            },
        };
        assert(self.holdings().contains_key((object_key@, start, end)));
        match ByteRange::new(value_start, value_end) {
            Ok(value_range) => {
                let _requested = requested_slice(&bytes, value_range, access.requested);
                true
            },
            Err(_) => false,
        }
    }

    fn populate(
        &mut self,
        access: &Access,
        downloaded: ByteRange,
        payload: Bytes,
    ) -> (outcome: Result<(), String>) {
        let used = usage(&self.store);
        let value = (downloaded.start(), downloaded.end(), payload);
        if weight(&value) > self.limit - used {
            return Err("the retained payload bytes can no longer be counted".to_owned());
        }
        let (object_key, start, end) = self.key(access, downloaded);
        let ghost before = self.holdings();
        let ghost key = (object_key@, start, end);
        let ghost record = (downloaded@.start, downloaded@.end, payload::contents(payload));
        let ghost all = before.insert(key, record);
        insert(&mut self.store, object_key, start, end, value);
        proof {
            lemma_held_bytes_remove(all, key);
            assert(all.remove(key) =~= before.remove(key));
            lemma_held_bytes_submap(before.remove(key), before);
            lemma_held_bytes_submap(self.holdings(), all);
            assert forall|other: (Seq<char>, u64, u64)| #[trigger]
                self.holdings().contains_key(other) implies {
                let (start, end, bytes) = self.holdings()[other];
                &&& start < end
                &&& bytes.len() == end - start
                &&& (Interval { start, end }).covers(Interval { start: other.1, end: other.2 })
            } by {
                assert(all.contains_key(other) && all[other] == self.holdings()[other]);
                if other != key {
                    assert(before.contains_key(other));
                }
            }
            assert(all.contains_key(key) && self.holdings()[key] == record);
            if held_bytes(self.holdings()) == record.2.len() {
                lemma_held_alone(self.holdings(), key);
            }
        }
        Ok(())
    }

    fn used_payload_bytes(&self) -> (used: u64) {
        usage(&self.store) as u64
    }
}

/// An engine that holds no entry beyond a shard's share is within its capacity
/// after every download that it takes.
pub proof fn engines_without_oversized_entries_keep_their_capacity(
    engine: NativeFoyerEngine,
    request: Request,
    downloaded: Interval,
    payload: Seq<u8>,
    after: NativeFoyerEngine,
)
    requires
        after.ready(),
        engine.takes(request, downloaded, payload, Ok::<(), String>(()), after),
        forall|key: (Seq<char>, u64, u64)| #[trigger]
            after.holdings().contains_key(key) ==> after.holdings()[key].2.len()
                <= engine.made_with().0 as int / engine.made_with().1 as int,
    ensures
        held_bytes(after.holdings()) <= after.made_with().0,
{
    let share = engine.made_with().0 as int / engine.made_with().1 as int;
    let large = oversized(after.holdings(), share);
    assert forall|key: (Seq<char>, u64, u64)| !#[trigger] large.contains_key(key) by {
        if large.contains_key(key) {
            assert(after.holdings().contains_key(key));
        }
    }
    assert(large.dom() =~= Set::empty());
}

/// Keyed by expanded downloads, one download serves every request that expands
/// to it: after it was taken for one, a lookup of any other must hit.
pub proof fn expanded_keys_serve_identical_expansions(
    engine: NativeFoyerEngine,
    taken_for: Request,
    request: Request,
    downloaded: Interval,
    payload: Seq<u8>,
    after: NativeFoyerEngine,
    hit: bool,
    later: NativeFoyerEngine,
)
    requires
        engine.mode() == NativeFoyerKeyMode::ExpandedDownload,
        taken_for.key == request.key,
        engine.takes(taken_for, downloaded, payload, Ok::<(), String>(()), after),
        after.answers(request, downloaded, hit, later),
    ensures
        hit,
{
}

/// Keyed by exact requests, a download serves only the very request that it was
/// made for: taking it turns no other request from a miss to a hit.
pub proof fn exact_keys_serve_their_own_request(
    engine: NativeFoyerEngine,
    taken_for: Request,
    request: Request,
    downloaded: Interval,
    payload: Seq<u8>,
    after: NativeFoyerEngine,
    hit: bool,
    later: NativeFoyerEngine,
)
    requires
        engine.mode() == NativeFoyerKeyMode::ExactRequest,
        engine.takes(taken_for, downloaded, payload, Ok::<(), String>(()), after),
        after.answers(request, downloaded, hit, later),
    ensures
        taken_for.key == request.key && taken_for.range == request.range ==> hit,
        hit ==> taken_for.key == request.key && taken_for.range == request.range
            || engine.holdings().contains_key(engine.keyed(request, downloaded)),
{
    let key = engine.keyed(request, downloaded);
    let taken = engine.keyed(taken_for, downloaded);
    let all = engine.holdings().insert(taken, (downloaded.start, downloaded.end, payload));
    if hit && key == taken {
        assert(taken_for.range =~= request.range);
    } else if hit {
        assert(all.contains_key(key));
    }
}

/// A download that the memory cache takes is found by its request from then on,
/// as long as nothing else is cached.
pub proof fn taken_downloads_are_found(
    engine: FeuerEngine,
    request: Request,
    downloaded: Interval,
    payload: Seq<u8>,
    after: FeuerEngine,
    hit: bool,
    later: FeuerEngine,
)
    requires
        engine.ready(),
        request.range.valid(),
        downloaded.covers(request.range),
        payload.len() == downloaded.len(),
        engine.takes(request, downloaded, payload, Ok::<(), String>(()), after),
        after.answers(request, downloaded, hit, later),
    ensures
        hit,
{
    engine.cache.lemma_well_formed();
    let before = engine.cache().home(request.key);
    let home = after.cache().home(request.key);
    assert(engine.cache().shards[engine.cache().index(request.key)] == before);
    downloads_are_found_again(
        before,
        request.key,
        downloaded,
        payload,
        Some(request.range),
        home,
    );
    let slot = choose|slot: int| #[trigger] home.covers_at(slot, request.key, downloaded);
    assert(home.covers_at(slot, request.key, request.range));
}

/// The memory cache remembers every request that it serves exactly once: a hit when it
/// is looked up, and a miss when what was downloaded for it is taken. It hits exactly
/// where one retained range of the object covers the request.
pub proof fn served_requests_are_remembered_once(
    engine: FeuerEngine,
    request: Request,
    downloaded: Interval,
    payload: Seq<u8>,
    hit: bool,
    after: FeuerEngine,
)
    requires
        engine.ready(),
        downloaded.valid(),
        payload.len() == downloaded.len(),
    ensures
        engine.answers(request, downloaded, hit, after) ==> {
            let home = engine.cache().home(request.key);
            let next = after.cache().home(request.key);
            &&& hit <==> exists|slot: int|
                0 <= slot < home.ring.len() && (#[trigger] home.ring[slot]).key == request.key
                    && home.ring[slot].range.start <= request.range.start && request.range.end
                    <= home.ring[slot].range.end
            &&& hit ==> next.clock == home.clock.saturating_add(1) && next.record_of(
                request.key,
            ).accesses.last() == (crate::evidence::Access {
                range: request.range,
                observed_at: next.clock,
            })
            &&& !hit ==> next.clock == home.clock && next.objects == home.objects
            &&& next.ring == home.ring
        },
        engine.takes(request, downloaded, payload, Ok::<(), String>(()), after) ==> {
            let home = engine.cache().home(request.key);
            let next = after.cache().home(request.key);
            &&& next.clock == home.clock.saturating_add(1)
            &&& next.record_of(request.key).accesses.last() == (crate::evidence::Access {
                range: request.range,
                observed_at: next.clock,
            })
            &&& next.metrics.access == home.metrics.access.wrapping_add(1)
        },
{
    engine.cache.lemma_well_formed();
    let key = request.key;
    let home = engine.cache().home(key);
    let next = after.cache().home(key);
    vstd::arithmetic::div_mod::lemma_mod_bound(
        crate::keys::key_hash(key) as int,
        engine.cache().shards.len() as int,
    );
    assert(engine.cache().shards[engine.cache().index(key)] == home);
    if engine.answers(request, downloaded, hit, after) {
        crate::recording::hits_record_their_request_once(home, key, request.range, next);
        if home.covered(key, request.range) {
            let slot = choose|slot: int| #[trigger] home.covers_at(slot, key, request.range);
            assert(home.ring[slot].key == key);
        }
        assert forall|slot: int|
            0 <= slot < home.ring.len() && (#[trigger] home.ring[slot]).key == key
                && home.ring[slot].range.start <= request.range.start && request.range.end
                <= home.ring[slot].range.end implies home.covered(key, request.range) by {
            assert(home.covers_at(slot, key, request.range));
        }
    }
    if engine.takes(request, downloaded, payload, Ok::<(), String>(()), after) {
        crate::recording::populations_record_their_request_once(
            home,
            key,
            downloaded,
            payload,
            request.range,
            next,
        );
    }
}

} // verus!

//! The mathematical model of one cache shard.

use vstd::prelude::*;

use crate::compaction::{compactable, grouping};
use crate::evidence::{active_intervals, recorded, value_of, Access};
use crate::metrics::MemoryMetrics;
use crate::range::Interval;
use crate::ranges::part;

verus! {

/// Successful shard-local accesses allowed before an extent can be trimmed.
pub const COMPACTION_GRACE_ACCESSES: u64 = 64;

/// Maximum entries inspected for one pressure decision.
pub const POLICY_SAMPLE_SIZE: usize = 64;

/// Whether pressure may trim an extent to its observed requests.
#[derive(Clone, Copy, Debug, PartialEq, Eq, Structural)]
pub enum CompactionMode {
    /// Trim a victim where that keeps what was requested and reclaims enough.
    ValueAware,
    /// Evict every victim whole.
    Disabled,
}

/// One retained downloaded range of an object.
#[verifier::ext_equal]
pub struct Extent {
    pub key: Seq<char>,
    pub id: u64,
    pub range: Interval,
    pub bytes: Seq<u8>,
    pub admitted_at: u64,
}

impl Extent {
    /// The payload has exactly the length of the non-empty range.
    pub open spec fn valid(self) -> bool {
        &&& self.range.valid()
        &&& self.bytes.len() == self.range.len()
    }
}

/// What a shard remembers of one object besides its extents.
#[verifier::ext_equal]
pub struct ObjectRecord {
    pub accesses: Seq<Access>,
    pub generation: u64,
}

impl ObjectRecord {
    /// The record in its next generation.
    pub open spec fn advanced(self) -> ObjectRecord {
        ObjectRecord { generation: self.generation.saturating_add(1), ..self }
    }
}

/// One range that a compaction retains, with its bytes.
#[verifier::ext_equal]
pub struct Fragment {
    pub range: Interval,
    pub bytes: Seq<u8>,
}

/// The retained ranges of `source`, with their bytes out of `bytes`.
pub open spec fn fragments_of(
    source: Interval,
    bytes: Seq<u8>,
    retained: Seq<Interval>,
) -> Seq<Fragment> {
    retained.map_values(|range: Interval| Fragment { range, bytes: part(bytes, source, range) })
}

/// The payload bytes that `ring` retains.
pub open spec fn payload_of(ring: Seq<Extent>) -> int
    decreases ring.len(),
{
    if ring.len() == 0 {
        0
    } else {
        payload_of(ring.drop_last()) + ring.last().range.len()
    }
}

/// `ring` without the extent at `slot`, whose slot the last extent takes over.
pub open spec fn vacated(ring: Seq<Extent>, slot: int) -> Seq<Extent> {
    ring.update(slot, ring.last()).drop_last()
}

/// Whether `ring` retains an extent of the object `key`.
pub open spec fn held(ring: Seq<Extent>, key: Seq<char>) -> bool {
    exists|slot: int| 0 <= slot < ring.len() && (#[trigger] ring[slot]).key == key
}

/// One shard: its extents in policy order, what it remembers of each object,
/// and its clocks.
#[verifier::ext_equal]
pub struct ShardState {
    pub capacity: u64,
    pub compaction: CompactionMode,
    /// The extents, by candidate slot.
    pub ring: Seq<Extent>,
    /// Where the next pressure sample starts.
    pub cursor: int,
    pub objects: Map<Seq<char>, ObjectRecord>,
    /// The number of successful accesses so far.
    pub clock: u64,
    /// The identity given to the latest extent.
    pub last_id: u64,
    pub metrics: MemoryMetrics,
}

impl ShardState {
    /// A shard that holds nothing.
    pub open spec fn empty(capacity: u64, compaction: CompactionMode) -> ShardState {
        ShardState {
            capacity,
            compaction,
            ring: Seq::empty(),
            cursor: 0,
            objects: Map::empty(),
            clock: 0,
            last_id: 0,
            metrics: MemoryMetrics::zero(),
        }
    }

    /// Extents match their payloads and have identities of their own, each
    /// object with extents is remembered, and no extent of an object covers
    /// another.
    pub open spec fn valid(self) -> bool {
        &&& forall|slot: int|
            0 <= slot < self.ring.len() ==> {
                &&& (#[trigger] self.ring[slot]).valid()
                &&& self.ring[slot].id <= self.last_id
                &&& self.ring[slot].admitted_at <= self.clock
                &&& self.objects.contains_key(self.ring[slot].key)
            }
        &&& forall|slot: int, other: int|
            #![trigger self.ring[slot], self.ring[other]]
            0 <= slot < self.ring.len() && 0 <= other < self.ring.len() && slot != other ==> {
                &&& self.ring[slot].id != self.ring[other].id
                &&& self.ring[slot].key == self.ring[other].key
                    ==> !self.ring[slot].range.covers(self.ring[other].range)
            }
        &&& 0 <= self.cursor
        &&& self.cursor < self.ring.len() || self.cursor == 0
    }

    /// The usage gauges show what the shard retains.
    pub open spec fn measured(self) -> bool {
        &&& self.metrics.payload_bytes == self.used()
        &&& self.metrics.entries == self.ring.len()
    }

    /// The payload bytes that the shard retains.
    pub open spec fn used(self) -> int {
        payload_of(self.ring)
    }

    /// Whether one extent of `key` covers `range`.
    pub open spec fn covered(self, key: Seq<char>, range: Interval) -> bool {
        exists|slot: int| #[trigger] self.covers_at(slot, key, range)
    }

    /// Whether the extent at `slot` is one of `key` and covers `range`.
    pub open spec fn covers_at(self, slot: int, key: Seq<char>, range: Interval) -> bool {
        &&& 0 <= slot < self.ring.len()
        &&& self.ring[slot].key == key
        &&& self.ring[slot].range.covers(range)
    }

    /// Whether a lookup of `range` is answered from the extent at `slot`: it
    /// covers the range, and among those that do it starts last.
    pub open spec fn answers(self, slot: int, key: Seq<char>, range: Interval) -> bool {
        &&& self.covers_at(slot, key, range)
        &&& forall|other: int| #[trigger]
            self.covers_at(other, key, range) ==> self.ring[other].range.start
                <= self.ring[slot].range.start
    }

    /// The bytes of `range` in the extent at `slot`.
    pub open spec fn bytes_at(self, slot: int, range: Interval) -> Seq<u8> {
        part(self.ring[slot].bytes, self.ring[slot].range, range)
    }

    /// Whether the extent at `slot` is exactly `range` of `key`.
    pub open spec fn exact_at(self, slot: int, key: Seq<char>, range: Interval) -> bool {
        &&& 0 <= slot < self.ring.len()
        &&& self.ring[slot].key == key
        &&& self.ring[slot].range == range
    }

    /// The slot of the extent that is exactly `range` of `key`.
    pub open spec fn slot_of(self, key: Seq<char>, range: Interval) -> int {
        choose|slot: int| self.exact_at(slot, key, range)
    }

    /// One more successful access: the clock advances, and the object remembers
    /// the request, whatever extents it still has.
    pub open spec fn accessed(self, key: Seq<char>, requested: Interval) -> ShardState {
        let clock = self.clock.saturating_add(1);
        ShardState {
            clock,
            objects: if self.objects.contains_key(key) {
                self.objects.insert(
                    key,
                    ObjectRecord {
                        accesses: recorded(self.objects[key].accesses, requested, clock),
                        ..self.objects[key]
                    }.advanced(),
                )
            } else {
                self.objects
            },
            metrics: self.metrics.accessed(),
            ..self
        }
    }

    /// The shard after a lookup.
    pub open spec fn looked_up(self, key: Seq<char>, requested: Interval) -> ShardState {
        if self.covered(key, requested) {
            let next = self.accessed(key, requested);
            ShardState { metrics: next.metrics.looked_up(true), ..next }
        } else {
            ShardState { metrics: self.metrics.looked_up(false), ..self }
        }
    }

    /// The shard without the extent at `slot`. What it remembers of the object
    /// goes with the object's last extent, unless `preserve` keeps it.
    pub open spec fn detached(self, slot: int, preserve: bool) -> ShardState {
        let key = self.ring[slot].key;
        let ring = vacated(self.ring, slot);
        ShardState {
            ring,
            cursor: if ring.len() == 0 {
                0
            } else {
                self.cursor % (ring.len() as int)
            },
            objects: if !preserve && !held(ring, key) {
                self.objects.remove(key)
            } else {
                self.objects.insert(key, self.objects[key].advanced())
            },
            ..self
        }
    }

    /// What the shard remembers of `key`.
    pub open spec fn record_of(self, key: Seq<char>) -> ObjectRecord {
        if self.objects.contains_key(key) {
            self.objects[key]
        } else {
            ObjectRecord { accesses: Seq::empty(), generation: 0 }
        }
    }

    /// The shard with one more extent, in the last slot.
    pub open spec fn attached(self, key: Seq<char>, range: Interval, bytes: Seq<u8>) -> ShardState {
        let id = (self.last_id + 1) as u64;
        ShardState {
            ring: self.ring.push(Extent { key, id, range, bytes, admitted_at: self.clock }),
            objects: self.objects.insert(key, self.record_of(key).advanced()),
            last_id: id,
            ..self
        }
    }

    /// The shard after `requested` was removed on demand.
    pub open spec fn removed(self, key: Seq<char>, range: Interval) -> ShardState {
        let slot = self.slot_of(key, range);
        let next = self.detached(slot, false);
        ShardState {
            metrics: self.metrics.usage_decreased(range.len() as u64, 1).removed(),
            ..next
        }
    }

    /// Whether admitting `range` of `key` supersedes the extent at `slot`.
    pub open spec fn superseded(self, slot: int, key: Seq<char>, range: Interval) -> bool {
        &&& 0 <= slot < self.ring.len()
        &&& self.ring[slot].key == key
        &&& range.covers(self.ring[slot].range)
    }

    /// Whether the extent at `slot` is the superseded one that starts first.
    pub open spec fn first_superseded(self, slot: int, key: Seq<char>, range: Interval) -> bool {
        &&& self.superseded(slot, key, range)
        &&& forall|other: int| #[trigger]
            self.superseded(other, key, range) ==> self.ring[slot].range.start
                <= self.ring[other].range.start
    }

    /// The shard without the extents that `range` of `key` supersedes, taken
    /// out in ascending order.
    pub open spec fn cleared(self, key: Seq<char>, range: Interval) -> ShardState
        decreases self.ring.len(),
    {
        if exists|slot: int| #[trigger] self.first_superseded(slot, key, range) {
            let slot = choose|slot: int| #[trigger] self.first_superseded(slot, key, range);
            self.detached(slot, true).cleared(key, range)
        } else {
            self
        }
    }

    /// Whether `len` bytes of `range` fit beside what they do not supersede. A
    /// payload above the capacity fits beside nothing.
    pub open spec fn fits(self, key: Seq<char>, range: Interval) -> bool {
        self.cleared(key, range).used() <= self.capacity.saturating_sub(range.len() as u64)
    }

    /// The shard after the access that came with an admission, if one did.
    pub open spec fn credited(self, key: Seq<char>, requested: Option<Interval>) -> ShardState {
        match requested {
            Some(requested) => self.accessed(key, requested),
            None => self,
        }
    }

    /// Whether an admission of `range` of `key` completes in its next step.
    pub open spec fn ready(self, key: Seq<char>, range: Interval) -> bool {
        self.covered(key, range) || self.fits(key, range)
    }

    /// The shard after a completed admission. An extent that covers the range
    /// makes the payload redundant; otherwise it replaces what it supersedes.
    pub open spec fn admitted(
        self,
        key: Seq<char>,
        range: Interval,
        bytes: Seq<u8>,
        requested: Option<Interval>,
    ) -> ShardState {
        if self.covered(key, range) {
            ShardState { metrics: self.metrics.found_redundant(), ..self }.credited(key, requested)
        } else {
            let cleared = self.cleared(key, range);
            let count = self.ring.len() - cleared.ring.len();
            let released = if count != 0 {
                self.metrics.usage_decreased((self.used() - cleared.used()) as u64, count as u64)
            } else {
                self.metrics
            };
            ShardState {
                metrics: released.usage_increased(range.len() as u64, 1).inserted(count != 0),
                ..cleared.attached(key, range, bytes)
            }.credited(key, requested)
        }
    }

    /// How far the slot lies behind the cursor on the ring.
    pub open spec fn distance(self, slot: int) -> int {
        if slot >= self.cursor {
            slot - self.cursor
        } else {
            slot - self.cursor + self.ring.len()
        }
    }

    /// Whether the next pressure sample inspects the slot.
    pub open spec fn sampled(self, slot: int) -> bool {
        &&& 0 <= slot < self.ring.len()
        &&& self.distance(slot) < POLICY_SAMPLE_SIZE
    }

    /// The shard with its cursor moved past the next sample.
    pub open spec fn rotated(self) -> ShardState {
        let len = self.ring.len() as int;
        let count = if len < POLICY_SAMPLE_SIZE {
            len
        } else {
            POLICY_SAMPLE_SIZE as int
        };
        ShardState {
            cursor: if len == 0 {
                0
            } else {
                (self.cursor + count) % len
            },
            ..self
        }
    }

    /// The retention value of the extent at `slot`.
    pub open spec fn value(self, slot: int) -> u64 {
        value_of(
            self.objects[self.ring[slot].key].accesses,
            self.ring[slot].range,
            self.clock,
        )
    }

    /// Whether the extent at `slot` is given up before the one at `other`: it
    /// has less value per retained byte, or as much and is older.
    pub open spec fn weaker(self, slot: int, other: int) -> bool {
        let left = self.value(slot) * self.ring[other].range.len();
        let right = self.value(other) * self.ring[slot].range.len();
        left < right || (left == right && self.ring[slot].id < self.ring[other].id)
    }

    /// Whether a sample for admitting `range` of `key` may give up the extent.
    pub open spec fn eligible(self, slot: int, key: Seq<char>, range: Interval) -> bool {
        self.sampled(slot) && !self.superseded(slot, key, range)
    }

    /// Whether a sample for admitting `range` of `key` gives up the extent.
    pub open spec fn victim(self, slot: int, key: Seq<char>, range: Interval) -> bool {
        &&& self.eligible(slot, key, range)
        &&& forall|other: int| #[trigger]
            self.eligible(other, key, range) && other != slot ==> self.weaker(slot, other)
    }

    /// The requests that keep value toward the object of the extent at `slot`.
    pub open spec fn requests_at(self, slot: int) -> Seq<Interval> {
        active_intervals(self.objects[self.ring[slot].key].accesses, self.clock)
    }

    /// Whether pressure trims the extent at `slot` instead of evicting it.
    pub open spec fn trims(self, slot: int) -> bool {
        &&& self.compaction is ValueAware
        &&& self.clock - self.ring[slot].admitted_at >= COMPACTION_GRACE_ACCESSES
        &&& compactable(self.ring[slot].range, self.requests_at(slot))
    }

    /// The shard after the extent at `slot` was evicted for an admission of `key`.
    pub open spec fn evicted(self, slot: int, key: Seq<char>) -> ShardState {
        ShardState {
            metrics: self.metrics.usage_decreased(self.ring[slot].range.len() as u64, 1).evicted(1),
            ..self.detached(slot, self.ring[slot].key == key)
        }
    }

    /// The shard with the fragments of `key` attached that no extent covers yet.
    pub open spec fn republished(self, key: Seq<char>, fragments: Seq<Fragment>) -> ShardState
        decreases fragments.len(),
    {
        if fragments.len() == 0 {
            self
        } else {
            let next = if self.covered(key, fragments[0].range) {
                self
            } else {
                self.attached(key, fragments[0].range, fragments[0].bytes)
            };
            next.republished(key, fragments.drop_first())
        }
    }

    /// How many of `fragments` of `key` become extents when they are attached one
    /// after another: those that no extent covers.
    pub open spec fn attachments(self, key: Seq<char>, fragments: Seq<Fragment>) -> nat
        decreases fragments.len(),
    {
        if fragments.len() == 0 {
            0
        } else if self.covered(key, fragments[0].range) {
            self.attachments(key, fragments.drop_first())
        } else {
            1 + self.attached(key, fragments[0].range, fragments[0].bytes).attachments(
                key,
                fragments.drop_first(),
            )
        }
    }

    /// Whether identities are left for `fragments` to take the place of the extent
    /// at `slot`.
    pub open spec fn can_compact(self, slot: int, fragments: Seq<Fragment>) -> bool {
        self.last_id + self.detached(slot, true).attachments(self.ring[slot].key, fragments)
            <= u64::MAX
    }

    /// The shard after `fragments` took the place of the extent at `slot`.
    pub open spec fn compacted(self, slot: int, fragments: Seq<Fragment>) -> ShardState {
        let source = self.ring[slot].range;
        let emptied = self.detached(slot, true);
        let next = emptied.republished(self.ring[slot].key, fragments);
        let bytes = (next.used() - emptied.used()) as u64;
        let count = (next.ring.len() - emptied.ring.len()) as u64;
        let released = self.metrics.usage_decreased(source.len() as u64, 1);
        let retained = if count != 0 {
            released.usage_increased(bytes, count)
        } else {
            released
        };
        ShardState { metrics: retained.compacted((source.len() - bytes) as u64), ..next }
    }

    /// The fragments to which pressure trims the extent at `slot`.
    pub open spec fn trimmed(self, slot: int) -> Seq<Fragment> {
        let source = self.ring[slot].range;
        fragments_of(source, self.ring[slot].bytes, grouping(source, self.requests_at(slot)))
    }

    /// The shard after one pressure decision for admitting `range` of `key`.
    pub open spec fn relieved(self, key: Seq<char>, range: Interval) -> ShardState {
        if exists|slot: int| #[trigger] self.victim(slot, key, range) {
            let slot = choose|slot: int| #[trigger] self.victim(slot, key, range);
            if self.trims(slot) {
                self.rotated().compacted(slot, self.trimmed(slot))
            } else {
                self.rotated().evicted(slot, key)
            }
        } else {
            self.rotated()
        }
    }

    /// The shard after `count` pressure decisions for admitting `range` of `key`.
    pub open spec fn relieved_times(self, key: Seq<char>, range: Interval, count: nat) -> ShardState
        decreases count,
    {
        if count == 0 {
            self
        } else {
            self.relieved_times(key, range, (count - 1) as nat).relieved(key, range)
        }
    }

    /// The shard after one pressure decision that evicts its victim whole.
    pub open spec fn pressed(self, key: Seq<char>, range: Interval) -> ShardState {
        if exists|slot: int| #[trigger] self.victim(slot, key, range) {
            let slot = choose|slot: int| #[trigger] self.victim(slot, key, range);
            self.rotated().evicted(slot, key)
        } else {
            self.rotated()
        }
    }

    /// The shard after `count` such decisions for admitting `range` of `key`.
    pub open spec fn pressed_times(self, key: Seq<char>, range: Interval, count: nat) -> ShardState
        decreases count,
    {
        if count == 0 {
            self
        } else {
            self.pressed(key, range).pressed_times(key, range, (count - 1) as nat)
        }
    }

    /// Whether the admission of `range` of `key` takes `count` pressure decisions
    /// or more.
    pub open spec fn unsettled(self, key: Seq<char>, range: Interval, count: nat) -> bool {
        forall|i: nat| i < count ==> !(#[trigger] self.relieved_times(key, range, i)).ready(
            key,
            range,
        )
    }

    /// Whether the next step of admitting `range` of `key` can attach its extent,
    /// if it does.
    pub open spec fn can_complete(self, key: Seq<char>, range: Interval) -> bool {
        self.ready(key, range) && !self.covered(key, range) ==> self.last_id < u64::MAX
    }

    /// Whether the next pressure decision for admitting `range` of `key` can
    /// attach its fragments, if it trims.
    pub open spec fn can_relieve(self, key: Seq<char>, range: Interval) -> bool {
        forall|slot: int| #[trigger]
            self.victim(slot, key, range) && self.trims(slot) ==> self.rotated().can_compact(
                slot,
                self.trimmed(slot),
            )
    }

    /// Whether a step of admitting `range` of `key` has the identities it needs.
    pub open spec fn can_step(self, key: Seq<char>, range: Interval) -> bool {
        &&& self.can_complete(key, range)
        &&& !self.ready(key, range) ==> self.can_relieve(key, range)
    }

    /// Whether identities are left for every step of admitting `range` of `key`.
    pub open spec fn admissible(self, key: Seq<char>, range: Interval) -> bool {
        forall|count: nat| #[trigger]
            self.unsettled(key, range, count) ==> self.relieved_times(key, range, count).can_step(
                key,
                range,
            )
    }

    /// Whether `after` is where the identities run out while `range` of `key` is
    /// admitted: nothing is attached any more.
    pub open spec fn exhausted(self, key: Seq<char>, range: Interval, after: ShardState) -> bool {
        exists|count: nat|
            {
                let state = self.relieved_times(key, range, count);
                &&& #[trigger] self.unsettled(key, range, count)
                &&& !state.can_step(key, range)
                &&& after == if state.ready(key, range) {
                    state
                } else {
                    state.rotated()
                }
            }
    }
}

} // verus!

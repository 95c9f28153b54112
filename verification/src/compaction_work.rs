//! Compactions under way: planned under a shard's lock, copied outside it.

use bytes::Bytes;
use vstd::prelude::*;

use crate::compaction::{intervals_of, CompactionPlan};
use crate::keys::ObjectKey;
use crate::payload;
use crate::range::{ByteRange, Interval};
use crate::ranges::part;
use crate::shard_state::{fragments_of, Fragment, ShardState};

verus! {

/// Which extent a compaction replaces, and in which generation of its object.
#[verifier::ext_equal]
pub struct Target {
    pub key: Seq<char>,
    pub source: Interval,
    pub id: u64,
    pub generation: u64,
}

impl Target {
    /// Whether the extent at `slot` of `state` is still the one to replace.
    pub open spec fn current_at(self, state: ShardState, slot: int) -> bool {
        &&& state.exact_at(slot, self.key, self.source)
        &&& state.ring[slot].id == self.id
        &&& state.objects[self.key].generation == self.generation
    }

    /// The target that is the extent at `slot` of `state`.
    pub open spec fn at(state: ShardState, slot: int) -> Target {
        Target {
            key: state.ring[slot].key,
            source: state.ring[slot].range,
            id: state.ring[slot].id,
            generation: state.objects[state.ring[slot].key].generation,
        }
    }
}

/// A compaction source cloned under the metadata lock for copying afterward.
pub struct CompactionWork {
    object_key: ObjectKey,
    id: u64,
    generation: u64,
    plan: CompactionPlan,
    source_bytes: Bytes,
}

impl CompactionWork {
    /// The extent to replace.
    pub closed spec fn target(&self) -> Target {
        Target {
            key: self.object_key@,
            source: self.plan.replaced(),
            id: self.id,
            generation: self.generation,
        }
    }

    /// The ranges to retain.
    pub closed spec fn kept(&self) -> Seq<Interval> {
        self.plan.kept()
    }

    /// The payload of the extent to replace.
    pub closed spec fn source_payload(&self) -> Seq<u8> {
        payload::contents(self.source_bytes)
    }

    /// The payload is that of the whole source.
    #[verifier::type_invariant]
    spec fn well_formed(&self) -> bool {
        payload::contents(self.source_bytes).len() == self.plan.replaced().len()
    }

    pub(crate) fn new(
        object_key: ObjectKey,
        id: u64,
        generation: u64,
        plan: CompactionPlan,
        source_bytes: Bytes,
    ) -> (work: Self)
        requires
            payload::contents(source_bytes).len() == plan.replaced().len(),
        ensures
            work.target() == (Target {
                key: object_key@,
                source: plan.replaced(),
                id,
                generation,
            }),
            work.kept() == plan.kept(),
            work.source_payload() == payload::contents(source_bytes),
    {
        CompactionWork { object_key, id, generation, plan, source_bytes }
    }

    /// Copies the retained payload while no shard metadata lock is held.
    pub fn copy_payload(self) -> (prepared: PreparedCompaction)
        ensures
            prepared.target() == self.target(),
            prepared.fragments() == fragments_of(
                self.target().source,
                self.source_payload(),
                self.kept(),
            ),
            prepared.kept() == self.kept(),
    {
        proof {
            use_type_invariant(&self);
        }
        let mut retained: Vec<(ByteRange, Bytes)> = Vec::new();
        let source = self.plan.source();
        let ranges = self.plan.retained();
        let ghost kept = self.plan.kept();
        let mut index: usize = 0;
        while index < ranges.len()
            invariant
                index <= ranges@.len(),
                retained@.len() == index,
                kept == intervals_of(ranges@),
                kept == self.plan.kept(),
                self.plan.sound(),
                source@ == self.plan.replaced(),
                payload::contents(self.source_bytes).len() == source@.len(),
                forall|i: int|
                    0 <= i < index ==> (#[trigger] retained@[i]).0@ == kept[i]
                        && payload::contents(retained@[i].1) == part(
                        payload::contents(self.source_bytes),
                        source@,
                        kept[i],
                    ),
            decreases ranges.len() - index,
        {
            let range = ranges[index];
            proof {
                assert(kept[index as int] == range@);
                assert(source@.covers(range@));
            }
            let length = payload::length(&self.source_bytes);
            let start = (range.start() - source.start()) as usize;
            let end = (range.end() - source.start()) as usize;
            let whole = payload::as_slice(&self.source_bytes);
            let wanted = vstd::slice::slice_subrange(whole, start, end);
            retained.push((range, payload::copy_from_slice(wanted)));
            index += 1;
        }
        let prepared = PreparedCompaction {
            object_key: self.object_key,
            id: self.id,
            generation: self.generation,
            plan: self.plan,
            retained,
        };
        assert(prepared.fragments() =~= fragments_of(
            self.target().source,
            self.source_payload(),
            kept,
        ));
        prepared
    }
}

/// Copied replacement payload waiting for generation-checked publication.
pub struct PreparedCompaction {
    object_key: ObjectKey,
    id: u64,
    generation: u64,
    plan: CompactionPlan,
    retained: Vec<(ByteRange, Bytes)>,
}

impl PreparedCompaction {
    /// The extent to replace.
    pub closed spec fn target(&self) -> Target {
        Target {
            key: self.object_key@,
            source: self.plan.replaced(),
            id: self.id,
            generation: self.generation,
        }
    }

    /// The ranges to retain.
    pub closed spec fn kept(&self) -> Seq<Interval> {
        self.plan.kept()
    }

    /// The ranges to retain, with their bytes.
    pub closed spec fn fragments(&self) -> Seq<Fragment> {
        fragments_in(self.retained@)
    }

    /// The copied ranges are those of the plan, each with its whole payload.
    #[verifier::type_invariant]
    spec fn well_formed(&self) -> bool {
        &&& self.retained@.len() == self.plan.kept().len()
        &&& forall|i: int|
            0 <= i < self.retained@.len() ==> (#[trigger] self.retained@[i]).0@
                == self.plan.kept()[i] && payload::contents(self.retained@[i].1).len()
                == self.plan.kept()[i].len()
    }

    /// What holds of every prepared compaction: its fragments are separated
    /// parts of the source, and leave out enough of it.
    pub open spec fn sound(&self) -> bool {
        &&& self.target().source.valid()
        &&& crate::compaction::separated(self.kept())
        &&& crate::compaction::worthwhile(self.target().source, self.kept())
        &&& 0 <= crate::compaction::total_len(self.kept()) <= self.target().source.len()
        &&& self.fragments().len() == self.kept().len()
        &&& forall|i: int|
            0 <= i < self.fragments().len() ==> {
                &&& (#[trigger] self.fragments()[i]).range == self.kept()[i]
                &&& self.fragments()[i].bytes.len() == self.kept()[i].len()
                &&& self.target().source.covers(self.kept()[i])
            }
    }

    /// Returns the number of ranges to retain.
    pub fn fragment_count(&self) -> (count: usize)
        ensures
            count == self.fragments().len(),
    {
        self.retained.len()
    }

    /// Returns the extent to replace: key, range, identity and generation.
    pub(crate) fn replaces(&self) -> (parts: (&ObjectKey, ByteRange, u64, u64))
        ensures
            self.sound(),
            self.target() == (Target {
                key: parts.0@,
                source: parts.1@,
                id: parts.2,
                generation: parts.3,
            }),
    {
        proof {
            use_type_invariant(self);
        }
        let source = self.plan.source();
        proof {
            assert forall|i: int| 0 <= i < self.fragments().len() implies {
                &&& (#[trigger] self.fragments()[i]).range == self.kept()[i]
                &&& self.fragments()[i].bytes.len() == self.kept()[i].len()
                &&& self.target().source.covers(self.kept()[i])
            } by {
                assert(self.retained@[i].0@ == self.plan.kept()[i]);
            }
        }
        (&self.object_key, source, self.id, self.generation)
    }

    /// Returns one of the ranges to retain.
    pub(crate) fn fragment_range(&self, index: usize) -> (range: ByteRange)
        requires
            index < self.fragments().len(),
        ensures
            range@ == self.fragments()[index as int].range,
    {
        self.retained[index].0
    }

    /// Takes the compaction apart: key, source range, identity, generation and
    /// copied ranges.
    pub(crate) fn into_parts(self) -> (parts: (ObjectKey, ByteRange, u64, u64, Vec<(ByteRange, Bytes)>))
        ensures
            self.sound(),
            self.target() == (Target {
                key: parts.0@,
                source: parts.1@,
                id: parts.2,
                generation: parts.3,
            }),
            self.fragments() == fragments_in(parts.4@),
    {
        proof {
            use_type_invariant(&self);
        }
        let source = self.plan.source();
        proof {
            assert forall|i: int| 0 <= i < self.fragments().len() implies {
                &&& (#[trigger] self.fragments()[i]).range == self.kept()[i]
                &&& self.fragments()[i].bytes.len() == self.kept()[i].len()
                &&& self.target().source.covers(self.kept()[i])
            } by {
                assert(self.retained@[i].0@ == self.plan.kept()[i]);
            }
        }
        (self.object_key, source, self.id, self.generation, self.retained)
    }
}

/// The fragments that copied ranges stand for.
pub open spec fn fragments_in(retained: Seq<(ByteRange, Bytes)>) -> Seq<Fragment> {
    retained.map_values(
        |copy: (ByteRange, Bytes)|
            Fragment { range: copy.0@, bytes: payload::contents(copy.1) },
    )
}

} // verus!

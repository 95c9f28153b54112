//! What the in-memory range tier counts.

use vstd::prelude::*;

verus! {

/// The counters and gauges of the in-memory range tier.
///
/// Operations are counted under a fixed set of labels. Object identities and
/// caller-defined cache names are never recorded. Counters and gauges wrap
/// around at `u64::MAX`.
#[derive(Clone, Copy, Debug, PartialEq, Eq, Structural)]
pub struct MemoryMetrics {
    pub insert: u64,
    pub replace: u64,
    pub redundant: u64,
    pub access: u64,
    pub hit: u64,
    pub miss: u64,
    pub remove: u64,
    pub evict: u64,
    pub compact: u64,
    /// Downloaded payload bytes released by in-memory compaction.
    pub compacted_payload_bytes: u64,
    /// Downloaded payload bytes retained in the memory tier.
    pub payload_bytes: u64,
    /// Downloaded range entries retained in the memory tier.
    pub entries: u64,
}

impl MemoryMetrics {
    /// One more admission, counted as a replacement if it superseded entries.
    pub open spec fn inserted(self, replaced: bool) -> Self {
        if replaced {
            MemoryMetrics { replace: self.replace.wrapping_add(1), ..self }
        } else {
            MemoryMetrics { insert: self.insert.wrapping_add(1), ..self }
        }
    }

    /// One more download that an entry already contained.
    pub open spec fn found_redundant(self) -> Self {
        MemoryMetrics { redundant: self.redundant.wrapping_add(1), ..self }
    }

    /// One more successful access.
    pub open spec fn accessed(self) -> Self {
        MemoryMetrics { access: self.access.wrapping_add(1), ..self }
    }

    /// One more lookup.
    pub open spec fn looked_up(self, hit: bool) -> Self {
        if hit {
            MemoryMetrics { hit: self.hit.wrapping_add(1), ..self }
        } else {
            MemoryMetrics { miss: self.miss.wrapping_add(1), ..self }
        }
    }

    /// One more explicit removal.
    pub open spec fn removed(self) -> Self {
        MemoryMetrics { remove: self.remove.wrapping_add(1), ..self }
    }

    /// `count` more evictions.
    pub open spec fn evicted(self, count: u64) -> Self {
        MemoryMetrics { evict: self.evict.wrapping_add(count), ..self }
    }

    /// One more compaction, and the bytes it released.
    pub open spec fn compacted(self, reclaimed_bytes: u64) -> Self {
        MemoryMetrics {
            compact: self.compact.wrapping_add(1),
            compacted_payload_bytes: self.compacted_payload_bytes.wrapping_add(reclaimed_bytes),
            ..self
        }
    }

    /// More retained payload and entries.
    pub open spec fn usage_increased(self, bytes: u64, entries: u64) -> Self {
        MemoryMetrics {
            payload_bytes: self.payload_bytes.wrapping_add(bytes),
            entries: self.entries.wrapping_add(entries),
            ..self
        }
    }

    /// Less retained payload and fewer entries.
    pub open spec fn usage_decreased(self, bytes: u64, entries: u64) -> Self {
        MemoryMetrics {
            payload_bytes: self.payload_bytes.wrapping_sub(bytes),
            entries: self.entries.wrapping_sub(entries),
            ..self
        }
    }

    /// Nothing counted and nothing retained.
    pub open spec fn zero() -> Self {
        MemoryMetrics {
            insert: 0,
            replace: 0,
            redundant: 0,
            access: 0,
            hit: 0,
            miss: 0,
            remove: 0,
            evict: 0,
            compact: 0,
            compacted_payload_bytes: 0,
            payload_bytes: 0,
            entries: 0,
        }
    }

    /// Creates metrics with nothing counted and nothing retained.
    pub fn noop() -> (metrics: Self)
        ensures
            metrics == Self::zero(),
    {
        MemoryMetrics {
            insert: 0,
            replace: 0,
            redundant: 0,
            access: 0,
            hit: 0,
            miss: 0,
            remove: 0,
            evict: 0,
            compact: 0,
            compacted_payload_bytes: 0,
            payload_bytes: 0,
            entries: 0,
        }
    }

    /// Counts one admission.
    pub fn record_insert(&mut self, replaced: bool)
        ensures
            *final(self) == old(self).inserted(replaced),
            replaced ==> *final(self) == (MemoryMetrics {
                replace: old(self).replace.wrapping_add(1),
                ..*old(self)
            }),
            !replaced ==> *final(self) == (MemoryMetrics {
                insert: old(self).insert.wrapping_add(1),
                ..*old(self)
            }),
    {
        if replaced {
            self.replace = self.replace.wrapping_add(1);
        } else {
            self.insert = self.insert.wrapping_add(1);
        }
    }

    /// Counts one download that an entry already contained.
    pub fn record_redundant(&mut self)
        ensures
            *final(self) == old(self).found_redundant(),
            *final(self) == (MemoryMetrics {
                redundant: old(self).redundant.wrapping_add(1),
                ..*old(self)
            }),
    {
        self.redundant = self.redundant.wrapping_add(1);
    }

    /// Counts one successful access.
    pub fn record_access(&mut self)
        ensures
            *final(self) == old(self).accessed(),
            *final(self) == (MemoryMetrics {
                access: old(self).access.wrapping_add(1),
                ..*old(self)
            }),
    {
        self.access = self.access.wrapping_add(1);
    }

    /// Counts one lookup.
    pub fn record_lookup(&mut self, hit: bool)
        ensures
            *final(self) == old(self).looked_up(hit),
            hit ==> *final(self) == (MemoryMetrics {
                hit: old(self).hit.wrapping_add(1),
                ..*old(self)
            }),
            !hit ==> *final(self) == (MemoryMetrics {
                miss: old(self).miss.wrapping_add(1),
                ..*old(self)
            }),
    {
        if hit {
            self.hit = self.hit.wrapping_add(1);
        } else {
            self.miss = self.miss.wrapping_add(1);
        }
    }

    /// Counts one explicit removal.
    pub fn record_remove(&mut self)
        ensures
            *final(self) == old(self).removed(),
            *final(self) == (MemoryMetrics {
                remove: old(self).remove.wrapping_add(1),
                ..*old(self)
            }),
    {
        self.remove = self.remove.wrapping_add(1);
    }

    /// Counts evictions.
    pub fn record_evictions(&mut self, count: u64)
        ensures
            *final(self) == old(self).evicted(count),
            *final(self) == (MemoryMetrics {
                evict: old(self).evict.wrapping_add(count),
                ..*old(self)
            }),
    {
        self.evict = self.evict.wrapping_add(count);
    }

    /// Counts one compaction and the bytes it released.
    pub fn record_compaction(&mut self, reclaimed_bytes: u64)
        ensures
            *final(self) == old(self).compacted(reclaimed_bytes),
            *final(self) == (MemoryMetrics {
                compact: old(self).compact.wrapping_add(1),
                compacted_payload_bytes: old(self).compacted_payload_bytes.wrapping_add(
                    reclaimed_bytes,
                ),
                ..*old(self)
            }),
    {
        self.compact = self.compact.wrapping_add(1);
        self.compacted_payload_bytes = self.compacted_payload_bytes.wrapping_add(reclaimed_bytes);
    }

    /// Adds to the retained payload and entries.
    pub fn increase_usage(&mut self, bytes: u64, entries: u64)
        ensures
            *final(self) == old(self).usage_increased(bytes, entries),
            *final(self) == (MemoryMetrics {
                payload_bytes: old(self).payload_bytes.wrapping_add(bytes),
                entries: old(self).entries.wrapping_add(entries),
                ..*old(self)
            }),
    {
        self.payload_bytes = self.payload_bytes.wrapping_add(bytes);
        self.entries = self.entries.wrapping_add(entries);
    }

    /// Takes from the retained payload and entries.
    pub fn decrease_usage(&mut self, bytes: u64, entries: u64)
        ensures
            *final(self) == old(self).usage_decreased(bytes, entries),
            *final(self) == (MemoryMetrics {
                payload_bytes: old(self).payload_bytes.wrapping_sub(bytes),
                entries: old(self).entries.wrapping_sub(entries),
                ..*old(self)
            }),
    {
        self.payload_bytes = self.payload_bytes.wrapping_sub(bytes);
        self.entries = self.entries.wrapping_sub(entries);
    }
}

/// Usage that is added and then taken away again leaves every metric as it was.
pub proof fn usage_changes_cancel(metrics: MemoryMetrics, bytes: u64, entries: u64)
    ensures
        metrics.usage_increased(bytes, entries).usage_decreased(bytes, entries) == metrics,
{
}

} // verus!

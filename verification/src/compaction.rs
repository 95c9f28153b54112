//! Pure planning of compaction: which parts of one extent stay.

use vstd::prelude::*;

use crate::range::{ByteRange, Interval};

verus! {

/// Copy only when the plan releases at least one quarter of its source.
pub const MIN_RECLAIM_DIVISOR: u64 = 4;

/// Whether `offset` lies in one of `intervals`.
pub open spec fn covered(intervals: Seq<Interval>, offset: int) -> bool {
    exists|i: int| 0 <= i < intervals.len() && (#[trigger] intervals[i]).has(offset)
}

/// Whether `offset` lies in one of `requests` that `source` covers completely.
pub open spec fn wanted(source: Interval, requests: Seq<Interval>, offset: int) -> bool {
    exists|i: int|
        0 <= i < requests.len() && source.covers(requests[i]) && (#[trigger] requests[i]).has(offset)
}

/// The intervals are non-empty, ascending, and no two overlap or touch.
pub open spec fn separated(intervals: Seq<Interval>) -> bool {
    &&& forall|i: int| 0 <= i < intervals.len() ==> (#[trigger] intervals[i]).valid()
    &&& forall|i: int, j: int|
        0 <= i < j < intervals.len() ==> (#[trigger] intervals[i]).end < (
        #[trigger] intervals[j]).start
}

/// The number of offsets in the intervals, counted interval by interval.
pub open spec fn total_len(intervals: Seq<Interval>) -> int
    decreases intervals.len(),
{
    if intervals.len() == 0 {
        0
    } else {
        total_len(intervals.drop_last()) + intervals.last().len()
    }
}

/// `retained` is the grouping of the requests that `source` covers: it holds
/// exactly their offsets, with overlapping and adjacent requests merged and
/// gaps left out.
pub open spec fn groups(
    source: Interval,
    requests: Seq<Interval>,
    retained: Seq<Interval>,
) -> bool {
    &&& separated(retained)
    &&& forall|offset: int| #[trigger]
        covered(retained, offset) <==> wanted(source, requests, offset)
}

/// Keeping `retained` of `source` releases enough to be worth a copy.
pub open spec fn worthwhile(source: Interval, retained: Seq<Interval>) -> bool {
    MIN_RECLAIM_DIVISOR * (source.len() - total_len(retained)) >= source.len()
}

/// The ranges that compacting `source` toward `requests` retains: the separated
/// intervals with exactly the wanted offsets.
pub open spec fn grouping(source: Interval, requests: Seq<Interval>) -> Seq<Interval> {
    choose|retained: Seq<Interval>| groups(source, requests, retained)
}

/// Whether compacting `source` toward `requests` keeps something and reclaims enough.
pub open spec fn compactable(source: Interval, requests: Seq<Interval>) -> bool {
    &&& grouping(source, requests).len() > 0
    &&& worthwhile(source, grouping(source, requests))
}

/// The intervals of executable ranges.
pub open spec fn intervals_of(ranges: Seq<ByteRange>) -> Seq<Interval> {
    ranges.map_values(|range: ByteRange| range@)
}

/// A pure replacement plan for one retained downloaded extent.
#[derive(Debug)]
pub struct CompactionPlan {
    source: ByteRange,
    retained: Vec<ByteRange>,
    retained_bytes: u64,
}

impl CompactionPlan {
    /// The extent that the plan replaces.
    pub closed spec fn replaced(&self) -> Interval {
        self.source@
    }

    /// The parts of the extent that stay.
    pub closed spec fn kept(&self) -> Seq<Interval> {
        intervals_of(self.retained@)
    }

    /// The plan keeps a worthwhile, non-empty, separated part of its source.
    #[verifier::type_invariant]
    pub closed spec fn well_formed(&self) -> bool {
        &&& self.retained_bytes == total_len(self.kept())
        &&& self.sound()
    }

    /// What a plan promises to those who carry it out.
    pub open spec fn sound(&self) -> bool {
        &&& self.replaced().valid()
        &&& self.kept().len() > 0
        &&& separated(self.kept())
        &&& forall|i: int|
            0 <= i < self.kept().len() ==> self.replaced().covers(#[trigger] self.kept()[i])
        &&& worthwhile(self.replaced(), self.kept())
        &&& 0 <= total_len(self.kept()) <= self.replaced().len()
    }

    /// Returns the extent that the plan replaces.
    pub fn source(&self) -> (source: ByteRange)
        ensures
            source@ == self.replaced(),
            self.sound(),
    {
        proof {
            use_type_invariant(self);
        }
        self.source
    }

    /// Returns the ranges that stay, ascending and separated.
    pub fn retained(&self) -> (retained: &Vec<ByteRange>)
        ensures
            intervals_of(retained@) == self.kept(),
            self.sound(),
    {
        proof {
            use_type_invariant(self);
        }
        &self.retained
    }

    /// Returns the bytes that carrying out the plan releases.
    pub fn reclaimed_bytes(&self) -> (reclaimed: u64)
        ensures
            reclaimed == self.replaced().len() - total_len(self.kept()),
            self.sound(),
    {
        proof {
            use_type_invariant(self);
        }
        self.source.len() - self.retained_bytes
    }
}

/// Projects exact requested ranges onto one downloaded extent.
///
/// Only requests fully covered by `source` can give it retention value.
/// Overlapping and adjacent requests are grouped, but gaps remain unretained.
/// Repetition stays available to eviction policy and produces no duplicate
/// copied interval here.
pub fn plan_compaction(source: ByteRange, requested_ranges: &[ByteRange]) -> (result: Option<
    CompactionPlan,
>)
    ensures
        groups(
            source@,
            intervals_of(requested_ranges@),
            grouping(source@, intervals_of(requested_ranges@)),
        ),
        match result {
            Some(plan) => {
                &&& compactable(source@, intervals_of(requested_ranges@))
                &&& plan.replaced() == source@
                &&& plan.kept() == grouping(source@, intervals_of(requested_ranges@))
                &&& plan.sound()
            },
            None => !compactable(source@, intervals_of(requested_ranges@)),
        },
{
    let sorted = sorted_covered_requests(source, requested_ranges);
    let grouped = merge_sorted(&sorted);
    let ghost requests = intervals_of(requested_ranges@);
    let ghost retained = intervals_of(grouped@);
    proof {
        assert(groups(source@, requests, retained));
        grouping_is_unique(source@, requests, retained, grouping(source@, requests));
        assert forall|i: int| 0 <= i < retained.len() implies source@.covers(
            #[trigger] retained[i],
        ) by {
            lemma_group_within_source(source@, requests, retained, i);
        }
    }
    if grouped.len() == 0 {
        return None;
    }
    let mut retained_bytes: u64 = 0;
    let mut index: usize = 0;
    proof {
        use_type_invariant(&source);
        assert(retained.take(0) =~= Seq::<Interval>::empty());
    }
    while index < grouped.len()
        invariant
            index <= grouped@.len(),
            retained == intervals_of(grouped@),
            separated(retained),
            forall|i: int| 0 <= i < retained.len() ==> source@.covers(#[trigger] retained[i]),
            retained_bytes == total_len(retained.take(index as int)),
            source@.valid(),
        decreases grouped.len() - index,
    {
        proof {
            let next = retained.take(index + 1);
            assert(next.drop_last() =~= retained.take(index as int));
            assert(next.last() == grouped@[index as int]@);
            lemma_total_len_within(source@, next);
        }
        retained_bytes = retained_bytes + grouped[index].len();
        index += 1;
    }
    proof {
        assert(retained.take(index as int) =~= retained);
        lemma_total_len_within(source@, retained);
    }
    let reclaimed_bytes = source.len() - retained_bytes;
    let whole = source.len() / MIN_RECLAIM_DIVISOR;
    let part: u64 = if source.len() % MIN_RECLAIM_DIVISOR != 0 {
        1
    } else {
        0
    };
    if reclaimed_bytes < whole + part {
        return None;
    }
    Some(CompactionPlan { source, retained: grouped, retained_bytes })
}

/// Lists the requests that `source` covers, in ascending order.
fn sorted_covered_requests(source: ByteRange, requested_ranges: &[ByteRange]) -> (sorted: Vec<
    ByteRange,
>)
    ensures
        ascending(intervals_of(sorted@)),
        forall|offset: int| #[trigger]
            covered(intervals_of(sorted@), offset) <==> wanted(
                source@,
                intervals_of(requested_ranges@),
                offset,
            ),
{
    let mut sorted: Vec<ByteRange> = Vec::new();
    let ghost requests = intervals_of(requested_ranges@);
    let mut index: usize = 0;
    while index < requested_ranges.len()
        invariant
            index <= requested_ranges@.len(),
            requests == intervals_of(requested_ranges@),
            ascending(intervals_of(sorted@)),
            forall|offset: int| #[trigger]
                covered(intervals_of(sorted@), offset) <==> wanted(
                    source@,
                    requests.take(index as int),
                    offset,
                ),
        decreases requested_ranges.len() - index,
    {
        let requested = requested_ranges[index];
        let ghost before = intervals_of(sorted@);
        if source.contains(requested) {
            proof {
                use_type_invariant(&requested);
            }
            let mut position: usize = sorted.len();
            while position > 0 && precedes(requested, sorted[position - 1])
                invariant
                    position <= sorted@.len(),
                    forall|i: int|
                        position <= i < sorted@.len() ==> requested@.before(
                            (#[trigger] sorted@[i])@,
                        ),
                decreases position,
            {
                position -= 1;
            }
            sorted.insert(position, requested);
            proof {
                assert(intervals_of(sorted@) =~= before.insert(position as int, requested@));
                lemma_covered_insert(before, position as int, requested@);
                lemma_ascending_insert(before, position as int, requested@);
            }
        }
        proof {
            assert(requests[index as int] == requested@);
            lemma_wanted_step(source@, requests, index as int);
        }
        index += 1;
    }
    assert(requests.take(index as int) =~= requests);
    sorted
}

/// Merges ascending ranges that overlap or touch.
fn merge_sorted(sorted: &Vec<ByteRange>) -> (grouped: Vec<ByteRange>)
    requires
        ascending(intervals_of(sorted@)),
    ensures
        separated(intervals_of(grouped@)),
        forall|offset: int| #[trigger]
            covered(intervals_of(grouped@), offset) <==> covered(intervals_of(sorted@), offset),
{
    let ghost input = intervals_of(sorted@);
    let mut grouped: Vec<ByteRange> = Vec::new();
    let mut index: usize = 0;
    while index < sorted.len()
        invariant
            index <= sorted@.len(),
            input == intervals_of(sorted@),
            ascending(input),
            separated(intervals_of(grouped@)),
            forall|i: int, j: int|
                0 <= i < grouped@.len() && index <= j < input.len() ==> (
                #[trigger] grouped@[i])@.start <= (#[trigger] input[j]).start,
            forall|offset: int| #[trigger]
                covered(intervals_of(grouped@), offset) <==> covered(
                    input.take(index as int),
                    offset,
                ),
        decreases sorted.len() - index,
    {
        let requested = sorted[index];
        let ghost before = intervals_of(grouped@);
        proof {
            assert(input[index as int] == requested@);
            lemma_covered_take_step(input, index as int);
        }
        let count = grouped.len();
        if count > 0 && requested.start() <= grouped[count - 1].end() {
            let previous = grouped[count - 1];
            proof {
                use_type_invariant(&previous);
                use_type_invariant(&requested);
                assert(grouped@[count - 1]@.start <= input[index as int].start);
            }
            let end = if previous.end() >= requested.end() {
                previous.end()
            } else {
                requested.end()
            };
            let merged = ByteRange::new(previous.start(), end).unwrap();
            grouped.set(count - 1, merged);
            proof {
                let last = count - 1;
                assert(intervals_of(grouped@) =~= before.update(last, merged@));
                lemma_covered_merge(before, last, requested@, merged@);
                assert(separated(intervals_of(grouped@))) by {
                    let after = intervals_of(grouped@);
                    assert forall|i: int, j: int| 0 <= i < j < after.len() implies (
                    #[trigger] after[i]).end < (#[trigger] after[j]).start by {
                        assert(before[i].end < before[j].start);
                    }
                }
                assert forall|i: int, j: int|
                    0 <= i < grouped@.len() && index + 1 <= j < input.len() implies (
                #[trigger] grouped@[i])@.start <= (#[trigger] input[j]).start by {
                    assert(before[i].start <= input[index as int].start);
                    assert(before[i] == intervals_of(grouped@)[i] || i == last);
                }
            }
        } else {
            proof {
                use_type_invariant(&requested);
            }
            let ghost listed = grouped@;
            grouped.push(requested);
            proof {
                assert(intervals_of(grouped@) =~= before.push(requested@));
                lemma_covered_insert(before, before.len() as int, requested@);
                assert(before.insert(before.len() as int, requested@) =~= before.push(requested@));
                assert(separated(intervals_of(grouped@))) by {
                    let after = intervals_of(grouped@);
                    assert forall|i: int, j: int| 0 <= i < j < after.len() implies (
                    #[trigger] after[i]).end < (#[trigger] after[j]).start by {
                        if j == before.len() {
                            assert(before[before.len() - 1].end < requested@.start);
                            if i < before.len() - 1 {
                                assert(before[i].end < before[before.len() - 1].start);
                            }
                            assert(before[before.len() - 1].valid());
                        } else {
                            assert(before[i].end < before[j].start);
                        }
                    }
                }
            }
        }
        index += 1;
    }
    assert(input.take(index as int) =~= input);
    grouped
}

/// Whether `left` comes before `right` by start, then by end.
pub(crate) fn precedes(left: ByteRange, right: ByteRange) -> (before: bool)
    ensures
        before == left@.before(right@),
{
    left.start() < right.start() || (left.start() == right.start() && left.end() < right.end())
}

/// Valid intervals, ascending by start.
spec fn ascending(intervals: Seq<Interval>) -> bool {
    &&& forall|i: int| 0 <= i < intervals.len() ==> (#[trigger] intervals[i]).valid()
    &&& forall|i: int, j: int|
        0 <= i <= j < intervals.len() ==> (#[trigger] intervals[i]).start <= (
        #[trigger] intervals[j]).start
}

proof fn lemma_ascending_insert(intervals: Seq<Interval>, position: int, added: Interval)
    requires
        ascending(intervals),
        added.valid(),
        0 <= position <= intervals.len(),
        position > 0 ==> !added.before(intervals[position - 1]),
        forall|i: int| position <= i < intervals.len() ==> added.before(#[trigger] intervals[i]),
    ensures
        ascending(intervals.insert(position, added)),
{
    let after = intervals.insert(position, added);
    assert forall|i: int, j: int| 0 <= i <= j < after.len() implies (#[trigger] after[i]).start <= (
    #[trigger] after[j]).start by {
        let from = if i < position { i } else { i - 1 };
        let to = if j < position { j } else { j - 1 };
        if i == position {
            if j > position {
                assert(added.before(intervals[to]));
            }
        } else if j == position {
            assert(intervals[from].start <= intervals[position - 1].start);
        } else {
            assert(intervals[from].start <= intervals[to].start);
        }
    }
    assert forall|i: int| 0 <= i < after.len() implies (#[trigger] after[i]).valid() by {
        let from = if i < position { i } else { i - 1 };
        if i != position {
            assert(intervals[from].valid());
        }
    }
}

proof fn lemma_covered_insert(intervals: Seq<Interval>, position: int, added: Interval)
    requires
        0 <= position <= intervals.len(),
    ensures
        forall|offset: int| #[trigger]
            covered(intervals.insert(position, added), offset) <==> covered(intervals, offset)
                || added.has(offset),
{
    let after = intervals.insert(position, added);
    assert forall|offset: int| #[trigger] covered(after, offset) <==> covered(intervals, offset)
        || added.has(offset) by {
        if covered(after, offset) {
            let i = choose|i: int| 0 <= i < after.len() && (#[trigger] after[i]).has(offset);
            if i < position {
                assert(intervals[i].has(offset));
            } else if i > position {
                assert(intervals[i - 1].has(offset));
            }
        }
        if covered(intervals, offset) {
            let i = choose|i: int|
                0 <= i < intervals.len() && (#[trigger] intervals[i]).has(offset);
            if i < position {
                assert(after[i].has(offset));
            } else {
                assert(after[i + 1].has(offset));
            }
        }
        if added.has(offset) {
            assert(after[position].has(offset));
        }
    }
}

proof fn lemma_covered_merge(
    intervals: Seq<Interval>,
    position: int,
    added: Interval,
    merged: Interval,
)
    requires
        0 <= position < intervals.len(),
        intervals[position].valid(),
        added.valid(),
        intervals[position].start <= added.start <= intervals[position].end,
        merged.start == intervals[position].start,
        merged.end == if intervals[position].end >= added.end {
            intervals[position].end
        } else {
            added.end
        },
    ensures
        forall|offset: int| #[trigger]
            covered(intervals.update(position, merged), offset) <==> covered(intervals, offset)
                || added.has(offset),
{
    let after = intervals.update(position, merged);
    assert forall|offset: int| #[trigger] covered(after, offset) <==> covered(intervals, offset)
        || added.has(offset) by {
        if covered(after, offset) {
            let i = choose|i: int| 0 <= i < after.len() && (#[trigger] after[i]).has(offset);
            if i != position {
                assert(intervals[i].has(offset));
            } else if !added.has(offset) {
                assert(intervals[position].has(offset));
            }
        }
        if covered(intervals, offset) {
            let i = choose|i: int|
                0 <= i < intervals.len() && (#[trigger] intervals[i]).has(offset);
            assert(after[i].has(offset));
        }
        if added.has(offset) {
            assert(after[position].has(offset));
        }
    }
}

proof fn lemma_covered_take_step(intervals: Seq<Interval>, index: int)
    requires
        0 <= index < intervals.len(),
    ensures
        forall|offset: int| #[trigger]
            covered(intervals.take(index + 1), offset) <==> covered(intervals.take(index), offset)
                || intervals[index].has(offset),
{
    let before = intervals.take(index);
    assert(intervals.take(index + 1) =~= before.insert(index, intervals[index]));
    lemma_covered_insert(before, index, intervals[index]);
}

proof fn lemma_wanted_step(source: Interval, requests: Seq<Interval>, index: int)
    requires
        0 <= index < requests.len(),
    ensures
        forall|offset: int| #[trigger]
            wanted(source, requests.take(index + 1), offset) <==> wanted(
                source,
                requests.take(index),
                offset,
            ) || (source.covers(requests[index]) && requests[index].has(offset)),
{
    let before = requests.take(index);
    let after = requests.take(index + 1);
    assert forall|offset: int| #[trigger] wanted(source, after, offset) <==> wanted(
        source,
        before,
        offset,
    ) || (source.covers(requests[index]) && requests[index].has(offset)) by {
        if wanted(source, after, offset) {
            let i = choose|i: int|
                0 <= i < after.len() && source.covers(after[i]) && (#[trigger] after[i]).has(offset);
            if i < index {
                assert(before[i].has(offset));
            }
        }
        if wanted(source, before, offset) {
            let i = choose|i: int|
                0 <= i < before.len() && source.covers(before[i]) && (#[trigger] before[i]).has(
                    offset,
                );
            assert(after[i].has(offset));
        }
        if source.covers(requests[index]) && requests[index].has(offset) {
            assert(after[index].has(offset));
        }
    }
}

/// A group lies within the extent that it was projected onto.
proof fn lemma_group_within_source(
    source: Interval,
    requests: Seq<Interval>,
    retained: Seq<Interval>,
    group: int,
)
    requires
        groups(source, requests, retained),
        0 <= group < retained.len(),
    ensures
        source.covers(retained[group]),
{
    let first = retained[group].start as int;
    let last = retained[group].end - 1;
    assert(retained[group].has(first));
    assert(retained[group].has(last));
    assert(covered(retained, first));
    assert(covered(retained, last));
    assert(wanted(source, requests, first));
    assert(wanted(source, requests, last));
}

/// Separated intervals within an extent hold no more than the extent does.
pub proof fn lemma_total_len_within(source: Interval, intervals: Seq<Interval>)
    requires
        source.valid(),
        separated(intervals),
        forall|i: int| 0 <= i < intervals.len() ==> source.covers(#[trigger] intervals[i]),
    ensures
        0 <= total_len(intervals) <= source.len(),
        intervals.len() <= total_len(intervals),
        intervals.len() > 0 ==> total_len(intervals) <= intervals.last().end - source.start,
    decreases intervals.len(),
{
    if intervals.len() > 0 {
        let front = intervals.drop_last();
        assert forall|i: int| 0 <= i < front.len() implies source.covers(#[trigger] front[i]) by {
            assert(source.covers(intervals[i]));
        }
        assert forall|i: int| 0 <= i < front.len() implies (#[trigger] front[i]).valid() by {
            assert(intervals[i].valid());
        }
        assert forall|i: int, j: int| 0 <= i < j < front.len() implies (#[trigger] front[i]).end < (
        #[trigger] front[j]).start by {
            assert(intervals[i].end < intervals[j].start);
        }
        lemma_total_len_within(source, front);
        assert(source.covers(intervals[intervals.len() - 1]));
        assert(intervals.last().valid());
        if front.len() > 0 {
            assert(intervals[front.len() - 1].end < intervals[intervals.len() - 1].start);
        }
    }
}

proof fn lemma_separated_unique(left: Seq<Interval>, right: Seq<Interval>)
    requires
        separated(left),
        separated(right),
        forall|offset: int| #[trigger] covered(left, offset) <==> covered(right, offset),
    ensures
        left == right,
    decreases left.len(),
{
    if left.len() == 0 || right.len() == 0 {
        if left.len() > 0 {
            assert(left[0].has(left[0].start as int));
            assert(covered(left, left[0].start as int));
        }
        if right.len() > 0 {
            assert(right[0].has(right[0].start as int));
            assert(covered(right, right[0].start as int));
            assert(covered(left, right[0].start as int));
        }
        assert(left =~= right);
    } else {
        lemma_first_bounds(left, right);
        lemma_first_bounds(right, left);
        let left_rest = left.drop_first();
        let right_rest = right.drop_first();
        assert forall|offset: int| #[trigger]
            covered(left_rest, offset) <==> covered(right_rest, offset) by {
            lemma_covered_rest(left, offset);
            lemma_covered_rest(right, offset);
            assert(covered(left, offset) <==> covered(right, offset));
        }
        lemma_separated_unique(left_rest, right_rest);
        assert(left =~= seq![left[0]] + left_rest);
        assert(right =~= seq![right[0]] + right_rest);
    }
}

proof fn lemma_first_bounds(left: Seq<Interval>, right: Seq<Interval>)
    requires
        separated(left),
        separated(right),
        left.len() > 0,
        right.len() > 0,
        forall|offset: int| #[trigger] covered(left, offset) <==> covered(right, offset),
    ensures
        left[0].start <= right[0].start,
        left[0].start == right[0].start ==> right[0].end <= left[0].end,
{
    let start = right[0].start as int;
    assert(right[0].has(start));
    assert(covered(right, start));
    assert(covered(left, start));
    let i = choose|i: int| 0 <= i < left.len() && (#[trigger] left[i]).has(start);
    if i > 0 {
        assert(left[0].end < left[i].start);
    }
    if left[0].start == right[0].start && left[0].end < right[0].end {
        let end = left[0].end as int;
        assert(right[0].has(end));
        assert(covered(right, end));
        assert(covered(left, end));
        let j = choose|j: int| 0 <= j < left.len() && (#[trigger] left[j]).has(end);
        if j > 0 {
            assert(left[0].end < left[j].start);
        }
    }
}

proof fn lemma_covered_rest(intervals: Seq<Interval>, offset: int)
    requires
        separated(intervals),
        intervals.len() > 0,
    ensures
        covered(intervals.drop_first(), offset) <==> covered(intervals, offset)
            && !intervals[0].has(offset),
{
    let rest = intervals.drop_first();
    if covered(rest, offset) {
        let i = choose|i: int| 0 <= i < rest.len() && (#[trigger] rest[i]).has(offset);
        assert(intervals[i + 1] == rest[i]);
        assert(intervals[0].end < intervals[i + 1].start);
    }
    if covered(intervals, offset) && !intervals[0].has(offset) {
        let i = choose|i: int| 0 <= i < intervals.len() && (#[trigger] intervals[i]).has(offset);
        assert(rest[i - 1] == intervals[i]);
    }
}

/// The ranges that a compaction retains are determined by its source and requests.
pub proof fn grouping_is_unique(
    source: Interval,
    requests: Seq<Interval>,
    left: Seq<Interval>,
    right: Seq<Interval>,
)
    requires
        groups(source, requests, left),
        groups(source, requests, right),
    ensures
        left == right,
{
    assert forall|offset: int| #[trigger] covered(left, offset) <==> covered(right, offset) by {
        assert(covered(left, offset) <==> wanted(source, requests, offset));
    }
    lemma_separated_unique(left, right);
}

/// Every covered request stays coverable by exactly one retained range.
pub proof fn covered_requests_stay_coverable(
    source: Interval,
    requests: Seq<Interval>,
    retained: Seq<Interval>,
    i: int,
)
    requires
        groups(source, requests, retained),
        0 <= i < requests.len(),
        requests[i].valid(),
        source.covers(requests[i]),
    ensures
        exists|j: int|
            0 <= j < retained.len() && (#[trigger] retained[j]).covers(requests[i]) && (forall|k: int|
                0 <= k < retained.len() && (#[trigger] retained[k]).covers(requests[i]) ==> k == j),
{
    let request = requests[i];
    let first = request.start as int;
    assert(requests[i].has(first));
    assert(wanted(source, requests, first));
    assert(covered(retained, first));
    let j = choose|j: int| 0 <= j < retained.len() && (#[trigger] retained[j]).has(first);
    if retained[j].end < request.end {
        let end = retained[j].end as int;
        assert(requests[i].has(end));
        assert(wanted(source, requests, end));
        assert(covered(retained, end));
        let k = choose|k: int| 0 <= k < retained.len() && (#[trigger] retained[k]).has(end);
        if j < k {
            assert(retained[j].end < retained[k].start);
        } else if k < j {
            assert(retained[k].end < retained[j].start);
        }
    }
    assert(retained[j].covers(request));
    assert forall|k: int|
        0 <= k < retained.len() && (#[trigger] retained[k]).covers(request) implies k == j by {
        if j < k {
            assert(retained[j].end < retained[k].start);
        } else if k < j {
            assert(retained[k].end < retained[j].start);
        }
    }
}

/// `intervals` with `added` merged in, among separated ascending intervals.
spec fn merged_in(intervals: Seq<Interval>, added: Interval) -> Seq<Interval>
    decreases intervals.len(),
{
    if intervals.len() == 0 {
        seq![added]
    } else if added.end < intervals[0].start {
        seq![added] + intervals
    } else if intervals[0].end < added.start {
        seq![intervals[0]] + merged_in(intervals.drop_first(), added)
    } else {
        merged_in(intervals.drop_first(), hull(intervals[0], added))
    }
}

/// The least interval that covers both.
pub open spec fn hull(left: Interval, right: Interval) -> Interval {
    Interval {
        start: if left.start < right.start { left.start } else { right.start },
        end: if left.end < right.end { right.end } else { left.end },
    }
}

proof fn lemma_covered_front(first: Interval, rest: Seq<Interval>, offset: int)
    ensures
        covered(seq![first] + rest, offset) <==> first.has(offset) || covered(rest, offset),
{
    let all = seq![first] + rest;
    if covered(all, offset) {
        let i = choose|i: int| 0 <= i < all.len() && (#[trigger] all[i]).has(offset);
        if i > 0 {
            assert(rest[i - 1] == all[i]);
        }
    }
    if first.has(offset) {
        assert(all[0].has(offset));
    }
    if covered(rest, offset) {
        let i = choose|i: int| 0 <= i < rest.len() && (#[trigger] rest[i]).has(offset);
        assert(all[i + 1] == rest[i]);
    }
}

proof fn lemma_merged_in(intervals: Seq<Interval>, added: Interval)
    requires
        separated(intervals),
        added.valid(),
    ensures
        separated(merged_in(intervals, added)),
        merged_in(intervals, added).len() > 0,
        intervals.len() > 0 ==> merged_in(intervals, added)[0].start >= hull(
            intervals[0],
            added,
        ).start,
        intervals.len() == 0 ==> merged_in(intervals, added)[0].start >= added.start,
        forall|offset: int| #[trigger]
            covered(merged_in(intervals, added), offset) <==> covered(intervals, offset)
                || added.has(offset),
    decreases intervals.len(),
{
    let result = merged_in(intervals, added);
    if intervals.len() == 0 {
        assert forall|offset: int| #[trigger] covered(result, offset) <==> covered(
            intervals,
            offset,
        ) || added.has(offset) by {
            lemma_covered_front(added, Seq::empty(), offset);
            assert(seq![added] + Seq::<Interval>::empty() =~= seq![added]);
        }
    } else {
        let first = intervals[0];
        let rest = intervals.drop_first();
        assert(intervals =~= seq![first] + rest);
        assert(separated(rest)) by {
            assert forall|i: int| 0 <= i < rest.len() implies (#[trigger] rest[i]).valid() by {
                assert(rest[i] == intervals[i + 1]);
            }
            assert forall|i: int, j: int| 0 <= i < j < rest.len() implies (#[trigger] rest[i]).end < (
            #[trigger] rest[j]).start by {
                assert(intervals[i + 1].end < intervals[j + 1].start);
            }
        }
        assert forall|i: int| 0 <= i < rest.len() implies first.end < (
        #[trigger] rest[i]).start by {
            assert(rest[i] == intervals[i + 1]);
        }
        if added.end < first.start {
            assert(separated(result)) by {
                assert forall|i: int, j: int| 0 <= i < j < result.len() implies (
                #[trigger] result[i]).end < (#[trigger] result[j]).start by {
                    assert(result[j] == intervals[j - 1]);
                    if i > 0 {
                        assert(result[i] == intervals[i - 1]);
                    }
                }
            }
            assert forall|offset: int| #[trigger] covered(result, offset) <==> covered(
                intervals,
                offset,
            ) || added.has(offset) by {
                lemma_covered_front(added, intervals, offset);
            }
        } else if first.end < added.start {
            let tail = merged_in(rest, added);
            lemma_merged_in(rest, added);
            assert(tail[0].start > first.end);
            assert(separated(result)) by {
                assert forall|i: int, j: int| 0 <= i < j < result.len() implies (
                #[trigger] result[i]).end < (#[trigger] result[j]).start by {
                    assert(result[j] == tail[j - 1]);
                    if i > 0 {
                        assert(result[i] == tail[i - 1]);
                    } else if j > 1 {
                        assert(tail[0].end < tail[j - 1].start);
                    }
                }
            }
            assert forall|offset: int| #[trigger] covered(result, offset) <==> covered(
                intervals,
                offset,
            ) || added.has(offset) by {
                lemma_covered_front(first, tail, offset);
                lemma_covered_front(first, rest, offset);
                assert(covered(tail, offset) <==> covered(rest, offset) || added.has(offset));
            }
        } else {
            let joined = hull(first, added);
            lemma_merged_in(rest, joined);
            assert forall|offset: int| #[trigger] covered(result, offset) <==> covered(
                intervals,
                offset,
            ) || added.has(offset) by {
                lemma_covered_front(first, rest, offset);
                assert(covered(result, offset) <==> covered(rest, offset) || joined.has(offset));
            }
        }
    }
}

/// Some separated ranges hold exactly the wanted offsets.
proof fn lemma_groups_exist(source: Interval, requests: Seq<Interval>) -> (retained: Seq<Interval>)
    ensures
        groups(source, requests, retained),
    decreases requests.len(),
{
    if requests.len() == 0 {
        let retained = Seq::<Interval>::empty();
        assert forall|offset: int| #[trigger] covered(retained, offset) <==> wanted(
            source,
            requests,
            offset,
        ) by {}
        retained
    } else {
        let earlier = requests.drop_last();
        let last = requests.last();
        let before = lemma_groups_exist(source, earlier);
        assert forall|offset: int| #[trigger] wanted(source, requests, offset) <==> wanted(
            source,
            earlier,
            offset,
        ) || (source.covers(last) && last.has(offset)) by {
            if wanted(source, requests, offset) {
                let i = choose|i: int|
                    0 <= i < requests.len() && source.covers(requests[i])
                        && (#[trigger] requests[i]).has(offset);
                if i < earlier.len() {
                    assert(earlier[i] == requests[i]);
                }
            }
            if wanted(source, earlier, offset) {
                let i = choose|i: int|
                    0 <= i < earlier.len() && source.covers(earlier[i])
                        && (#[trigger] earlier[i]).has(offset);
                assert(requests[i] == earlier[i]);
            }
            if source.covers(last) && last.has(offset) {
                assert(requests[requests.len() - 1].has(offset));
            }
        }
        if source.covers(last) && last.valid() {
            lemma_merged_in(before, last);
            let retained = merged_in(before, last);
            assert forall|offset: int| #[trigger] covered(retained, offset) <==> wanted(
                source,
                requests,
                offset,
            ) by {
                assert(covered(before, offset) <==> wanted(source, earlier, offset));
            }
            retained
        } else {
            assert forall|offset: int| #[trigger] covered(before, offset) <==> wanted(
                source,
                requests,
                offset,
            ) by {
                assert(covered(before, offset) <==> wanted(source, earlier, offset));
            }
            before
        }
    }
}

/// What a compaction retains: separated parts of its source with exactly the
/// wanted offsets, together no longer than the source and no fewer bytes than
/// there are parts.
pub proof fn lemma_grouping(source: Interval, requests: Seq<Interval>)
    ensures
        groups(source, requests, grouping(source, requests)),
        forall|i: int|
            0 <= i < grouping(source, requests).len() ==> source.covers(
                #[trigger] grouping(source, requests)[i],
            ),
        source.valid() ==> grouping(source, requests).len() <= total_len(
            grouping(source, requests),
        ) <= source.len(),
{
    let some = lemma_groups_exist(source, requests);
    let retained = grouping(source, requests);
    assert(groups(source, requests, retained));
    assert forall|i: int| 0 <= i < retained.len() implies source.covers(#[trigger] retained[i]) by {
        lemma_group_within_source(source, requests, retained, i);
    }
    if source.valid() {
        lemma_total_len_within(source, retained);
    }
}

} // verus!

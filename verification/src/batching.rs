//! Which captured requests are fetched together.

use vstd::prelude::*;

use crate::downloader::{
    awaiting, base_ranges, batch_of, chronological, expanded, expansion_after, gap, has_order,
    joins, lemma_awaiting, lemma_batch, lemma_expansion_lengths, lemma_pending_order,
    lemma_run_ends, lemma_run_range_covers, lemma_runs_complete, pending_order, run_range, runs,
    DownloadConfig, DownloadPolicy, PendingRange, Request,
};
use crate::range::Interval;

verus! {

/// An expanding downloader fetches an object whole if it is smaller than the threshold,
/// and otherwise what was requested. An exact one always fetches what was requested.
pub proof fn small_objects_are_fetched_whole(request: Request, config: DownloadConfig)
    ensures
        request.downloaded(DownloadPolicy::Exact, config) == request.range,
        request.size < config.whole_split_threshold_bytes ==> request.downloaded(
            DownloadPolicy::Expanded,
            config,
        ) == (Interval { start: 0, end: request.size }),
        request.size >= config.whole_split_threshold_bytes ==> request.downloaded(
            DownloadPolicy::Expanded,
            config,
        ) == request.range,
{
}

/// Pending ranges of one object, ascending by start and all different.
spec fn lined_up(ordered: Seq<PendingRange>) -> bool {
    &&& ordered.no_duplicates()
    &&& forall|i: int, j: int|
        0 <= i < j < ordered.len() ==> {
            &&& (#[trigger] ordered[i]).same_object(#[trigger] ordered[j])
            &&& ordered[i].range.start <= ordered[j].range.start
        }
    &&& forall|i: int| 0 <= i < ordered.len() ==> (#[trigger] ordered[i]).range.valid()
}

proof fn lemma_lined_up_front(ordered: Seq<PendingRange>)
    requires
        lined_up(ordered),
        ordered.len() > 0,
    ensures
        lined_up(ordered.drop_last()),
        !ordered.drop_last().contains(ordered.last()),
{
    let front = ordered.drop_last();
    assert forall|i: int, j: int| 0 <= i < j < front.len() implies {
        &&& (#[trigger] front[i]).same_object(#[trigger] front[j])
        &&& front[i].range.start <= front[j].range.start
    } by {
        assert(ordered[i].same_object(ordered[j]));
    }
    assert forall|i: int| 0 <= i < front.len() implies (#[trigger] front[i]).range.valid() by {
        assert(ordered[i].range.valid());
    }
}

/// Bytes between two ranges, whichever comes first; 0 where they meet or touch.
pub open spec fn bytes_between(one: Interval, other: Interval) -> int {
    if other.start > one.end {
        other.start - one.end
    } else if one.start > other.end {
        one.start - other.end
    } else {
        0
    }
}

/// No range is in two runs.
proof fn lemma_runs_apart(ordered: Seq<PendingRange>, distance: u64, r: int, s: int)
    requires
        lined_up(ordered),
        0 <= r < s < runs(ordered, distance).len(),
    ensures
        forall|pending: PendingRange|
            !(#[trigger] runs(ordered, distance)[r].contains(pending) && #[trigger] runs(
                ordered,
                distance,
            )[s].contains(pending)),
    decreases ordered.len(),
{
    let front = ordered.drop_last();
    let next = ordered.last();
    let earlier = runs(front, distance);
    let all = runs(ordered, distance);
    lemma_lined_up_front(ordered);
    lemma_runs_complete(front, distance);
    let joined = earlier.len() > 0 && joins(earlier.last(), next, distance);
    assert(all[r] == earlier[r]);
    assert forall|pending: PendingRange|
        #[trigger] all[r].contains(pending) && #[trigger] all[s].contains(
            pending,
        ) implies false by {
        let i = choose|i: int| 0 <= i < all[r].len() && all[r][i] == pending;
        assert(front.contains(earlier[r][i]));
        let j = choose|j: int| 0 <= j < all[s].len() && all[s][j] == pending;
        if s < all.len() - 1 || (joined && j < earlier.last().len()) {
            assert(earlier[s][j] == pending);
            assert(earlier[s].contains(pending));
            lemma_runs_apart(front, distance, r, s);
        } else {
            assert(pending == next);
        }
    }
}

/// A range that no later one leaves behind stays in the last run.
proof fn lemma_last_run(ordered: Seq<PendingRange>, distance: u64, a: int)
    requires
        lined_up(ordered),
        0 <= a < ordered.len(),
        forall|c: int|
            a < c < ordered.len() ==> bytes_between(
                ordered[a].range,
                (#[trigger] ordered[c]).range,
            ) < distance,
    ensures
        runs(ordered, distance).len() > 0,
        runs(ordered, distance).last().contains(ordered[a]),
    decreases ordered.len(),
{
    let front = ordered.drop_last();
    let next = ordered.last();
    let earlier = runs(front, distance);
    let all = runs(ordered, distance);
    lemma_lined_up_front(ordered);
    lemma_runs_complete(front, distance);
    if a == ordered.len() - 1 {
        assert(all.last()[all.last().len() - 1] == next);
    } else {
        assert forall|c: int| a < c < front.len() implies bytes_between(
            front[a].range,
            (#[trigger] front[c]).range,
        ) < distance by {
            assert(front[c] == ordered[c]);
        }
        lemma_last_run(front, distance, a);
        let run = earlier.last();
        let at = choose|at: int| 0 <= at < run.len() && run[at] == ordered[a];
        lemma_run_range_covers(run, at);
        assert(front.contains(earlier[earlier.len() - 1][0]));
        let zero = choose|zero: int| 0 <= zero < front.len() && front[zero] == run[0];
        assert(ordered[zero].same_object(ordered[ordered.len() - 1]));
        assert(bytes_between(ordered[a].range, ordered[ordered.len() - 1].range) < distance);
        assert(ordered[a].range.start <= ordered[ordered.len() - 1].range.start);
        assert(joins(run, next, distance));
        assert(run.push(next)[at] == ordered[a]);
    }
}

/// Ranges less than the distance apart are in one run.
proof fn lemma_together(ordered: Seq<PendingRange>, distance: u64, a: int, b: int, r: int)
    requires
        lined_up(ordered),
        0 <= a < b < ordered.len(),
        bytes_between(ordered[a].range, ordered[b].range) < distance,
        0 <= r < runs(ordered, distance).len(),
    ensures
        runs(ordered, distance)[r].contains(ordered[a]) <==> runs(ordered, distance)[r].contains(
            ordered[b],
        ),
    decreases ordered.len(),
{
    let front = ordered.drop_last();
    let next = ordered.last();
    let earlier = runs(front, distance);
    let all = runs(ordered, distance);
    lemma_lined_up_front(ordered);
    lemma_runs_complete(front, distance);
    let joined = earlier.len() > 0 && joins(earlier.last(), next, distance);
    if b < ordered.len() - 1 {
        assert(front.contains(front[a]));
        assert(front.contains(front[b]));
        if r < earlier.len() {
            lemma_together(front, distance, a, b, r);
            assert forall|pending: PendingRange| front.contains(pending) implies (all[r].contains(
                pending,
            ) <==> earlier[r].contains(pending)) by {
                if earlier[r].contains(pending) {
                    let at = choose|at: int| 0 <= at < earlier[r].len() && earlier[r][at]
                        == pending;
                    assert(all[r][at] == pending);
                }
                if all[r].contains(pending) {
                    let at = choose|at: int| 0 <= at < all[r].len() && all[r][at] == pending;
                    if at < earlier[r].len() {
                        assert(earlier[r][at] == pending);
                    } else {
                        assert(pending == next);
                    }
                }
            }
        } else {
            assert(all[r] == seq![next]);
        }
    } else {
        assert forall|c: int| a < c < ordered.len() implies bytes_between(
            ordered[a].range,
            (#[trigger] ordered[c]).range,
        ) < distance by {
            if c < ordered.len() - 1 {
                assert(ordered[c].range.start <= ordered[ordered.len() - 1].range.start);
                assert(ordered[a].range.start <= ordered[c].range.start);
                assert(ordered[c].range.valid());
            }
        }
        assert(ordered[ordered.len() - 1].range.valid());
        lemma_last_run(ordered, distance, a);
        assert(all.last()[all.last().len() - 1] == next);
        assert(all.last().contains(next));
        if r < all.len() - 1 {
            lemma_runs_apart(ordered, distance, r, all.len() - 1);
            assert(all[all.len() - 1].contains(ordered[a]));
            assert(all[all.len() - 1].contains(ordered[b]));
        }
    }
}

/// A member of a run with others is less than the distance from one of them.
proof fn lemma_neighbor(ordered: Seq<PendingRange>, distance: u64, r: int, m: int) -> (other: int)
    requires
        lined_up(ordered),
        0 <= r < runs(ordered, distance).len(),
        0 <= m < runs(ordered, distance)[r].len(),
        runs(ordered, distance)[r].len() >= 2,
    ensures
        0 <= other < runs(ordered, distance)[r].len(),
        other != m,
        bytes_between(
            runs(ordered, distance)[r][m].range,
            runs(ordered, distance)[r][other].range,
        ) < distance,
    decreases ordered.len(),
{
    let front = ordered.drop_last();
    let next = ordered.last();
    let earlier = runs(front, distance);
    let all = runs(ordered, distance);
    lemma_lined_up_front(ordered);
    lemma_runs_complete(front, distance);
    let joined = earlier.len() > 0 && joins(earlier.last(), next, distance);
    if r < all.len() - 1 {
        assert(all[r] == earlier[r]);
        lemma_neighbor(front, distance, r, m)
    } else {
        assert(joined);
        let run = earlier.last();
        let (_, last) = lemma_run_ends(run);
        assert(front.contains(earlier[earlier.len() - 1][last]));
        let at = choose|at: int| 0 <= at < front.len() && front[at] == run[last];
        assert(ordered[at].range.start <= ordered[ordered.len() - 1].range.start);
        assert(ordered[ordered.len() - 1].range.valid());
        assert(gap(run_range(run), next.range) < distance);
        assert(bytes_between(run[last].range, next.range) < distance);
        if m == run.len() {
            last
        } else if run.len() == 1 {
            1
        } else {
            let other = lemma_neighbor(front, distance, earlier.len() - 1, m);
            assert(all[r][other] == run[other]);
            other
        }
    }
}

/// Every unclaimed request of the object up to the deadline is awaited.
proof fn lemma_awaited(
    requests: Seq<Request>,
    config: DownloadConfig,
    claimed: Seq<bool>,
    first: int,
    from: int,
    member: int,
)
    requires
        chronological(requests),
        0 <= first <= from <= member < requests.len(),
        claimed.len() == requests.len(),
        requests[first].same_object(requests[member]),
        requests[member].time <= requests[first].time + 5,
        !claimed[member],
    ensures
        awaiting(requests, config, claimed, first, from).contains(
            PendingRange {
                key: requests[member].key,
                size: requests[member].size,
                range: base_ranges(requests, config)[member],
                order: member,
            },
        ),
    decreases requests.len() - from,
{
    let own = PendingRange {
        key: requests[member].key,
        size: requests[member].size,
        range: base_ranges(requests, config)[member],
        order: member,
    };
    let all = awaiting(requests, config, claimed, first, from);
    let rest = awaiting(requests, config, claimed, first, from + 1);
    assert(requests[from].time <= requests[member].time);
    if from == member {
        assert(all[0] == own);
    } else {
        lemma_awaited(requests, config, claimed, first, from + 1, member);
        let at = choose|at: int| 0 <= at < rest.len() && rest[at] == own;
        if !requests[first].same_object(requests[from]) || claimed[from] {
            assert(all[at] == own);
        } else {
            assert(all[at + 1] == own);
        }
    }
}

/// The awaited requests are all different, in the order of the trace.
proof fn lemma_awaiting_ascends(
    requests: Seq<Request>,
    config: DownloadConfig,
    claimed: Seq<bool>,
    first: int,
    from: int,
)
    requires
        0 <= from,
    ensures
        forall|i: int, j: int|
            0 <= i < j < awaiting(requests, config, claimed, first, from).len() ==> (
            #[trigger] awaiting(requests, config, claimed, first, from)[i]).order < (
            #[trigger] awaiting(requests, config, claimed, first, from)[j]).order,
    decreases requests.len() - from,
{
    if from < requests.len() {
        let all = awaiting(requests, config, claimed, first, from);
        let rest = awaiting(requests, config, claimed, first, from + 1);
        lemma_awaiting_ascends(requests, config, claimed, first, from + 1);
        lemma_awaiting(requests, config, claimed, first, from + 1);
        assert forall|i: int, j: int| 0 <= i < j < all.len() implies (#[trigger] all[i]).order < (
        #[trigger] all[j]).order by {
            if !requests[first].same_object(requests[from]) || claimed[from] {
                if all.len() > 0 {
                    assert(all == rest);
                    assert(rest[i].order < rest[j].order);
                }
            } else {
                assert(all[j] == rest[j - 1]);
                if i > 0 {
                    assert(all[i] == rest[i - 1]);
                    assert(rest[i - 1].order < rest[j - 1].order);
                }
            }
        }
    }
}

/// What is awaited, once sorted, lines up.
proof fn lemma_sorted_lines_up(
    requests: Seq<Request>,
    config: DownloadConfig,
    claimed: Seq<bool>,
    first: int,
)
    requires
        0 <= first < requests.len(),
        forall|i: int| 0 <= i < requests.len() ==> (#[trigger] requests[i]).valid(),
    ensures
        ({
            let pending = awaiting(requests, config, claimed, first, first);
            let sorted = pending.sort_by(pending_order());
            &&& lined_up(sorted)
            &&& forall|item: PendingRange| #[trigger] pending.contains(item) <==> sorted.contains(item)
        }),
{
    let pending = awaiting(requests, config, claimed, first, first);
    let order = pending_order();
    let sorted = pending.sort_by(order);
    lemma_pending_order();
    pending.lemma_sort_by_ensures(order);
    lemma_awaiting(requests, config, claimed, first, first);
    lemma_awaiting_ascends(requests, config, claimed, first, first);
    assert(pending.no_duplicates()) by {
        assert forall|i: int, j: int| 0 <= i < pending.len() && 0 <= j < pending.len() && i
            != j implies pending[i] != pending[j] by {
            if i < j {
                assert(pending[i].order < pending[j].order);
            } else {
                assert(pending[j].order < pending[i].order);
            }
        }
    }
    pending.lemma_multiset_has_no_duplicates();
    sorted.lemma_multiset_has_no_duplicates_conv();
    broadcast use vstd::seq_lib::group_to_multiset_ensures;

    assert forall|item: PendingRange| #[trigger] pending.contains(item) <==> sorted.contains(
        item,
    ) by {
        assert(pending.to_multiset().count(item) == sorted.to_multiset().count(item));
    }
    assert forall|i: int| 0 <= i < sorted.len() implies {
        &&& (#[trigger] sorted[i]).range.valid()
        &&& sorted[i].key == requests[first].key
        &&& sorted[i].size == requests[first].size
    } by {
        assert(sorted.contains(sorted[i]));
        assert(pending.contains(sorted[i]));
        let at = choose|at: int| 0 <= at < pending.len() && pending[at] == sorted[i];
        assert(requests[pending[at].order].valid());
    }
    assert forall|i: int, j: int| 0 <= i < j < sorted.len() implies {
        &&& (#[trigger] sorted[i]).same_object(#[trigger] sorted[j])
        &&& sorted[i].range.start <= sorted[j].range.start
    } by {
        assert(order(sorted[i], sorted[j]));
        crate::keys::lemma_text_order(sorted[i].key, sorted[j].key);
    }
}

/// Request `member` is in the batch of request `first` if their ranges are less than
/// the distance apart, and then its batch.
proof fn lemma_joins_batch(
    requests: Seq<Request>,
    config: DownloadConfig,
    claimed: Seq<bool>,
    first: int,
    member: int,
)
    requires
        chronological(requests),
        forall|i: int| 0 <= i < requests.len() ==> (#[trigger] requests[i]).valid(),
        0 <= first < member < requests.len(),
        claimed.len() == requests.len(),
        !claimed[first],
        !claimed[member],
        requests[first].same_object(requests[member]),
        requests[member].time <= requests[first].time + 5,
        bytes_between(base_ranges(requests, config)[first], base_ranges(requests, config)[member])
            < config.coalescing_distance_bytes,
    ensures
        has_order(batch_of(requests, config, claimed, first), member),
{
    let distance = config.coalescing_distance_bytes;
    let base = base_ranges(requests, config);
    let pending = awaiting(requests, config, claimed, first, first);
    let sorted = pending.sort_by(pending_order());
    let all = runs(sorted, distance);
    let batch = batch_of(requests, config, claimed, first);
    let one = PendingRange {
        key: requests[first].key,
        size: requests[first].size,
        range: base[first],
        order: first,
    };
    let other = PendingRange {
        key: requests[member].key,
        size: requests[member].size,
        range: base[member],
        order: member,
    };
    lemma_awaited(requests, config, claimed, first, first, first);
    lemma_awaited(requests, config, claimed, first, first, member);
    lemma_sorted_lines_up(requests, config, claimed, first);
    lemma_awaiting(requests, config, claimed, first, first);
    lemma_awaiting_ascends(requests, config, claimed, first, first);
    assert(pending.contains(one));
    assert(pending.contains(other));
    let a = choose|a: int| 0 <= a < sorted.len() && sorted[a] == one;
    let b = choose|b: int| 0 <= b < sorted.len() && sorted[b] == other;
    lemma_batch(requests, config, claimed, first);
    let r = choose|r: int| 0 <= r < all.len() && all[r] == batch;
    let i = choose|i: int| 0 <= i < batch.len() && (#[trigger] batch[i]).order == first;
    assert(batch.contains(one)) by {
        lemma_runs_complete(sorted, distance);
        assert(sorted.contains(all[r][i]));
        assert(pending.contains(batch[i]));
        let at = choose|at: int| 0 <= at < pending.len() && pending[at] == batch[i];
        let to = choose|to: int| 0 <= to < pending.len() && pending[to] == one;
        assert(at == to);
    }
    if a < b {
        lemma_together(sorted, distance, a, b, r);
    } else {
        lemma_together(sorted, distance, b, a, r);
    }
    assert(batch.contains(other));
    let at = choose|at: int| 0 <= at < batch.len() && batch[at] == other;
    assert(batch[at].order == member);
}

/// Requests for other objects, or outside the window, claim nothing of this one.
proof fn lemma_unclaimed(
    requests: Seq<Request>,
    config: DownloadConfig,
    first: int,
    count: int,
    member: int,
)
    requires
        chronological(requests),
        0 <= count <= first <= member < requests.len(),
        requests[first].same_object(requests[member]),
        forall|k: int|
            0 <= k < first && (#[trigger] requests[k]).same_object(requests[first])
                ==> requests[k].time + 5 < requests[first].time,
    ensures
        !expansion_after(requests, config, count).claimed[member],
    decreases count,
{
    if count > 0 {
        let before = expansion_after(requests, config, count - 1);
        let turn = count - 1;
        lemma_unclaimed(requests, config, first, count - 1, member);
        lemma_expansion_lengths(requests, config, count - 1);
        if !before.claimed[turn] {
            let batch = batch_of(requests, config, before.claimed, turn);
            lemma_batch(requests, config, before.claimed, turn);
            if has_order(batch, member) {
                let at = choose|at: int| 0 <= at < batch.len() && (#[trigger] batch[at]).order
                    == member;
                assert(requests[turn].same_object(requests[batch[at].order]));
                assert(requests[turn].same_object(requests[first]));
                assert(requests[first].time <= requests[member].time);
            }
        }
    }
}

/// Requests for one object within 5 milliseconds of the first of them, less than the
/// coalescing distance from what that one fetches, are all fetched with one and the
/// same range.
pub proof fn nearby_requests_share_one_range(
    requests: Seq<Request>,
    config: DownloadConfig,
    first: int,
    member: int,
)
    requires
        forall|i: int| 0 <= i < requests.len() ==> (#[trigger] requests[i]).valid(),
        forall|i: int, j: int|
            0 <= i <= j < requests.len() ==> (#[trigger] requests[i]).time <= (
            #[trigger] requests[j]).time,
        0 <= first < member < requests.len(),
        requests[first].key == requests[member].key,
        requests[first].size == requests[member].size,
        requests[member].time <= requests[first].time + 5,
        forall|k: int|
            0 <= k < first && (#[trigger] requests[k]).key == requests[first].key
                && requests[k].size == requests[first].size ==> requests[k].time + 5
                < requests[first].time,
        ({
            let one = requests[first].downloaded(DownloadPolicy::Expanded, config);
            let other = requests[member].downloaded(DownloadPolicy::Expanded, config);
            &&& config.coalescing_distance_bytes > 0
            &&& other.start - one.end < config.coalescing_distance_bytes
            &&& one.start - other.end < config.coalescing_distance_bytes
        }),
    ensures
        expanded(requests, config)[member] == expanded(requests, config)[first],
        expanded(requests, config)[first].start <= requests[member].range.start,
        requests[member].range.end <= expanded(requests, config)[first].end,
{
    let claimed = expansion_after(requests, config, first).claimed;
    lemma_expansion_lengths(requests, config, first);
    lemma_unclaimed(requests, config, first, first, first);
    lemma_unclaimed(requests, config, first, first, member);
    lemma_joins_batch(requests, config, claimed, first, member);
    crate::downloader::batch_members_share_one_range(requests, config, first, member);
    crate::downloader::expanded_ranges_cover_their_requests(
        requests,
        config,
        requests.len() as int,
        member,
    );
}

/// The turn at which a request is claimed.
proof fn lemma_claimed_by(
    requests: Seq<Request>,
    config: DownloadConfig,
    count: int,
    member: int,
) -> (first: int)
    requires
        0 <= member < requests.len(),
        0 <= count <= requests.len(),
        expansion_after(requests, config, count).claimed[member],
    ensures
        0 <= first < count,
        !expansion_after(requests, config, first).claimed[first],
        has_order(
            batch_of(requests, config, expansion_after(requests, config, first).claimed, first),
            member,
        ),
    decreases count,
{
    lemma_expansion_lengths(requests, config, count);
    lemma_expansion_lengths(requests, config, count - 1);
    if expansion_after(requests, config, count - 1).claimed[member] && count > 0 {
        lemma_claimed_by(requests, config, count - 1, member)
    } else {
        count - 1
    }
}

/// Every request is fetched with the range of one batch that it is in.
proof fn lemma_fetched_with(requests: Seq<Request>, config: DownloadConfig, member: int) -> (first:
    int)
    requires
        0 <= member < requests.len(),
    ensures
        0 <= first <= member,
        !expansion_after(requests, config, first).claimed[first],
        has_order(
            batch_of(requests, config, expansion_after(requests, config, first).claimed, first),
            member,
        ),
        expanded(requests, config)[member] == run_range(
            batch_of(requests, config, expansion_after(requests, config, first).claimed, first),
        ),
{
    lemma_expansion_lengths(requests, config, member);
    lemma_expansion_lengths(requests, config, member + 1);
    let before = expansion_after(requests, config, member);
    if !before.claimed[member] {
        lemma_batch(requests, config, before.claimed, member);
    }
    assert(expansion_after(requests, config, member + 1).claimed[member]);
    let first = lemma_claimed_by(requests, config, member + 1, member);
    crate::downloader::batch_members_share_one_range(requests, config, first, member);
    first
}

/// What is fetched on a miss reaches no further than what requests for the same object,
/// within 5 milliseconds of the missed one, fetch themselves: it starts where one of
/// them starts, and ends where one of them ends.
pub proof fn expanded_ranges_stretch_to_requests_in_the_window(
    requests: Seq<Request>,
    config: DownloadConfig,
    member: int,
) -> (ends: (int, int))
    requires
        forall|i: int, j: int|
            0 <= i <= j < requests.len() ==> (#[trigger] requests[i]).time <= (
            #[trigger] requests[j]).time,
        0 <= member < requests.len(),
    ensures
        0 <= ends.0 < requests.len(),
        0 <= ends.1 < requests.len(),
        requests[ends.0].key == requests[member].key,
        requests[ends.1].key == requests[member].key,
        requests[ends.0].size == requests[member].size,
        requests[ends.1].size == requests[member].size,
        -5 <= requests[ends.0].time - requests[member].time <= 5,
        -5 <= requests[ends.1].time - requests[member].time <= 5,
        expanded(requests, config)[member].start == requests[ends.0].downloaded(
            DownloadPolicy::Expanded,
            config,
        ).start,
        expanded(requests, config)[member].end == requests[ends.1].downloaded(
            DownloadPolicy::Expanded,
            config,
        ).end,
{
    let first = lemma_fetched_with(requests, config, member);
    let claimed = expansion_after(requests, config, first).claimed;
    let batch = batch_of(requests, config, claimed, first);
    lemma_expansion_lengths(requests, config, first);
    lemma_batch(requests, config, claimed, first);
    let at = choose|at: int| 0 <= at < batch.len() && (#[trigger] batch[at]).order == member;
    let (start, end) = lemma_run_ends(batch);
    assert(requests[first].time <= requests[batch[at].order].time);
    assert(requests[first].time <= requests[batch[start].order].time);
    assert(requests[first].time <= requests[batch[end].order].time);
    (batch[start].order, batch[end].order)
}

/// A request that is at least the coalescing distance from every other request for its
/// object within 5 milliseconds is fetched alone.
pub proof fn distant_requests_are_fetched_alone(
    requests: Seq<Request>,
    config: DownloadConfig,
    member: int,
)
    requires
        forall|i: int| 0 <= i < requests.len() ==> (#[trigger] requests[i]).valid(),
        forall|i: int, j: int|
            0 <= i <= j < requests.len() ==> (#[trigger] requests[i]).time <= (
            #[trigger] requests[j]).time,
        0 <= member < requests.len(),
        forall|k: int|
            0 <= k < requests.len() && k != member && (#[trigger] requests[k]).key
                == requests[member].key && requests[k].size == requests[member].size && -5
                <= requests[k].time - requests[member].time <= 5 ==> {
                let one = requests[member].downloaded(DownloadPolicy::Expanded, config);
                let other = requests[k].downloaded(DownloadPolicy::Expanded, config);
                ||| config.coalescing_distance_bytes == 0
                ||| other.start - one.end >= config.coalescing_distance_bytes
                ||| one.start - other.end >= config.coalescing_distance_bytes
            },
    ensures
        expanded(requests, config)[member] == requests[member].downloaded(
            DownloadPolicy::Expanded,
            config,
        ),
{
    let first = lemma_fetched_with(requests, config, member);
    let claimed = expansion_after(requests, config, first).claimed;
    let batch = batch_of(requests, config, claimed, first);
    let distance = config.coalescing_distance_bytes;
    let pending = awaiting(requests, config, claimed, first, first);
    let sorted = pending.sort_by(pending_order());
    let all = runs(sorted, distance);
    lemma_expansion_lengths(requests, config, first);
    lemma_batch(requests, config, claimed, first);
    lemma_sorted_lines_up(requests, config, claimed, first);
    let r = choose|r: int| 0 <= r < all.len() && all[r] == batch;
    let at = choose|at: int| 0 <= at < batch.len() && (#[trigger] batch[at]).order == member;
    if batch.len() >= 2 {
        let other = lemma_neighbor(sorted, distance, r, at);
        let k = batch[other].order;
        assert(requests[first].time <= requests[batch[at].order].time);
        assert(requests[first].time <= requests[batch[other].order].time);
        if k == member {
            lemma_same_member(sorted, distance, r, at, other);
            lemma_runs_complete(sorted, distance);
            assert(sorted.contains(all[r][at]));
            assert(sorted.contains(all[r][other]));
            lemma_awaiting(requests, config, claimed, first, first);
            assert(pending.contains(batch[at]));
            assert(pending.contains(batch[other]));
            assert(batch[at] == batch[other]);
        }
        assert(requests[k].key == requests[member].key);
        assert(false);
    }
    assert(batch.len() == 1);
    assert(run_range(batch) == batch[0].range);
}

/// A run lists no range twice.
proof fn lemma_same_member(ordered: Seq<PendingRange>, distance: u64, r: int, one: int, other: int)
    requires
        lined_up(ordered),
        0 <= r < runs(ordered, distance).len(),
        0 <= one < runs(ordered, distance)[r].len(),
        0 <= other < runs(ordered, distance)[r].len(),
        one != other,
    ensures
        runs(ordered, distance)[r][one] != runs(ordered, distance)[r][other],
    decreases ordered.len(),
{
    let front = ordered.drop_last();
    let next = ordered.last();
    let earlier = runs(front, distance);
    let all = runs(ordered, distance);
    lemma_lined_up_front(ordered);
    lemma_runs_complete(front, distance);
    let joined = earlier.len() > 0 && joins(earlier.last(), next, distance);
    if r < all.len() - 1 {
        assert(all[r] == earlier[r]);
        lemma_same_member(front, distance, r, one, other);
    } else if joined {
        let run = earlier[earlier.len() - 1];
        if one < run.len() && other < run.len() {
            lemma_same_member(front, distance, earlier.len() - 1, one, other);
            assert(all[r][one] == run[one]);
            assert(all[r][other] == run[other]);
        } else {
            let inner = if one < run.len() {
                one
            } else {
                other
            };
            assert(front.contains(earlier[earlier.len() - 1][inner]));
            assert(all[r][inner] == run[inner]);
        }
    }
}

} // verus!

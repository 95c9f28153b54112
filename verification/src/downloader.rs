//! Which ranges a downloader fetches for captured requests.

use vstd::prelude::*;
use vstd::relations::{sorted_by, total_ordering};

use crate::compaction::hull;
use crate::keys::{
    key_before, lemma_text_order, lemma_text_transitive, text_before, ObjectKey,
};
use crate::range::{ByteRange, Interval};
use crate::replay::WorkloadError;

verus! {

/// How far a batch looks ahead in trace time.
pub const COALESCING_WINDOW_MILLIS: u64 = 5;

/// The gap below which ranges are combined unless configured otherwise.
pub const DEFAULT_COALESCING_DISTANCE_BYTES: u64 = 10_000_000;

/// The object size below which objects are fetched whole unless configured otherwise.
pub const DEFAULT_WHOLE_SPLIT_THRESHOLD_BYTES: u64 = 8_388_608;

/// How a downloader chooses what to fetch.
#[derive(Clone, Copy, Debug, PartialEq, Eq, Structural)]
pub enum DownloadPolicy {
    /// Fetch small objects whole, and combine nearby requests.
    Expanded,
    /// Fetch exactly what was requested.
    Exact,
}

impl DownloadPolicy {
    /// Returns the name of the policy.
    pub fn name(self) -> (name: &'static str)
        ensures
            name@ == (match self {
                DownloadPolicy::Expanded => "expanded"@,
                DownloadPolicy::Exact => "exact"@,
            }),
    {
        match self {
            DownloadPolicy::Expanded => "expanded",
            DownloadPolicy::Exact => "exact",
        }
    }
}

/// What an expanding downloader goes by.
#[derive(Clone, Copy, Debug, PartialEq, Eq, Structural)]
pub struct DownloadConfig {
    pub coalescing_distance_bytes: u64,
    pub whole_split_threshold_bytes: u64,
}

/// One captured request.
#[verifier::ext_equal]
pub struct Request {
    pub key: Seq<char>,
    pub size: u64,
    pub range: Interval,
    pub time: u64,
}

impl Request {
    /// The request lies within its object.
    pub open spec fn valid(self) -> bool {
        self.range.valid() && self.range.end <= self.size
    }

    /// What a downloader fetches for the request alone.
    pub open spec fn downloaded(self, policy: DownloadPolicy, config: DownloadConfig) -> Interval {
        if policy is Expanded && self.size < config.whole_split_threshold_bytes {
            Interval { start: 0, end: self.size }
        } else {
            self.range
        }
    }

    /// Whether the other request is for the same object.
    pub open spec fn same_object(self, other: Request) -> bool {
        self.key == other.key && self.size == other.size
    }
}

/// One captured request of an object range.
pub struct Access {
    pub object_key: ObjectKey,
    pub object_size: u64,
    pub requested: ByteRange,
    pub timestamp_millis: u64,
}

impl View for Access {
    type V = Request;

    open spec fn view(&self) -> Request {
        Request {
            key: self.object_key@,
            size: self.object_size,
            range: self.requested@,
            time: self.timestamp_millis,
        }
    }
}

impl Clone for Access {
    fn clone(&self) -> (copy: Self)
        ensures
            copy@ == self@,
    {
        Access {
            object_key: self.object_key.clone(),
            object_size: self.object_size,
            requested: self.requested,
            timestamp_millis: self.timestamp_millis,
        }
    }
}

impl Access {
    /// Checks that the request, the given operation of a trace, lies within its
    /// object.
    pub fn validate(&self, index: usize) -> (result: Result<(), WorkloadError>)
        ensures
            self@.range.valid(),
            result is Ok <==> self@.range.end <= self@.size,
            match result {
                Ok(_) => self@.valid(),
                Err(error) => !self@.valid() && error == (WorkloadError::BeyondObject {
                    index,
                    start: self@.range.start,
                    end: self@.range.end,
                    object_size: self@.size,
                }),
            },
    {
        let start = self.requested.start();
        let end = self.requested.end();
        if end > self.object_size {
            return Err(
                WorkloadError::BeyondObject { index, start, end, object_size: self.object_size },
            );
        }
        Ok(())
    }

    /// Returns what a downloader fetches for the request alone.
    pub fn downloaded_range(&self, policy: DownloadPolicy, config: DownloadConfig) -> (range: ByteRange)
        requires
            policy is Expanded ==> self@.downloaded(policy, config).valid(),
        ensures
            range@ == self@.downloaded(policy, config),
    {
        match policy {
            DownloadPolicy::Exact => self.requested,
            DownloadPolicy::Expanded => {
                if self.object_size < config.whole_split_threshold_bytes {
                    ByteRange::new(0, self.object_size).unwrap()
                } else {
                    self.requested
                }
            },
        }
    }
}

/// The requests that accesses stand for.
pub open spec fn requests_of(accesses: Seq<Access>) -> Seq<Request> {
    accesses.map_values(|access: Access| access@)
}

/// A range that waits to be fetched for one request.
#[verifier::ext_equal]
pub struct PendingRange {
    pub key: Seq<char>,
    pub size: u64,
    pub range: Interval,
    pub order: int,
}

impl PendingRange {
    /// Whether both are for the same object.
    pub open spec fn same_object(self, other: PendingRange) -> bool {
        self.key == other.key && self.size == other.size
    }

    /// The order by object, then range, then request.
    pub open spec fn up_to(self, other: PendingRange) -> bool {
        ||| text_before(self.key, other.key)
        ||| self.key == other.key && self.size < other.size
        ||| self.same_object(other) && self.range.before(other.range)
        ||| self.same_object(other) && self.range == other.range && self.order <= other.order
    }
}

/// The order in which pending ranges are combined.
pub open spec fn pending_order() -> spec_fn(PendingRange, PendingRange) -> bool {
    |one: PendingRange, other: PendingRange| one.up_to(other)
}

/// One request that a download may serve.
pub struct PendingDownload<'a> {
    pub order: usize,
    pub access: &'a Access,
    pub downloaded: ByteRange,
}

impl<'a> View for PendingDownload<'a> {
    type V = PendingRange;

    open spec fn view(&self) -> PendingRange {
        PendingRange {
            key: self.access.object_key@,
            size: self.access.object_size,
            range: self.downloaded@,
            order: self.order as int,
        }
    }
}

/// One combined download and the requests that it serves.
pub struct CoalescedDownload<'a> {
    pub downloaded: ByteRange,
    pub accesses: Vec<(usize, &'a Access)>,
}

/// The pending ranges that downloads stand for.
pub open spec fn pending_ranges<'a>(pending: Seq<PendingDownload<'a>>) -> Seq<PendingRange> {
    pending.map_values(|download: PendingDownload<'a>| download@)
}

/// The least range that covers every range of a run.
pub open spec fn run_range(run: Seq<PendingRange>) -> Interval
    decreases run.len(),
{
    if run.len() <= 1 {
        run[0].range
    } else {
        hull(run_range(run.drop_last()), run.last().range)
    }
}

/// The bytes between a run and a range that follows it.
pub open spec fn gap(run: Interval, range: Interval) -> int {
    if range.start > run.end {
        range.start - run.end
    } else {
        0
    }
}

/// Whether the next range is combined with a run: same object, and separated by
/// less than `distance`.
pub open spec fn joins(run: Seq<PendingRange>, next: PendingRange, distance: u64) -> bool {
    &&& run[0].same_object(next)
    &&& gap(run_range(run), next.range) < distance
}

/// Splits ordered pending ranges into the runs that are combined.
pub open spec fn runs(ordered: Seq<PendingRange>, distance: u64) -> Seq<Seq<PendingRange>>
    decreases ordered.len(),
{
    if ordered.len() == 0 {
        Seq::empty()
    } else {
        let earlier = runs(ordered.drop_last(), distance);
        if earlier.len() > 0 && joins(earlier.last(), ordered.last(), distance) {
            earlier.drop_last().push(earlier.last().push(ordered.last()))
        } else {
            earlier.push(seq![ordered.last()])
        }
    }
}

/// The runs into which pending ranges are combined.
pub open spec fn coalesced(pending: Seq<PendingRange>, distance: u64) -> Seq<Seq<PendingRange>> {
    runs(pending.sort_by(pending_order()), distance)
}

/// Whether `sorted` holds exactly the pending downloads, in the order in which
/// they are combined.
pub open spec fn arranges<'a>(
    pending: Seq<PendingDownload<'a>>,
    sorted: Seq<PendingDownload<'a>>,
) -> bool {
    &&& sorted.to_multiset() == pending.to_multiset()
    &&& pending_ranges(sorted) == pending_ranges(pending).sort_by(pending_order())
}

/// The requests that pending downloads are for, each with its place.
pub open spec fn awaited<'a>(pending: Seq<PendingDownload<'a>>) -> Seq<(usize, &'a Access)> {
    pending.map_values(|download: PendingDownload<'a>| (download.order, download.access))
}

/// The requests that downloads serve, one download after another.
pub open spec fn members<'a>(downloads: Seq<CoalescedDownload<'a>>) -> Seq<(usize, &'a Access)>
    decreases downloads.len(),
{
    if downloads.len() == 0 {
        Seq::empty()
    } else {
        members(downloads.drop_last()) + downloads.last().accesses@
    }
}

/// Whether `download` fetches the run for its requests.
pub open spec fn serves<'a>(download: CoalescedDownload<'a>, run: Seq<PendingRange>) -> bool {
    &&& run.len() > 0
    &&& download.downloaded@ == run_range(run)
    &&& download.accesses@.len() == run.len()
    &&& forall|i: int|
        0 <= i < run.len() ==> {
            &&& (#[trigger] download.accesses@[i]).0 == run[i].order
            &&& download.accesses@[i].1.object_key@ == run[i].key
            &&& download.accesses@[i].1.object_size == run[i].size
        }
}

/// Whether `downloads` fetch exactly `all`, run by run.
pub open spec fn serve_all<'a>(
    downloads: Seq<CoalescedDownload<'a>>,
    all: Seq<Seq<PendingRange>>,
) -> bool {
    &&& downloads.len() == all.len()
    &&& forall|i: int| 0 <= i < all.len() ==> serves(#[trigger] downloads[i], all[i])
}

/// The order of pending ranges is total.
pub proof fn lemma_pending_order()
    ensures
        total_ordering(pending_order()),
{
    let order = pending_order();
    assert forall|one: PendingRange, other: PendingRange| #[trigger]
        order(one, other) && #[trigger] order(other, one) implies one == other by {
        lemma_text_order(one.key, other.key);
    }
    assert forall|one: PendingRange, other: PendingRange, third: PendingRange| #[trigger]
        order(one, other) && #[trigger] order(other, third) implies order(one, third) by {
        lemma_text_order(one.key, other.key);
        lemma_text_order(other.key, third.key);
        if text_before(one.key, other.key) && text_before(other.key, third.key) {
            lemma_text_transitive(one.key, other.key, third.key);
        }
    }
    assert forall|one: PendingRange, other: PendingRange| #[trigger]
        order(one, other) || #[trigger] order(other, one) by {
        lemma_text_order(one.key, other.key);
    }
}

/// Returns whether the one pending range comes at or before the other.
fn comes_up_to(one: &PendingDownload, other: &PendingDownload) -> (result: bool)
    ensures
        result == one@.up_to(other@),
{
    proof {
        lemma_text_order(one@.key, other@.key);
    }
    if key_before(one.access.object_key.as_str(), other.access.object_key.as_str()) {
        return true;
    }
    if !(one.access.object_key == other.access.object_key) {
        return false;
    }
    if one.access.object_size != other.access.object_size {
        return one.access.object_size < other.access.object_size;
    }
    if crate::compaction::precedes(one.downloaded, other.downloaded) {
        return true;
    }
    one.downloaded.start() == other.downloaded.start() && one.downloaded.end()
        == other.downloaded.end() && one.order <= other.order
}

proof fn lemma_insert_multiset<T>(items: Seq<T>, position: int, item: T)
    requires
        0 <= position <= items.len(),
    ensures
        items.insert(position, item).to_multiset() == items.push(item).to_multiset(),
{
    broadcast use vstd::seq_lib::group_to_multiset_ensures;

    let inserted = items.insert(position, item);
    assert(inserted.remove(position) =~= items);
    assert(inserted.remove(position).to_multiset() =~= inserted.to_multiset().remove(item));
    assert(inserted[position] == item);
    assert(inserted.contains(item));
    assert(inserted.to_multiset().count(item) > 0);
    assert(inserted.to_multiset() =~= items.to_multiset().insert(item));
}

/// Rearranged items map to rearranged images.
proof fn lemma_mapped_multiset<T, U>(one: Seq<T>, other: Seq<T>, image: spec_fn(T) -> U)
    requires
        one.to_multiset() == other.to_multiset(),
    ensures
        one.map_values(image).to_multiset() == other.map_values(image).to_multiset(),
    decreases one.len(),
{
    broadcast use vstd::seq_lib::group_to_multiset_ensures;

    assert(one.len() == one.to_multiset().len() && other.len() == other.to_multiset().len());
    if one.len() == 0 {
        assert(one.map_values(image) =~= other.map_values(image));
    } else {
        let item = one.last();
        assert(one.contains(item));
        assert(one.to_multiset().count(item) > 0);
        assert(other.contains(item));
        let at = choose|at: int| 0 <= at < other.len() && other[at] == item;
        let rest = one.drop_last();
        let others = other.remove(at);
        assert(one.remove(one.len() - 1) =~= rest);
        assert(rest.to_multiset() == one.to_multiset().remove(item));
        assert(others.to_multiset() == other.to_multiset().remove(item));
        lemma_mapped_multiset(rest, others, image);
        let mapped = other.map_values(image);
        assert(mapped.remove(at) =~= others.map_values(image));
        assert(mapped[at] == image(item));
        assert(mapped.contains(image(item)));
        assert(one.map_values(image) =~= rest.map_values(image).push(image(item)));
        assert(mapped.to_multiset() =~= mapped.remove(at).to_multiset().insert(image(item)));
    }
}

/// What some download serves is served by one of them.
proof fn lemma_member_of_one<'a>(downloads: Seq<CoalescedDownload<'a>>, member: (usize, &'a Access))
    requires
        members(downloads).contains(member),
    ensures
        exists|j: int|
            0 <= j < downloads.len() && (#[trigger] downloads[j]).accesses@.contains(member),
    decreases downloads.len(),
{
    if downloads.len() > 0 {
        let rest = downloads.drop_last();
        let last = downloads.last();
        let at = choose|at: int| 0 <= at < members(downloads).len() && members(downloads)[at]
            == member;
        if at < members(rest).len() {
            assert(members(rest)[at] == member);
            lemma_member_of_one(rest, member);
            let j = choose|j: int|
                0 <= j < rest.len() && (#[trigger] rest[j]).accesses@.contains(member);
            assert(downloads[j].accesses@.contains(member));
        } else {
            assert(last.accesses@[at - members(rest).len()] == member);
            assert(downloads[downloads.len() - 1].accesses@.contains(member));
        }
    }
}

/// Every pending request joins exactly one of the combined downloads, with its own
/// place and access: over all downloads, the members are the pending requests, each
/// as often as it was pending.
pub proof fn pending_requests_join_one_download<'a>(
    pending: Seq<PendingDownload<'a>>,
    sorted: Seq<PendingDownload<'a>>,
    downloads: Seq<CoalescedDownload<'a>>,
)
    requires
        arranges(pending, sorted),
        members(downloads) == awaited(sorted),
    ensures
        members(downloads).to_multiset() == awaited(pending).to_multiset(),
        forall|i: int|
            0 <= i < pending.len() ==> exists|j: int|
                0 <= j < downloads.len() && (#[trigger] downloads[j]).accesses@.contains(
                    ((#[trigger] pending[i]).order, pending[i].access),
                ),
{
    broadcast use vstd::seq_lib::group_to_multiset_ensures;

    let image = |download: PendingDownload<'a>| (download.order, download.access);
    lemma_mapped_multiset(sorted, pending, image);
    assert(awaited(sorted) =~= sorted.map_values(image));
    assert(awaited(pending) =~= pending.map_values(image));
    assert forall|i: int| 0 <= i < pending.len() implies exists|j: int|
        0 <= j < downloads.len() && (#[trigger] downloads[j]).accesses@.contains(
            ((#[trigger] pending[i]).order, pending[i].access),
        ) by {
        let member = (pending[i].order, pending[i].access);
        assert(awaited(pending)[i] == member);
        assert(awaited(pending).contains(member));
        assert(members(downloads).to_multiset().count(member) > 0);
        lemma_member_of_one(downloads, member);
    }
}

/// Sorts pending downloads by object, range and request.
fn sort_pending<'a>(pending: Vec<PendingDownload<'a>>) -> (sorted: Vec<PendingDownload<'a>>)
    ensures
        arranges(pending@, sorted@),
{
    let ghost wanted = pending_ranges(pending@);
    let ghost order = pending_order();
    let mut sorted: Vec<PendingDownload<'a>> = Vec::new();
    let mut index: usize = 0;
    assert(pending_ranges(sorted@) =~= wanted.take(0));
    assert(sorted@ =~= pending@.take(0));
    proof {
        lemma_pending_order();
    }
    while index < pending.len()
        invariant
            index <= pending@.len(),
            order == pending_order(),
            total_ordering(order),
            wanted == pending_ranges(pending@),
            sorted_by(pending_ranges(sorted@), order),
            pending_ranges(sorted@).to_multiset() == wanted.take(index as int).to_multiset(),
            sorted@.to_multiset() == pending@.take(index as int).to_multiset(),
        decreases pending.len() - index,
    {
        let next = PendingDownload {
            order: pending[index].order,
            access: pending[index].access,
            downloaded: pending[index].downloaded,
        };
        assert(next == pending@[index as int]);
        let ghost before = pending_ranges(sorted@);
        let ghost items = sorted@;
        let mut position: usize = sorted.len();
        while position > 0 && !comes_up_to(&sorted[position - 1], &next)
            invariant
                position <= sorted@.len(),
                order == pending_order(),
                total_ordering(order),
                items == sorted@,
                before == pending_ranges(sorted@),
                forall|i: int| position <= i < before.len() ==> order(next@, #[trigger] before[i]),
            decreases position,
        {
            assert(before[position - 1] == sorted@[position - 1]@);
            assert(order(before[position - 1], next@) || order(next@, before[position - 1]));
            position -= 1;
        }
        sorted.insert(position, next);
        proof {
            let after = pending_ranges(sorted@);
            assert(after =~= before.insert(position as int, next@));
            assert forall|i: int, j: int| 0 <= i < j < after.len() implies #[trigger] order(
                after[i],
                after[j],
            ) by {
                let from = if i < position { i } else { i - 1 };
                let to = if j < position { j } else { j - 1 };
                if i != position && j != position {
                    assert(order(before[from], before[to]));
                } else if j == position {
                    if i < position - 1 {
                        assert(order(before[i], before[position - 1]));
                        assert(order(before[position - 1], next@));
                    }
                } else {
                    assert(order(next@, before[to]));
                }
            }
            lemma_insert_multiset(before, position as int, next@);
            lemma_insert_multiset(items, position as int, next);
            assert(pending@.take(index + 1) =~= pending@.take(index as int).push(next));
            broadcast use vstd::seq_lib::group_to_multiset_ensures;

            assert(wanted.take(index + 1) =~= wanted.take(index as int).push(next@));
        }
        index += 1;
    }
    proof {
        assert(wanted.take(index as int) =~= wanted);
        assert(pending@.take(index as int) =~= pending@);
        wanted.lemma_sort_by_ensures(order);
        vstd::seq_lib::lemma_sorted_unique(pending_ranges(sorted@), wanted.sort_by(order), order);
    }
    sorted
}

/// Combines same-object ranges separated by less than the coalescing distance.
pub fn coalesced_downloads<'a>(
    pending: Vec<PendingDownload<'a>>,
    coalescing_distance_bytes: u64,
) -> (downloads: Vec<CoalescedDownload<'a>>)
    ensures
        serve_all(
            downloads@,
            coalesced(pending_ranges(pending@), coalescing_distance_bytes),
        ),
        exists|sorted: Seq<PendingDownload<'a>>| #[trigger]
            arranges(pending@, sorted) && members(downloads@) == awaited(sorted),
{
    let sorted = sort_pending(pending);
    let ghost ordered = pending_ranges(sorted@);
    let mut downloads: Vec<CoalescedDownload<'a>> = Vec::new();
    let mut index: usize = 0;
    assert(ordered.take(0) =~= Seq::<PendingRange>::empty());
    while index < sorted.len()
        invariant
            index <= sorted@.len(),
            ordered == pending_ranges(sorted@),
            serve_all(downloads@, runs(ordered.take(index as int), coalescing_distance_bytes)),
            members(downloads@) == awaited(sorted@).take(index as int),
        decreases sorted.len() - index,
    {
        let next = &sorted[index];
        let ghost taken = ordered.take(index + 1);
        let ghost all = runs(ordered.take(index as int), coalescing_distance_bytes);
        let ghost before = downloads@;
        proof {
            assert(taken.drop_last() =~= ordered.take(index as int));
            assert(taken.last() == next@);
        }
        let mut joined = false;
        if downloads.len() > 0 {
            let last = &downloads[downloads.len() - 1];
            assert(serves(*last, all.last()));
            assert(last.accesses@[0].0 == all.last()[0].order);
            let representative = last.accesses[0].1;
            let separation = next.downloaded.start().saturating_sub(last.downloaded.end());
            joined = representative.object_key == next.access.object_key
                && representative.object_size == next.access.object_size && separation
                < coalescing_distance_bytes;
            assert(joined == joins(all.last(), next@, coalescing_distance_bytes));
        }
        if joined {
            let mut last = downloads.pop().unwrap();
            let ghost run = all.last();
            let start = if last.downloaded.start() < next.downloaded.start() {
                last.downloaded.start()
            } else {
                next.downloaded.start()
            };
            let end = if last.downloaded.end() < next.downloaded.end() {
                next.downloaded.end()
            } else {
                last.downloaded.end()
            };
            let ghost earlier = last.accesses@;
            last.accesses.push((next.order, next.access));
            let combined = CoalescedDownload {
                downloaded: ByteRange::new(start, end).unwrap(),
                accesses: last.accesses,
            };
            proof {
                let longer = run.push(next@);
                assert(longer.drop_last() =~= run);
                assert(serves(before.last(), run));
                assert forall|i: int| 0 <= i < longer.len() implies {
                    &&& (#[trigger] combined.accesses@[i]).0 == longer[i].order
                    &&& combined.accesses@[i].1.object_key@ == longer[i].key
                    &&& combined.accesses@[i].1.object_size == longer[i].size
                } by {
                    if i < run.len() {
                        assert(combined.accesses@[i] == earlier[i]);
                    }
                }
                assert(serves(combined, longer));
            }
            let ghost shorter = downloads@;
            downloads.push(combined);
            proof {
                assert(before.drop_last() =~= shorter);
                assert(downloads@.drop_last() =~= shorter);
                assert(members(downloads@) =~= members(before).push((next.order, next.access)));
            }
        } else {
            let mut accesses: Vec<(usize, &'a Access)> = Vec::new();
            accesses.push((next.order, next.access));
            downloads.push(CoalescedDownload { downloaded: next.downloaded, accesses });
            assert(serves(downloads@.last(), seq![next@]));
            assert(downloads@.drop_last() =~= before);
            assert(members(downloads@) =~= members(before).push((next.order, next.access)));
        }
        proof {
            assert(awaited(sorted@).take(index + 1) =~= awaited(sorted@).take(index as int).push(
                (next.order, next.access),
            ));
            let extended = runs(taken, coalescing_distance_bytes);
            assert forall|i: int| 0 <= i < extended.len() implies serves(
                #[trigger] downloads@[i],
                extended[i],
            ) by {
                if i < downloads@.len() - 1 {
                    assert(downloads@[i] == before[i]);
                    assert(extended[i] == all[i]);
                }
            }
        }
        index += 1;
    }
    assert(ordered.take(index as int) =~= ordered);
    assert(awaited(sorted@).take(index as int) =~= awaited(sorted@));
    downloads
}

/// The ranges chosen so far, and the requests whose range a batch has fixed.
#[verifier::ext_equal]
pub struct Expansion {
    pub ranges: Seq<Interval>,
    pub claimed: Seq<bool>,
}

/// What is fetched for each request alone.
pub open spec fn base_ranges(requests: Seq<Request>, config: DownloadConfig) -> Seq<Interval> {
    requests.map_values(|request: Request| request.downloaded(DownloadPolicy::Expanded, config))
}

/// The latest time that a batch started by request `first` looks at.
pub open spec fn deadline(requests: Seq<Request>, first: int) -> u64 {
    requests[first].time.saturating_add(COALESCING_WINDOW_MILLIS)
}

/// The unclaimed requests from `from` on that request `first` looks ahead to:
/// those for its object, up to the first one past its deadline.
pub open spec fn awaiting(
    requests: Seq<Request>,
    config: DownloadConfig,
    claimed: Seq<bool>,
    first: int,
    from: int,
) -> Seq<PendingRange>
    decreases requests.len() - from,
{
    if from >= requests.len() {
        Seq::empty()
    } else if !requests[first].same_object(requests[from]) {
        awaiting(requests, config, claimed, first, from + 1)
    } else if requests[from].time > deadline(requests, first) {
        Seq::empty()
    } else if claimed[from] {
        awaiting(requests, config, claimed, first, from + 1)
    } else {
        seq![
            PendingRange {
                key: requests[from].key,
                size: requests[from].size,
                range: base_ranges(requests, config)[from],
                order: from,
            },
        ] + awaiting(requests, config, claimed, first, from + 1)
    }
}

/// Whether a run serves the request `order`.
pub open spec fn has_order(run: Seq<PendingRange>, order: int) -> bool {
    exists|i: int| 0 <= i < run.len() && (#[trigger] run[i]).order == order
}

/// The first run that serves the request `order`.
pub open spec fn run_with(all: Seq<Seq<PendingRange>>, order: int) -> Seq<PendingRange>
    decreases all.len(),
{
    if all.len() == 0 {
        Seq::empty()
    } else if has_order(all[0], order) {
        all[0]
    } else {
        run_with(all.drop_first(), order)
    }
}

/// The requests that are fetched together with request `first`.
pub open spec fn batch_of(
    requests: Seq<Request>,
    config: DownloadConfig,
    claimed: Seq<bool>,
    first: int,
) -> Seq<PendingRange> {
    run_with(
        coalesced(
            awaiting(requests, config, claimed, first, first),
            config.coalescing_distance_bytes,
        ),
        first,
    )
}

/// The expansion after request `first` started a batch, unless an earlier batch
/// has claimed it.
pub open spec fn batched(
    expansion: Expansion,
    requests: Seq<Request>,
    config: DownloadConfig,
    first: int,
) -> Expansion {
    if expansion.claimed[first] {
        expansion
    } else {
        let batch = batch_of(requests, config, expansion.claimed, first);
        Expansion {
            ranges: Seq::new(
                requests.len(),
                |i: int|
                    if has_order(batch, i) {
                        run_range(batch)
                    } else {
                        expansion.ranges[i]
                    },
            ),
            claimed: Seq::new(
                requests.len(),
                |i: int| has_order(batch, i) || expansion.claimed[i],
            ),
        }
    }
}

/// The expansion after the first `count` requests had their turn.
pub open spec fn expansion_after(
    requests: Seq<Request>,
    config: DownloadConfig,
    count: int,
) -> Expansion
    decreases count,
{
    if count <= 0 {
        Expansion {
            ranges: base_ranges(requests, config),
            claimed: Seq::new(requests.len(), |i: int| false),
        }
    } else {
        batched(expansion_after(requests, config, count - 1), requests, config, count - 1)
    }
}

/// What an expanding downloader fetches on a miss of each request.
pub open spec fn expanded(requests: Seq<Request>, config: DownloadConfig) -> Seq<Interval> {
    expansion_after(requests, config, requests.len() as int).ranges
}

/// Whether every request can be fetched.
pub open spec fn fetchable(requests: Seq<Request>, config: DownloadConfig) -> bool {
    forall|i: int|
        0 <= i < requests.len() ==> (#[trigger] requests[i]).downloaded(
            DownloadPolicy::Expanded,
            config,
        ).valid()
}

/// Whether the requests come in the order of their times.
pub open spec fn chronological(requests: Seq<Request>) -> bool {
    forall|i: int, j: int|
        0 <= i <= j < requests.len() ==> (#[trigger] requests[i]).time <= (
        #[trigger] requests[j]).time
}

/// Nothing is awaited past the deadline in a chronological trace.
proof fn lemma_awaiting_over(
    requests: Seq<Request>,
    config: DownloadConfig,
    claimed: Seq<bool>,
    first: int,
    from: int,
)
    requires
        0 <= from,
        forall|i: int|
            from <= i < requests.len() ==> (#[trigger] requests[i]).time > deadline(
                requests,
                first,
            ),
    ensures
        awaiting(requests, config, claimed, first, from) == Seq::<PendingRange>::empty(),
    decreases requests.len() - from,
{
    if from < requests.len() {
        lemma_awaiting_over(requests, config, claimed, first, from + 1);
        assert(requests[from].time > deadline(requests, first));
    }
}

/// What is awaited: unclaimed requests of the object, each with its own range.
pub proof fn lemma_awaiting(
    requests: Seq<Request>,
    config: DownloadConfig,
    claimed: Seq<bool>,
    first: int,
    from: int,
)
    requires
        0 <= from,
    ensures
        forall|i: int|
            0 <= i < awaiting(requests, config, claimed, first, from).len() ==> {
                let pending = #[trigger] awaiting(requests, config, claimed, first, from)[i];
                &&& from <= pending.order < requests.len()
                &&& !claimed[pending.order]
                &&& pending.range == base_ranges(requests, config)[pending.order]
                &&& pending.key == requests[first].key
                &&& pending.size == requests[first].size
                &&& requests[first].same_object(requests[pending.order])
                &&& requests[pending.order].time <= deadline(requests, first)
            },
    decreases requests.len() - from,
{
    if from < requests.len() {
        lemma_awaiting(requests, config, claimed, first, from + 1);
        let all = awaiting(requests, config, claimed, first, from);
        let rest = awaiting(requests, config, claimed, first, from + 1);
        assert forall|i: int| 0 <= i < all.len() implies {
            let pending = #[trigger] all[i];
            &&& from <= pending.order < requests.len()
            &&& !claimed[pending.order]
            &&& pending.range == base_ranges(requests, config)[pending.order]
            &&& pending.key == requests[first].key
            &&& pending.size == requests[first].size
        } by {
            if !requests[first].same_object(requests[from]) || claimed[from] {
                if requests[first].same_object(requests[from]) && requests[from].time > deadline(
                    requests,
                    first,
                ) {
                } else {
                    assert(all[i] == rest[i]);
                }
            } else if requests[from].time <= deadline(requests, first) {
                if i > 0 {
                    assert(all[i] == rest[i - 1]);
                }
            }
        }
    }
}

/// Runs keep every range: each one is in some run, and nothing else is.
pub proof fn lemma_runs_complete(ordered: Seq<PendingRange>, distance: u64)
    ensures
        forall|i: int|
            0 <= i < ordered.len() ==> exists|r: int|
                0 <= r < runs(ordered, distance).len() && (#[trigger] runs(
                    ordered,
                    distance,
                )[r]).contains(#[trigger] ordered[i]),
        forall|r: int, i: int|
            0 <= r < runs(ordered, distance).len() && 0 <= i < runs(ordered, distance)[r].len()
                ==> ordered.contains(#[trigger] runs(ordered, distance)[r][i]),
        forall|r: int|
            0 <= r < runs(ordered, distance).len() ==> (#[trigger] runs(
                ordered,
                distance,
            )[r]).len() > 0,
    decreases ordered.len(),
{
    if ordered.len() > 0 {
        let front = ordered.drop_last();
        let next = ordered.last();
        let earlier = runs(front, distance);
        let all = runs(ordered, distance);
        lemma_runs_complete(front, distance);
        let joined = earlier.len() > 0 && joins(earlier.last(), next, distance);
        let last = all.len() - 1;
        assert forall|i: int| 0 <= i < ordered.len() implies exists|r: int|
            0 <= r < all.len() && (#[trigger] all[r]).contains(#[trigger] ordered[i]) by {
            if i == ordered.len() - 1 {
                assert(all[last][all[last].len() - 1] == next);
                assert(all[last].contains(ordered[i]));
            } else {
                assert(front[i] == ordered[i]);
                let r = choose|r: int|
                    0 <= r < earlier.len() && (#[trigger] earlier[r]).contains(front[i]);
                let at = choose|at: int| 0 <= at < earlier[r].len() && earlier[r][at] == front[i];
                assert(all[r][at] == front[i]);
                assert(all[r].contains(ordered[i]));
            }
        }
        assert forall|r: int, i: int|
            0 <= r < all.len() && 0 <= i < all[r].len() implies ordered.contains(
            #[trigger] all[r][i],
        ) by {
            if r == last && i == all[r].len() - 1 {
                assert(ordered[ordered.len() - 1] == all[r][i]);
            } else {
                assert(earlier[r][i] == all[r][i]);
                assert(front.contains(earlier[r][i]));
                let at = choose|at: int| 0 <= at < front.len() && front[at] == earlier[r][i];
                assert(ordered[at] == all[r][i]);
            }
        }
        assert forall|r: int| 0 <= r < all.len() implies (#[trigger] all[r]).len() > 0 by {
            if r < last {
                assert(all[r] == earlier[r]);
            }
        }
    }
}

/// The run that serves a request is one of the runs.
proof fn lemma_run_with(all: Seq<Seq<PendingRange>>, order: int)
    ensures
        (exists|r: int| 0 <= r < all.len() && has_order(#[trigger] all[r], order)) ==> has_order(
            run_with(all, order),
            order,
        ) && all.contains(run_with(all, order)),
        !(exists|r: int| 0 <= r < all.len() && has_order(#[trigger] all[r], order)) ==> run_with(
            all,
            order,
        ).len() == 0,
    decreases all.len(),
{
    if all.len() > 0 {
        let rest = all.drop_first();
        if has_order(all[0], order) {
            assert(all.contains(all[0]));
        } else {
            lemma_run_with(rest, order);
            assert forall|r: int| 0 <= r < rest.len() implies #[trigger] rest[r] == all[r + 1] by {}
            if exists|r: int| 0 <= r < all.len() && has_order(#[trigger] all[r], order) {
                let r = choose|r: int| 0 <= r < all.len() && has_order(#[trigger] all[r], order);
                assert(has_order(rest[r - 1], order));
                let found = run_with(rest, order);
                assert(rest.contains(found));
                let at = choose|at: int| 0 <= at < rest.len() && rest[at] == found;
                assert(all[at + 1] == found);
            } else if exists|r: int| 0 <= r < rest.len() && has_order(#[trigger] rest[r], order) {
                let r = choose|r: int| 0 <= r < rest.len() && has_order(#[trigger] rest[r], order);
                assert(has_order(all[r + 1], order));
            }
        }
    }
}

/// A batch serves the request that started it, and only awaited requests with
/// their own ranges.
pub proof fn lemma_batch(
    requests: Seq<Request>,
    config: DownloadConfig,
    claimed: Seq<bool>,
    first: int,
)
    requires
        0 <= first < requests.len(),
        claimed.len() == requests.len(),
        !claimed[first],
    ensures
        has_order(batch_of(requests, config, claimed, first), first),
        coalesced(
            awaiting(requests, config, claimed, first, first),
            config.coalescing_distance_bytes,
        ).contains(batch_of(requests, config, claimed, first)),
        forall|i: int|
            0 <= i < batch_of(requests, config, claimed, first).len() ==> {
                let pending = #[trigger] batch_of(requests, config, claimed, first)[i];
                &&& first <= pending.order < requests.len()
                &&& !claimed[pending.order]
                &&& pending.range == base_ranges(requests, config)[pending.order]
                &&& requests[first].same_object(requests[pending.order])
                &&& requests[pending.order].time <= deadline(requests, first)
            },
{
    let pending = awaiting(requests, config, claimed, first, first);
    let order = pending_order();
    let sorted = pending.sort_by(order);
    let all = runs(sorted, config.coalescing_distance_bytes);
    let batch = batch_of(requests, config, claimed, first);
    lemma_pending_order();
    pending.lemma_sort_by_ensures(order);
    lemma_awaiting(requests, config, claimed, first, first);
    lemma_runs_complete(sorted, config.coalescing_distance_bytes);
    broadcast use vstd::seq_lib::group_to_multiset_ensures;

    assert(pending[0].order == first);
    assert(pending.contains(pending[0]));
    assert(pending.to_multiset().count(pending[0]) > 0);
    assert(sorted.to_multiset().count(pending[0]) > 0);
    assert(sorted.contains(pending[0]));
    let at = choose|at: int| 0 <= at < sorted.len() && sorted[at] == pending[0];
    let r = choose|r: int| 0 <= r < all.len() && (#[trigger] all[r]).contains(sorted[at]);
    let i = choose|i: int| 0 <= i < all[r].len() && all[r][i] == sorted[at];
    assert(all[r][i].order == first);
    assert(has_order(all[r], first));
    lemma_run_with(all, first);
    assert forall|j: int| 0 <= j < batch.len() implies {
        let member = #[trigger] batch[j];
        &&& first <= member.order < requests.len()
        &&& !claimed[member.order]
        &&& member.range == base_ranges(requests, config)[member.order]
        &&& requests[first].same_object(requests[member.order])
        &&& requests[member.order].time <= deadline(requests, first)
    } by {
        let run = choose|run: int| 0 <= run < all.len() && all[run] == batch;
        assert(sorted.contains(all[run][j]));
        assert(pending.contains(batch[j]));
        let from = choose|from: int| 0 <= from < pending.len() && pending[from] == batch[j];
    }
}

/// Chooses what an expanding downloader fetches on a miss of each request.
///
/// The first batch that claims a request fixes its range: choosing a sliding
/// window anew for each member would yield different ranges for requests that
/// one combined download serves.
pub fn expanded_download_ranges(workload: &Vec<Access>, config: DownloadConfig) -> (ranges: Vec<
    ByteRange,
>)
    requires
        fetchable(requests_of(workload@), config),
    ensures
        crate::compaction::intervals_of(ranges@) == expanded(requests_of(workload@), config),
{
    let ghost requests = requests_of(workload@);
    let mut base: Vec<ByteRange> = Vec::new();
    let mut ranges: Vec<ByteRange> = Vec::new();
    let mut assigned: Vec<bool> = Vec::new();
    let mut ordered_times = true;
    let mut index: usize = 0;
    while index < workload.len()
        invariant
            index <= workload@.len(),
            requests == requests_of(workload@),
            fetchable(requests, config),
            base@.len() == index,
            ranges@.len() == index,
            assigned@.len() == index,
            forall|i: int|
                0 <= i < index ==> (#[trigger] base@[i])@ == base_ranges(requests, config)[i],
            forall|i: int| 0 <= i < index ==> #[trigger] ranges@[i] == base@[i],
            forall|i: int| 0 <= i < index ==> !#[trigger] assigned@[i],
            ordered_times ==> forall|i: int, j: int|
                0 <= i <= j < index ==> (#[trigger] requests[i]).time <= (
                #[trigger] requests[j]).time,
        decreases workload.len() - index,
    {
        assert(requests[index as int].downloaded(DownloadPolicy::Expanded, config).valid());
        let range = workload[index].downloaded_range(DownloadPolicy::Expanded, config);
        base.push(range);
        ranges.push(range);
        assigned.push(false);
        if index > 0 && workload[index].timestamp_millis < workload[index - 1].timestamp_millis {
            ordered_times = false;
        }
        proof {
            if ordered_times && index > 0 {
                assert(requests[index - 1].time <= requests[index as int].time);
            }
        }
        index += 1;
    }
    proof {
        let start = expansion_after(requests, config, 0);
        assert(crate::compaction::intervals_of(ranges@) =~= start.ranges);
        assert(assigned@ =~= start.claimed);
    }
    let mut first: usize = 0;
    while first < workload.len()
        invariant
            first <= workload@.len(),
            requests == requests_of(workload@),
            ordered_times ==> chronological(requests),
            base@.len() == workload@.len(),
            forall|i: int|
                0 <= i < base@.len() ==> (#[trigger] base@[i])@ == base_ranges(requests, config)[i],
            crate::compaction::intervals_of(ranges@) == expansion_after(
                requests,
                config,
                first as int,
            ).ranges,
            assigned@ == expansion_after(requests, config, first as int).claimed,
            assigned@.len() == workload@.len(),
            ranges@.len() == workload@.len(),
        decreases workload.len() - first,
    {
        if !assigned[first] {
            let ghost before = expansion_after(requests, config, first as int);
            let pending = await_requests(workload, &base, &assigned, first, ordered_times, Ghost(config));
            let ghost awaited = awaiting(requests, config, assigned@, first as int, first as int);
            let downloads = coalesced_downloads(pending, config.coalescing_distance_bytes);
            let ghost all = coalesced(awaited, config.coalescing_distance_bytes);
            let ghost batch = batch_of(requests, config, assigned@, first as int);
            proof {
                lemma_batch(requests, config, assigned@, first as int);
            }
            let found = find_download(&downloads, first, Ghost(all));
            let download = &downloads[found];
            assert(serves(*download, batch));
            let mut member: usize = 0;
            while member < download.accesses.len()
                invariant
                    member <= download.accesses@.len(),
                    serves(*download, batch),
                    ranges@.len() == requests.len(),
                    assigned@.len() == requests.len(),
                    before.ranges.len() == requests.len(),
                    before.claimed.len() == requests.len(),
                    forall|i: int|
                        0 <= i < batch.len() ==> 0 <= (#[trigger] batch[i]).order < requests.len(),
                    forall|i: int|
                        0 <= i < requests.len() ==> (#[trigger] ranges@[i])@ == (if has_order(
                            batch.take(member as int),
                            i,
                        ) {
                            run_range(batch)
                        } else {
                            before.ranges[i]
                        }),
                    forall|i: int|
                        0 <= i < requests.len() ==> #[trigger] assigned@[i] == (has_order(
                            batch.take(member as int),
                            i,
                        ) || before.claimed[i]),
                decreases download.accesses.len() - member,
            {
                let order = download.accesses[member].0;
                proof {
                    assert(batch[member as int].order == order);
                    lemma_has_order_step(batch, member as int);
                }
                ranges.set(order, download.downloaded);
                assigned.set(order, true);
                member += 1;
            }
            proof {
                assert(batch.take(member as int) =~= batch);
                let after = expansion_after(requests, config, first + 1);
                assert(after == batched(before, requests, config, first as int));
                assert(crate::compaction::intervals_of(ranges@) =~= after.ranges);
                assert(assigned@ =~= after.claimed);
            }
        }
        first += 1;
    }
    ranges
}

proof fn lemma_has_order_step(run: Seq<PendingRange>, member: int)
    requires
        0 <= member < run.len(),
    ensures
        forall|order: int| #[trigger]
            has_order(run.take(member + 1), order) <==> has_order(run.take(member), order)
                || run[member].order == order,
{
    let shorter = run.take(member);
    let longer = run.take(member + 1);
    assert forall|order: int| #[trigger] has_order(longer, order) <==> has_order(shorter, order)
        || run[member].order == order by {
        if has_order(longer, order) {
            let i = choose|i: int| 0 <= i < longer.len() && (#[trigger] longer[i]).order == order;
            if i < member {
                assert(shorter[i].order == order);
            }
        }
        if has_order(shorter, order) {
            let i = choose|i: int| 0 <= i < shorter.len() && (#[trigger] shorter[i]).order == order;
            assert(longer[i].order == order);
        }
        if run[member].order == order {
            assert(longer[member].order == order);
        }
    }
}

/// Collects the unclaimed requests that request `first` looks ahead to.
fn await_requests<'a>(
    workload: &'a Vec<Access>,
    base: &Vec<ByteRange>,
    assigned: &Vec<bool>,
    first: usize,
    ordered_times: bool,
    Ghost(config): Ghost<DownloadConfig>,
) -> (pending: Vec<PendingDownload<'a>>)
    requires
        first < workload@.len(),
        base@.len() == workload@.len(),
        assigned@.len() == workload@.len(),
        ordered_times ==> chronological(requests_of(workload@)),
        forall|i: int|
            0 <= i < base@.len() ==> (#[trigger] base@[i])@ == base_ranges(
                requests_of(workload@),
                config,
            )[i],
    ensures
        pending_ranges(pending@) == awaiting(
            requests_of(workload@),
            config,
            assigned@,
            first as int,
            first as int,
        ),
{
    let ghost requests = requests_of(workload@);
    let ghost all = awaiting(requests, config, assigned@, first as int, first as int);
    let last_time = workload[first].timestamp_millis.saturating_add(COALESCING_WINDOW_MILLIS);
    let mut pending: Vec<PendingDownload<'a>> = Vec::new();
    let mut index: usize = first;
    assert(pending_ranges(pending@) + all =~= all);
    while index < workload.len()
        invariant
            first <= index <= workload@.len(),
            first < workload@.len(),
            requests == requests_of(workload@),
            base@.len() == workload@.len(),
            assigned@.len() == workload@.len(),
            ordered_times ==> chronological(requests),
            last_time == deadline(requests, first as int),
            all == awaiting(requests, config, assigned@, first as int, first as int),
            forall|i: int|
                0 <= i < base@.len() ==> (#[trigger] base@[i])@ == base_ranges(requests, config)[i],
            pending_ranges(pending@) + awaiting(
                requests,
                config,
                assigned@,
                first as int,
                index as int,
            ) == all,
        decreases workload.len() - index,
    {
        let access = &workload[index];
        let ghost rest = awaiting(requests, config, assigned@, first as int, index as int);
        let ghost before = pending_ranges(pending@);
        proof {
            assert(requests[index as int] == access@);
            assert(requests[first as int] == workload@[first as int]@);
        }
        if access.timestamp_millis > last_time && ordered_times {
            proof {
                assert forall|i: int| index <= i < requests.len() implies (
                #[trigger] requests[i]).time > deadline(requests, first as int) by {
                    assert(requests[index as int].time <= requests[i].time);
                }
                lemma_awaiting_over(requests, config, assigned@, first as int, index as int);
                assert(before + rest =~= before);
            }
            return pending;
        }
        let same = workload[first].object_key == access.object_key && workload[first].object_size
            == access.object_size;
        if same {
            if access.timestamp_millis > last_time {
                assert(before + rest =~= before);
                return pending;
            }
            if !assigned[index] {
                let next = PendingDownload { order: index, access, downloaded: base[index] };
                pending.push(next);
                proof {
                    assert(pending_ranges(pending@) =~= before.push(next@));
                    let tail = awaiting(requests, config, assigned@, first as int, index + 1);
                    assert(rest == seq![next@] + tail);
                    assert(before.push(next@) + tail =~= before + rest);
                }
            }
        }
        index += 1;
    }
    proof {
        let before = pending_ranges(pending@);
        assert(before + Seq::<PendingRange>::empty() =~= before);
    }
    pending
}

/// Finds the first download that serves the request `order`.
fn find_download<'a>(
    downloads: &Vec<CoalescedDownload<'a>>,
    order: usize,
    Ghost(all): Ghost<Seq<Seq<PendingRange>>>,
) -> (found: usize)
    requires
        serve_all(downloads@, all),
        run_with(all, order as int).len() > 0,
    ensures
        found < downloads@.len(),
        serves(downloads@[found as int], run_with(all, order as int)),
{
    let mut index: usize = 0;
    assert(all.skip(0) =~= all);
    while index < downloads.len()
        invariant
            index <= downloads@.len(),
            serve_all(downloads@, all),
            run_with(all.skip(index as int), order as int) == run_with(all, order as int),
            run_with(all, order as int).len() > 0,
        decreases downloads.len() - index,
    {
        let download = &downloads[index];
        let ghost run = all[index as int];
        let ghost rest = all.skip(index as int);
        proof {
            assert(serves(*download, run));
            assert(rest[0] == run);
            assert(rest.drop_first() =~= all.skip(index + 1));
        }
        let mut member: usize = 0;
        while member < download.accesses.len()
            invariant
                member <= download.accesses@.len(),
                serves(*download, run),
                index < downloads@.len(),
                downloads@[index as int] == *download,
                rest.len() > 0,
                rest[0] == run,
                run_with(rest, order as int) == run_with(all, order as int),
                forall|i: int| 0 <= i < member ==> (#[trigger] run[i]).order != order,
            decreases download.accesses.len() - member,
        {
            assert(download.accesses@[member as int].0 == run[member as int].order);
            if download.accesses[member].0 == order {
                assert(has_order(run, order as int));
                return index;
            }
            member += 1;
        }
        assert(!has_order(run, order as int));
        index += 1;
    }
    proof {
        assert(all.skip(index as int).len() == 0);
    }
    0
}

pub proof fn lemma_run_range_covers(run: Seq<PendingRange>, i: int)
    requires
        0 <= i < run.len(),
    ensures
        run_range(run).covers(run[i].range),
    decreases run.len(),
{
    if run.len() > 1 {
        if i < run.len() - 1 {
            lemma_run_range_covers(run.drop_last(), i);
        }
    }
}

pub proof fn lemma_expansion_lengths(requests: Seq<Request>, config: DownloadConfig, count: int)
    ensures
        expansion_after(requests, config, count).ranges.len() == requests.len(),
        expansion_after(requests, config, count).claimed.len() == requests.len(),
    decreases count,
{
    if count > 0 {
        lemma_expansion_lengths(requests, config, count - 1);
    }
}

/// What is fetched on a miss covers what the request alone would fetch.
pub proof fn expanded_ranges_cover_their_requests(
    requests: Seq<Request>,
    config: DownloadConfig,
    count: int,
    i: int,
)
    requires
        0 <= count <= requests.len(),
        0 <= i < requests.len(),
    ensures
        expansion_after(requests, config, count).ranges[i].covers(
            requests[i].downloaded(DownloadPolicy::Expanded, config),
        ),
        requests[i].valid() ==> expansion_after(requests, config, count).ranges[i].covers(
            requests[i].range,
        ),
    decreases count,
{
    lemma_expansion_lengths(requests, config, count);
    if count > 0 {
        let before = expansion_after(requests, config, count - 1);
        let first = count - 1;
        lemma_expansion_lengths(requests, config, count - 1);
        expanded_ranges_cover_their_requests(requests, config, count - 1, i);
        if !before.claimed[first] {
            let batch = batch_of(requests, config, before.claimed, first);
            lemma_batch(requests, config, before.claimed, first);
            if has_order(batch, i) {
                let at = choose|at: int| 0 <= at < batch.len() && (#[trigger] batch[at]).order == i;
                lemma_run_range_covers(batch, at);
            }
        }
    }
}

proof fn lemma_claims_stay(
    requests: Seq<Request>,
    config: DownloadConfig,
    count: int,
    later: int,
    i: int,
)
    requires
        0 <= count <= later <= requests.len(),
        0 <= i < requests.len(),
        expansion_after(requests, config, count).claimed[i],
    ensures
        expansion_after(requests, config, later).claimed[i],
        expansion_after(requests, config, later).ranges[i] == expansion_after(
            requests,
            config,
            count,
        ).ranges[i],
    decreases later,
{
    if count < later {
        lemma_claims_stay(requests, config, count, later - 1, i);
        let before = expansion_after(requests, config, later - 1);
        let first = later - 1;
        lemma_expansion_lengths(requests, config, later - 1);
        if !before.claimed[first] {
            let batch = batch_of(requests, config, before.claimed, first);
            lemma_batch(requests, config, before.claimed, first);
            if has_order(batch, i) {
                let at = choose|at: int| 0 <= at < batch.len() && (#[trigger] batch[at]).order == i;
                assert(!before.claimed[batch[at].order]);
            }
        }
    }
}

/// Every request of a batch is fetched with the exact same combined range.
pub proof fn batch_members_share_one_range(
    requests: Seq<Request>,
    config: DownloadConfig,
    first: int,
    member: int,
)
    requires
        0 <= first < requests.len(),
        0 <= member < requests.len(),
        !expansion_after(requests, config, first).claimed[first],
        has_order(
            batch_of(requests, config, expansion_after(requests, config, first).claimed, first),
            member,
        ),
    ensures
        expanded(requests, config)[member] == expanded(requests, config)[first],
        expanded(requests, config)[first] == run_range(
            batch_of(requests, config, expansion_after(requests, config, first).claimed, first),
        ),
{
    let before = expansion_after(requests, config, first);
    lemma_expansion_lengths(requests, config, first);
    lemma_batch(requests, config, before.claimed, first);
    assert(expansion_after(requests, config, first + 1) == batched(
        before,
        requests,
        config,
        first,
    ));
    lemma_claims_stay(requests, config, first + 1, requests.len() as int, member);
    lemma_claims_stay(requests, config, first + 1, requests.len() as int, first);
}

/// A batch holds only requests for the object of the request that starts it,
/// none before that request and none later than its window.
pub proof fn batches_look_one_window_ahead(
    requests: Seq<Request>,
    config: DownloadConfig,
    claimed: Seq<bool>,
    first: int,
    member: int,
)
    requires
        0 <= first < requests.len(),
        claimed.len() == requests.len(),
        !claimed[first],
        has_order(batch_of(requests, config, claimed, first), member),
    ensures
        first <= member < requests.len(),
        requests[first].same_object(requests[member]),
        requests[member].time <= requests[first].time + COALESCING_WINDOW_MILLIS,
{
    let batch = batch_of(requests, config, claimed, first);
    lemma_batch(requests, config, claimed, first);
    let at = choose|at: int| 0 <= at < batch.len() && (#[trigger] batch[at]).order == member;
    assert(batch[at].order == member);
}

/// Neighboring runs of one object are at least the coalescing distance apart.
pub proof fn runs_are_separated_by_the_distance(
    ordered: Seq<PendingRange>,
    distance: u64,
    r: int,
)
    requires
        0 <= r,
        r + 1 < runs(ordered, distance).len(),
        runs(ordered, distance)[r][0].same_object(runs(ordered, distance)[r + 1][0]),
    ensures
        gap(run_range(runs(ordered, distance)[r]), runs(ordered, distance)[r + 1][0].range)
            >= distance,
    decreases ordered.len(),
{
    let front = ordered.drop_last();
    let earlier = runs(front, distance);
    let all = runs(ordered, distance);
    lemma_runs_complete(front, distance);
    if earlier.len() > 0 && joins(earlier.last(), ordered.last(), distance) {
        assert(all[r] == earlier[r]);
        assert(all[r + 1][0] == earlier[r + 1][0]);
        runs_are_separated_by_the_distance(front, distance, r);
    } else if r + 1 < earlier.len() {
        assert(all[r] == earlier[r]);
        assert(all[r + 1] == earlier[r + 1]);
        runs_are_separated_by_the_distance(front, distance, r);
    } else {
        assert(all[r] == earlier.last());
        assert(all[r + 1] == seq![ordered.last()]);
    }
}

/// There is one range for each request.
pub proof fn lemma_expanded_len(requests: Seq<Request>, config: DownloadConfig)
    ensures
        expanded(requests, config).len() == requests.len(),
{
    lemma_expansion_lengths(requests, config, requests.len() as int);
}

/// A download combines ranges of one object only: all members of a run have the same key
/// and the same size.
pub proof fn runs_hold_one_object(
    ordered: Seq<PendingRange>,
    distance: u64,
    r: int,
    one: int,
    other: int,
)
    requires
        0 <= r < runs(ordered, distance).len(),
        0 <= one < runs(ordered, distance)[r].len(),
        0 <= other < runs(ordered, distance)[r].len(),
    ensures
        runs(ordered, distance)[r][one].key == runs(ordered, distance)[r][other].key,
        runs(ordered, distance)[r][one].size == runs(ordered, distance)[r][other].size,
    decreases ordered.len(),
{
    let front = ordered.drop_last();
    let earlier = runs(front, distance);
    let all = runs(ordered, distance);
    lemma_runs_complete(front, distance);
    if r < all.len() - 1 {
        assert(all[r] == earlier[r]);
        runs_hold_one_object(front, distance, r, one, other);
    } else if earlier.len() > 0 && joins(earlier.last(), ordered.last(), distance) {
        let run = earlier[earlier.len() - 1];
        if one < run.len() {
            runs_hold_one_object(front, distance, earlier.len() - 1, one, 0);
            assert(all[r][one] == run[one]);
        }
        if other < run.len() {
            runs_hold_one_object(front, distance, earlier.len() - 1, other, 0);
            assert(all[r][other] == run[other]);
        }
    }
}

/// A combined download covers every range of its run, starts where one of them starts, and
/// ends where one of them ends.
pub proof fn combined_downloads_are_as_short_as_they_can_be(run: Seq<PendingRange>, i: int) -> (
    ends: (int, int))
    requires
        0 <= i < run.len(),
    ensures
        run_range(run).start <= run[i].range.start,
        run[i].range.end <= run_range(run).end,
        0 <= ends.0 < run.len(),
        0 <= ends.1 < run.len(),
        run_range(run).start == run[ends.0].range.start,
        run_range(run).end == run[ends.1].range.end,
{
    lemma_run_range_covers(run, i);
    lemma_run_ends(run)
}

/// The ends of a run's range are ends of its members.
pub proof fn lemma_run_ends(run: Seq<PendingRange>) -> (ends: (int, int))
    requires
        run.len() > 0,
    ensures
        0 <= ends.0 < run.len(),
        0 <= ends.1 < run.len(),
        run[ends.0].range.start == run_range(run).start,
        run[ends.1].range.end == run_range(run).end,
    decreases run.len(),
{
    if run.len() == 1 {
        (0, 0)
    } else {
        let front = run.drop_last();
        let (first, last) = lemma_run_ends(front);
        let own = run.len() - 1;
        assert(front[first] == run[first]);
        assert(front[last] == run[last]);
        (
            if run_range(front).start < run.last().range.start {
                first
            } else {
                own
            },
            if run_range(front).end < run.last().range.end {
                own
            } else {
                last
            },
        )
    }
}

} // verus!

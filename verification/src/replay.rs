//! Replaying captured requests against a cache engine.

use bytes::Bytes;
use vstd::prelude::*;
use vstd::string::StringExecFns;

use crate::compaction::intervals_of;
use crate::downloader::{
    chronological, expanded, expanded_download_ranges, requests_of, Access,
    DownloadConfig, DownloadPolicy, Request,
};
use crate::payload;
use crate::range::{ByteRange, Interval};
use crate::text::{append_number, decimal};

verus! {

/// What one source request costs, as equivalent transferred bytes.
pub const SOURCE_FIXED_EQUIVALENT_BYTES: u64 = 10_000_000;

/// A trace together with what its downloader fetches.
pub struct Workload {
    pub name: &'static str,
    pub accesses: Vec<Access>,
    pub expanded_downloads: Vec<ByteRange>,
    pub download_config: DownloadConfig,
}

impl Workload {
    /// The captured requests.
    pub open spec fn requests(&self) -> Seq<Request> {
        requests_of(self.accesses@)
    }

    /// No request is empty, and where the policy fetches expanded ranges there is
    /// one for every request, which covers it.
    pub open spec fn well_formed(&self, policy: DownloadPolicy) -> bool {
        &&& forall|i: int|
            0 <= i < self.accesses@.len() ==> (#[trigger] self.accesses@[i])@.range.valid()
        &&& policy is Expanded ==> {
            &&& self.accesses@.len() <= self.expanded_downloads@.len()
            &&& forall|i: int|
                0 <= i < self.accesses@.len() ==> (#[trigger] self.expanded_downloads@[i])@.covers(
                    self.accesses@[i]@.range,
                )
        }
    }

    /// The ranges that the policy can fetch.
    pub open spec fn downloads(&self, policy: DownloadPolicy) -> Seq<Interval> {
        match policy {
            DownloadPolicy::Expanded => intervals_of(self.expanded_downloads@),
            DownloadPolicy::Exact => self.requests().map_values(|request: Request| request.range),
        }
    }

    /// What is fetched on a miss of request `i`.
    pub open spec fn download_at(&self, i: int, policy: DownloadPolicy) -> Interval {
        match policy {
            DownloadPolicy::Expanded => self.expanded_downloads@[i]@,
            DownloadPolicy::Exact => self.requests()[i].range,
        }
    }

    /// Returns what is fetched on a miss of request `index`.
    pub fn downloaded_range(&self, index: usize, policy: DownloadPolicy) -> (range: ByteRange)
        requires
            self.well_formed(policy),
            index < self.accesses@.len(),
        ensures
            range@ == self.download_at(index as int, policy),
            range@.valid(),
            range@.covers(self.requests()[index as int].range),
    {
        assert(self.accesses@[index as int]@.range.valid());
        assert(policy is Expanded ==> self.expanded_downloads@[index as int]@.covers(
            self.accesses@[index as int]@.range,
        ));
        match policy {
            DownloadPolicy::Expanded => self.expanded_downloads[index],
            DownloadPolicy::Exact => self.accesses[index].downloaded_range(
                policy,
                self.download_config,
            ),
        }
    }
}

/// Why requests make no workload.
#[derive(Clone, Copy, Debug, PartialEq, Eq, Structural)]
pub enum WorkloadError {
    /// There is no request.
    Empty,
    /// A request lies beyond its object.
    BeyondObject {
        index: usize,
        start: u64,
        end: u64,
        object_size: u64,
    },
    /// A request comes before its predecessor.
    OutOfOrder {
        index: usize,
    },
}

impl WorkloadError {
    /// Returns the error's message.
    pub fn message(self) -> (message: String)
        ensures
            message@ == (match self {
                WorkloadError::Empty => "trace is empty"@,
                WorkloadError::BeyondObject { index, start, end, object_size } => "operation "@
                    + decimal(index as nat) + " requests "@ + decimal(start as nat) + ".."@
                    + decimal(end as nat) + " beyond object size "@ + decimal(object_size as nat),
                WorkloadError::OutOfOrder { index } => "operation "@ + decimal(index as nat)
                    + " has a timestamp earlier than its predecessor"@,
            }),
    {
        match self {
            WorkloadError::Empty => "trace is empty".to_owned(),
            WorkloadError::BeyondObject { index, start, end, object_size } => {
                let mut message = "operation ".to_owned();
                append_number(&mut message, index as u64);
                message.append(" requests ");
                append_number(&mut message, start);
                message.append("..");
                append_number(&mut message, end);
                message.append(" beyond object size ");
                append_number(&mut message, object_size);
                message
            },
            WorkloadError::OutOfOrder { index } => {
                let mut message = "operation ".to_owned();
                append_number(&mut message, index as u64);
                message.append(" has a timestamp earlier than its predecessor");
                message
            },
        }
    }
}

/// The error of the first request that is invalid or out of order, if any.
pub open spec fn first_error(requests: Seq<Request>, index: int) -> Option<WorkloadError>
    decreases requests.len() - index,
{
    if index >= requests.len() {
        None
    } else if requests[index].range.end > requests[index].size {
        Some(
            WorkloadError::BeyondObject {
                index: index as usize,
                start: requests[index].range.start,
                end: requests[index].range.end,
                object_size: requests[index].size,
            },
        )
    } else if index > 0 && requests[index].time < requests[index - 1].time {
        Some(WorkloadError::OutOfOrder { index: index as usize })
    } else {
        first_error(requests, index + 1)
    }
}

/// The requests that a trace is restricted to.
pub open spec fn restricted(requests: Seq<Request>, operations: Option<usize>) -> Seq<Request> {
    match operations {
        Some(operations) => if operations < requests.len() {
            requests.take(operations as int)
        } else {
            requests
        },
        None => requests,
    }
}

/// Makes a workload of captured requests, restricted to the first `operations`.
pub fn trace_workload(
    accesses: Vec<Access>,
    operations: Option<usize>,
    download_config: DownloadConfig,
) -> (result: Result<Workload, WorkloadError>)
    ensures
        ({
            let requests = restricted(requests_of(accesses@), operations);
            match result {
                Ok(workload) => {
                    &&& requests.len() > 0
                    &&& first_error(requests, 0) is None
                    &&& chronological(requests)
                    &&& forall|i: int|
                        0 <= i < requests.len() ==> (#[trigger] requests[i]).valid()
                    &&& workload.name@ == "trace"@
                    &&& workload.well_formed(DownloadPolicy::Expanded)
                    &&& workload.well_formed(DownloadPolicy::Exact)
                    &&& workload.requests() == requests
                    &&& workload.download_config == download_config
                    &&& intervals_of(workload.expanded_downloads@) == expanded(
                        requests,
                        download_config,
                    )
                },
                Err(error) => if requests.len() == 0 {
                    error == WorkloadError::Empty
                } else {
                    first_error(requests, 0) == Some(error)
                },
            }
        }),
        ({
            let count = if operations is Some && operations->0 < accesses@.len() {
                operations->0 as int
            } else {
                accesses@.len() as int
            };
            result is Ok <==> {
                &&& count > 0
                &&& forall|i: int|
                    0 <= i < count ==> (#[trigger] accesses@[i])@.range.end <= accesses@[i]@.size
                &&& forall|i: int|
                    0 < i < count ==> accesses@[i - 1]@.time <= (#[trigger] accesses@[i])@.time
            }
        }),
{
    let ghost requests = restricted(requests_of(accesses@), operations);
    let mut kept = accesses;
    if let Some(operations) = operations {
        if operations < kept.len() {
            let ghost all = kept@;
            kept.truncate(operations);
            assert(requests_of(kept@) =~= requests_of(all).take(operations as int));
        }
    }
    assert(requests_of(kept@) == requests);
    proof {
        let count = if operations is Some && operations->0 < accesses@.len() {
            operations->0 as int
        } else {
            accesses@.len() as int
        };
        assert(requests.len() == count);
        assert forall|i: int| 0 <= i < count implies requests[i] == (#[trigger] accesses@[i])@ by {}
        workloads_take_every_ordered_trace(requests);
    }
    if kept.len() == 0 {
        return Err(WorkloadError::Empty);
    }
    let mut index: usize = 0;
    while index < kept.len()
        invariant
            index <= kept@.len(),
            requests == requests_of(kept@),
            requests == restricted(requests_of(accesses@), operations),
            requests.len() > 0,
            first_error(requests, 0) == first_error(requests, index as int),
            forall|i: int| 0 <= i < index ==> (#[trigger] requests[i]).valid(),
            forall|i: int, j: int|
                0 <= i <= j < index ==> (#[trigger] requests[i]).time <= (
                #[trigger] requests[j]).time,
        decreases kept.len() - index,
    {
        let access = &kept[index];
        assert(requests[index as int] == access@);
        match access.validate(index) {
            Ok(_) => {},
            Err(error) => {
                return Err(error);
            },
        }
        if index > 0 {
            assert(requests[index - 1] == kept@[index - 1]@);
            if access.timestamp_millis < kept[index - 1].timestamp_millis {
                return Err(WorkloadError::OutOfOrder { index });
            }
        }
        index += 1;
    }
    proof {
        assert forall|i: int| 0 <= i < requests.len() implies (#[trigger] requests[i]).downloaded(
            DownloadPolicy::Expanded,
            download_config,
        ).valid() by {
            assert(requests[i].valid());
        }
    }
    let expanded_downloads = expanded_download_ranges(&kept, download_config);
    proof {
        crate::downloader::lemma_expanded_len(requests, download_config);
        assert(intervals_of(expanded_downloads@).len() == requests.len());
        assert forall|i: int| 0 <= i < kept@.len() implies (
        #[trigger] kept@[i])@.range.valid() by {
            assert(requests[i] == kept@[i]@);
            assert(requests[i].valid());
        }
        assert forall|i: int| 0 <= i < kept@.len() implies (
        #[trigger] expanded_downloads@[i])@.covers(kept@[i]@.range) by {
            assert(requests[i] == kept@[i]@);
            assert(requests[i].valid());
            crate::downloader::expanded_ranges_cover_their_requests(
                requests,
                download_config,
                requests.len() as int,
                i,
            );
            assert(intervals_of(expanded_downloads@)[i] == expanded_downloads@[i]@);
        }
    }
    Ok(Workload { name: "trace", accesses: kept, expanded_downloads, download_config })
}

/// A trace has no error exactly if every request ends within its object and no
/// request comes before the one ahead of it: requests at the same time are in
/// order.
pub proof fn workloads_take_every_ordered_trace(requests: Seq<Request>)
    ensures
        first_error(requests, 0) is None <==> {
            &&& forall|i: int|
                0 <= i < requests.len() ==> (#[trigger] requests[i]).range.end <= requests[i].size
            &&& forall|i: int|
                0 < i < requests.len() ==> requests[i - 1].time <= (#[trigger] requests[i]).time
        },
{
    lemma_no_error(requests, 0);
}

proof fn lemma_no_error(requests: Seq<Request>, from: int)
    requires
        0 <= from,
    ensures
        first_error(requests, from) is None <==> forall|i: int|
            from <= i < requests.len() ==> {
                &&& (#[trigger] requests[i]).range.end <= requests[i].size
                &&& i > 0 ==> requests[i - 1].time <= requests[i].time
            },
    decreases requests.len() - from,
{
    if from < requests.len() {
        lemma_no_error(requests, from + 1);
    }
}

/// The reported error is that of the first request that has one, and a request that
/// leaves its object is reported as such before its time is looked at.
pub proof fn workload_errors_name_the_first_offender(requests: Seq<Request>, at: int)
    requires
        0 <= at < requests.len() <= usize::MAX,
        forall|i: int|
            0 <= i < at ==> (#[trigger] requests[i]).range.end <= requests[i].size,
        forall|i: int| 0 < i < at ==> requests[i - 1].time <= (#[trigger] requests[i]).time,
    ensures
        requests[at].range.end > requests[at].size ==> first_error(requests, 0) == Some(
            WorkloadError::BeyondObject {
                index: at as usize,
                start: requests[at].range.start,
                end: requests[at].range.end,
                object_size: requests[at].size,
            },
        ),
        requests[at].range.end <= requests[at].size && at > 0 && requests[at - 1].time
            > requests[at].time ==> first_error(requests, 0) == Some(
            WorkloadError::OutOfOrder { index: at as usize },
        ),
{
    lemma_error_from(requests, 0, at);
}

proof fn lemma_error_from(requests: Seq<Request>, from: int, at: int)
    requires
        0 <= from <= at < requests.len(),
        forall|i: int|
            from <= i < at ==> (#[trigger] requests[i]).range.end <= requests[i].size,
        forall|i: int|
            from <= i < at && i > 0 ==> requests[i - 1].time <= (#[trigger] requests[i]).time,
    ensures
        first_error(requests, from) == first_error(requests, at),
    decreases at - from,
{
    if from < at {
        lemma_error_from(requests, from + 1, at);
    }
}

/// A trace restricted to a number of operations is its beginning of that length, and
/// the whole trace where it has no more.
pub proof fn restrictions_keep_the_beginning(requests: Seq<Request>, operations: usize, i: int)
    ensures
        restricted(requests, None) == requests,
        restricted(requests, Some(operations)).len() == if operations < requests.len() {
            operations as int
        } else {
            requests.len() as int
        },
        0 <= i < restricted(requests, Some(operations)).len() ==> restricted(
            requests,
            Some(operations),
        )[i] == requests[i],
{
}

/// Whether `len` is the length of the longest range.
pub open spec fn longest(ranges: Seq<Interval>, len: int) -> bool {
    &&& exists|i: int| 0 <= i < ranges.len() && (#[trigger] ranges[i]).len() == len
    &&& forall|i: int| 0 <= i < ranges.len() ==> (#[trigger] ranges[i]).len() <= len
}

/// Returns the length of the longest download, or 1 if there is none.
pub fn max_download_len(workload: &Workload, downloader: DownloadPolicy) -> (len: u64)
    ensures
        if workload.downloads(downloader).len() == 0 {
            len == 1
        } else {
            longest(workload.downloads(downloader), len as int)
        },
        downloader == DownloadPolicy::Exact && workload.accesses@.len() > 0 ==> {
            &&& forall|i: int|
                0 <= i < workload.accesses@.len() ==> (#[trigger] workload.accesses@[i])@.range.end
                    - workload.accesses@[i]@.range.start <= len
            &&& exists|i: int|
                0 <= i < workload.accesses@.len() && (#[trigger] workload.accesses@[i])@.range.end
                    - workload.accesses@[i]@.range.start == len
        },
        downloader == DownloadPolicy::Expanded && workload.expanded_downloads@.len() > 0 ==> {
            &&& forall|i: int|
                0 <= i < workload.expanded_downloads@.len() ==> (
                #[trigger] workload.expanded_downloads@[i])@.end
                    - workload.expanded_downloads@[i]@.start <= len
            &&& exists|i: int|
                0 <= i < workload.expanded_downloads@.len() && (
                #[trigger] workload.expanded_downloads@[i])@.end
                    - workload.expanded_downloads@[i]@.start == len
        },
{
    let ghost downloads = workload.downloads(downloader);
    let count = match downloader {
        DownloadPolicy::Expanded => workload.expanded_downloads.len(),
        DownloadPolicy::Exact => workload.accesses.len(),
    };
    if count == 0 {
        return 1;
    }
    let mut len: u64 = 0;
    let mut index: usize = 0;
    while index < count
        invariant
            index <= count,
            0 < count,
            downloads == workload.downloads(downloader),
            downloads.len() == count,
            index > 0 ==> longest(downloads.take(index as int), len as int),
            index == 0 ==> len == 0,
        decreases count - index,
    {
        let range = match downloader {
            DownloadPolicy::Expanded => workload.expanded_downloads[index],
            DownloadPolicy::Exact => workload.accesses[index].downloaded_range(
                downloader,
                workload.download_config,
            ),
        };
        let next = range.len();
        let ghost earlier = downloads.take(index as int);
        let ghost seen = downloads.take(index + 1);
        let ghost before = len;
        if next > len {
            len = next;
        }
        proof {
            assert(seen[index as int].len() == next);
            assert forall|i: int| 0 <= i < seen.len() implies (#[trigger] seen[i]).len() <= len by {
                if i < index {
                    assert(seen[i] == earlier[i]);
                }
            }
            if next <= before && index > 0 {
                let i = choose|i: int|
                    0 <= i < earlier.len() && (#[trigger] earlier[i]).len() == before;
                assert(seen[i] == earlier[i]);
            }
        }
        index += 1;
    }
    assert(downloads.take(index as int) =~= downloads);
    proof {
        let i = choose|i: int| 0 <= i < downloads.len() && (#[trigger] downloads[i]).len() == len;
        match downloader {
            DownloadPolicy::Exact => {
                assert forall|i: int| 0 <= i < downloads.len() implies (
                #[trigger] workload.accesses@[i])@.range == downloads[i] by {}
                assert(workload.accesses@[i]@.range == downloads[i]);
            },
            DownloadPolicy::Expanded => {
                assert forall|i: int| 0 <= i < downloads.len() implies (
                #[trigger] workload.expanded_downloads@[i])@ == downloads[i] by {}
                assert(workload.expanded_downloads@[i]@ == downloads[i]);
            },
        }
    }
    len
}

/// What a replay counted.
#[derive(Clone, Copy, Debug, PartialEq, Eq, Structural)]
pub struct Traffic {
    pub requests: u64,
    pub requested_bytes: u64,
    pub hits: u64,
    pub hit_bytes: u64,
    pub source_requests: u64,
    pub source_bytes: u64,
}

/// What a replay counted, as whole numbers.
#[verifier::ext_equal]
pub struct Tally {
    pub requests: int,
    pub requested_bytes: int,
    pub hits: int,
    pub hit_bytes: int,
    pub source_requests: int,
    pub source_bytes: int,
}

impl View for Traffic {
    type V = Tally;

    open spec fn view(&self) -> Tally {
        Tally {
            requests: self.requests as int,
            requested_bytes: self.requested_bytes as int,
            hits: self.hits as int,
            hit_bytes: self.hit_bytes as int,
            source_requests: self.source_requests as int,
            source_bytes: self.source_bytes as int,
        }
    }
}

impl Default for Traffic {
    fn default() -> (traffic: Self)
        ensures
            traffic == Self::none(),
    {
        Traffic {
            requests: 0,
            requested_bytes: 0,
            hits: 0,
            hit_bytes: 0,
            source_requests: 0,
            source_bytes: 0,
        }
    }
}

impl Tally {
    /// The tally after one more request of `len` bytes.
    pub open spec fn requested(self, len: int, hit: bool) -> Tally {
        Tally {
            requests: self.requests + 1,
            requested_bytes: self.requested_bytes + len,
            hits: self.hits + if hit {
                1int
            } else {
                0
            },
            hit_bytes: self.hit_bytes + if hit {
                len
            } else {
                0
            },
            ..self
        }
    }

    /// The tally after one more download of `len` bytes.
    pub open spec fn fetched(self, len: int) -> Tally {
        Tally {
            source_requests: self.source_requests + 1,
            source_bytes: self.source_bytes + len,
            ..self
        }
    }

    /// Whether every count can be represented.
    pub open spec fn representable(self) -> bool {
        &&& self.requests <= u64::MAX
        &&& self.requested_bytes <= u64::MAX
        &&& self.hits <= u64::MAX
        &&& self.hit_bytes <= u64::MAX
        &&& self.source_requests <= u64::MAX
        &&& self.source_bytes <= u64::MAX
    }
}

impl Traffic {
    /// Nothing counted.
    pub open spec fn none() -> Self {
        Traffic {
            requests: 0,
            requested_bytes: 0,
            hits: 0,
            hit_bytes: 0,
            source_requests: 0,
            source_bytes: 0,
        }
    }

    /// Returns what the requests would have cost without a cache: each one
    /// source request for exactly its bytes.
    pub fn baseline_cost(&self) -> (cost: u128)
        ensures
            cost == self.requests * SOURCE_FIXED_EQUIVALENT_BYTES + self.requested_bytes,
            cost == self.requests * 10_000_000 + self.requested_bytes,
    {
        source_cost(self.requests, self.requested_bytes)
    }

    /// Returns what the downloads cost.
    pub fn actual_cost(&self) -> (cost: u128)
        ensures
            cost == self.source_requests * SOURCE_FIXED_EQUIVALENT_BYTES + self.source_bytes,
            cost == self.source_requests * 10_000_000 + self.source_bytes,
    {
        source_cost(self.source_requests, self.source_bytes)
    }
}

/// Returns the cost of source requests and transferred bytes.
pub fn source_cost(source_requests: u64, source_bytes: u64) -> (cost: u128)
    ensures
        cost == source_requests * SOURCE_FIXED_EQUIVALENT_BYTES + source_bytes,
        cost == source_requests * 10_000_000 + source_bytes,
{
    assert(source_requests * SOURCE_FIXED_EQUIVALENT_BYTES <= u64::MAX * 10_000_000);
    let fixed = source_requests as u128 * SOURCE_FIXED_EQUIVALENT_BYTES as u128;
    fixed + source_bytes as u128
}

/// Counts one request.
pub fn record_request(traffic: &mut Traffic, access: &Access, hit: bool)
    requires
        old(traffic)@.requested(access@.range.len(), hit).representable(),
    ensures
        final(traffic)@ == old(traffic)@.requested(access@.range.len(), hit),
        ({
            let len = access@.range.end - access@.range.start;
            &&& final(traffic).requests == old(traffic).requests + 1
            &&& final(traffic).requested_bytes == old(traffic).requested_bytes + len
            &&& final(traffic).hits == old(traffic).hits + if hit {
                1int
            } else {
                0
            }
            &&& final(traffic).hit_bytes == old(traffic).hit_bytes + if hit {
                len
            } else {
                0
            }
            &&& final(traffic).source_requests == old(traffic).source_requests
            &&& final(traffic).source_bytes == old(traffic).source_bytes
        }),
{
    let len = access.requested.len();
    traffic.requests = traffic.requests + 1;
    traffic.requested_bytes = traffic.requested_bytes + len;
    if hit {
        traffic.hits = traffic.hits + 1;
        traffic.hit_bytes = traffic.hit_bytes + len;
    }
}

/// Counts one download.
pub fn record_download(traffic: &mut Traffic, downloaded: ByteRange)
    requires
        old(traffic)@.fetched(downloaded@.len()).representable(),
    ensures
        final(traffic)@ == old(traffic)@.fetched(downloaded@.len()),
        final(traffic).source_requests == old(traffic).source_requests + 1,
        final(traffic).source_bytes == old(traffic).source_bytes + (downloaded@.end
            - downloaded@.start),
        final(traffic).requests == old(traffic).requests,
        final(traffic).requested_bytes == old(traffic).requested_bytes,
        final(traffic).hits == old(traffic).hits,
        final(traffic).hit_bytes == old(traffic).hit_bytes,
{
    traffic.source_requests = traffic.source_requests + 1;
    traffic.source_bytes = traffic.source_bytes + downloaded.len();
}

/// Why a replay stopped.
#[derive(Clone, Debug, PartialEq, Eq)]
pub enum ReplayError {
    /// A download does not fit a buffer.
    PayloadTooLong,
    /// A download exceeds the source allocation.
    SourceTooShort,
    /// The engine did not take a download.
    Populate(String),
}

impl ReplayError {
    /// Returns the error's message.
    pub fn message(self) -> (message: String)
        ensures
            message@ == (match self {
                ReplayError::PayloadTooLong => "callback payload length does not fit usize"@,
                ReplayError::SourceTooShort => {
                    "coalesced callback payload exceeded the precomputed source allocation"@
                },
                ReplayError::Populate(message) => message@,
            }),
    {
        match self {
            ReplayError::PayloadTooLong => {
                "callback payload length does not fit usize".to_owned()
            },
            ReplayError::SourceTooShort => {
                "coalesced callback payload exceeded the precomputed source allocation".to_owned()
            },
            ReplayError::Populate(message) => message,
        }
    }
}

/// Returns the payload of a download, out of one shared source allocation.
pub fn source_payload_slice(source_payload: &Bytes, downloaded: ByteRange) -> (result: Result<
    Bytes,
    ReplayError,
>)
    ensures
        match result {
            Ok(bytes) => {
                &&& downloaded@.len() <= usize::MAX
                &&& downloaded@.len() <= payload::contents(*source_payload).len()
                &&& payload::contents(bytes) == payload::contents(*source_payload).take(
                    downloaded@.len(),
                )
            },
            Err(error) => if downloaded@.len() > usize::MAX {
                error == ReplayError::PayloadTooLong
            } else {
                downloaded@.len() > payload::contents(*source_payload).len() && error
                    == ReplayError::SourceTooShort
            },
        },
{
    let len = downloaded.len();
    let available = payload::length(source_payload);
    if len > usize::MAX as u64 {
        return Err(ReplayError::PayloadTooLong);
    }
    let payload_len = len as usize;
    if payload_len > available {
        return Err(ReplayError::SourceTooShort);
    }
    let bytes = payload::slice(source_payload, 0, payload_len);
    assert(payload::contents(bytes) =~= payload::contents(*source_payload).take(len as int));
    Ok(bytes)
}

/// A cache under replay.
///
/// What an engine does to its own state is the engine's own: an implementation
/// says which outcomes a lookup and an admission can have from one state. Where
/// it says nothing, every outcome is possible.
pub trait Engine: Sized {
    /// Whether the engine is in a state that it can work from.
    open spec fn ready(&self) -> bool {
        true
    }

    /// Whether a lookup of `request` can answer `hit` and leave the engine at
    /// `after`.
    open spec fn answers(
        &self,
        request: Request,
        downloaded: Interval,
        hit: bool,
        after: Self,
    ) -> bool {
        true
    }

    /// Whether the engine can be handed `payload`, downloaded for `request`,
    /// report `outcome` and be left at `after`.
    open spec fn takes(
        &self,
        request: Request,
        downloaded: Interval,
        payload: Seq<u8>,
        outcome: Result<(), String>,
        after: Self,
    ) -> bool {
        true
    }

    /// Whether the retained payload bytes can be represented.
    open spec fn countable(&self) -> bool {
        true
    }

    /// Whether the engine can report `used` retained payload bytes.
    open spec fn retains(&self, used: u64) -> bool {
        true
    }

    /// Returns the engine's name.
    fn name(&self) -> &'static str;

    /// Looks up an access using the range this downloader would fetch on a miss.
    fn get(&mut self, access: &Access, downloaded: ByteRange) -> (hit: bool)
        requires
            old(self).ready(),
            downloaded@.covers(access@.range),
        ensures
            final(self).ready(),
            old(self).answers(access@, downloaded@, hit, *final(self)),
    ;

    /// Caches what was downloaded for an access.
    fn populate(
        &mut self,
        access: &Access,
        downloaded: ByteRange,
        payload: Bytes,
    ) -> (outcome: Result<(), String>)
        requires
            old(self).ready(),
            downloaded@.covers(access@.range),
            payload::contents(payload).len() == downloaded@.len(),
        ensures
            final(self).ready(),
            old(self).takes(
                access@,
                downloaded@,
                payload::contents(payload),
                outcome,
                *final(self),
            ),
    ;

    /// Returns the payload bytes that the engine retains.
    fn used_payload_bytes(&self) -> (used: u64)
        requires
            self.ready(),
            self.countable(),
        ensures
            self.retains(used),
    ;
}

/// Whether request `i` takes an engine from `before` to `after`: it is looked
/// up, and on a miss what is fetched for it is handed over.
pub open spec fn served<E: Engine>(
    before: E,
    after: E,
    workload: Workload,
    policy: DownloadPolicy,
    source: Seq<u8>,
    i: int,
    hit: bool,
) -> bool {
    let request = workload.requests()[i];
    let downloaded = workload.download_at(i, policy);
    exists|looked: E| #[trigger]
        before.answers(request, downloaded, hit, looked) && if hit {
            after == looked
        } else {
            &&& downloaded.len() <= usize::MAX
            &&& downloaded.len() <= source.len()
            &&& looked.takes(
                request,
                downloaded,
                source.take(downloaded.len()),
                Ok::<(), String>(()),
                after,
            )
        }
}

/// Whether an engine goes through `states` while the first requests are
/// replayed one after another, hitting as `hits` says.
pub open spec fn passed<E: Engine>(
    states: Seq<E>,
    workload: Workload,
    policy: DownloadPolicy,
    source: Seq<u8>,
    hits: Seq<bool>,
) -> bool {
    &&& states.len() == hits.len() + 1
    &&& forall|i: int|
        0 <= i < hits.len() ==> served(
            states[i],
            states[i + 1],
            workload,
            policy,
            source,
            i,
            #[trigger] hits[i],
        )
}

/// Whether request `i` misses and stops a pass with `error`.
pub open spec fn stopped<E: Engine>(
    before: E,
    after: E,
    workload: Workload,
    policy: DownloadPolicy,
    source: Seq<u8>,
    i: int,
    error: ReplayError,
) -> bool {
    let request = workload.requests()[i];
    let downloaded = workload.download_at(i, policy);
    exists|looked: E| #[trigger]
        before.answers(request, downloaded, false, looked) && match error {
            ReplayError::PayloadTooLong => downloaded.len() > usize::MAX && after == looked,
            ReplayError::SourceTooShort => {
                &&& downloaded.len() <= usize::MAX
                &&& downloaded.len() > source.len()
                &&& after == looked
            },
            ReplayError::Populate(message) => {
                &&& downloaded.len() <= usize::MAX
                &&& downloaded.len() <= source.len()
                &&& looked.takes(
                    request,
                    downloaded,
                    source.take(downloaded.len()),
                    Err::<(), String>(message),
                    after,
                )
            },
        }
}

/// Whether one pass takes an engine from `before` to `after` and a tally from
/// `start` to `end`, with `result`.
pub open spec fn pass_result<E: Engine>(
    before: E,
    after: E,
    start: Tally,
    end: Tally,
    workload: Workload,
    policy: DownloadPolicy,
    source: Seq<u8>,
    result: Result<(), ReplayError>,
) -> bool {
    exists|states: Seq<E>, hits: Seq<bool>|
        {
            &&& #[trigger] passed(states, workload, policy, source, hits)
            &&& states.first() == before
            &&& match result {
                Ok(_) => {
                    &&& hits.len() == workload.accesses@.len()
                    &&& states.last() == after
                    &&& end == tally_after(start, workload, policy, hits, hits.len() as int)
                },
                Err(error) => {
                    &&& hits.len() < workload.accesses@.len()
                    &&& stopped(
                        states.last(),
                        after,
                        workload,
                        policy,
                        source,
                        hits.len() as int,
                        error,
                    )
                    &&& end == tally_after(
                        start,
                        workload,
                        policy,
                        hits,
                        hits.len() as int,
                    ).requested(workload.requests()[hits.len() as int].range.len(), false)
                },
            }
        }
}

/// Whether an engine goes through `engines` in whole passes that nothing counts.
pub open spec fn warmed<E: Engine>(
    engines: Seq<E>,
    workload: Workload,
    policy: DownloadPolicy,
    source: Seq<u8>,
) -> bool {
    &&& engines.len() > 0
    &&& forall|i: int, j: int|
        0 <= i && j == i + 1 && j < engines.len() ==> completed(
            #[trigger] engines[i],
            #[trigger] engines[j],
            workload,
            policy,
            source,
        )
}

/// Whether a whole pass takes an engine from `before` to `after`.
pub open spec fn completed<E: Engine>(
    before: E,
    after: E,
    workload: Workload,
    policy: DownloadPolicy,
    source: Seq<u8>,
) -> bool {
    exists|end: Tally| #[trigger]
        pass_result(
            before,
            after,
            Traffic::none()@,
            end,
            workload,
            policy,
            source,
            Ok::<(), ReplayError>(()),
        )
}

/// The tally after the first `count` requests of a pass, which hit as `hits`
/// says and were downloaded otherwise.
pub open spec fn tally_after(
    start: Tally,
    workload: Workload,
    policy: DownloadPolicy,
    hits: Seq<bool>,
    count: int,
) -> Tally
    decreases count,
{
    if count <= 0 {
        start
    } else {
        let earlier = tally_after(start, workload, policy, hits, count - 1);
        let requested = earlier.requested(
            workload.requests()[count - 1].range.len(),
            hits[count - 1],
        );
        if hits[count - 1] {
            requested
        } else {
            requested.fetched(workload.download_at(count - 1, policy).len())
        }
    }
}

/// The bytes of the first `count` requests and of their downloads.
pub open spec fn pass_bytes(workload: Workload, policy: DownloadPolicy, count: int) -> (int, int)
    decreases count,
{
    if count <= 0 {
        (0, 0)
    } else {
        let earlier = pass_bytes(workload, policy, count - 1);
        (
            earlier.0 + workload.requests()[count - 1].range.len(),
            earlier.1 + workload.download_at(count - 1, policy).len(),
        )
    }
}

/// Whether the counts stay representable, however a pass turns out.
pub open spec fn pass_fits(start: Tally, workload: Workload, policy: DownloadPolicy) -> bool {
    let count = workload.accesses@.len() as int;
    let bytes = pass_bytes(workload, policy, count);
    &&& start.requests + count <= u64::MAX
    &&& start.hits + count <= u64::MAX
    &&& start.source_requests + count <= u64::MAX
    &&& start.requested_bytes + bytes.0 <= u64::MAX
    &&& start.hit_bytes + bytes.0 <= u64::MAX
    &&& start.source_bytes + bytes.1 <= u64::MAX
}

/// No request and no download is empty.
pub open spec fn ranges_valid(workload: Workload, policy: DownloadPolicy) -> bool {
    forall|i: int|
        0 <= i < workload.accesses@.len() ==> (#[trigger] workload.requests()[i]).range.valid()
            && workload.download_at(i, policy).valid()
}

proof fn lemma_ranges_valid(workload: Workload, policy: DownloadPolicy)
    requires
        workload.well_formed(policy),
    ensures
        ranges_valid(workload, policy),
{
    assert forall|i: int| 0 <= i < workload.accesses@.len() implies (
    #[trigger] workload.requests()[i]).range.valid() && workload.download_at(i, policy).valid() by {
        assert(workload.accesses@[i]@.range.valid());
        assert(policy is Expanded ==> workload.expanded_downloads@[i]@.covers(
            workload.accesses@[i]@.range,
        ));
    }
}

proof fn lemma_pass_bytes(workload: Workload, policy: DownloadPolicy, count: int, later: int)
    requires
        workload.well_formed(policy),
        0 <= count <= later <= workload.accesses@.len(),
        ranges_valid(workload, policy),
    ensures
        0 <= pass_bytes(workload, policy, count).0 <= pass_bytes(workload, policy, later).0,
        0 <= pass_bytes(workload, policy, count).1 <= pass_bytes(workload, policy, later).1,
    decreases later,
{
    if later > 0 {
        assert(workload.requests()[later - 1].range.valid());
        assert(workload.download_at(later - 1, policy).valid());
        if count < later {
            lemma_pass_bytes(workload, policy, count, later - 1);
        } else {
            lemma_pass_bytes(workload, policy, count - 1, count - 1);
        }
    }
}

proof fn lemma_tally_bounds(
    start: Tally,
    workload: Workload,
    policy: DownloadPolicy,
    hits: Seq<bool>,
    count: int,
)
    requires
        workload.well_formed(policy),
        0 <= count <= workload.accesses@.len(),
        ranges_valid(workload, policy),
    ensures
        ({
            let after = tally_after(start, workload, policy, hits, count);
            let bytes = pass_bytes(workload, policy, count);
            &&& after.requests == start.requests + count
            &&& after.requested_bytes == start.requested_bytes + bytes.0
            &&& after.hits <= start.hits + count
            &&& after.hit_bytes <= start.hit_bytes + bytes.0
            &&& after.source_requests <= start.source_requests + count
            &&& after.source_bytes <= start.source_bytes + bytes.1
        }),
    decreases count,
{
    if count > 0 {
        lemma_tally_bounds(start, workload, policy, hits, count - 1);
        assert(workload.requests()[count - 1].range.valid());
        assert(workload.download_at(count - 1, policy).valid());
    }
}

proof fn lemma_tally_prefix(
    start: Tally,
    workload: Workload,
    policy: DownloadPolicy,
    one: Seq<bool>,
    other: Seq<bool>,
    count: int,
)
    requires
        0 <= count <= one.len(),
        count <= other.len(),
        forall|i: int| 0 <= i < count ==> one[i] == other[i],
    ensures
        tally_after(start, workload, policy, one, count) == tally_after(
            start,
            workload,
            policy,
            other,
            count,
        ),
    decreases count,
{
    if count > 0 {
        lemma_tally_prefix(start, workload, policy, one, other, count - 1);
    }
}

/// Replays every request of a workload: each is looked up, counted, and on a
/// miss downloaded, cached and counted.
pub fn execute_pass<E: Engine>(
    engine: &mut E,
    workload: &Workload,
    downloader: DownloadPolicy,
    source_payload: &Bytes,
    traffic: &mut Traffic,
) -> (result: Result<(), ReplayError>)
    requires
        old(engine).ready(),
        workload.well_formed(downloader),
        pass_fits(old(traffic)@, *workload, downloader),
    ensures
        final(engine).ready(),
        pass_result(
            *old(engine),
            *final(engine),
            old(traffic)@,
            final(traffic)@,
            *workload,
            downloader,
            payload::contents(*source_payload),
            result,
        ),
{
    let ghost start = traffic@;
    let ghost source = payload::contents(*source_payload);
    let ghost mut hits: Seq<bool> = Seq::empty();
    let ghost mut states: Seq<E> = seq![*engine];
    let mut index: usize = 0;
    proof {
        lemma_ranges_valid(*workload, downloader);
    }
    while index < workload.accesses.len()
        invariant
            index <= workload.accesses@.len(),
            workload.well_formed(downloader),
            ranges_valid(*workload, downloader),
            start == old(traffic)@,
            source == payload::contents(*source_payload),
            pass_fits(start, *workload, downloader),
            engine.ready(),
            hits.len() == index,
            passed(states, *workload, downloader, source, hits),
            states.first() == *old(engine),
            states.last() == *engine,
            traffic@ == tally_after(start, *workload, downloader, hits, index as int),
        decreases workload.accesses.len() - index,
    {
        let access = &workload.accesses[index];
        let downloaded = workload.downloaded_range(index, downloader);
        let ghost before = *engine;
        let hit = engine.get(access, downloaded);
        let ghost looked = *engine;
        let ghost longer = hits.push(hit);
        proof {
            let count = workload.accesses@.len() as int;
            assert(workload.requests()[index as int] == access@);
            assert(workload.requests()[index as int].range.valid());
            assert(before.answers(access@, downloaded@, hit, looked));
            lemma_tally_bounds(start, *workload, downloader, hits, index as int);
            lemma_pass_bytes(*workload, downloader, index + 1, count);
            lemma_tally_prefix(start, *workload, downloader, hits, longer, index as int);
        }
        record_request(traffic, access, hit);
        if !hit {
            let payload = match source_payload_slice(source_payload, downloaded) {
                Ok(payload) => payload,
                Err(error) => {
                    assert(stopped(
                        states.last(),
                        *engine,
                        *workload,
                        downloader,
                        source,
                        hits.len() as int,
                        error,
                    ));
                    return Err(error);
                },
            };
            match engine.populate(access, downloaded, payload) {
                Ok(done) => {
                    assert(done == ());
                },
                Err(message) => {
                    assert(stopped(
                        states.last(),
                        *engine,
                        *workload,
                        downloader,
                        source,
                        hits.len() as int,
                        ReplayError::Populate(message),
                    ));
                    return Err(ReplayError::Populate(message));
                },
            }
            record_download(traffic, downloaded);
        }
        proof {
            assert(served(before, *engine, *workload, downloader, source, index as int, hit));
            let further = states.push(*engine);
            assert forall|i: int| 0 <= i < longer.len() implies served(
                further[i],
                further[i + 1],
                *workload,
                downloader,
                source,
                i,
                #[trigger] longer[i],
            ) by {
                if i < index {
                    assert(longer[i] == hits[i]);
                }
            }
            hits = longer;
            states = further;
        }
        index += 1;
    }
    assert(traffic@ == tally_after(start, *workload, downloader, hits, hits.len() as int));
    Ok(())
}

/// Returns whether the counts stay representable, however a pass turns out.
pub fn can_replay(workload: &Workload, downloader: DownloadPolicy, traffic: &Traffic) -> (fits: bool)
    requires
        workload.well_formed(downloader),
    ensures
        fits == pass_fits(traffic@, *workload, downloader),
{
    let count = workload.accesses.len() as u64;
    let mut requested: u64 = 0;
    let mut downloaded: u64 = 0;
    let mut index: usize = 0;
    proof {
        lemma_ranges_valid(*workload, downloader);
    }
    while index < workload.accesses.len()
        invariant
            index <= workload.accesses@.len(),
            workload.well_formed(downloader),
            ranges_valid(*workload, downloader),
            requested == pass_bytes(*workload, downloader, index as int).0,
            downloaded == pass_bytes(*workload, downloader, index as int).1,
        decreases workload.accesses.len() - index,
    {
        proof {
            assert(workload.requests()[index as int] == workload.accesses@[index as int]@);
            lemma_pass_bytes(
                *workload,
                downloader,
                index + 1,
                workload.accesses@.len() as int,
            );
        }
        let more_requested = requested.checked_add(workload.accesses[index].requested.len());
        let more_downloaded = downloaded.checked_add(
            workload.downloaded_range(index, downloader).len(),
        );
        match (more_requested, more_downloaded) {
            (Some(more_requested), Some(more_downloaded)) => {
                requested = more_requested;
                downloaded = more_downloaded;
            },
            _ => {
                return false;
            },
        }
        index += 1;
    }
    traffic.requests <= u64::MAX - count && traffic.hits <= u64::MAX - count
        && traffic.source_requests <= u64::MAX - count && traffic.requested_bytes <= u64::MAX
        - requested && traffic.hit_bytes <= u64::MAX - requested && traffic.source_bytes <= u64::MAX
        - downloaded
}

/// Whether `passes` whole passes that nothing counts take an engine from
/// `before` to `after`, or one of them stops with an error.
pub open spec fn warmup_result<E: Engine>(
    before: E,
    after: E,
    workload: Workload,
    policy: DownloadPolicy,
    source: Seq<u8>,
    passes: int,
    result: Result<(), ReplayError>,
) -> bool {
    exists|engines: Seq<E>|
        {
            &&& #[trigger] warmed(engines, workload, policy, source)
            &&& engines.first() == before
            &&& match result {
                Ok(_) => engines.len() == passes + 1 && engines.last() == after,
                Err(error) => {
                    &&& engines.len() <= passes
                    &&& exists|end: Tally| #[trigger]
                        pass_result(
                            engines.last(),
                            after,
                            Traffic::none()@,
                            end,
                            workload,
                            policy,
                            source,
                            Err::<(), ReplayError>(error),
                        )
                },
            }
        }
}

/// Replays a workload without counting, to warm an engine up.
pub fn warm_up<E: Engine>(
    engine: &mut E,
    workload: &Workload,
    downloader: DownloadPolicy,
    warmup_iterations: usize,
    source_payload: &Bytes,
) -> (result: Result<(), ReplayError>)
    requires
        old(engine).ready(),
        workload.well_formed(downloader),
        pass_fits(Traffic::none()@, *workload, downloader),
    ensures
        final(engine).ready(),
        warmup_result(
            *old(engine),
            *final(engine),
            *workload,
            downloader,
            payload::contents(*source_payload),
            warmup_iterations as int,
            result,
        ),
{
    let ghost source = payload::contents(*source_payload);
    let ghost mut engines: Seq<E> = seq![*engine];
    let mut iteration: usize = 0;
    while iteration < warmup_iterations
        invariant
            iteration <= warmup_iterations,
            workload.well_formed(downloader),
            source == payload::contents(*source_payload),
            pass_fits(Traffic::none()@, *workload, downloader),
            engine.ready(),
            engines.len() == iteration + 1,
            warmed(engines, *workload, downloader, source),
            engines.first() == *old(engine),
            engines.last() == *engine,
        decreases warmup_iterations - iteration,
    {
        let mut warmup_traffic = Traffic::default();
        let ghost before = *engine;
        match execute_pass(engine, workload, downloader, source_payload, &mut warmup_traffic) {
            Ok(done) => {
                assert(done == ());
            },
            Err(error) => {
                assert(pass_result(
                    engines.last(),
                    *engine,
                    Traffic::none()@,
                    warmup_traffic@,
                    *workload,
                    downloader,
                    source,
                    Err::<(), ReplayError>(error),
                ));
                return Err(error);
            },
        }
        proof {
            assert(completed(before, *engine, *workload, downloader, source));
            engines = engines.push(*engine);
        }
        iteration += 1;
    }
    Ok(())
}

/// Whether warming an engine up and measuring one pass takes it from `before`
/// to `after`, with `result`.
pub open spec fn run_result<E: Engine>(
    before: E,
    after: E,
    workload: Workload,
    policy: DownloadPolicy,
    source: Seq<u8>,
    warmups: int,
    result: Result<Traffic, ReplayError>,
) -> bool {
    ||| exists|warm: E|
        {
            &&& #[trigger] warmup_result(
                before,
                warm,
                workload,
                policy,
                source,
                warmups,
                Ok::<(), ReplayError>(()),
            )
            &&& measured(warm, after, workload, policy, source, result)
        }
    ||| result matches Err(error) && warmup_result(
        before,
        after,
        workload,
        policy,
        source,
        warmups,
        Err::<(), ReplayError>(error),
    )
}

/// Whether one pass that is counted from nothing takes an engine from `before`
/// to `after`, with `result`.
pub open spec fn measured<E: Engine>(
    before: E,
    after: E,
    workload: Workload,
    policy: DownloadPolicy,
    source: Seq<u8>,
    result: Result<Traffic, ReplayError>,
) -> bool {
    match result {
        Ok(traffic) => pass_result(
            before,
            after,
            Traffic::none()@,
            traffic@,
            workload,
            policy,
            source,
            Ok::<(), ReplayError>(()),
        ),
        Err(error) => exists|end: Tally| #[trigger]
            pass_result(
                before,
                after,
                Traffic::none()@,
                end,
                workload,
                policy,
                source,
                Err::<(), ReplayError>(error),
            ),
    }
}

/// Warms an engine up, and then counts one measured pass alone.
pub fn run_engine<E: Engine>(
    engine: &mut E,
    workload: &Workload,
    downloader: DownloadPolicy,
    warmup_iterations: usize,
    source_payload: &Bytes,
) -> (result: Result<Traffic, ReplayError>)
    requires
        old(engine).ready(),
        workload.well_formed(downloader),
        pass_fits(Traffic::none()@, *workload, downloader),
    ensures
        final(engine).ready(),
        run_result(
            *old(engine),
            *final(engine),
            *workload,
            downloader,
            payload::contents(*source_payload),
            warmup_iterations as int,
            result,
        ),
{
    match warm_up(engine, workload, downloader, warmup_iterations, source_payload) {
        Ok(done) => {
            assert(done == ());
        },
        Err(error) => {
            return Err(error);
        },
    }
    let ghost warm = *engine;
    let mut traffic = Traffic::default();
    match execute_pass(engine, workload, downloader, source_payload, &mut traffic) {
        Ok(done) => {
            assert(done == ());
            assert(measured(
                warm,
                *engine,
                *workload,
                downloader,
                payload::contents(*source_payload),
                Ok::<Traffic, ReplayError>(traffic),
            ));
            Ok(traffic)
        },
        Err(error) => {
            assert(measured(
                warm,
                *engine,
                *workload,
                downloader,
                payload::contents(*source_payload),
                Err::<Traffic, ReplayError>(error),
            ));
            Err(error)
        },
    }
}

proof fn lemma_extreme_tallies(
    start: Tally,
    workload: Workload,
    policy: DownloadPolicy,
    hit: bool,
    hits: Seq<bool>,
    count: int,
)
    requires
        0 <= count <= hits.len(),
        forall|i: int| 0 <= i < hits.len() ==> #[trigger] hits[i] == hit,
    ensures
        ({
            let end = tally_after(start, workload, policy, hits, count);
            let bytes = pass_bytes(workload, policy, count);
            &&& end.requests == start.requests + count
            &&& end.requested_bytes == start.requested_bytes + bytes.0
            &&& hit ==> end.hits == start.hits + count && end.hit_bytes == start.hit_bytes + bytes.0
                && end.source_requests == start.source_requests && end.source_bytes
                == start.source_bytes
            &&& !hit ==> end.source_requests == start.source_requests + count && end.source_bytes
                == start.source_bytes + bytes.1 && end.hits == start.hits && end.hit_bytes
                == start.hit_bytes
        }),
    decreases count,
{
    if count > 0 {
        lemma_extreme_tallies(start, workload, policy, hit, hits, count - 1);
        assert(hits[count - 1] == hit);
    }
}

/// A pass can be counted exactly if it can be counted where every request hits and where
/// every request misses.
pub proof fn passes_fit_exactly_if_their_extremes_do(
    start: Tally,
    workload: Workload,
    policy: DownloadPolicy,
    hits: Seq<bool>,
    misses: Seq<bool>,
)
    requires
        hits.len() == workload.accesses@.len(),
        misses.len() == workload.accesses@.len(),
        forall|i: int| 0 <= i < hits.len() ==> #[trigger] hits[i],
        forall|i: int| 0 <= i < misses.len() ==> !#[trigger] misses[i],
        start.requests <= u64::MAX,
        start.requested_bytes <= u64::MAX,
        start.hits <= u64::MAX,
        start.hit_bytes <= u64::MAX,
        start.source_requests <= u64::MAX,
        start.source_bytes <= u64::MAX,
    ensures
        ({
            let most = tally_after(start, workload, policy, hits, hits.len() as int);
            let least = tally_after(start, workload, policy, misses, misses.len() as int);
            pass_fits(start, workload, policy) <==> {
                &&& most.requests <= u64::MAX
                &&& most.requested_bytes <= u64::MAX
                &&& most.hits <= u64::MAX
                &&& most.hit_bytes <= u64::MAX
                &&& least.source_requests <= u64::MAX
                &&& least.source_bytes <= u64::MAX
            }
        }),
{
    lemma_extreme_tallies(start, workload, policy, true, hits, hits.len() as int);
    assert forall|i: int| 0 <= i < misses.len() implies #[trigger] misses[i] == false by {}
    lemma_extreme_tallies(start, workload, policy, false, misses, misses.len() as int);
}

/// However a pass turns out, it counts every request once, with all its bytes,
/// and every request either as a hit or as a source request.
pub proof fn passes_count_every_request_once(
    workload: Workload,
    policy: DownloadPolicy,
    hits: Seq<bool>,
)
    requires
        hits.len() == workload.accesses@.len(),
    ensures
        ({
            let after = tally_after(
                Traffic::none()@,
                workload,
                policy,
                hits,
                hits.len() as int,
            );
            &&& after.requests == hits.len()
            &&& after.requested_bytes == pass_bytes(workload, policy, hits.len() as int).0
            &&& after.hits + after.source_requests == after.requests
        }),
{
    lemma_pass_counts(workload, policy, hits, hits.len() as int);
}

proof fn lemma_pass_counts(
    workload: Workload,
    policy: DownloadPolicy,
    hits: Seq<bool>,
    count: int,
)
    requires
        0 <= count <= hits.len(),
    ensures
        ({
            let after = tally_after(Traffic::none()@, workload, policy, hits, count);
            &&& after.requests == count
            &&& after.requested_bytes == pass_bytes(workload, policy, count).0
            &&& after.hits + after.source_requests == after.requests
        }),
    decreases count,
{
    if count > 0 {
        lemma_pass_counts(workload, policy, hits, count - 1);
    }
}

/// Request by request, a pass counts one request with its bytes. A hit counts as such
/// with the same bytes, and any other request counts one source request with the bytes
/// of what is fetched for it: the expanded range, or exactly the request.
pub proof fn passes_count_hits_and_downloads(
    start: Tally,
    workload: Workload,
    policy: DownloadPolicy,
    hits: Seq<bool>,
    i: int,
)
    requires
        0 <= i < hits.len(),
        hits.len() == workload.accesses@.len(),
    ensures
        tally_after(start, workload, policy, hits, 0) == start,
        ({
            let before = tally_after(start, workload, policy, hits, i);
            let after = tally_after(start, workload, policy, hits, i + 1);
            let requested = workload.accesses@[i]@.range;
            let fetched = if policy == DownloadPolicy::Expanded {
                workload.expanded_downloads@[i]@
            } else {
                requested
            };
            &&& after.requests == before.requests + 1
            &&& after.requested_bytes == before.requested_bytes + (requested.end - requested.start)
            &&& hits[i] ==> {
                &&& after.hits == before.hits + 1
                &&& after.hit_bytes == before.hit_bytes + (requested.end - requested.start)
                &&& after.source_requests == before.source_requests
                &&& after.source_bytes == before.source_bytes
            }
            &&& !hits[i] ==> {
                &&& after.hits == before.hits
                &&& after.hit_bytes == before.hit_bytes
                &&& after.source_requests == before.source_requests + 1
                &&& after.source_bytes == before.source_bytes + (fetched.end - fetched.start)
            }
        }),
{
    assert(workload.requests()[i] == workload.accesses@[i]@);
}

proof fn lemma_pass_splits(
    start: Tally,
    workload: Workload,
    policy: DownloadPolicy,
    hits: Seq<bool>,
    count: int,
)
    requires
        0 <= count <= hits.len(),
    ensures
        ({
            let end = tally_after(start, workload, policy, hits, count);
            &&& end.requests == start.requests + count
            &&& end.hits + end.source_requests == start.hits + start.source_requests + count
        }),
    decreases count,
{
    if count > 0 {
        lemma_pass_splits(start, workload, policy, hits, count - 1);
    }
}

/// A whole pass counts as many requests as the workload has, each as a hit or as a
/// source request. A pass that stops counts the request that it stopped at, neither as
/// a hit nor as a source request, and none after it.
pub proof fn passes_count_what_they_reached<E: Engine>(
    before: E,
    after: E,
    start: Tally,
    end: Tally,
    workload: Workload,
    policy: DownloadPolicy,
    source: Seq<u8>,
    result: Result<(), ReplayError>,
)
    requires
        pass_result(before, after, start, end, workload, policy, source, result),
    ensures
        ({
            let counted = end.requests - start.requests;
            let settled = (end.hits - start.hits) + (end.source_requests - start.source_requests);
            &&& result is Ok ==> counted == workload.accesses@.len() && settled == counted
            &&& result is Err ==> 0 < counted <= workload.accesses@.len() && settled == counted - 1
        }),
{
    let (states, hits) = choose|states: Seq<E>, hits: Seq<bool>|
        {
            &&& #[trigger] passed(states, workload, policy, source, hits)
            &&& states.first() == before
            &&& match result {
                Ok(_) => {
                    &&& hits.len() == workload.accesses@.len()
                    &&& states.last() == after
                    &&& end == tally_after(start, workload, policy, hits, hits.len() as int)
                },
                Err(error) => {
                    &&& hits.len() < workload.accesses@.len()
                    &&& stopped(
                        states.last(),
                        after,
                        workload,
                        policy,
                        source,
                        hits.len() as int,
                        error,
                    )
                    &&& end == tally_after(
                        start,
                        workload,
                        policy,
                        hits,
                        hits.len() as int,
                    ).requested(workload.requests()[hits.len() as int].range.len(), false)
                },
            }
        };
    lemma_pass_splits(start, workload, policy, hits, hits.len() as int);
}

/// A run counts its last pass alone, however many passes came before: as many requests as
/// the workload has, with all their bytes, each as a hit or as a source request.
pub proof fn runs_count_one_pass<E: Engine>(
    before: E,
    after: E,
    workload: Workload,
    policy: DownloadPolicy,
    source: Seq<u8>,
    warmups: int,
    traffic: Traffic,
)
    requires
        run_result(
            before,
            after,
            workload,
            policy,
            source,
            warmups,
            Ok::<Traffic, ReplayError>(traffic),
        ),
    ensures
        traffic.requests == workload.accesses@.len(),
        traffic.hits + traffic.source_requests == traffic.requests,
        traffic.requested_bytes == pass_bytes(
            workload,
            policy,
            workload.accesses@.len() as int,
        ).0,
{
    let warm = choose|warm: E|
        {
            &&& #[trigger] warmup_result(
                before,
                warm,
                workload,
                policy,
                source,
                warmups,
                Ok::<(), ReplayError>(()),
            )
            &&& measured(
                warm,
                after,
                workload,
                policy,
                source,
                Ok::<Traffic, ReplayError>(traffic),
            )
        };
    let start = Traffic::none()@;
    passes_count_what_they_reached(
        warm,
        after,
        start,
        traffic@,
        workload,
        policy,
        source,
        Ok::<(), ReplayError>(()),
    );
    let (states, hits) = choose|states: Seq<E>, hits: Seq<bool>|
        {
            &&& #[trigger] passed(states, workload, policy, source, hits)
            &&& states.first() == warm
            &&& hits.len() == workload.accesses@.len()
            &&& states.last() == after
            &&& traffic@ == tally_after(start, workload, policy, hits, hits.len() as int)
        };
    lemma_pass_counts(workload, policy, hits, hits.len() as int);
}

/// The weights of the first `count` requests with what is fetched for each of them.
pub open spec fn total_weight(
    workload: Workload,
    policy: DownloadPolicy,
    weight: spec_fn(Request, Interval) -> int,
    count: int,
) -> int
    decreases count,
{
    if count <= 0 {
        0
    } else {
        let request = workload.accesses@[count - 1]@;
        let fetched = match policy {
            DownloadPolicy::Expanded => workload.expanded_downloads@[count - 1]@,
            DownloadPolicy::Exact => request.range,
        };
        total_weight(workload, policy, weight, count - 1) + weight(request, fetched)
    }
}

/// A run serves every request once in each of its passes, with what is fetched for that
/// request: whatever an engine adds up over the requests that hit and the downloads that
/// it takes, a run adds it up over the whole workload, for each warm-up pass and once
/// more.
pub proof fn runs_serve_every_request_in_every_pass<E: Engine>(
    before: E,
    after: E,
    workload: Workload,
    policy: DownloadPolicy,
    source: Seq<u8>,
    warmups: int,
    traffic: Traffic,
    sum: spec_fn(E) -> int,
    weight: spec_fn(Request, Interval) -> int,
)
    requires
        warmups >= 0,
        run_result(
            before,
            after,
            workload,
            policy,
            source,
            warmups,
            Ok::<Traffic, ReplayError>(traffic),
        ),
        forall|one: E, request: Request, downloaded: Interval, hit: bool, other: E| #[trigger]
            one.answers(request, downloaded, hit, other) ==> sum(other) == sum(one) + if hit {
                weight(request, downloaded)
            } else {
                0
            },
        forall|one: E, request: Request, downloaded: Interval, payload: Seq<u8>, other: E| #[trigger]
            one.takes(request, downloaded, payload, Ok::<(), String>(()), other) ==> sum(other)
                == sum(one) + weight(request, downloaded),
    ensures
        sum(after) == sum(before) + (warmups + 1) * total_weight(
            workload,
            policy,
            weight,
            workload.accesses@.len() as int,
        ),
{
    let total = total_weight(workload, policy, weight, workload.accesses@.len() as int);
    let warm = choose|warm: E|
        {
            &&& #[trigger] warmup_result(
                before,
                warm,
                workload,
                policy,
                source,
                warmups,
                Ok::<(), ReplayError>(()),
            )
            &&& measured(
                warm,
                after,
                workload,
                policy,
                source,
                Ok::<Traffic, ReplayError>(traffic),
            )
        };
    let engines = choose|engines: Seq<E>|
        {
            &&& #[trigger] warmed(engines, workload, policy, source)
            &&& engines.first() == before
            &&& engines.len() == warmups + 1
            &&& engines.last() == warm
        };
    lemma_warmed_sum(engines, workload, policy, source, sum, weight, warmups);
    lemma_pass_sum(warm, after, traffic@, workload, policy, source, sum, weight);
    assert((warmups + 1) * total == warmups * total + total) by (nonlinear_arith);
}

proof fn lemma_warmed_sum<E: Engine>(
    engines: Seq<E>,
    workload: Workload,
    policy: DownloadPolicy,
    source: Seq<u8>,
    sum: spec_fn(E) -> int,
    weight: spec_fn(Request, Interval) -> int,
    count: int,
)
    requires
        warmed(engines, workload, policy, source),
        0 <= count < engines.len(),
        forall|one: E, request: Request, downloaded: Interval, hit: bool, other: E| #[trigger]
            one.answers(request, downloaded, hit, other) ==> sum(other) == sum(one) + if hit {
                weight(request, downloaded)
            } else {
                0
            },
        forall|one: E, request: Request, downloaded: Interval, payload: Seq<u8>, other: E| #[trigger]
            one.takes(request, downloaded, payload, Ok::<(), String>(()), other) ==> sum(other)
                == sum(one) + weight(request, downloaded),
    ensures
        sum(engines[count]) == sum(engines[0]) + count * total_weight(
            workload,
            policy,
            weight,
            workload.accesses@.len() as int,
        ),
    decreases count,
{
    let total = total_weight(workload, policy, weight, workload.accesses@.len() as int);
    if count > 0 {
        lemma_warmed_sum(engines, workload, policy, source, sum, weight, count - 1);
        assert(completed(engines[count - 1], engines[count], workload, policy, source));
        let end = choose|end: Tally| #[trigger]
            pass_result(
                engines[count - 1],
                engines[count],
                Traffic::none()@,
                end,
                workload,
                policy,
                source,
                Ok::<(), ReplayError>(()),
            );
        lemma_pass_sum(
            engines[count - 1],
            engines[count],
            end,
            workload,
            policy,
            source,
            sum,
            weight,
        );
        assert(count * total == (count - 1) * total + total) by (nonlinear_arith);
    } else {
        assert(count * total == 0) by (nonlinear_arith)
            requires
                count == 0,
        ;
    }
}

proof fn lemma_pass_sum<E: Engine>(
    before: E,
    after: E,
    end: Tally,
    workload: Workload,
    policy: DownloadPolicy,
    source: Seq<u8>,
    sum: spec_fn(E) -> int,
    weight: spec_fn(Request, Interval) -> int,
)
    requires
        pass_result(
            before,
            after,
            Traffic::none()@,
            end,
            workload,
            policy,
            source,
            Ok::<(), ReplayError>(()),
        ),
        forall|one: E, request: Request, downloaded: Interval, hit: bool, other: E| #[trigger]
            one.answers(request, downloaded, hit, other) ==> sum(other) == sum(one) + if hit {
                weight(request, downloaded)
            } else {
                0
            },
        forall|one: E, request: Request, downloaded: Interval, payload: Seq<u8>, other: E| #[trigger]
            one.takes(request, downloaded, payload, Ok::<(), String>(()), other) ==> sum(other)
                == sum(one) + weight(request, downloaded),
    ensures
        sum(after) == sum(before) + total_weight(
            workload,
            policy,
            weight,
            workload.accesses@.len() as int,
        ),
{
    let (states, hits) = choose|states: Seq<E>, hits: Seq<bool>|
        {
            &&& #[trigger] passed(states, workload, policy, source, hits)
            &&& states.first() == before
            &&& hits.len() == workload.accesses@.len()
            &&& states.last() == after
            &&& end == tally_after(
                Traffic::none()@,
                workload,
                policy,
                hits,
                hits.len() as int,
            )
        };
    lemma_states_sum(states, workload, policy, source, hits, sum, weight, hits.len() as int);
}

proof fn lemma_states_sum<E: Engine>(
    states: Seq<E>,
    workload: Workload,
    policy: DownloadPolicy,
    source: Seq<u8>,
    hits: Seq<bool>,
    sum: spec_fn(E) -> int,
    weight: spec_fn(Request, Interval) -> int,
    count: int,
)
    requires
        passed(states, workload, policy, source, hits),
        0 <= count <= hits.len() <= workload.accesses@.len(),
        forall|one: E, request: Request, downloaded: Interval, hit: bool, other: E| #[trigger]
            one.answers(request, downloaded, hit, other) ==> sum(other) == sum(one) + if hit {
                weight(request, downloaded)
            } else {
                0
            },
        forall|one: E, request: Request, downloaded: Interval, payload: Seq<u8>, other: E| #[trigger]
            one.takes(request, downloaded, payload, Ok::<(), String>(()), other) ==> sum(other)
                == sum(one) + weight(request, downloaded),
    ensures
        sum(states[count]) == sum(states[0]) + total_weight(workload, policy, weight, count),
    decreases count,
{
    if count > 0 {
        let i = count - 1;
        lemma_states_sum(states, workload, policy, source, hits, sum, weight, i);
        let hit = hits[i];
        assert(served(states[i], states[i + 1], workload, policy, source, i, hits[i]));
        assert(workload.requests()[i] == workload.accesses@[i]@);
        let request = workload.requests()[i];
        let downloaded = workload.download_at(i, policy);
        let looked = choose|looked: E| #[trigger]
            states[i].answers(request, downloaded, hit, looked) && if hit {
                states[i + 1] == looked
            } else {
                &&& downloaded.len() <= usize::MAX
                &&& downloaded.len() <= source.len()
                &&& looked.takes(
                    request,
                    downloaded,
                    source.take(downloaded.len()),
                    Ok::<(), String>(()),
                    states[i + 1],
                )
            };
        assert(states[i].answers(request, downloaded, hit, looked));
    }
}

/// How a cache without containment lookups is keyed.
#[derive(Clone, Copy, Debug, PartialEq, Eq, Structural)]
pub enum NativeFoyerKeyMode {
    /// Key entries by the application's exact requested range.
    ExactRequest,
    /// Expand before lookup and key entries by that exact expanded range.
    ExpandedDownload,
}

impl NativeFoyerKeyMode {
    /// Returns the name of an engine keyed this way.
    pub fn name(self) -> (name: &'static str)
        ensures
            name@ == (match self {
                NativeFoyerKeyMode::ExactRequest => "foyer-native-exact-key"@,
                NativeFoyerKeyMode::ExpandedDownload => "foyer-native-expanded-key"@,
            }),
    {
        match self {
            NativeFoyerKeyMode::ExactRequest => "foyer-native-exact-key",
            NativeFoyerKeyMode::ExpandedDownload => "foyer-native-expanded-key",
        }
    }

    /// Returns the range that an access is keyed by.
    pub fn range(self, access: &Access, downloaded: ByteRange) -> (range: ByteRange)
        ensures
            range == (match self {
                NativeFoyerKeyMode::ExactRequest => access.requested,
                NativeFoyerKeyMode::ExpandedDownload => downloaded,
            }),
    {
        match self {
            NativeFoyerKeyMode::ExactRequest => access.requested,
            NativeFoyerKeyMode::ExpandedDownload => downloaded,
        }
    }
}

} // verus!

use bytes::Bytes;
use feuer::byte_count::{byte_count_or, parse_byte_count, parse_bytes, ByteCountError};
use feuer::downloader::{
    coalesced_downloads, expanded_download_ranges, Access, DownloadConfig, DownloadPolicy, PendingDownload,
    DEFAULT_COALESCING_DISTANCE_BYTES, DEFAULT_WHOLE_SPLIT_THRESHOLD_BYTES,
};
use feuer::engines::{FeuerEngine, NativeFoyerEngine};
use feuer::keys::ObjectKey;
use feuer::range::ByteRange;
use feuer::replay::{
    can_replay, max_download_len, run_engine, source_payload_slice, trace_workload, Engine,
    NativeFoyerKeyMode, ReplayError, Traffic, Workload, WorkloadError,
};
use feuer::timestamp::{parse_timestamp_millis, TimestampError, TimestampPart};
use feuer::trace::{parse_trace, parse_trace_line, FieldError, TraceError, TraceField};

struct WarmupEngine {
    populated: bool,
}

impl Engine for WarmupEngine {
    fn name(&self) -> &'static str {
        "warmup-test"
    }

    fn get(&mut self, _access: &Access, _downloaded: ByteRange) -> bool {
        self.populated
    }

    fn populate(
        &mut self,
        _access: &Access,
        _downloaded: ByteRange,
        _payload: Bytes,
    ) -> Result<(), String> {
        self.populated = true;
        Ok(())
    }

    fn used_payload_bytes(&self) -> u64 {
        u64::from(self.populated)
    }
}

#[derive(Default)]
struct RangeEngine {
    entries: Vec<(ObjectKey, ByteRange)>,
}

impl Engine for RangeEngine {
    fn name(&self) -> &'static str {
        "range-test"
    }

    fn get(&mut self, access: &Access, _downloaded: ByteRange) -> bool {
        self.entries
            .iter()
            .any(|(key, downloaded)| key == &access.object_key && downloaded.contains(access.requested))
    }

    fn populate(
        &mut self,
        access: &Access,
        downloaded: ByteRange,
        payload: Bytes,
    ) -> Result<(), String> {
        assert!(downloaded.contains(access.requested));
        assert_eq!(payload.len() as u64, downloaded.len());
        self.entries.push((access.object_key.clone(), downloaded));
        Ok(())
    }

    fn used_payload_bytes(&self) -> u64 {
        self.entries.iter().map(|(_, range)| range.len()).sum()
    }
}

struct FullEngine;

impl Engine for FullEngine {
    fn name(&self) -> &'static str {
        "full-test"
    }

    fn get(&mut self, _access: &Access, _downloaded: ByteRange) -> bool {
        false
    }

    fn populate(
        &mut self,
        _access: &Access,
        _downloaded: ByteRange,
        _payload: Bytes,
    ) -> Result<(), String> {
        Err("no room".to_owned())
    }

    fn used_payload_bytes(&self) -> u64 {
        0
    }
}

fn range(start: u64, end: u64) -> ByteRange {
    ByteRange::new(start, end).unwrap()
}

fn access(key: &str, size: u64, start: u64, end: u64, time: u64) -> Access {
    Access {
        object_key: key.to_owned(),
        object_size: size,
        requested: range(start, end),
        timestamp_millis: time,
    }
}

#[test]
fn warmup_preserves_cache_state_but_not_reported_traffic() {
    let workload = Workload {
        name: "test",
        accesses: vec![Access {
            object_key: "object".into(),
            object_size: 1,
            requested: ByteRange::new(0, 1).unwrap(),
            timestamp_millis: 0,
        }],
        expanded_downloads: vec![ByteRange::new(0, 1).unwrap()],
        download_config: DownloadConfig {
            coalescing_distance_bytes: DEFAULT_COALESCING_DISTANCE_BYTES,
            whole_split_threshold_bytes: DEFAULT_WHOLE_SPLIT_THRESHOLD_BYTES,
        },
    };
    let mut engine = WarmupEngine { populated: false };
    let traffic = run_engine(
        &mut engine,
        &workload,
        DownloadPolicy::Exact,
        1,
        &Bytes::from_static(&[0]),
    )
    .unwrap();

    assert_eq!(traffic.requests, 1);
    assert_eq!(traffic.hits, 1);
    assert_eq!(traffic.source_requests, 0);
    assert_eq!(engine.used_payload_bytes(), 1);
}

#[test]
fn foyer_expanded_key_reuses_identical_expansions_for_distinct_requests() {
    let first = access("object", 20, 2, 4, 0);
    let second = access("object", 20, 12, 14, 0);
    let expanded = ByteRange::new(0, 20).unwrap();

    let mut expanded_key = NativeFoyerEngine::new(1 << 20, 1, NativeFoyerKeyMode::ExpandedDownload);
    assert!(!expanded_key.get(&first, expanded));
    expanded_key
        .populate(&first, expanded, Bytes::from(vec![0; 20]))
        .unwrap();
    assert!(expanded_key.get(&second, expanded));

    let mut exact_key = NativeFoyerEngine::new(1 << 20, 1, NativeFoyerKeyMode::ExactRequest);
    exact_key.populate(&first, expanded, Bytes::from(vec![0; 20])).unwrap();
    assert!(!exact_key.get(&second, expanded));
    assert!(exact_key.get(&first, expanded));
    assert_eq!(exact_key.used_payload_bytes(), 20);
    assert_eq!(exact_key.name(), "foyer-native-exact-key");
    assert_eq!(expanded_key.name(), "foyer-native-expanded-key");
}

#[test]
fn foyer_entries_leave_only_under_pressure() {
    let mut engine = NativeFoyerEngine::new(100, 1, NativeFoyerKeyMode::ExactRequest);
    for index in 0..10 {
        let one = access("object", 1_000, index * 10, index * 10 + 10, 0);
        engine
            .populate(&one, one.requested, Bytes::from(vec![1; 10]))
            .unwrap();
    }
    assert_eq!(engine.used_payload_bytes(), 100);
    assert!((0..10).all(|index| {
        let one = access("object", 1_000, index * 10, index * 10 + 10, 0);
        engine.get(&one, one.requested)
    }));

    // Taking an entry again replaces it; a further one displaces another.
    let again = access("object", 1_000, 90, 100, 0);
    engine
        .populate(&again, again.requested, Bytes::from(vec![2; 10]))
        .unwrap();
    let further = access("object", 1_000, 500, 510, 0);
    engine
        .populate(&further, further.requested, Bytes::from(vec![3; 10]))
        .unwrap();
    assert!(engine.get(&further, further.requested));
    assert!(engine.used_payload_bytes() <= 100);
}

#[test]
fn the_memory_cache_is_replayed_as_an_engine() {
    let config = DownloadConfig {
        coalescing_distance_bytes: 16,
        whole_split_threshold_bytes: 0,
    };
    let workload = trace_workload(
        vec![
            access("a", 100, 0, 10, 0),
            access("a", 100, 20, 30, 1),
            access("b", 100, 0, 10, 2),
            access("a", 100, 2, 8, 90),
            access("a", 100, 5, 15, 91),
        ],
        None,
        config,
    )
    .ok()
    .unwrap();
    let source = Bytes::from(vec![9; 40]);

    let mut engine = FeuerEngine::new(1_000, 2);
    assert_eq!(engine.name(), "feuer-value-aware");
    let traffic = run_engine(&mut engine, &workload, DownloadPolicy::Expanded, 0, &source).unwrap();
    assert_eq!((traffic.requests, traffic.requested_bytes), (5, 46));
    assert_eq!((traffic.hits, traffic.hit_bytes), (3, 26));
    assert_eq!((traffic.source_requests, traffic.source_bytes), (2, 40));
    assert_eq!(engine.used_payload_bytes(), 40);
    assert_eq!(engine.checked_used_payload_bytes(), Some(40));

    let mut engine = FeuerEngine::new(1_000, 2);
    let traffic = run_engine(&mut engine, &workload, DownloadPolicy::Expanded, 2, &source).unwrap();
    assert_eq!((traffic.hits, traffic.source_requests), (5, 0));
}

#[test]
fn expanded_downloader_assigns_one_coalesced_range_to_all_batch_members() {
    let accesses = vec![
        access("object", 100, 0, 10, 0),
        access("object", 100, 10, 20, 1),
        access("object", 100, 20, 30, 5),
        access("object", 100, 50, 60, 6),
    ];
    let download_config = DownloadConfig {
        coalescing_distance_bytes: DEFAULT_COALESCING_DISTANCE_BYTES,
        whole_split_threshold_bytes: 0,
    };
    let expanded_downloads = expanded_download_ranges(&accesses, download_config);
    let workload = Workload {
        name: "test",
        accesses,
        expanded_downloads,
        download_config,
    };
    assert_eq!(
        &workload.expanded_downloads[..3],
        &[ByteRange::new(0, 30).unwrap(); 3]
    );

    let traffic = run_engine(
        &mut RangeEngine::default(),
        &workload,
        DownloadPolicy::Expanded,
        0,
        &Bytes::from(vec![0; 60]),
    )
    .unwrap();

    assert_eq!(traffic.requests, 4);
    assert_eq!(traffic.hits, 2);
    assert_eq!(traffic.source_requests, 2);
    assert_eq!(traffic.source_bytes, 40);
}

#[test]
fn coalescing_distance_parameter_is_a_strict_upper_bound() {
    let distance = DEFAULT_COALESCING_DISTANCE_BYTES;
    let ranges_for_gap = |gap| {
        let accesses = vec![
            Access {
                object_key: "object".into(),
                object_size: 2 * distance,
                requested: ByteRange::new(0, 1).unwrap(),
                timestamp_millis: 0,
            },
            Access {
                object_key: "object".into(),
                object_size: 2 * distance,
                requested: ByteRange::new(1 + gap, 2 + gap).unwrap(),
                timestamp_millis: 1,
            },
        ];
        expanded_download_ranges(
            &accesses,
            DownloadConfig {
                coalescing_distance_bytes: distance,
                whole_split_threshold_bytes: 0,
            },
        )
    };

    assert_eq!(
        ranges_for_gap(distance - 1)[0],
        ByteRange::new(0, distance + 1).unwrap()
    );
    assert_eq!(ranges_for_gap(distance)[0], ByteRange::new(0, 1).unwrap());
}

#[test]
fn combined_downloads_keep_each_request_with_its_own_access() {
    let accesses = vec![
        access("b", 100, 0, 10, 0),
        access("a", 100, 30, 40, 1),
        access("a", 100, 0, 10, 2),
        access("a", 100, 12, 20, 3),
        access("a", 200, 12, 20, 4),
    ];
    let pending: Vec<PendingDownload> = accesses
        .iter()
        .enumerate()
        .map(|(order, access)| PendingDownload {
            order,
            access,
            downloaded: access.requested,
        })
        .collect();
    let downloads = coalesced_downloads(pending, 5);

    let ranges: Vec<ByteRange> = downloads.iter().map(|download| download.downloaded).collect();
    assert_eq!(
        ranges,
        vec![range(0, 20), range(30, 40), range(12, 20), range(0, 10)]
    );
    let members: Vec<Vec<(usize, u64)>> = downloads
        .iter()
        .map(|download| {
            download
                .accesses
                .iter()
                .map(|(order, access)| (*order, access.timestamp_millis))
                .collect()
        })
        .collect();
    assert_eq!(
        members,
        vec![vec![(2, 2), (3, 3)], vec![(1, 1)], vec![(4, 4)], vec![(0, 0)]]
    );
}

#[test]
fn exact_downloads_need_no_expanded_ranges() {
    let workload = Workload {
        name: "test",
        accesses: vec![
            access("object", 100, 0, 10, 0),
            access("object", 100, 30, 70, 1),
            access("object", 100, 0, 10, 2),
        ],
        expanded_downloads: Vec::new(),
        download_config: DownloadConfig {
            coalescing_distance_bytes: 1,
            whole_split_threshold_bytes: 0,
        },
    };
    assert_eq!(max_download_len(&workload, DownloadPolicy::Exact), 40);
    assert_eq!(max_download_len(&workload, DownloadPolicy::Expanded), 1);
    assert!(can_replay(&workload, DownloadPolicy::Exact, &Traffic::default()));
    let traffic = run_engine(
        &mut FeuerEngine::new(1_000, 1),
        &workload,
        DownloadPolicy::Exact,
        0,
        &Bytes::from(vec![0; 40]),
    )
    .unwrap();
    assert_eq!((traffic.requests, traffic.hits), (3, 1));
    assert_eq!((traffic.source_requests, traffic.source_bytes), (2, 50));
}

#[test]
fn foyer_engines_hold_more_than_their_capacity_only_for_one_entry() {
    let mut engine = NativeFoyerEngine::new(100, 1, NativeFoyerKeyMode::ExactRequest);
    for index in 0..50_u64 {
        let one = access("object", 10_000, index * 30, index * 30 + 30, 0);
        engine
            .populate(&one, one.requested, Bytes::from(vec![1; 30]))
            .unwrap();
        assert!(engine.used_payload_bytes() <= 100);
    }
    let large = access("object", 10_000, 5_000, 5_250, 0);
    engine
        .populate(&large, large.requested, Bytes::from(vec![2; 250]))
        .unwrap();
    assert_eq!(engine.used_payload_bytes(), 250);
    assert!(engine.get(&large, large.requested));

    // Shards that no entry outgrows stay within the whole capacity.
    let mut engine = NativeFoyerEngine::new(400, 4, NativeFoyerKeyMode::ExactRequest);
    for index in 0..200_u64 {
        let one = access("object", 10_000, index * 30, index * 30 + 30, 0);
        engine
            .populate(&one, one.requested, Bytes::from(vec![3; 30]))
            .unwrap();
        assert!(engine.used_payload_bytes() <= 400);
    }
}

#[test]
fn foyer_engines_take_any_capacity() {
    for (capacity, shards) in [(usize::MAX, 1), (usize::MAX, 4), (0, 1), (3, 8)] {
        let mut engine = NativeFoyerEngine::new(capacity, shards, NativeFoyerKeyMode::ExactRequest);
        let one = access("object", 1_000, 0, 10, 0);
        assert!(engine
            .populate(&one, one.requested, Bytes::from(vec![1; 10]))
            .is_ok());
        assert!(engine.get(&one, one.requested));
        assert_eq!(engine.used_payload_bytes(), 10);
    }
}

#[test]
fn batches_look_ahead_five_milliseconds_and_keep_objects_apart() {
    let config = DownloadConfig {
        coalescing_distance_bytes: 100,
        whole_split_threshold_bytes: 0,
    };
    let accesses = vec![
        access("a", 1_000, 0, 10, 100),
        access("b", 1_000, 5, 15, 101),
        access("a", 1_000, 50, 60, 105),
        access("a", 2_000, 20, 30, 105),
        access("a", 1_000, 10, 20, 106),
    ];
    assert_eq!(
        expanded_download_ranges(&accesses, config),
        vec![range(0, 60), range(5, 15), range(0, 60), range(20, 30), range(10, 20)]
    );

    // A trace out of order still stops at the first request past the deadline.
    let accesses = vec![
        access("a", 1_000, 0, 10, 100),
        access("a", 1_000, 20, 30, 200),
        access("a", 1_000, 40, 50, 101),
    ];
    assert_eq!(
        expanded_download_ranges(&accesses, config),
        vec![range(0, 10), range(20, 50), range(20, 50)]
    );

    // Without any coalescing distance nothing is combined.
    let apart = DownloadConfig {
        coalescing_distance_bytes: 0,
        whole_split_threshold_bytes: 0,
    };
    let accesses = vec![access("a", 100, 0, 10, 0), access("a", 100, 5, 15, 0)];
    assert_eq!(
        expanded_download_ranges(&accesses, apart),
        vec![range(0, 10), range(5, 15)]
    );
}

#[test]
fn source_cost_baseline_uses_requested_bytes_not_downloaded_bytes() {
    let traffic = Traffic {
        requests: 1,
        requested_bytes: 100,
        source_requests: 1,
        source_bytes: 200,
        ..Traffic::default()
    };

    assert_eq!(traffic.baseline_cost(), 10_000_100);
    assert_eq!(traffic.actual_cost(), 10_000_200);
    assert!(1.0 - traffic.actual_cost() as f64 / (traffic.baseline_cost() as f64) < 0.0);
}

#[test]
fn parses_the_captured_trace_shape() {
    let access = parse_trace_line(
        r#"{"object_num_bytes":100,"object_id":"object-a","requested_range_end":11,"requested_range_start":7,"timestamp":"2026-08-08T01:12:49.481Z"}"#,
    )
    .ok()
    .unwrap();
    assert_eq!(access.object_key, ObjectKey::from("object-a"));
    assert_eq!(access.object_size, 100);
    assert_eq!(access.requested, ByteRange::new(7, 11).unwrap());
    assert_eq!(
        access.timestamp_millis,
        parse_timestamp_millis("2026-08-08T01:12:49.481Z").unwrap()
    );
}

#[test]
fn trace_lines_allow_white_space_and_report_what_is_wrong() {
    let access = parse_trace_line(
        "{ \"object_id\" : \u{2003}\"é\" , \"object_num_bytes\" :\t007x, \"requested_range_start\": 1, \"requested_range_end\": 5, \"timestamp\": \"0001-01-01T00:00:00Z\"}",
    )
    .ok()
    .unwrap();
    assert_eq!(access.object_key, "é");
    assert_eq!(access.object_size, 7);
    assert_eq!(access.timestamp_millis, 0);

    let error = |line: &str| parse_trace_line(line).err().unwrap();
    assert_eq!(
        error("{}"),
        TraceError::Field(TraceField::ObjectId, FieldError::Missing)
    );
    assert_eq!(
        error("\"object_id\""),
        TraceError::Field(TraceField::ObjectId, FieldError::MissingColon)
    );
    assert_eq!(
        error("\"object_id\":7"),
        TraceError::Field(TraceField::ObjectId, FieldError::NotAString)
    );
    assert_eq!(
        error("\"object_id\":\"open"),
        TraceError::Field(TraceField::ObjectId, FieldError::NoClosingQuote)
    );
    assert_eq!(
        error("\"object_id\":\"a\",\"object_num_bytes\":-1"),
        TraceError::Field(TraceField::ObjectNumBytes, FieldError::NotUnsigned)
    );
    assert_eq!(
        error("\"object_id\":\"a\",\"object_num_bytes\":18446744073709551616"),
        TraceError::Field(TraceField::ObjectNumBytes, FieldError::TooLarge)
    );
    assert_eq!(
        error("\"object_id\":\"a\",\"object_num_bytes\":1,\"requested_range_start\":5,\"requested_range_end\":5"),
        TraceError::Range { start: 5, end: 5 }
    );
    assert_eq!(
        error("\"object_id\":\"a\",\"object_num_bytes\":1,\"requested_range_start\":4,\"requested_range_end\":5,\"timestamp\":\"now\""),
        TraceError::Timestamp {
            text: "now".to_owned(),
            error: TimestampError::Unsupported,
        }
    );
}

#[test]
fn traces_skip_blank_lines_and_number_failures_by_line() {
    let line = "\"object_id\":\"a\",\"object_num_bytes\":9,\"requested_range_start\":4,\"requested_range_end\":5,\"timestamp\":\"0001-01-01T00:00:01Z\"";
    let content = format!("{line}\r\n \t\r\n\n{line}");
    let accesses = parse_trace(&content).ok().unwrap();
    assert_eq!(accesses.len(), 2);
    assert_eq!(accesses[1].timestamp_millis, 1_000);

    let failure = parse_trace(&format!("{line}\n\nbroken\n")).err().unwrap();
    assert_eq!(failure.line, 3);
    assert_eq!(
        failure.error,
        TraceError::Field(TraceField::ObjectId, FieldError::Missing)
    );
    assert_eq!(parse_trace("").ok().unwrap().len(), 0);
}

#[test]
fn expanded_downloader_honors_the_whole_split_threshold() {
    let config = DownloadConfig {
        coalescing_distance_bytes: DEFAULT_COALESCING_DISTANCE_BYTES,
        whole_split_threshold_bytes: 8 << 20,
    };
    let small_split = Access {
        object_key: "small-split".into(),
        object_size: config.whole_split_threshold_bytes - 1,
        requested: ByteRange::new(3 << 20, 6 << 20).unwrap(),
        timestamp_millis: 0,
    };
    assert_eq!(
        small_split.downloaded_range(DownloadPolicy::Expanded, config),
        ByteRange::new(0, config.whole_split_threshold_bytes - 1).unwrap()
    );
    assert_eq!(
        small_split.downloaded_range(DownloadPolicy::Exact, config),
        small_split.requested
    );

    let threshold_split = Access {
        object_key: "threshold-split".into(),
        object_size: config.whole_split_threshold_bytes,
        requested: ByteRange::new((1 << 20) + 3, (2 << 20) + 3).unwrap(),
        timestamp_millis: 0,
    };
    assert_eq!(
        threshold_split.downloaded_range(DownloadPolicy::Expanded, config),
        threshold_split.requested
    );
}

#[test]
fn timestamp_parser_handles_day_boundaries() {
    let before = parse_timestamp_millis("2026-08-08T23:59:59.999Z").unwrap();
    let after = parse_timestamp_millis("2026-08-09T00:00:00.000Z").unwrap();
    assert_eq!(after - before, 1);
    assert_eq!(
        parse_timestamp_millis("2026-08-09T00:00:01Z").unwrap() % 1_000,
        0
    );
}

#[test]
fn timestamps_follow_the_calendar_and_reject_what_is_not_on_it() {
    assert_eq!(
        parse_timestamp_millis("1970-01-01T00:00:00Z"),
        Ok(719_162 * 86_400_000)
    );
    let day = 86_400_000;
    let at = |text: &str| parse_timestamp_millis(text).unwrap();
    assert_eq!(at("2024-03-01T00:00:00Z") - at("2024-02-28T00:00:00Z"), 2 * day);
    assert_eq!(at("2023-03-01T00:00:00Z") - at("2023-02-28T00:00:00Z"), day);
    assert_eq!(at("2000-02-29T00:00:00Z") - at("2000-02-28T00:00:00Z"), day);
    assert_eq!(at("+999-01-01T00:00:00Z"), at("0999-01-01T00:00:00Z"));
    assert_eq!(
        parse_timestamp_millis("1900-02-29T00:00:00Z"),
        Err(TimestampError::DayOutOfRange)
    );
    assert_eq!(
        parse_timestamp_millis("2026-04-31T00:00:00Z"),
        Err(TimestampError::DayOutOfRange)
    );
    assert_eq!(
        parse_timestamp_millis("0000-01-01T00:00:00Z"),
        Err(TimestampError::PartOutOfRange)
    );
    assert_eq!(
        parse_timestamp_millis("2026-13-01T00:00:00Z"),
        Err(TimestampError::PartOutOfRange)
    );
    assert_eq!(
        parse_timestamp_millis("2026-01-01T24:00:00Z"),
        Err(TimestampError::PartOutOfRange)
    );
    assert_eq!(
        parse_timestamp_millis("2026-01-01 00:00:00Z"),
        Err(TimestampError::Unsupported)
    );
    assert_eq!(
        parse_timestamp_millis("2026-01-01T00:00:00.5Z"),
        Err(TimestampError::Unsupported)
    );
    let parts = [
        ("20x6-01-01T00:00:00.000Z", TimestampPart::Year),
        ("20é-01-01T00:00:00.000Z", TimestampPart::Year),
        ("2026-0+-01T00:00:00.000Z", TimestampPart::Month),
        ("2026-01--1T00:00:00.000Z", TimestampPart::Day),
        ("2026-01-01T 0:00:00.000Z", TimestampPart::Hour),
        ("2026-01-01T00:a0:00.000Z", TimestampPart::Minute),
        ("2026-01-01T00:00:0b.000Z", TimestampPart::Second),
        ("2026-01-01T00:00:00.0c0Z", TimestampPart::Millisecond),
    ];
    for (text, part) in parts {
        assert_eq!(
            parse_timestamp_millis(text),
            Err(TimestampError::InvalidPart(part)),
            "{text}"
        );
    }
}

#[test]
fn environment_byte_counts_accept_documented_units() {
    assert_eq!(parse_byte_count("1MB").unwrap(), 1_000_000);
    assert_eq!(parse_byte_count("8MiB").unwrap(), 8 << 20);
}

#[test]
fn byte_counts_trim_ignore_case_and_reject_the_rest() {
    assert_eq!(parse_byte_count("17"), Ok(17));
    assert_eq!(parse_byte_count(" 17 b "), Ok(17));
    assert_eq!(parse_byte_count("\u{a0}2 kIb"), Ok(2_048));
    assert_eq!(parse_byte_count("3KB"), Ok(3_000));
    assert_eq!(parse_byte_count("1GiB"), Ok(1 << 30));
    assert_eq!(parse_byte_count("1gb"), Ok(1_000_000_000));
    assert_eq!(parse_byte_count("MiB"), Err(ByteCountError::NotANumber));
    assert_eq!(parse_byte_count(""), Err(ByteCountError::NotANumber));
    assert_eq!(parse_byte_count("+1"), Err(ByteCountError::NotANumber));
    assert_eq!(
        parse_byte_count("1 TB "),
        Err(ByteCountError::UnsupportedSuffix("tb".to_owned()))
    );
    assert_eq!(
        parse_byte_count("340282366920938463463374607431768211456"),
        Err(ByteCountError::NumberTooLarge)
    );
    assert_eq!(
        parse_byte_count("340282366920938463463374607431768211455KB"),
        Err(ByteCountError::Overflowed)
    );
    assert_eq!(
        parse_byte_count("340282366920938463463374607431768211455"),
        Ok(u128::MAX)
    );
    assert_eq!(parse_bytes("1KiB"), Ok(1_024));
    assert_eq!(
        parse_bytes("18446744073709551616"),
        Err(ByteCountError::DoesNotFit)
    );
    assert_eq!(byte_count_or(None, 9), Ok(9));
    assert_eq!(byte_count_or(Some("5MB".to_owned()), 9), Ok(5_000_000));
    assert_eq!(
        byte_count_or(Some("18446744073709551616".to_owned()), 9),
        Err(ByteCountError::DoesNotFit)
    );
}

#[test]
fn workloads_are_restricted_validated_and_expanded() {
    let config = DownloadConfig {
        coalescing_distance_bytes: 4,
        whole_split_threshold_bytes: 10,
    };
    let accesses = || {
        vec![
            access("a", 100, 0, 10, 5),
            access("small", 8, 2, 4, 6),
            access("a", 100, 12, 20, 7),
        ]
    };
    let workload = trace_workload(accesses(), None, config).ok().unwrap();
    assert_eq!(workload.name, "trace");
    assert_eq!(
        workload.expanded_downloads,
        vec![range(0, 20), range(0, 8), range(0, 20)]
    );
    assert_eq!(max_download_len(&workload, DownloadPolicy::Expanded), 20);
    assert_eq!(max_download_len(&workload, DownloadPolicy::Exact), 10);
    assert!(can_replay(&workload, DownloadPolicy::Expanded, &Traffic::default()));
    assert!(!can_replay(
        &workload,
        DownloadPolicy::Expanded,
        &Traffic {
            source_bytes: u64::MAX - 47,
            ..Traffic::default()
        }
    ));

    let workload = trace_workload(accesses(), Some(2), config).ok().unwrap();
    assert_eq!(workload.accesses.len(), 2);
    assert_eq!(
        trace_workload(accesses(), Some(0), config).err(),
        Some(WorkloadError::Empty)
    );
    assert_eq!(
        trace_workload(vec![access("a", 100, 0, 10, 5), access("a", 9, 0, 10, 4)], None, config).err(),
        Some(WorkloadError::BeyondObject {
            index: 1,
            start: 0,
            end: 10,
            object_size: 9,
        })
    );
    assert_eq!(
        trace_workload(vec![access("a", 100, 0, 10, 5), access("a", 10, 0, 10, 4)], None, config).err(),
        Some(WorkloadError::OutOfOrder { index: 1 })
    );
}

#[test]
fn replays_stop_at_short_sources_and_refusing_engines() {
    let config = DownloadConfig {
        coalescing_distance_bytes: 4,
        whole_split_threshold_bytes: 0,
    };
    let workload = trace_workload(vec![access("a", 100, 0, 10, 5)], None, config)
        .ok()
        .unwrap();
    assert_eq!(
        run_engine(
            &mut RangeEngine::default(),
            &workload,
            DownloadPolicy::Exact,
            0,
            &Bytes::from(vec![0; 9]),
        ),
        Err(ReplayError::SourceTooShort)
    );
    assert_eq!(
        run_engine(
            &mut FullEngine,
            &workload,
            DownloadPolicy::Exact,
            1,
            &Bytes::from(vec![0; 10]),
        ),
        Err(ReplayError::Populate("no room".to_owned()))
    );
    assert_eq!(
        source_payload_slice(&Bytes::from_static(b"abcdef"), range(7, 10)),
        Ok(Bytes::from_static(b"abc"))
    );
    assert_eq!(DownloadPolicy::Expanded.name(), "expanded");
    assert_eq!(DownloadPolicy::Exact.name(), "exact");
}

#[test]
fn every_white_space_character_is_trimmed_and_no_other() {
    let spaces = [
        '\u{9}', '\u{a}', '\u{b}', '\u{c}', '\u{d}', '\u{20}', '\u{85}', '\u{a0}', '\u{1680}',
        '\u{2000}', '\u{2005}', '\u{200a}', '\u{2028}', '\u{2029}', '\u{202f}', '\u{205f}',
        '\u{3000}',
    ];
    for space in spaces {
        assert_eq!(parse_byte_count(&format!("{space}7{space}kb{space}")), Ok(7_000));
    }
    for other in ['\u{8}', '\u{e}', '\u{1c}', '\u{180e}', '\u{200b}', '\u{2060}', '\u{feff}'] {
        assert_eq!(
            parse_byte_count(&format!("7{other}kb")),
            Err(ByteCountError::UnsupportedSuffix(format!("{other}kb")))
        );
    }
}

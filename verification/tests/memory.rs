use bytes::Bytes;
use feuer::evidence::{EVIDENCE_LIFETIME_ACCESSES, MAX_ACCESS_EVENTS_PER_KEY};
use feuer::keys::ObjectKey;
use feuer::range::ByteRange;
use feuer::shard::{after_publication, AdmissionStep, Shard};
use feuer::shard_state::{CompactionMode, COMPACTION_GRACE_ACCESSES};
use feuer::store::MemoryCache;
use feuer::Download;

fn range(start: u64, end: u64) -> ByteRange {
    ByteRange::new(start, end).unwrap()
}

fn download(expected_range: ByteRange, bytes: Bytes) -> Download {
    let download = Download::new(expected_range.start(), bytes).unwrap();
    assert_eq!(download.downloaded_range(), expected_range);
    download
}

fn populate(cache: &mut MemoryCache, object_key: ObjectKey, download: Download) {
    cache.insert(object_key, download);
}

fn cache(capacity: u64) -> MemoryCache {
    MemoryCache::with_shard_count(capacity, 1)
}

fn accessed_ranges(cache: &MemoryCache, key: &ObjectKey) -> Vec<ByteRange> {
    cache.accessed_ranges(key)
}

fn access_evidence_len(cache: &MemoryCache, key: &ObjectKey) -> usize {
    cache.access_evidence_len(key)
}

fn candidate_count(cache: &MemoryCache) -> usize {
    cache.shard(0).candidate_count()
}

#[test]
fn covering_lookup_returns_only_requested_bytes_and_shares_the_allocation() {
    let mut cache = cache(16);
    let key = ObjectKey::from("object");
    let value = Bytes::from_static(b"abcdefghij");

    populate(&mut cache, key.clone(), download(range(10, 20), value.clone()));
    let result = cache.get(&key, range(13, 17)).unwrap();

    assert_eq!(result, Bytes::from_static(b"defg"));
    assert_eq!(result.as_ptr(), value.slice(3..).as_ptr());
    assert_eq!(result.len(), 4);
    assert_eq!(cache.used_bytes(), 10);

    assert!(cache.remove(&key, range(10, 20)));
    assert_eq!(cache.used_bytes(), 0);
    assert_eq!(result, Bytes::from_static(b"defg"));
}

#[test]
fn different_identity_or_noncovering_ranges_miss() {
    let mut cache = cache(16);
    let key = ObjectKey::from("object-a");
    populate(&mut cache, key.clone(), download(range(10, 13), Bytes::from_static(b"abc")));

    assert!(cache.get(&ObjectKey::from("object-b"), range(10, 13)).is_none());
    assert!(cache.get(&key, range(9, 12)).is_none());
    assert!(cache.get(&key, range(12, 14)).is_none());
    assert!(cache.get(&key, range(13, 14)).is_none());
}

#[test]
fn adjacent_entries_are_not_assembled_into_a_hit() {
    let mut cache = cache(8);
    let key = ObjectKey::from("object");
    populate(&mut cache, key.clone(), download(range(0, 2), Bytes::from_static(b"ab")));
    populate(&mut cache, key.clone(), download(range(2, 4), Bytes::from_static(b"cd")));

    assert!(cache.get(&key, range(1, 3)).is_none());
}

#[test]
fn population_and_accesses_are_independent() {
    let mut cache = cache(16);
    let key = ObjectKey::from("object");
    populate(
        &mut cache,
        key.clone(),
        download(range(10, 20), Bytes::from_static(b"abcdefghij")),
    );
    assert!(accessed_ranges(&cache, &key).is_empty());

    assert!(cache.get(&key, range(11, 13)).is_some());
    assert_eq!(accessed_ranges(&cache, &key), vec![range(11, 13)]);

    populate(
        &mut cache,
        key.clone(),
        download(range(12, 18), Bytes::from_static(b"cdefgh")),
    );
    assert_eq!(accessed_ranges(&cache, &key), vec![range(11, 13)]);

    cache.record_access(&key, range(14, 16));
    assert_eq!(accessed_ranges(&cache, &key), vec![range(11, 13), range(14, 16)]);
}

#[test]
fn shared_download_population_is_deduplicated_but_each_waiter_records_an_access() {
    let mut cache = cache(16);
    let key = ObjectKey::from("object");
    let shared = download(range(0, 10), Bytes::from_static(b"abcdefghij"));

    for requested_range in [range(1, 3), range(7, 9), range(1, 3)] {
        cache.insert_and_record(key.clone(), shared.clone(), requested_range);
    }

    assert_eq!(cache.used_bytes(), 10);
    assert_eq!(cache.entry_count(), 1);
    assert_eq!(
        accessed_ranges(&cache, &key),
        vec![range(1, 3), range(7, 9), range(1, 3)]
    );
}

#[test]
fn partially_overlapping_downloads_coexist_and_do_not_form_a_hit() {
    let mut cache = cache(32);
    let key = ObjectKey::from("object");
    populate(&mut cache, key.clone(), download(range(0, 5), Bytes::from_static(b"abcde")));
    populate(&mut cache, key.clone(), download(range(8, 12), Bytes::from_static(b"ijkl")));

    populate(
        &mut cache,
        key.clone(),
        download(range(3, 10), Bytes::from_static(b"defghij")),
    );

    assert_eq!(cache.used_bytes(), 16);
    assert_eq!(cache.entry_count(), 3);
    assert_eq!(cache.get(&key, range(0, 3)).unwrap(), Bytes::from_static(b"abc"));
    assert_eq!(cache.get(&key, range(3, 10)).unwrap(), Bytes::from_static(b"defghij"));
    assert_eq!(cache.get(&key, range(10, 12)).unwrap(), Bytes::from_static(b"kl"));
    assert!(cache.get(&key, range(4, 11)).is_none());
}

#[test]
fn a_larger_download_replaces_contained_entries_but_not_partial_overlaps() {
    let mut cache = cache(32);
    let key = ObjectKey::from("object");
    populate(&mut cache, key.clone(), download(range(2, 5), Bytes::from_static(b"cde")));
    populate(
        &mut cache,
        key.clone(),
        download(range(10, 15), Bytes::from_static(b"klmno")),
    );

    populate(
        &mut cache,
        key.clone(),
        download(range(0, 12), Bytes::from_static(b"abcdefghijkl")),
    );

    assert_eq!(cache.used_bytes(), 17);
    assert_eq!(cache.entry_count(), 2);
    assert_eq!(
        cache.get(&key, range(0, 12)).unwrap(),
        Bytes::from_static(b"abcdefghijkl")
    );
    assert_eq!(cache.get(&key, range(12, 15)).unwrap(), Bytes::from_static(b"mno"));
    assert!(cache.get(&key, range(9, 13)).is_none());
}

#[test]
fn a_contained_download_is_discarded_without_replacing_cached_bytes() {
    let mut cache = cache(16);
    let key = ObjectKey::from("object");
    populate(
        &mut cache,
        key.clone(),
        download(range(0, 10), Bytes::from_static(b"abcdefghij")),
    );

    populate(
        &mut cache,
        key.clone(),
        download(range(2, 8), Bytes::from_static(b"XXXXXX")),
    );
    assert_eq!(cache.used_bytes(), 10);
    assert_eq!(cache.entry_count(), 1);
    assert_eq!(cache.get(&key, range(2, 8)).unwrap(), Bytes::from_static(b"cdefgh"));
}

#[test]
fn capacity_is_charged_by_retained_download_payload_bytes() {
    let mut cache = cache(5);
    let key = ObjectKey::from("object");
    populate(&mut cache, key.clone(), download(range(0, 3), Bytes::from_static(b"abc")));
    populate(&mut cache, key.clone(), download(range(3, 5), Bytes::from_static(b"de")));
    assert_eq!(cache.used_bytes(), 5);
    assert_eq!(cache.entry_count(), 2);

    populate(&mut cache, key.clone(), download(range(5, 9), Bytes::from_static(b"fghi")));
    assert!(cache.used_bytes() <= cache.capacity());
    assert_eq!(cache.used_bytes(), 4);
    assert_eq!(cache.entry_count(), 1);
    assert!(cache.get(&key, range(5, 9)).is_some());
}

#[test]
fn repeated_redundant_insertions_do_not_change_usage_or_replace_data() {
    let mut cache = cache(4);
    let key = ObjectKey::from("object");
    populate(&mut cache, key.clone(), download(range(0, 1), Bytes::from_static(b"a")));

    for _ in 0..200 {
        populate(&mut cache, key.clone(), download(range(0, 1), Bytes::from_static(b"b")));
    }
    assert_eq!(cache.used_bytes(), 1);
    assert_eq!(cache.entry_count(), 1);
    assert_eq!(cache.get(&key, range(0, 1)).unwrap(), Bytes::from_static(b"a"));
}

#[test]
fn oversized_insertion_empties_its_shard_and_remains_cached() {
    let mut cache = cache(3);
    let key = ObjectKey::from("object");
    populate(&mut cache, key.clone(), download(range(10, 12), Bytes::from_static(b"ok")));

    populate(&mut cache, key.clone(), download(range(0, 4), Bytes::from_static(b"data")));

    assert!(cache.get(&key, range(10, 12)).is_none());
    assert_eq!(cache.get(&key, range(0, 4)).unwrap(), Bytes::from_static(b"data"));
    assert_eq!(cache.used_bytes(), 4);
    assert!(cache.used_bytes() > cache.capacity());
}

#[test]
fn accessed_ranges_survive_downloaded_range_replacement() {
    let mut cache = cache(16);
    let key = ObjectKey::from("object");
    populate(&mut cache, key.clone(), download(range(0, 4), Bytes::from_static(b"abcd")));
    populate(&mut cache, key.clone(), download(range(6, 10), Bytes::from_static(b"ghij")));

    cache.record_access(&key, range(1, 3));
    cache.record_access(&key, range(7, 9));
    assert_eq!(accessed_ranges(&cache, &key), vec![range(1, 3), range(7, 9)]);

    populate(
        &mut cache,
        key.clone(),
        download(range(0, 10), Bytes::from_static(b"abcdefghij")),
    );
    assert_eq!(cache.entry_count(), 1);
    assert_eq!(accessed_ranges(&cache, &key), vec![range(1, 3), range(7, 9)]);
}

#[test]
fn access_evidence_survives_same_object_eviction_during_replacement() {
    let mut cache = cache(10);
    let key = ObjectKey::from("object");
    populate(&mut cache, key.clone(), download(range(0, 4), Bytes::from_static(b"abcd")));
    populate(&mut cache, key.clone(), download(range(6, 10), Bytes::from_static(b"ghij")));
    populate(
        &mut cache,
        ObjectKey::from("other"),
        download(range(0, 2), Bytes::from_static(b"xx")),
    );
    cache.record_access(&key, range(1, 2));
    cache.record_access(&key, range(7, 8));

    populate(
        &mut cache,
        key.clone(),
        download(range(0, 8), Bytes::from_static(b"abcdefgh")),
    );

    assert_eq!(cache.used_bytes(), 8);
    assert_eq!(cache.entry_count(), 1);
    assert_eq!(accessed_ranges(&cache, &key), vec![range(1, 2), range(7, 8)]);
    assert_eq!(cache.get(&key, range(7, 8)).unwrap(), Bytes::from_static(b"h"));
    assert!(cache.get(&key, range(8, 10)).is_none());
}

#[test]
fn access_evidence_is_bounded_and_preserves_repeated_exact_requests() {
    let mut cache = cache(1);
    let key = ObjectKey::from("object");
    populate(&mut cache, key.clone(), download(range(0, 1), Bytes::from_static(b"a")));

    for _ in 0..MAX_ACCESS_EVENTS_PER_KEY + 17 {
        cache.record_access(&key, range(0, 1));
    }

    assert_eq!(access_evidence_len(&cache, &key), MAX_ACCESS_EVENTS_PER_KEY);
    assert_eq!(
        accessed_ranges(&cache, &key),
        vec![range(0, 1); MAX_ACCESS_EVENTS_PER_KEY]
    );
}

#[test]
fn repeated_requested_intervals_are_retained_over_single_accesses() {
    let mut cache = cache(2);
    let hot = ObjectKey::from("hot");
    let cold = ObjectKey::from("cold");
    let incoming = ObjectKey::from("incoming");
    populate(&mut cache, hot.clone(), download(range(0, 1), Bytes::from_static(b"h")));
    populate(&mut cache, cold.clone(), download(range(0, 1), Bytes::from_static(b"c")));

    cache.record_access(&cold, range(0, 1));
    cache.record_access(&hot, range(0, 1));
    cache.record_access(&hot, range(0, 1));
    populate(
        &mut cache,
        incoming.clone(),
        download(range(0, 1), Bytes::from_static(b"i")),
    );

    assert!(cache.get(&hot, range(0, 1)).is_some());
    assert!(cache.get(&cold, range(0, 1)).is_none());
    assert!(cache.get(&incoming, range(0, 1)).is_some());
}

#[test]
fn retention_credit_is_projected_only_onto_the_requested_interval() {
    let mut cache = cache(2);
    let key = ObjectKey::from("split-object");
    let incoming = ObjectKey::from("incoming");
    populate(&mut cache, key.clone(), download(range(0, 1), Bytes::from_static(b"a")));
    populate(&mut cache, key.clone(), download(range(1, 2), Bytes::from_static(b"b")));

    cache.record_access(&key, range(0, 1));
    populate(&mut cache, incoming, download(range(0, 1), Bytes::from_static(b"c")));

    assert!(cache.get(&key, range(0, 1)).is_some());
    assert!(cache.get(&key, range(1, 2)).is_none());
}

#[test]
fn stale_frequency_ages_behind_fresh_evidence() {
    let mut cache = cache(2);
    let stale = ObjectKey::from("stale");
    let fresh = ObjectKey::from("fresh");
    let incoming = ObjectKey::from("incoming");
    populate(&mut cache, stale.clone(), download(range(0, 1), Bytes::from_static(b"s")));
    populate(&mut cache, fresh.clone(), download(range(0, 1), Bytes::from_static(b"f")));

    for _ in 0..8 {
        cache.record_access(&stale, range(0, 1));
    }
    let absent = ObjectKey::from("clock-only");
    for _ in 0..EVIDENCE_LIFETIME_ACCESSES + 1 {
        cache.record_access(&absent, range(0, 1));
    }
    cache.record_access(&fresh, range(0, 1));
    populate(&mut cache, incoming, download(range(0, 1), Bytes::from_static(b"i")));

    assert!(cache.get(&stale, range(0, 1)).is_none());
    assert!(cache.get(&fresh, range(0, 1)).is_some());
}

#[test]
fn compaction_respects_grace_then_releases_unrequested_payload() {
    let mut early_pressure = cache(10);
    let early_key = ObjectKey::from("early-download");
    early_pressure.insert_and_record(
        early_key.clone(),
        download(range(0, 10), Bytes::from_static(b"abcdefghij")),
        range(2, 4),
    );
    populate(
        &mut early_pressure,
        ObjectKey::from("early-pressure"),
        download(range(0, 2), Bytes::from_static(b"xy")),
    );
    assert!(early_pressure.get(&early_key, range(2, 4)).is_none());

    let mut cache = cache(10);
    let key = ObjectKey::from("download");
    let incoming = ObjectKey::from("incoming");
    let original = Bytes::from_static(b"abcdefghij");
    populate(&mut cache, key.clone(), download(range(0, 10), original.clone()));

    let returned = cache.get(&key, range(2, 4)).unwrap();
    assert_eq!(returned, Bytes::from_static(b"cd"));
    assert_eq!(returned.as_ptr(), original.slice(2..).as_ptr());
    for _ in 1..COMPACTION_GRACE_ACCESSES {
        cache.record_access(&key, range(2, 4));
    }
    populate(&mut cache, incoming, download(range(0, 2), Bytes::from_static(b"xy")));

    assert_eq!(cache.used_bytes(), 4);
    assert_eq!(cache.entry_count(), 2);
    assert_eq!(returned, Bytes::from_static(b"cd"));
    let retained = cache.get(&key, range(2, 4)).unwrap();
    assert_eq!(retained, Bytes::from_static(b"cd"));
    assert_ne!(retained.as_ptr(), original.slice(2..).as_ptr());
    assert!(cache.get(&key, range(0, 1)).is_none());
    assert_eq!(access_evidence_len(&cache, &key), MAX_ACCESS_EVENTS_PER_KEY);
    assert!(accessed_ranges(&cache, &key).iter().all(|seen| *seen == range(2, 4)));
}

#[test]
fn compaction_preserves_disjoint_requested_coverage_without_filling_gaps() {
    let mut cache = cache(10);
    let key = ObjectKey::from("download");
    populate(
        &mut cache,
        key.clone(),
        download(range(0, 10), Bytes::from_static(b"abcdefghij")),
    );
    cache.record_access(&key, range(1, 3));
    cache.record_access(&key, range(7, 9));
    for _ in 2..COMPACTION_GRACE_ACCESSES {
        cache.record_access(&key, range(1, 3));
    }

    populate(
        &mut cache,
        ObjectKey::from("incoming"),
        download(range(0, 2), Bytes::from_static(b"xy")),
    );

    assert_eq!(cache.used_bytes(), 6);
    assert_eq!(cache.get(&key, range(1, 3)).unwrap(), Bytes::from_static(b"bc"));
    assert_eq!(cache.get(&key, range(7, 9)).unwrap(), Bytes::from_static(b"hi"));
    assert!(cache.get(&key, range(3, 7)).is_none());
}

#[test]
fn compaction_waits_for_pressure_and_adds_no_access() {
    let mut cache = cache(16);
    let key = ObjectKey::from("download");
    let original = Bytes::from_static(b"abcdefghijklmnop");
    populate(&mut cache, key.clone(), download(range(0, 16), original.clone()));

    let returned = cache.get(&key, range(4, 8)).unwrap();
    for _ in 1..COMPACTION_GRACE_ACCESSES {
        cache.record_access(&key, range(4, 8));
    }

    assert_eq!(cache.used_bytes(), 16);
    assert_eq!(access_evidence_len(&cache, &key), MAX_ACCESS_EVENTS_PER_KEY);
    populate(
        &mut cache,
        ObjectKey::from("pressure"),
        download(range(0, 1), Bytes::from_static(b"x")),
    );

    assert_eq!(cache.used_bytes(), 5);
    assert_eq!(access_evidence_len(&cache, &key), MAX_ACCESS_EVENTS_PER_KEY);
    assert_eq!(returned, Bytes::from_static(b"efgh"));
    let retained = cache.get(&key, range(4, 8)).unwrap();
    assert_eq!(retained, returned);
    assert_ne!(retained.as_ptr(), original.slice(4..).as_ptr());
}

#[test]
fn candidate_state_tracks_entries_during_oversized_churn() {
    let mut cache = cache(1);
    for index in 0..300 {
        let key = ObjectKey::from(format!("download-{index}"));
        cache.insert_and_record(key, download(range(0, 2), Bytes::from_static(b"ab")), range(0, 1));
    }

    assert_eq!(cache.used_bytes(), 2);
    assert_eq!(cache.entry_count(), 1);
    assert_eq!(candidate_count(&cache), cache.entry_count() as usize);
}

#[test]
fn copied_compaction_is_revalidated_before_publication_and_can_fall_back() {
    let mut cache = cache(10);
    let key = ObjectKey::from("download");
    cache.insert_and_record(
        key.clone(),
        download(range(0, 10), Bytes::from_static(b"abcdefghij")),
        range(2, 4),
    );
    for _ in 1..COMPACTION_GRACE_ACCESSES {
        cache.record_access(&key, range(2, 4));
    }

    let incoming = ObjectKey::from("incoming");
    let incoming_bytes = Bytes::from_static(b"xy");
    let prepared = {
        let shard = cache.shard_mut(0);
        let AdmissionStep::Compact(work) = shard.admission_step(&incoming, range(0, 2), &incoming_bytes, None, true)
        else {
            panic!("pressure should select the cold compactable extent");
        };
        work.copy_payload()
    };

    cache.record_access(&key, range(6, 8));
    assert!(cache.shard(0).can_publish(&prepared));
    assert!(!cache.shard_mut(0).publish_compaction(prepared));
    assert_eq!(cache.used_bytes(), 10);
    assert!(cache.get(&key, range(6, 8)).is_some());

    let step = cache
        .shard_mut(0)
        .admission_step(&incoming, range(0, 2), &incoming_bytes, None, false);
    assert!(matches!(step, AdmissionStep::Retry));
    assert_eq!(cache.used_bytes(), 0, "fallback pressure may evict but cannot starve");
}

#[test]
fn removing_the_last_extent_releases_its_access_metadata() {
    let mut cache = cache(1);
    let key = ObjectKey::from("object");
    populate(&mut cache, key.clone(), download(range(0, 1), Bytes::from_static(b"a")));
    cache.record_access(&key, range(0, 1));

    assert_eq!(access_evidence_len(&cache, &key), 1);
    assert!(cache.remove(&key, range(0, 1)));
    assert_eq!(access_evidence_len(&cache, &key), 0);
}

#[test]
fn zero_target_still_retains_the_latest_entry() {
    let mut cache = cache(0);
    let key = ObjectKey::from("object");

    populate(&mut cache, key.clone(), download(range(0, 1), Bytes::from_static(b"a")));
    populate(&mut cache, key.clone(), download(range(1, 2), Bytes::from_static(b"b")));

    assert!(cache.get(&key, range(0, 1)).is_none());
    assert_eq!(cache.get(&key, range(1, 2)).unwrap(), Bytes::from_static(b"b"));
    assert_eq!(cache.used_bytes(), 1);
}

#[test]
fn shard_targets_can_collectively_exceed_the_configured_capacity() {
    let mut cache = MemoryCache::with_shard_count(2, 2);
    let mut keys = [None, None];
    for candidate in 0..100 {
        let key = ObjectKey::from(format!("object-{candidate}"));
        let shard = cache.shard_index(&key);
        keys[shard].get_or_insert(key);
        if keys.iter().all(Option::is_some) {
            break;
        }
    }
    let [Some(first), Some(second)] = keys else {
        panic!("test keys must cover both shards");
    };

    populate(&mut cache, first, download(range(0, 2), Bytes::from_static(b"aa")));
    populate(&mut cache, second, download(range(0, 2), Bytes::from_static(b"bb")));

    assert_eq!(cache.used_bytes(), 4);
    assert_eq!(cache.capacity(), 2);
}


#[test]
fn shards_keep_their_gauges_in_step_with_what_they_retain() {
    let mut cache = cache(10);
    let key = ObjectKey::from("object");
    populate(&mut cache, key.clone(), download(range(0, 4), Bytes::from_static(b"abcd")));
    populate(&mut cache, key.clone(), download(range(2, 8), Bytes::from_static(b"cdefgh")));
    assert!(cache.get(&key, range(2, 3)).is_some());
    assert!(cache.get(&key, range(9, 10)).is_none());
    populate(&mut cache, key.clone(), download(range(0, 9), Bytes::from_static(b"abcdefghi")));
    populate(&mut cache, key.clone(), download(range(1, 2), Bytes::from_static(b"b")));

    let metrics = cache.shard(0).metrics();
    assert_eq!(metrics.payload_bytes, cache.used_bytes());
    assert_eq!(metrics.entries, cache.entry_count());
    assert_eq!((metrics.insert, metrics.replace, metrics.redundant), (2, 1, 1));
    assert_eq!((metrics.hit, metrics.miss, metrics.access), (1, 1, 1));

    assert!(cache.remove(&key, range(0, 9)));
    let metrics = cache.shard(0).metrics();
    assert_eq!((metrics.payload_bytes, metrics.entries, metrics.remove), (0, 0, 1));
}

#[test]
fn retiring_a_shard_takes_its_usage_back() {
    let mut shard = feuer::shard::Shard::new(8, feuer::shard_state::CompactionMode::ValueAware);
    shard.insert(
        &ObjectKey::from("object"),
        range(0, 3),
        &Bytes::from_static(b"abc"),
        None,
    );
    assert_eq!(shard.metrics().payload_bytes, 3);
    let metrics = shard.into_metrics();
    assert_eq!((metrics.payload_bytes, metrics.entries, metrics.insert), (0, 0, 1));
}

#[test]
fn removing_needs_the_exact_range() {
    let mut cache = cache(10);
    let key = ObjectKey::from("object");
    populate(&mut cache, key.clone(), download(range(0, 4), Bytes::from_static(b"abcd")));

    assert!(!cache.remove(&key, range(0, 3)));
    assert!(!cache.remove(&key, range(1, 4)));
    assert!(!cache.remove(&ObjectKey::from("other"), range(0, 4)));
    assert!(cache.remove(&key, range(0, 4)));
    assert!(!cache.remove(&key, range(0, 4)));
}

#[test]
fn lookups_prefer_the_covering_extent_that_starts_last() {
    let mut cache = cache(32);
    let key = ObjectKey::from("object");
    populate(&mut cache, key.clone(), download(range(0, 6), Bytes::from_static(b"aaaaaa")));
    populate(&mut cache, key.clone(), download(range(2, 8), Bytes::from_static(b"bbbbbb")));

    assert_eq!(cache.get(&key, range(3, 5)).unwrap(), Bytes::from_static(b"bb"));
    assert_eq!(cache.get(&key, range(1, 5)).unwrap(), Bytes::from_static(b"aaaa"));
}

#[test]
fn disabled_compaction_evicts_the_whole_victim() {
    let mut cache = MemoryCache::with_compaction_disabled_for_benchmark(10, 1);
    let key = ObjectKey::from("download");
    populate(
        &mut cache,
        key.clone(),
        download(range(0, 10), Bytes::from_static(b"abcdefghij")),
    );
    for _ in 0..COMPACTION_GRACE_ACCESSES {
        cache.record_access(&key, range(2, 4));
    }
    populate(
        &mut cache,
        ObjectKey::from("incoming"),
        download(range(0, 2), Bytes::from_static(b"xy")),
    );

    assert!(cache.get(&key, range(2, 4)).is_none());
    assert_eq!(cache.used_bytes(), 2);
}

#[test]
fn a_superseding_download_steps_over_a_ring_of_superseded_entries() {
    // One bystander behind more superseded entries than one sample inspects.
    let mut cache = MemoryCache::with_shards_for_benchmark(101, 1);
    let key = ObjectKey::from("object");
    for index in 0..100_u64 {
        populate(
            &mut cache,
            key.clone(),
            download(range(index, index + 1), Bytes::from_static(b"x")),
        );
    }
    populate(
        &mut cache,
        ObjectKey::from("bystander"),
        download(range(0, 1), Bytes::from_static(b"y")),
    );
    populate(
        &mut cache,
        key.clone(),
        download(range(0, 101), Bytes::from(vec![7; 101])),
    );

    assert_eq!(cache.used_bytes(), 101);
    assert_eq!(cache.entry_count(), 1);
    assert!(cache.get(&ObjectKey::from("bystander"), range(0, 1)).is_none());
}

#[test]
fn cached_bytes_are_those_of_the_source_whatever_was_evicted_or_trimmed() {
    fn source(offset: u64) -> u8 {
        (offset % 251) as u8
    }
    let mut cache = MemoryCache::with_shards_for_benchmark(600, 2);
    let mut hits = 0;
    for step in 0..2_000_u64 {
        // A small working set of its own, crossed by a scan that never comes back.
        let scanned = step % 3 == 2;
        let key = ObjectKey::from(format!("object-{}", if scanned { step } else { step % 2 }));
        let start = if scanned { 0 } else { (step % 4) * 60 };
        let requested = range(start + 10, start + 20);
        if let Some(bytes) = cache.get(&key, requested) {
            hits += 1;
            assert!(bytes
                .iter()
                .zip(requested.start()..)
                .all(|(byte, offset)| *byte == source(offset)));
            assert_eq!(bytes.len(), 10);
        } else {
            let payload: Vec<u8> = (start..start + 60).map(source).collect();
            cache.insert_and_record(
                key.clone(),
                download(range(start, start + 60), Bytes::from(payload)),
                requested,
            );
        }
        assert!(cache.has_headroom(&key));
        assert!(cache.used_bytes() <= 600);
    }
    assert!(hits > 0);
    assert_eq!(cache.checked_used_bytes(), Some(cache.used_bytes()));
}

#[test]
fn shard_indexes_depend_on_the_whole_key_alone() {
    let cache = MemoryCache::new(1 << 20, Some(4));
    assert_eq!(cache.shard_count(), 16);
    assert_eq!(cache.capacity(), 1 << 20);
    let mut seen = [false; 16];
    for index in 0..500 {
        let key = ObjectKey::from(format!("object-{index}"));
        let shard = cache.shard_index(&key);
        assert_eq!(shard, cache.shard_index(&key.clone()));
        seen[shard] = true;
    }
    assert!(seen.iter().filter(|hit| **hit).count() > 8);
}

#[test]
fn prepared_compactions_can_be_checked_before_publication() {
    let mut cache = cache(10);
    let key = ObjectKey::from("download");
    populate(
        &mut cache,
        key.clone(),
        download(range(0, 10), Bytes::from_static(b"abcdefghij")),
    );
    for _ in 0..COMPACTION_GRACE_ACCESSES {
        cache.record_access(&key, range(2, 4));
    }
    let shard = cache.shard_mut(0);
    let step = shard.admission_step(
        &ObjectKey::from("incoming"),
        range(0, 2),
        &Bytes::from_static(b"xy"),
        None,
        true,
    );
    let AdmissionStep::Compact(work) = step else {
        panic!("pressure should trim the only extent");
    };
    let prepared = work.copy_payload();
    assert_eq!(prepared.fragment_count(), 1);
    assert!(shard.can_publish(&prepared));
    assert!(shard.publish_compaction(prepared));
    assert_eq!(shard.used_bytes(), 2);
    assert_eq!(shard.metrics().compacted_payload_bytes, 8);
    assert_eq!(shard.get(&key, range(2, 4)).unwrap(), Bytes::from_static(b"cd"));
}

#[test]
fn copies_of_a_touched_object_are_never_published() {
    let key = ObjectKey::from("download");
    for touch in 0..4 {
        let mut cache = cache(10);
        populate(
            &mut cache,
            key.clone(),
            download(range(0, 10), Bytes::from_static(b"abcdefghij")),
        );
        for _ in 0..COMPACTION_GRACE_ACCESSES {
            cache.record_access(&key, range(2, 4));
        }
        let shard = cache.shard_mut(0);
        let step = shard.admission_step(
            &ObjectKey::from("incoming"),
            range(0, 2),
            &Bytes::from_static(b"xy"),
            None,
            true,
        );
        let AdmissionStep::Compact(work) = step else {
            panic!("pressure should trim the only extent");
        };
        let prepared = work.copy_payload();
        match touch {
            0 => {}
            1 => assert!(shard.get(&key, range(2, 4)).is_some()),
            2 => shard.insert(&key, range(8, 12), &Bytes::from_static(b"ijkl"), None),
            _ => {
                assert!(shard.remove(&key, range(0, 10)));
                shard.insert(&key, range(0, 10), &Bytes::from_static(b"abcdefghij"), None);
            }
        }
        let entries = shard.entry_count();
        let published = shard.publish_compaction(prepared);
        assert_eq!(published, touch == 0);
        if !published {
            assert_eq!(shard.entry_count(), entries);
        }
    }
}

#[test]
fn accesses_are_recorded_whatever_is_still_retained() {
    let mut cache = cache(16);
    let key = ObjectKey::from("object");
    populate(&mut cache, key.clone(), download(range(10, 13), Bytes::from_static(b"abc")));

    // The extent that served this lookup is gone; another of the object stays.
    cache.record_access(&key, range(20, 22));
    assert_eq!(accessed_ranges(&cache, &key), vec![range(20, 22)]);
    assert_eq!(cache.used_bytes(), 3);
    assert_eq!(cache.entry_count(), 1);
    assert!(cache.get(&key, range(20, 22)).is_none());

    cache.record_access(&ObjectKey::from("unknown"), range(0, 1));
    assert!(accessed_ranges(&cache, &ObjectKey::from("unknown")).is_empty());
}

#[test]
fn insertions_report_whether_identities_were_left() {
    let mut cache = cache(4);
    let key = ObjectKey::from("object");
    assert!(cache.has_headroom(&key));
    assert!(cache.try_insert(key.clone(), download(range(0, 3), Bytes::from_static(b"abc"))));
    assert!(accessed_ranges(&cache, &key).is_empty());
    assert!(cache.try_insert_and_record(
        key.clone(),
        download(range(1, 3), Bytes::from_static(b"XX")),
        range(1, 2),
    ));
    assert_eq!(accessed_ranges(&cache, &key), vec![range(1, 2)]);
    assert_eq!(cache.get(&key, range(1, 3)).unwrap(), Bytes::from_static(b"bc"));
    assert!(cache.shard(0).can_complete(&key, range(0, 9)));
    assert!(cache.shard(0).has_headroom());
}

#[test]
fn a_refused_publication_bars_further_trimming() {
    assert!(after_publication(true, true));
    assert!(!after_publication(false, true));
    assert!(!after_publication(true, false));
    assert!(!after_publication(false, false));
}

#[test]
fn admissions_that_may_no_longer_trim_complete() {
    let mut shard = Shard::new(100, CompactionMode::ValueAware);
    let hot = ObjectKey::from("hot");
    for index in 0..10 {
        shard.insert(
            &hot,
            range(index * 10, index * 10 + 10),
            &Bytes::from(vec![index as u8; 10]),
            Some(range(index * 10, index * 10 + 1)),
        );
    }
    for _ in 0..COMPACTION_GRACE_ACCESSES {
        shard.record_access(&hot, range(0, 1));
    }

    let incoming = ObjectKey::from("incoming");
    let bytes = Bytes::from(vec![7; 95]);
    let mut evictions = 0;
    loop {
        match shard.admission_step(&incoming, range(0, 95), &bytes, None, false) {
            AdmissionStep::Complete => break,
            AdmissionStep::Retry => evictions += 1,
            AdmissionStep::Compact(_) => panic!("trimming is barred"),
        }
        assert!(evictions <= 10);
    }
    assert_eq!(evictions, 10);
    assert_eq!((shard.entry_count(), shard.used_bytes()), (1, 95));
}

#[test]
fn copies_are_published_after_operations_on_other_objects() {
    let mut shard = Shard::new(20, CompactionMode::ValueAware);
    let key = ObjectKey::from("download");
    let other = ObjectKey::from("other");
    shard.insert(&other, range(0, 4), &Bytes::from_static(b"wxyz"), None);
    shard.insert(&key, range(0, 10), &Bytes::from_static(b"abcdefghij"), None);
    for _ in 0..COMPACTION_GRACE_ACCESSES {
        shard.record_access(&key, range(2, 4));
        shard.record_access(&other, range(0, 4));
    }
    let incoming = ObjectKey::from("incoming");
    let bytes = Bytes::from_static(b"0123456789");
    let AdmissionStep::Compact(work) =
        shard.admission_step(&incoming, range(0, 10), &bytes, None, true)
    else {
        panic!("pressure should trim the wide extent");
    };
    let prepared = work.copy_payload();

    // None of these touches the object of the copy.
    assert!(shard.get(&other, range(0, 2)).is_some());
    assert!(shard.get(&key, range(8, 12)).is_none());
    shard.record_access(&other, range(1, 2));
    shard.insert(&other, range(4, 6), &Bytes::from_static(b"!!"), Some(range(4, 5)));
    assert!(shard.remove(&other, range(4, 6)));
    shard.insert(&key, range(1, 9), &Bytes::from_static(b"bcdefghi"), None);

    let accesses = shard.accessed_ranges(&key);
    let used = shard.used_bytes();
    assert!(shard.publish_compaction(prepared));
    assert_eq!(shard.used_bytes(), used - 8);
    assert!(4 * (used - shard.used_bytes()) >= 10);
    assert_eq!(shard.accessed_ranges(&key), accesses);
    assert_eq!(shard.get(&key, range(2, 4)).unwrap(), Bytes::from_static(b"cd"));
    assert!(shard.get(&key, range(4, 5)).is_none());
    assert_eq!(shard.get(&other, range(0, 4)).unwrap(), Bytes::from_static(b"wxyz"));
}

#[test]
fn shards_stay_within_their_target_or_hold_one_extent() {
    let mut cache = cache(12);
    for step in 0..200_u64 {
        let key = ObjectKey::from(format!("object-{}", step % 3));
        let start = (step * 7) % 23;
        let length = 1 + (step * 5) % 17;
        let whole = range(start, start + length);
        cache.insert(key.clone(), download(whole, Bytes::from(vec![1; length as usize])));
        assert!(cache.get(&key, whole).is_some());
        if step % 11 == 0 {
            cache.remove(&key, whole);
        }
        assert!(cache.used_bytes() <= 12 || cache.entry_count() == 1);
    }
    // A redundant download changes neither entries nor bytes.
    populate(
        &mut cache,
        ObjectKey::from("wide"),
        download(range(0, 40), Bytes::from(vec![2; 40])),
    );
    populate(
        &mut cache,
        ObjectKey::from("wide"),
        download(range(3, 9), Bytes::from(vec![3; 6])),
    );
    assert_eq!((cache.used_bytes(), cache.entry_count()), (40, 1));
    assert_eq!(
        cache.get(&ObjectKey::from("wide"), range(3, 5)).unwrap(),
        Bytes::from(vec![2; 2])
    );
}

use feuer::compaction::plan_compaction;
use feuer::evidence::{
    AccessEvidence, EVIDENCE_LIFETIME_ACCESSES, FIXED_RETRIEVAL_EQUIVALENT_BYTES,
    MAX_ACCESS_EVENTS_PER_KEY,
};
use feuer::metrics::MemoryMetrics;
use feuer::range::ByteRange;
use feuer::retention::{compare_retention, Victim};
use feuer::store::{default_shard_count, shard_capacity_for};

fn range(start: u64, end: u64) -> ByteRange {
    ByteRange::new(start, end).unwrap()
}

#[test]
fn projects_and_groups_only_exact_requests_covered_by_the_source() {
    let plan = plan_compaction(
        range(10, 30),
        &[
            range(12, 14),
            range(12, 14),
            range(18, 22),
            range(21, 24),
            range(28, 32),
            range(2, 4),
        ],
    )
    .unwrap();

    assert_eq!(plan.source(), range(10, 30));
    assert_eq!(plan.retained(), &[range(12, 14), range(18, 24)]);
    assert_eq!(plan.reclaimed_bytes(), 12);
}

#[test]
fn merges_adjacent_requests_so_each_original_request_stays_coverable() {
    let plan = plan_compaction(range(0, 16), &[range(2, 5), range(5, 9)]).unwrap();

    assert_eq!(plan.retained(), &[range(2, 9)]);
}

#[test]
fn skips_empty_or_low_savings_plans() {
    assert!(plan_compaction(range(0, 8), &[range(8, 10)]).is_none());
    assert!(plan_compaction(range(0, 8), &[range(1, 8)]).is_none());
    assert!(plan_compaction(range(0, 8), &[range(2, 8)]).is_some());
}

#[test]
fn plans_round_the_minimum_saving_up() {
    // A quarter of ten bytes is two and a half, so three must go.
    assert!(plan_compaction(range(0, 10), &[range(0, 8)]).is_none());
    assert!(plan_compaction(range(0, 10), &[range(0, 7)]).is_some());
}

#[test]
fn groupings_do_not_depend_on_the_order_of_requests() {
    let requests = [range(7, 9), range(0, 2), range(8, 12), range(1, 3)];
    let mut reversed = requests;
    reversed.reverse();
    let one = plan_compaction(range(0, 40), &requests).unwrap();
    let other = plan_compaction(range(0, 40), &reversed).unwrap();

    assert_eq!(one.retained(), &[range(0, 3), range(7, 12)]);
    assert_eq!(one.retained(), other.retained());
}

#[test]
fn bounds_events_without_coalescing_repeated_ranges() {
    let repeated = range(10, 20);
    let mut evidence = AccessEvidence::default();
    for index in 0..MAX_ACCESS_EVENTS_PER_KEY + 3 {
        let requested = if index >= MAX_ACCESS_EVENTS_PER_KEY {
            repeated
        } else {
            range(index as u64, index as u64 + 1)
        };
        evidence.record(requested, 0);
    }

    assert_eq!(evidence.len(), MAX_ACCESS_EVENTS_PER_KEY);
    assert_eq!(
        evidence.ranges()[MAX_ACCESS_EVENTS_PER_KEY - 3..],
        [repeated; 3]
    );
    assert_eq!(evidence.ranges()[0], range(3, 4));
}

#[test]
fn retains_full_retrieval_value_until_expiration() {
    let requested = range(2, 4);
    let extent = range(0, 8);
    let mut evidence = AccessEvidence::default();
    evidence.record(requested, 0);
    evidence.record(requested, 0);

    let expected = 2 * (FIXED_RETRIEVAL_EQUIVALENT_BYTES + requested.len());
    assert_eq!(evidence.retention_value(extent, 0), expected);
    assert_eq!(
        evidence.retention_value(extent, EVIDENCE_LIFETIME_ACCESSES),
        expected
    );
    assert_eq!(
        evidence.retention_value(extent, EVIDENCE_LIFETIME_ACCESSES + 1),
        0
    );

    evidence.record(range(6, 7), EVIDENCE_LIFETIME_ACCESSES + 1);
    assert_eq!(evidence.ranges(), vec![range(6, 7)]);
}

#[test]
fn projects_credit_only_to_extents_covering_the_exact_request() {
    let mut evidence = AccessEvidence::default();
    evidence.record(range(3, 7), 0);

    assert_eq!(
        evidence.retention_value(range(0, 8), 0),
        FIXED_RETRIEVAL_EQUIVALENT_BYTES + 4
    );
    assert_eq!(evidence.retention_value(range(3, 5), 0), 0);
    assert_eq!(evidence.retention_value(range(5, 8), 0), 0);
}

#[test]
fn another_access_increases_value_until_the_bound_displaces_one() {
    let mut evidence = AccessEvidence::default();
    let extent = range(0, 8);
    let mut value = 0;
    for _ in 0..MAX_ACCESS_EVENTS_PER_KEY {
        evidence.record(range(1, 2), 5);
        let next = evidence.retention_value(extent, 5);
        assert!(next > value);
        value = next;
    }
    evidence.record(range(1, 2), 5);
    assert_eq!(evidence.retention_value(extent, 5), value);
}

#[test]
fn values_saturate_and_active_ranges_leave_expired_ones_out() {
    let mut evidence = AccessEvidence::default();
    evidence.record(range(0, u64::MAX), 0);
    evidence.record(range(0, u64::MAX), 1);
    assert_eq!(evidence.retention_value(range(0, u64::MAX), 1), u64::MAX);
    assert_eq!(
        evidence.active_ranges(EVIDENCE_LIFETIME_ACCESSES + 1),
        vec![range(0, u64::MAX)]
    );
    evidence.expire(EVIDENCE_LIFETIME_ACCESSES + 1);
    assert_eq!(evidence.len(), 1);
}

fn victim(key: &str, start: u64, id: u64, bytes: u64, value: u64) -> Victim {
    Victim {
        object_key: key.to_owned(),
        range: range(start, start + bytes),
        id,
        bytes,
        retrieval_value: value,
    }
}

#[test]
fn victims_rank_by_density_then_age_then_key_then_range() {
    let dense = victim("a", 0, 1, 2, 10);
    let sparse = victim("a", 0, 2, 4, 10);
    assert!(compare_retention(&sparse, &dense));
    assert!(!compare_retention(&dense, &sparse));

    let older = victim("z", 0, 1, 2, 4);
    let younger = victim("a", 0, 2, 4, 8);
    assert!(compare_retention(&older, &younger));

    assert!(compare_retention(&victim("abc", 0, 1, 2, 4), &victim("abd", 0, 1, 2, 4)));
    assert!(!compare_retention(&victim("abd", 0, 1, 2, 4), &victim("abc", 0, 1, 2, 4)));
    assert!(compare_retention(&victim("ab", 0, 1, 2, 4), &victim("abc", 0, 1, 2, 4)));
    assert!(compare_retention(&victim("z", 0, 1, 2, 4), &victim("é", 0, 1, 2, 4)));
    assert!(compare_retention(&victim("a", 0, 1, 2, 4), &victim("a", 1, 1, 2, 4)));
    assert!(!compare_retention(&victim("a", 1, 1, 2, 4), &victim("a", 1, 1, 2, 4)));

    let wide = victim("a", 0, 1, u64::MAX, u64::MAX);
    let narrow = victim("a", 0, 2, u64::MAX, u64::MAX - 1);
    assert!(compare_retention(&narrow, &wide));
}

#[test]
fn configured_target_is_divided_without_losing_remainder_bytes() {
    assert_eq!(
        (0..2)
            .map(|index| shard_capacity_for(3, 2, index))
            .collect::<Vec<_>>(),
        vec![2, 1]
    );
    assert_eq!(
        (0..4)
            .map(|index| shard_capacity_for(2, 4, index))
            .collect::<Vec<_>>(),
        vec![1, 1, 0, 0]
    );
}

#[test]
fn shards_follow_the_parallelism_within_bounds() {
    assert_eq!(default_shard_count(None), 4);
    assert_eq!(default_shard_count(Some(3)), 12);
    assert_eq!(default_shard_count(Some(16)), 64);
    assert_eq!(default_shard_count(Some(17)), 64);
    assert_eq!(default_shard_count(Some(usize::MAX)), 64);
    assert_eq!(default_shard_count(Some(0)), 1);
}

#[test]
fn counters_and_gauges_follow_every_event() {
    let mut metrics = MemoryMetrics::noop();

    metrics.record_insert(false);
    metrics.record_redundant();
    metrics.record_access();
    metrics.record_lookup(true);
    metrics.increase_usage(17, 1);
    metrics.record_evictions(1);
    metrics.record_compaction(3);
    metrics.decrease_usage(17, 1);

    assert_eq!(metrics.insert, 1);
    assert_eq!(metrics.redundant, 1);
    assert_eq!(metrics.access, 1);
    assert_eq!(metrics.hit, 1);
    assert_eq!(metrics.evict, 1);
    assert_eq!(metrics.compact, 1);
    assert_eq!(metrics.compacted_payload_bytes, 3);
    assert_eq!(metrics.payload_bytes, 0);
    assert_eq!(metrics.entries, 0);
}

#[test]
fn metrics_tell_replacements_misses_and_removals_apart() {
    let mut metrics = MemoryMetrics::noop();
    metrics.record_insert(true);
    metrics.record_lookup(false);
    metrics.record_remove();

    assert_eq!((metrics.insert, metrics.replace), (0, 1));
    assert_eq!((metrics.hit, metrics.miss), (0, 1));
    assert_eq!(metrics.remove, 1);
}

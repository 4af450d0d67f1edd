use goose::histogram::{bucket_index, floor_of, Counts, BUCKETS};
use goose::request::{request_url, starts_with};
use goose::stats::{Method, RequestRecord, Statistics, StatsError, Summary, STATUS_SLOTS};

fn record(name: &str, status: u16, elapsed_ms: u64, success: bool) -> RequestRecord {
    RequestRecord {
        method: Method::Get,
        name: name.to_string(),
        url: format!("http://localhost{}", name),
        status,
        elapsed_ms,
        success,
        error: if success { None } else { Some("failed".to_string()) },
    }
}

fn worker_report() -> Statistics {
    let mut stats = Statistics::new();
    for i in 0..100u64 {
        assert_eq!(stats.record(&record("front", 200, 10 + i, true)), Ok(()));
    }
    assert_eq!(stats.record(&record("front", 500, 700, false)), Ok(()));
    assert_eq!(stats.record(&record("front", 0, 30000, false)), Ok(()));
    stats
}

fn summary<'a>(stats: &'a Statistics, name: &str) -> &'a Summary {
    let index = stats.find(&name.to_string()).unwrap();
    &stats.entries[index]
}

#[test]
fn buckets_are_exact_below_256_and_within_a_128th_above() {
    for v in 0..256u64 {
        assert_eq!(bucket_index(v), v as usize);
        assert_eq!(floor_of(v as usize), v);
    }
    assert_eq!(bucket_index(256), 256);
    assert_eq!(bucket_index(257), 256);
    assert_eq!(bucket_index(258), 257);
    assert_eq!(bucket_index(511), 383);
    assert_eq!(bucket_index(512), 384);
    assert_eq!(bucket_index(1000), 506);
    assert_eq!(bucket_index(1003), 506);
    assert_eq!(bucket_index(1004), 507);
    assert_eq!(bucket_index(u64::MAX), BUCKETS - 1);
    assert_eq!(floor_of(256), 256);
    assert_eq!(floor_of(257), 258);
    assert_eq!(floor_of(383), 510);
    assert_eq!(floor_of(384), 512);
    assert_eq!(floor_of(506), 1000);
    assert_eq!(floor_of(BUCKETS - 1), 255u64 << 56);
    let mut v: u64 = 1;
    while v < u64::MAX / 3 {
        for sample in [v, v + v / 2, v + v / 3 + 1] {
            let floor = floor_of(bucket_index(sample));
            assert!(floor <= sample);
            assert!((sample - floor) as u128 * 128 <= sample as u128);
        }
        v *= 2;
    }
}

#[test]
fn counts_add_slot_by_slot() {
    let mut a = Counts::new(4);
    let mut b = Counts::new(4);
    a.add_one(0);
    a.add_one(3);
    a.add_one(3);
    b.add_one(3);
    b.add_one(1);
    a.merge(&b);
    assert_eq!(a.counts, vec![1, 1, 0, 3]);
    assert_eq!(b.counts, vec![0, 1, 0, 1]);
    assert_eq!(a.copy().counts, a.counts);
    assert_eq!(a.rank_slot(1), 0);
    assert_eq!(a.rank_slot(2), 1);
    assert_eq!(a.rank_slot(3), 3);
    assert_eq!(a.rank_slot(5), 3);
}

#[test]
fn records_are_counted_under_their_name() {
    let mut stats = Statistics::new();
    assert_eq!(stats.record(&record("(Anon) front page", 200, 12, true)), Ok(()));
    assert_eq!(stats.record(&record("static asset", 200, 3, true)), Ok(()));
    assert_eq!(stats.record(&record("static asset", 404, 5, false)), Ok(()));
    assert_eq!(stats.entries.len(), 2);
    let front = summary(&stats, "(Anon) front page");
    assert_eq!((front.count, front.success, front.failure), (1, 1, 0));
    assert_eq!((front.total_ms, front.min_ms, front.max_ms), (12, 12, 12));
    let asset = summary(&stats, "static asset");
    assert_eq!((asset.count, asset.success, asset.failure), (2, 1, 1));
    assert_eq!((asset.total_ms, asset.min_ms, asset.max_ms), (8, 3, 5));
    assert_eq!(asset.mean_ms(), Some(4));
    assert_eq!(asset.statuses.counts[200], 1);
    assert_eq!(asset.statuses.counts[404], 1);
    assert_eq!(asset.statuses.counts.iter().sum::<u64>(), 2);
    assert_eq!(asset.histogram.counts[3], 1);
    assert_eq!(asset.histogram.counts[5], 1);
    assert_eq!(asset.histogram.counts.len(), BUCKETS);
    assert_eq!(asset.statuses.counts.len(), STATUS_SLOTS);
    assert_eq!(stats.find(&"missing".to_string()), None);
}

#[test]
fn status_codes_from_1000_on_count_as_no_response() {
    let mut stats = Statistics::new();
    stats.record(&record("odd", 1000, 1, false)).unwrap();
    stats.record(&record("odd", 65535, 1, false)).unwrap();
    stats.record(&record("odd", 0, 1, false)).unwrap();
    stats.record(&record("odd", 999, 1, true)).unwrap();
    let odd = summary(&stats, "odd");
    assert_eq!(odd.statuses.counts[0], 3);
    assert_eq!(odd.statuses.counts[999], 1);
}

#[test]
fn two_worker_reports_add_up() {
    let mut manager = Statistics::new();
    assert_eq!(manager.merge(&worker_report()), Ok(()));
    assert_eq!(manager.merge(&worker_report()), Ok(()));
    let one = worker_report();
    let one = summary(&one, "front");
    let front = summary(&manager, "front");
    assert_eq!((one.count, one.success, one.failure), (102, 100, 2));
    assert_eq!((front.count, front.success, front.failure), (204, 200, 4));
    assert_eq!(front.total_ms, 2 * one.total_ms);
    assert_eq!((front.min_ms, front.max_ms), (10, 30000));
    for b in 0..BUCKETS {
        assert_eq!(front.histogram.counts[b], 2 * one.histogram.counts[b]);
    }
    for s in 0..STATUS_SLOTS {
        assert_eq!(front.statuses.counts[s], 2 * one.statuses.counts[s]);
    }
    assert_eq!(front.statuses.counts[200], 200);
    assert_eq!(front.statuses.counts[500], 2);
    assert_eq!(front.statuses.counts[0], 2);
}

fn same(a: &Statistics, b: &Statistics) {
    assert_eq!(a.entries.len(), b.entries.len());
    for entry in &a.entries {
        let other = summary(b, &entry.name);
        assert_eq!(entry.count, other.count);
        assert_eq!(entry.success, other.success);
        assert_eq!(entry.failure, other.failure);
        assert_eq!(entry.total_ms, other.total_ms);
        assert_eq!(entry.min_ms, other.min_ms);
        assert_eq!(entry.max_ms, other.max_ms);
        assert_eq!(entry.histogram.counts, other.histogram.counts);
        assert_eq!(entry.statuses.counts, other.statuses.counts);
    }
}

#[test]
fn reports_merge_to_the_same_in_any_order() {
    let mut a = Statistics::new();
    a.record(&record("front", 200, 12, true)).unwrap();
    a.record(&record("node", 200, 40, true)).unwrap();
    let mut b = Statistics::new();
    b.record(&record("node", 503, 900, false)).unwrap();
    b.record(&record("profile", 200, 7, true)).unwrap();
    let mut c = Statistics::new();
    c.record(&record("front", 200, 2, true)).unwrap();
    let orders: [[&Statistics; 3]; 6] =
        [[&a, &b, &c], [&a, &c, &b], [&b, &a, &c], [&b, &c, &a], [&c, &a, &b], [&c, &b, &a]];
    let mut first = Statistics::new();
    for delta in orders[0] {
        first.merge(delta).unwrap();
    }
    assert_eq!(summary(&first, "front").count, 2);
    assert_eq!(summary(&first, "front").min_ms, 2);
    assert_eq!(summary(&first, "node").count, 2);
    assert_eq!(summary(&first, "node").failure, 1);
    assert_eq!(summary(&first, "node").max_ms, 900);
    assert_eq!(summary(&first, "profile").count, 1);
    for order in &orders[1..] {
        let mut other = Statistics::new();
        for delta in order {
            other.merge(delta).unwrap();
        }
        same(&first, &other);
    }
}

#[test]
fn merging_records_one_by_one_is_recording_them() {
    let samples = [("front", 200, 5, true), ("node", 404, 300, false), ("front", 200, 9, true)];
    let mut recorded = Statistics::new();
    let mut merged = Statistics::new();
    for (name, status, elapsed, success) in samples {
        recorded.record(&record(name, status, elapsed, success)).unwrap();
        let mut single = Statistics::new();
        single.record(&record(name, status, elapsed, success)).unwrap();
        merged.merge(&single).unwrap();
    }
    same(&recorded, &merged);
}

#[test]
fn percentiles_follow_the_nearest_rank() {
    let mut stats = Statistics::new();
    for ms in 1..=100u64 {
        stats.record(&record("front", 200, ms, true)).unwrap();
    }
    let front = summary(&stats, "front");
    assert_eq!(front.percentile(50), Some(50));
    assert_eq!(front.percentile(95), Some(95));
    assert_eq!(front.percentile(99), Some(99));
    assert_eq!(front.percentile(100), Some(100));
    assert_eq!(front.percentile(1), Some(1));
    assert_eq!(front.percentile(0), Some(1));
    assert_eq!(front.percentile(101), None);
    assert_eq!(front.mean_ms(), Some(50));
    let empty = Summary::new(&"none".to_string());
    assert_eq!(empty.percentile(50), None);
    assert_eq!(empty.mean_ms(), None);
}

#[test]
fn percentiles_of_long_latencies_are_within_one_percent() {
    let mut stats = Statistics::new();
    for i in 0..1000u64 {
        stats.record(&record("slow", 200, 1000 + 37 * i, true)).unwrap();
    }
    let slow = summary(&stats, "slow");
    for (p, rank) in [(50u64, 500u64), (95, 950), (99, 990)] {
        let exact = 1000 + 37 * (rank - 1);
        let reported = slow.percentile(p).unwrap();
        assert!(reported <= exact);
        assert!((exact - reported) * 100 <= exact);
    }
    assert_eq!(slow.percentile(50), Some(floor_of(bucket_index(1000 + 37 * 499))));
}

#[test]
fn full_counter_refuses_another_record() {
    let mut full = Summary::new(&"front".to_string());
    full.count = u64::MAX;
    full.success = u64::MAX;
    full.histogram.counts[7] = u64::MAX;
    full.statuses.counts[200] = u64::MAX;
    full.min_ms = 7;
    full.max_ms = 7;
    full.total_ms = 7;
    let mut stats = Statistics { entries: vec![full] };
    assert_eq!(stats.record(&record("front", 200, 7, true)), Err(StatsError::Overflow));
    assert_eq!(summary(&stats, "front").count, u64::MAX);
    assert_eq!(summary(&stats, "front").total_ms, 7);
    assert_eq!(stats.record(&record("node", 200, 7, true)), Ok(()));
    let mut delta = Statistics::new();
    delta.record(&record("node", 200, 1, true)).unwrap();
    assert!(stats.can_merge(&delta));
    delta.record(&record("front", 200, 1, true)).unwrap();
    assert!(!stats.can_merge(&delta));
    assert_eq!(stats.merge(&delta), Err(StatsError::Overflow));
    assert_eq!(summary(&stats, "node").count, 1);
    let mut late = Summary::new(&"late".to_string());
    late.add_sample(200, u64::MAX - 1, true);
    let mut stats = Statistics { entries: vec![late] };
    assert_eq!(stats.record(&record("late", 200, 2, true)), Err(StatsError::Overflow));
    assert_eq!(stats.record(&record("late", 200, 1, true)), Ok(()));
    assert_eq!(summary(&stats, "late").total_ms, u64::MAX);
}

#[test]
fn taking_hands_out_the_statistics_and_starts_anew() {
    let mut stats = worker_report();
    let taken = stats.take();
    assert!(stats.entries.is_empty());
    assert_eq!(summary(&taken, "front").count, 102);
    stats.record(&record("front", 200, 1, true)).unwrap();
    assert_eq!(summary(&stats, "front").count, 1);
    let mut manager = Statistics::new();
    manager.merge(&taken).unwrap();
    manager.merge(&stats.take()).unwrap();
    assert_eq!(summary(&manager, "front").count, 103);
}

#[test]
fn summaries_absorb_each_other() {
    let name = "front".to_string();
    let mut a = Summary::new(&name);
    let mut b = Summary::new(&name);
    b.add_sample(200, 40, true);
    b.add_sample(500, 4, false);
    a.absorb(&b);
    assert_eq!((a.count, a.success, a.failure, a.total_ms, a.min_ms, a.max_ms), (2, 1, 1, 44, 4, 40));
    a.absorb(&Summary::new(&name));
    assert_eq!((a.count, a.min_ms, a.max_ms), (2, 4, 40));
    let copy = a.copy();
    assert_eq!(copy.name, "front");
    assert_eq!(copy.histogram.counts, a.histogram.counts);
}

#[test]
fn path_goes_behind_the_host_unless_it_is_absolute() {
    assert_eq!(request_url("http://localhost", "/"), "http://localhost/");
    assert_eq!(request_url("http://localhost:8080", "/node/7"), "http://localhost:8080/node/7");
    assert_eq!(request_url("http://localhost", "http://example.com/x"), "http://example.com/x");
    assert_eq!(request_url("http://localhost", "https://example.com/"), "https://example.com/");
    assert_eq!(request_url("http://localhost", "httpx://odd"), "http://localhosthttpx://odd");
    assert_eq!(request_url("http://localhost", "http:/"), "http://localhosthttp:/");
    assert_eq!(request_url("", ""), "");
    assert_eq!(request_url("http://h\u{e9}te", "/caf\u{e9}"), "http://h\u{e9}te/caf\u{e9}");
    assert!(starts_with("https://a", "https://"));
    assert!(starts_with("abc", ""));
    assert!(!starts_with("ab", "abc"));
    assert!(!starts_with("\u{e9}a", "ea"));
}

#[test]
fn request_records_tell_success_from_failure() {
    let mut answered =
        RequestRecord::answered(Method::Get, "front".to_string(), "http://h/".to_string(), 200, 12);
    assert!(answered.success);
    assert_eq!((answered.status, answered.elapsed_ms, answered.error.clone()), (200, 12, None));
    answered.set_failure("no form on page".to_string());
    assert!(!answered.success);
    assert_eq!(answered.error.as_deref(), Some("no form on page"));
    assert_eq!((answered.status, answered.elapsed_ms), (200, 12));
    let unanswered = RequestRecord::unanswered(
        Method::Post,
        "login".to_string(),
        "http://h/user".to_string(),
        30000,
        "timed out".to_string(),
    );
    assert!(!unanswered.success);
    assert_eq!(unanswered.status, 0);
    assert_eq!(unanswered.method, Method::Post);
    let mut stats = Statistics::new();
    stats.record(&answered).unwrap();
    stats.record(&unanswered).unwrap();
    assert_eq!(summary(&stats, "front").failure, 1);
    assert_eq!(summary(&stats, "login").statuses.counts[0], 1);
}

use poisson_ticker::histogram::HistogramError;
use poisson_ticker::histogram::LatencyMap;
use poisson_ticker::histogram::ManualHistogram;
use poisson_ticker::summary_stats::SummaryError;
use poisson_ticker::summary_stats::SummaryHistogram;
use poisson_ticker::summary_stats::SummaryStats;

#[test]
fn ceiling_bucketing_at_precision_boundary() {
    // with precision 1,000,000ns a latency of exactly 1,000,000 buckets
    // into 2,000,000, and 999,999 buckets into 1,000,000
    let mut h = SummaryHistogram::new(Some(1_000_000));
    h.record(1_000_000);
    h.record(999_999);
    assert_eq!(h.count(), 2);
    assert_eq!(h.buckets(), vec![(1_000_000, 1), (2_000_000, 1)]);
}

#[test]
fn exact_mode_buckets_raw_values() {
    let mut h = SummaryHistogram::new(None);
    h.record(17);
    h.record(17);
    h.record(3);
    assert_eq!(h.count(), 3);
    assert_eq!(h.buckets(), vec![(3, 1), (17, 2)]);
    assert_eq!(h.precision(), None);
}

#[test]
fn summary_quantile_scans_cumulative_counts() {
    let mut h = SummaryHistogram::new(None);
    for v in [10, 10, 10, 20, 20, 30, 30, 30, 30, 40] {
        h.record(v);
    }
    // cumulative fractions: 10 -> 0.3, 20 -> 0.5, 30 -> 0.9, 40 -> 1.0
    assert_eq!(h.value_at_quantile(25, 100).unwrap(), 10);
    assert_eq!(h.value_at_quantile(30, 100).unwrap(), 10);
    assert_eq!(h.value_at_quantile(31, 100).unwrap(), 20);
    assert_eq!(h.value_at_quantile(50, 100).unwrap(), 20);
    assert_eq!(h.value_at_quantile(90, 100).unwrap(), 30);
    assert_eq!(h.value_at_quantile(99, 100).unwrap(), 40);
    assert_eq!(h.value_at_quantile(100, 100).unwrap(), 40);
    assert_eq!(h.value_at_quantile(0, 100).unwrap(), 10);
}

#[test]
fn summary_quantile_fails_when_empty_or_above_one() {
    let empty = SummaryHistogram::new(None);
    assert_eq!(
        empty.value_at_quantile(50, 100),
        Err(SummaryError::QuantileNotFound {
            q_num: 50,
            q_den: 100
        })
    );
    let mut h = SummaryHistogram::new(None);
    h.record(5);
    assert_eq!(
        h.value_at_quantile(101, 100),
        Err(SummaryError::QuantileNotFound {
            q_num: 101,
            q_den: 100
        })
    );
}

#[test]
fn from_manual_compresses_a_buffer() {
    let manual = ManualHistogram::new_from_vec(vec![1_000_000, 999_999, 2_500_000]);
    let h = SummaryHistogram::from_manual(Some(1_000_000), &manual).unwrap();
    assert_eq!(h.count(), 3);
    assert_eq!(
        h.buckets(),
        vec![(1_000_000, 1), (2_000_000, 1), (3_000_000, 1)]
    );
}

fn dense_map(n: usize, rtt: u64) -> LatencyMap {
    let mut m = LatencyMap::new();
    for id in 0..n {
        let sent = id as u64 * 1_000;
        m.record(id, sent, Some(sent + rtt)).unwrap();
    }
    m
}

#[test]
fn summary_stats_window_ids_from_rate_and_trim() {
    // rate 1000 req/s, experiment 10s, warmup 2s, cooldown 1s:
    // start_id = 2000, end_id = 9000
    let m = dense_map(9_501, 500);
    let s = SummaryStats::new(1_000, 1, 10, &m, 2, 1, false, None).unwrap();
    assert_eq!(s.total_objects_sent, 7_000); // 9000 - 2000
    assert_eq!(s.total_objects_recv, 7_000);
    assert_eq!(s.send_time, 7_000_000); // sent(9000) - sent(2000)
    assert_eq!(s.receive_time, 6_999_500); // recv(8999) - sent(2000)
    assert_eq!(s.histogram.count(), 7_000);
    assert_eq!(s.histogram.buckets(), vec![(500, 7_000)]);
    assert_eq!(s.histogram.value_at_quantile(50, 100).unwrap(), 500);
}

#[test]
fn summary_stats_rejects_overlapping_trim() {
    // warmup 8s does not fit before cooldown 3s in a 10s experiment
    let m = dense_map(16, 500);
    let r = SummaryStats::new(1_000, 1, 10, &m, 8, 3, false, None);
    assert_eq!(
        r.unwrap_err(),
        SummaryError::BadWindow {
            warmup_seconds: 8,
            cooldown_seconds: 3,
            experiment_seconds: 10
        }
    );
}

#[test]
fn summary_stats_window_check_precedes_map_access() {
    // a bad window is reported even for a map with no requests
    let empty = LatencyMap::new();
    let r = SummaryStats::new(1_000, 1, 10, &empty, 8, 3, false, None);
    assert_eq!(
        r.unwrap_err(),
        SummaryError::BadWindow {
            warmup_seconds: 8,
            cooldown_seconds: 3,
            experiment_seconds: 10
        }
    );
}

#[test]
fn summary_stats_rejects_empty_map() {
    // a valid window over a map with no requests is a recoverable error
    let empty = LatencyMap::new();
    let r = SummaryStats::new(1_000, 1, 10, &empty, 2, 1, false, None);
    assert_eq!(r.unwrap_err(), SummaryError::EmptyLatencyMap);
}

#[test]
fn summary_stats_clamps_end_id_to_map() {
    // cooldown 0 pushes end_id past the last recorded request; it is
    // clamped to the last id
    let m = dense_map(101, 40);
    // rate 10 req/s, experiment 100s -> end_id 1000, clamped to 100
    let s = SummaryStats::new(10, 1, 100, &m, 1, 0, false, None).unwrap();
    assert_eq!(s.total_objects_sent, 90); // 100 - 10
    assert_eq!(s.send_time, 90_000);
}

#[test]
fn summary_stats_fractional_rate_rounds_ids() {
    // rate 3/2 req/s: warmup 3s -> ceil(4.5) = 5; measured 7s -> floor(10.5) = 10
    let m = dense_map(12, 40);
    let s = SummaryStats::new(3, 2, 10, &m, 3, 3, false, None).unwrap();
    assert_eq!(s.total_objects_sent, 5); // 10 - 5
    assert_eq!(s.send_time, 5_000); // sent(10) - sent(5)
}

#[test]
fn summary_stats_propagates_window_errors() {
    let mut m = LatencyMap::new();
    m.record(0, 0, Some(10)).unwrap();
    m.record(1, 1_000, None).unwrap();
    m.record(2, 2_000, Some(2_050)).unwrap();
    // rate 1 req/s, experiment 2s, no trim: window [0, 2) with id 1 dropped
    let r = SummaryStats::new(1, 1, 2, &m, 0, 0, false, None);
    assert_eq!(
        r.unwrap_err(),
        SummaryError::Window(HistogramError::NoRecvTime { id: 1 })
    );
    // the time-window mode tolerates the drop
    let s = SummaryStats::new(1, 1, 2, &m, 0, 0, true, None).unwrap();
    assert_eq!(s.total_objects_sent, 3);
    assert_eq!(s.total_objects_recv, 1);
}

#[test]
fn summary_stats_with_precision_buckets_window() {
    let m = dense_map(11, 1_000_000);
    let s = SummaryStats::new(1, 1, 10, &m, 0, 0, false, Some(1_000_000)).unwrap();
    // every rtt is exactly 1,000,000, which buckets into 2,000,000
    assert_eq!(s.histogram.buckets(), vec![(2_000_000, 10)]);
}

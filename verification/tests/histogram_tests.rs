use poisson_ticker::histogram::HistogramError;
use poisson_ticker::histogram::LatencyMap;
use poisson_ticker::histogram::ManualHistogram;

#[test]
fn quantile_fails_before_sort() {
    let mut h = ManualHistogram::new(8);
    h.record(5);
    h.record(1);
    assert_eq!(h.value_at_quantile(50, 100), Err(HistogramError::NotSorted));
    assert_eq!(h.mean(), Err(HistogramError::NotSorted));
    assert_eq!(h.min(), Err(HistogramError::NotSorted));
    assert_eq!(h.max(), Err(HistogramError::NotSorted));
    assert!(!h.is_sorted());
}

#[test]
fn sort_orders_and_keeps_samples() {
    let mut h = ManualHistogram::new_from_vec(vec![30, 10, 20, 10]);
    assert_eq!(h.len(), 4);
    h.sort().unwrap();
    assert!(h.is_sorted());
    assert_eq!(h.min().unwrap(), 10);
    assert_eq!(h.max().unwrap(), 30);
    assert_eq!(h.mean().unwrap(), 17); // (30+10+20+10)/4 = 17.5 rounded down
    // recording order is preserved in the raw buffer
    assert_eq!(h.latencies_vec(), &[30, 10, 20, 10]);
}

#[test]
fn quantiles_monotone_and_bounded_after_sort() {
    // round trip: record, sort, then scan quantiles 0..1 at regular steps;
    // the results are non-decreasing and stay within [min, max]
    let mut h = ManualHistogram::new(0);
    let samples = [903, 17, 45, 650, 221, 999, 3, 480, 480, 77];
    for s in samples {
        h.record(s);
    }
    h.sort().unwrap();
    let lo = h.min().unwrap();
    let hi = h.max().unwrap();
    let mut prev = lo;
    for q in 0..100 {
        let v = h.value_at_quantile(q, 100).unwrap();
        assert!(v >= prev, "quantile {}/100 regressed: {} < {}", q, v, prev);
        assert!(v >= lo && v <= hi);
        prev = v;
    }
    assert_eq!(h.value_at_quantile(0, 100).unwrap(), lo);
    // the highest step reaches the maximum: 10 * 99 / 100 = 9, the last slot
    assert_eq!(h.value_at_quantile(99, 100).unwrap(), hi);
}

#[test]
fn nearest_rank_index_is_floor_of_len_times_q() {
    let mut h = ManualHistogram::new_from_vec(vec![40, 30, 20, 10]);
    h.sort().unwrap();
    // sorted: [10, 20, 30, 40]; index = floor(4 * num / den)
    assert_eq!(h.value_at_quantile(1, 2).unwrap(), 30); // index 2
    assert_eq!(h.value_at_quantile(1, 4).unwrap(), 20); // index 1
    assert_eq!(h.value_at_quantile(2, 10).unwrap(), 10); // index 0
    assert_eq!(h.value_at_quantile(3, 4).unwrap(), 40); // index 3
}

#[test]
fn sort_is_idempotent() {
    let mut h = ManualHistogram::new_from_vec(vec![5, 2, 9]);
    h.sort().unwrap();
    let first = (h.min().unwrap(), h.max().unwrap(), h.mean().unwrap());
    h.sort().unwrap();
    let second = (h.min().unwrap(), h.max().unwrap(), h.mean().unwrap());
    assert_eq!(first, second);
    assert!(h.is_sorted());
}

#[test]
fn record_after_sort_leaves_sorted_copy_stale() {
    let mut h = ManualHistogram::new_from_vec(vec![5, 2]);
    h.sort().unwrap();
    h.record(100);
    // the sorted copy still reflects the samples present at sort time
    assert!(h.is_sorted());
    assert_eq!(h.max().unwrap(), 5);
    assert_eq!(h.len(), 3);
    // sorting again folds the new sample in
    h.sort().unwrap();
    assert_eq!(h.max().unwrap(), 100);
}

#[test]
fn record_after_new_grows_buffer() {
    let mut h = ManualHistogram::new(2);
    for v in [4, 3, 2, 1, 0] {
        h.record(v);
    }
    assert_eq!(h.len(), 5);
    assert_eq!(h.latencies_vec(), &[4, 3, 2, 1, 0]);
}

#[test]
fn latency_map_record_rejects_end_before_start() {
    let mut m = LatencyMap::new();
    assert_eq!(
        m.record(7, 100, Some(99)),
        Err(HistogramError::EndBeforeStart {
            id: 7,
            start_ns: 100,
            end_ns: 99
        })
    );
    assert_eq!(m.len(), 0);
    assert!(m.record(7, 100, Some(100)).is_ok());
    assert!(m.record(8, 110, None).is_ok());
    assert_eq!(m.len(), 2);
    assert_eq!(m.get(7), Some((100, Some(100))));
    assert_eq!(m.get(8), Some((110, None)));
    assert_eq!(m.get(9), None);
}

#[test]
fn latency_map_record_overwrites() {
    let mut m = LatencyMap::new();
    m.record(3, 10, None).unwrap();
    m.record(3, 10, Some(25)).unwrap();
    assert_eq!(m.len(), 1);
    assert_eq!(m.get(3), Some((10, Some(25))));
}

#[test]
fn latency_map_entries_in_id_order() {
    let mut m = LatencyMap::new();
    m.record(5, 50, Some(60)).unwrap();
    m.record(1, 10, None).unwrap();
    m.record(3, 30, Some(31)).unwrap();
    let e = m.entries();
    assert_eq!(e, vec![(1, 10, None), (3, 30, Some(31)), (5, 50, Some(60))]);
}

#[test]
fn from_sent_and_recv_times_builds_and_validates() {
    let sent = vec![(1usize, 100u64), (2, 200), (3, 300)];
    let recv = vec![(1usize, 150u64), (3, 330)];
    let m = LatencyMap::from_sent_and_recv_times(&sent, &recv).unwrap();
    assert_eq!(m.len(), 3);
    assert_eq!(m.get(1), Some((100, Some(150))));
    assert_eq!(m.get(2), Some((200, None)));
    assert_eq!(m.get(3), Some((300, Some(330))));

    let bad_recv = vec![(2usize, 199u64)];
    let r = LatencyMap::from_sent_and_recv_times(&sent, &bad_recv);
    assert_eq!(
        r.unwrap_err(),
        HistogramError::EndBeforeStart {
            id: 2,
            start_ns: 200,
            end_ns: 199
        }
    );
}

/// A map with one received and one dropped request: the id-window mode
/// refuses the drop, while the time-window mode tolerates it and counts
/// the dropped id as not received.
#[test]
fn drops_fail_id_window_but_pass_time_window() {
    let t0 = 1_000_000u64;
    let mut m = LatencyMap::new();
    m.record(1, t0, Some(t0 + 10_000_000)).unwrap(); // received after 10ms
    m.record(2, t0 + 5_000_000, None).unwrap(); // dropped
    m.record(3, t0 + 6_000_000, None).unwrap(); // window end marker
    let r = m.histogram_from_id_range(1, 3, false);
    assert_eq!(r.unwrap_err(), HistogramError::NoRecvTime { id: 2 });
    let (h, sent, recvd, send_dur, recv_dur) = m.histogram_from_id_range(1, 3, true).unwrap();
    assert_eq!(sent, 3); // inclusive span 3 - 1 + 1
    assert_eq!(recvd, 0); // id 1 arrived after the window closed, id 2 dropped
    assert_eq!(h.len(), 0);
    assert_eq!(send_dur, 6_000_000);
    assert_eq!(recv_dur, 6_000_000);
}

#[test]
fn time_window_counts_arrivals_inside_window() {
    let mut m = LatencyMap::new();
    m.record(0, 0, Some(400)).unwrap(); // inside the window
    m.record(1, 100, Some(5_000)).unwrap(); // after end's send time: late
    m.record(2, 200, None).unwrap(); // dropped
    m.record(3, 1_000, None).unwrap(); // window end marker
    let (h, sent, recvd, send_dur, recv_dur) = m.histogram_from_id_range(0, 3, true).unwrap();
    assert_eq!(sent, 4);
    assert_eq!(recvd, 1);
    assert_eq!(h.latencies_vec(), &[400]);
    assert_eq!(send_dur, 1_000);
    assert_eq!(recv_dur, 1_000);
}

#[test]
fn id_window_full_histogram() {
    let mut m = LatencyMap::new();
    for id in 0..5usize {
        let sent = (id as u64) * 1_000;
        m.record(id, sent, Some(sent + 500 + id as u64)).unwrap();
    }
    let (h, sent, recvd, send_dur, recv_dur) = m.histogram_from_id_range(0, 4, false).unwrap();
    assert_eq!(sent, 4);
    assert_eq!(recvd, 4);
    assert_eq!(h.latencies_vec(), &[500, 501, 502, 503]);
    assert_eq!(send_dur, 4_000);
    // the latest arrival among ids 0..4 is id 3 at 3_000 + 503
    assert_eq!(recv_dur, 3_503);
}

#[test]
fn id_window_error_cases() {
    let mut m = LatencyMap::new();
    m.record(10, 100, Some(100)).unwrap();
    m.record(12, 50, Some(60)).unwrap();
    // empty or inverted range
    assert_eq!(
        m.histogram_from_id_range(12, 10, false).unwrap_err(),
        HistogramError::BadIdRange {
            start_id: 12,
            end_id: 10
        }
    );
    // endpoints must be present
    assert_eq!(
        m.histogram_from_id_range(9, 12, false).unwrap_err(),
        HistogramError::IdNotFound { id: 9 }
    );
    assert_eq!(
        m.histogram_from_id_range(10, 13, false).unwrap_err(),
        HistogramError::IdNotFound { id: 13 }
    );
    // the window's last send lies before its first
    assert_eq!(
        m.histogram_from_id_range(10, 12, false).unwrap_err(),
        HistogramError::WindowEndsBeforeStart {
            start_id: 10,
            end_id: 12
        }
    );
    // an id missing inside the range
    let mut m2 = LatencyMap::new();
    m2.record(10, 100, Some(100)).unwrap();
    m2.record(12, 300, Some(360)).unwrap();
    assert_eq!(
        m2.histogram_from_id_range(10, 12, false).unwrap_err(),
        HistogramError::IdNotFound { id: 11 }
    );
}

#[test]
fn id_window_recv_before_window_start() {
    let mut m = LatencyMap::new();
    m.record(10, 100, Some(200)).unwrap();
    m.record(11, 10, Some(20)).unwrap(); // received before id 10 was sent
    m.record(12, 300, Some(360)).unwrap();
    assert_eq!(
        m.histogram_from_id_range(10, 12, false).unwrap_err(),
        HistogramError::RecvBeforeWindowStart { id: 11 }
    );
}

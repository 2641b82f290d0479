//! Space-bounded summary reports: a bucketed histogram that compresses a
//! raw latency buffer at a configurable precision, and a final report over
//! an experiment's measurement window with warmup and cooldown trimmed off.

use crate::histogram::HistogramError;
use crate::histogram::ManualHistogram;
use vstd::prelude::*;

verus! {

/// Why a summary operation failed.
#[derive(Debug, PartialEq, Eq, Copy, Clone)]
pub enum SummaryError {
    /// The warmup does not fit before the cooldown inside the experiment.
    BadWindow { warmup_seconds: usize, cooldown_seconds: usize, experiment_seconds: usize },
    /// No bucket reaches the requested quantile (empty histogram or a
    /// quantile above one).
    QuantileNotFound { q_num: u64, q_den: u64 },
    /// The latency map holds no requests, so no window can be cut from it.
    EmptyLatencyMap,
    /// The windowed analysis over the latency map failed.
    Window(HistogramError),
}

/// The bucket a latency falls into: with a precision, the next multiple of
/// the precision strictly above the latency's multiple (a latency of
/// exactly one precision rounds up to two); without, the latency itself.
pub open spec fn bucket_of(latency: u64, precision: Option<u64>) -> u64 {
    match precision {
        Some(p) => ((latency / p + 1) * p) as u64,
        None => latency,
    }
}

/// The map described by an association list of `(bucket, count)` pairs; a
/// later pair for the same bucket wins.
pub open spec fn bucket_map(s: Seq<(u64, u64)>) -> Map<u64, u64>
    decreases s.len(),
{
    if s.len() == 0 {
        Map::empty()
    } else {
        bucket_map(s.drop_last()).insert(s.last().0, s.last().1)
    }
}

/// Bucket keys are strictly increasing.
pub open spec fn buckets_strictly_increasing(s: Seq<(u64, u64)>) -> bool {
    forall|i: int, j: int| 0 <= i < j < s.len() ==> s[i].0 < s[j].0
}

/// The total of the per-bucket counts.
pub open spec fn counts_sum(s: Seq<(u64, u64)>) -> int
    decreases s.len(),
{
    if s.len() == 0 {
        0
    } else {
        s[0].1 + counts_sum(s.drop_first())
    }
}

/// The bucketed histogram described by a sequence of raw samples.
pub open spec fn summary_of(samples: Seq<u64>, precision: Option<u64>) -> Map<u64, u64>
    decreases samples.len(),
{
    if samples.len() == 0 {
        Map::empty()
    } else {
        let m = summary_of(samples.drop_last(), precision);
        let b = bucket_of(samples.last(), precision);
        m.insert(
            b,
            (if m.contains_key(b) {
                m[b] + 1
            } else {
                1
            }) as u64,
        )
    }
}

/// The ascending-order quantile scan: the first bucket at which the
/// cumulative count (on top of `acc`) reaches the fraction `qn / qd` of
/// `total`.
pub open spec fn quantile_scan(s: Seq<(u64, u64)>, acc: int, total: int, qn: int, qd: int) -> Option<
    u64,
>
    decreases s.len(),
{
    if s.len() == 0 {
        None
    } else if (acc + s[0].1) * qd >= total * qn {
        Some(s[0].0)
    } else {
        quantile_scan(s.drop_first(), acc + s[0].1, total, qn, qd)
    }
}

/// Summing counts distributes over concatenation.
proof fn lemma_counts_sum_concat(a: Seq<(u64, u64)>, b: Seq<(u64, u64)>)
    ensures
        counts_sum(a + b) == counts_sum(a) + counts_sum(b),
    decreases a.len(),
{
    if a.len() == 0 {
        assert(a + b =~= b);
    } else {
        assert((a + b).drop_first() =~= a.drop_first() + b);
        lemma_counts_sum_concat(a.drop_first(), b);
    }
}

/// The sum over a single pair is that pair's count.
proof fn lemma_counts_sum_singleton(e: (u64, u64))
    ensures
        counts_sum(seq![e]) == e.1,
{
    assert(counts_sum(Seq::<(u64, u64)>::empty()) == 0);
    assert(seq![e].drop_first() =~= Seq::<(u64, u64)>::empty());
    assert(seq![e][0] == e);
}

/// Counts are non-negative and each bucket's count is at most the total.
proof fn lemma_counts_sum_bounds(s: Seq<(u64, u64)>)
    ensures
        counts_sum(s) >= 0,
        forall|i: int| 0 <= i < s.len() ==> (#[trigger] s[i]).1 <= counts_sum(s),
    decreases s.len(),
{
    if s.len() > 0 {
        lemma_counts_sum_bounds(s.drop_first());
        assert(forall|i: int| 1 <= i < s.len() ==> (#[trigger] s[i]) == s.drop_first()[i - 1]);
    }
}

/// If the quantile is at most one and something was recorded, the scan
/// finds a bucket.
proof fn lemma_quantile_scan_finds(s: Seq<(u64, u64)>, acc: int, total: int, qn: int, qd: int)
    requires
        0 <= qn <= qd,
        0 <= acc,
        acc + counts_sum(s) == total,
        s.len() > 0,
    ensures
        quantile_scan(s, acc, total, qn, qd) is Some,
    decreases s.len(),
{
    lemma_counts_sum_bounds(s.drop_first());
    if s.len() == 1 {
        assert(acc + s[0].1 == total);
        assert((acc + s[0].1) * qd >= total * qn) by (nonlinear_arith)
            requires
                acc + s[0].1 == total,
                total >= 0,
                0 <= qn <= qd,
        ;
    } else if (acc + s[0].1) * qd >= total * qn {
    } else {
        lemma_quantile_scan_finds(s.drop_first(), acc + s[0].1, total, qn, qd);
    }
}

/// If the quantile exceeds one and anything was recorded, no cumulative
/// count ever reaches it: the scan fails.
proof fn lemma_quantile_scan_overshoot(s: Seq<(u64, u64)>, acc: int, total: int, qn: int, qd: int)
    requires
        0 <= qd < qn,
        0 <= acc,
        acc + counts_sum(s) <= total,
        0 < total,
    ensures
        quantile_scan(s, acc, total, qn, qd) is None,
    decreases s.len(),
{
    if s.len() > 0 {
        lemma_counts_sum_bounds(s.drop_first());
        assert(acc + s[0].1 <= total);
        assert((acc + s[0].1) * qd < total * qn) by (nonlinear_arith)
            requires
                0 <= acc + s[0].1 <= total,
                0 < total,
                0 <= qd < qn,
        ;
        lemma_quantile_scan_overshoot(s.drop_first(), acc + s[0].1, total, qn, qd);
    }
}

/// With strictly increasing buckets, the association list and its map
/// agree: the keys are exactly the listed buckets, each with its count.
proof fn lemma_bucket_map_ids(s: Seq<(u64, u64)>)
    requires
        buckets_strictly_increasing(s),
    ensures
        forall|k: u64| #[trigger]
            bucket_map(s).contains_key(k) ==> exists|i: int|
                0 <= i < s.len() && (#[trigger] s[i]).0 == k,
        forall|i: int|
            0 <= i < s.len() ==> bucket_map(s).contains_key((#[trigger] s[i]).0) && bucket_map(
                s,
            )[s[i].0] == s[i].1,
    decreases s.len(),
{
    if s.len() > 0 {
        let pre = s.drop_last();
        let last = s.last();
        assert(forall|i: int| 0 <= i < pre.len() ==> (#[trigger] pre[i]) == s[i]);
        lemma_bucket_map_ids(pre);
        assert(!bucket_map(pre).contains_key(last.0)) by {
            if bucket_map(pre).contains_key(last.0) {
                let i = choose|i: int| 0 <= i < pre.len() && (#[trigger] pre[i]).0 == last.0;
                assert(s[i].0 < last.0);
            }
        }
        assert(forall|i: int|
            0 <= i < s.len() ==> bucket_map(s).contains_key((#[trigger] s[i]).0) && bucket_map(
                s,
            )[s[i].0] == s[i].1) by {
            assert(forall|i: int| 0 <= i < pre.len() ==> (#[trigger] s[i]) == pre[i]);
        }
    }
}

/// Inserting a pair between the buckets below it and the buckets above it
/// adds exactly that binding to the map.
proof fn lemma_bucket_map_insert_at(s: Seq<(u64, u64)>, i: int, e: (u64, u64))
    requires
        0 <= i <= s.len(),
        forall|j: int| 0 <= j < i ==> (#[trigger] s[j]).0 < e.0,
        forall|j: int| i <= j < s.len() ==> (#[trigger] s[j]).0 > e.0,
    ensures
        bucket_map(s.insert(i, e)) == bucket_map(s).insert(e.0, e.1),
    decreases s.len(),
{
    if i == s.len() {
        assert(s.insert(i, e).drop_last() =~= s);
        assert(s.insert(i, e).last() == e);
    } else {
        let pre = s.drop_last();
        let last = s.last();
        assert(forall|j: int| 0 <= j < pre.len() ==> (#[trigger] pre[j]) == s[j]);
        lemma_bucket_map_insert_at(pre, i, e);
        assert(s.insert(i, e).drop_last() =~= pre.insert(i, e));
        assert(s.insert(i, e).last() == last);
        assert(last.0 > e.0);
        assert(bucket_map(pre).insert(e.0, e.1).insert(last.0, last.1) =~= bucket_map(pre).insert(
            last.0,
            last.1,
        ).insert(e.0, e.1));
    }
}

/// Replacing the pair that already carries a bucket overwrites exactly
/// that binding in the map.
proof fn lemma_bucket_map_update_at(s: Seq<(u64, u64)>, i: int, e: (u64, u64))
    requires
        0 <= i < s.len(),
        buckets_strictly_increasing(s),
        s[i].0 == e.0,
    ensures
        bucket_map(s.update(i, e)) == bucket_map(s).insert(e.0, e.1),
    decreases s.len(),
{
    let pre = s.drop_last();
    let last = s.last();
    assert(forall|j: int| 0 <= j < pre.len() ==> (#[trigger] pre[j]) == s[j]);
    if i == s.len() - 1 {
        assert(s.update(i, e).drop_last() =~= pre);
        assert(s.update(i, e).last() == e);
        assert(bucket_map(pre).insert(e.0, e.1) =~= bucket_map(pre).insert(last.0, last.1).insert(
            e.0,
            e.1,
        ));
    } else {
        lemma_bucket_map_update_at(pre, i, e);
        assert(s.update(i, e).drop_last() =~= pre.update(i, e));
        assert(s.update(i, e).last() == last);
        assert(last.0 != e.0);
        assert(bucket_map(pre).insert(e.0, e.1).insert(last.0, last.1) =~= bucket_map(pre).insert(
            last.0,
            last.1,
        ).insert(e.0, e.1));
    }
}

/// A space-bounded histogram: a map from latency bucket to occurrence
/// count, at an optional fixed precision in nanoseconds. Without a
/// precision, buckets are the exact raw latencies.
#[derive(Debug, PartialEq, Eq, Clone)]
pub struct SummaryHistogram {
    precision: Option<u64>,
    buckets: Vec<(u64, u64)>,
    count: usize,
}

impl View for SummaryHistogram {
    type V = Map<u64, u64>;

    closed spec fn view(&self) -> Map<u64, u64> {
        bucket_map(self.buckets@)
    }
}

impl SummaryHistogram {
    /// The configured bucketing precision.
    pub closed spec fn precision_spec(&self) -> Option<u64> {
        self.precision
    }

    /// The `(bucket, count)` pairs in ascending bucket order.
    pub closed spec fn bucket_seq(&self) -> Seq<(u64, u64)> {
        self.buckets@
    }

    /// How many latencies have been recorded.
    pub closed spec fn count_spec(&self) -> int {
        self.count as int
    }

    /// Representation invariant: buckets sorted and unique, every listed
    /// count positive, the total count equal to their sum, and a present
    /// precision non-zero.
    pub closed spec fn wf(&self) -> bool {
        &&& buckets_strictly_increasing(self.buckets@)
        &&& forall|i: int| 0 <= i < self.buckets@.len() ==> (#[trigger] self.buckets@[i]).1 >= 1
        &&& counts_sum(self.buckets@) == self.count
        &&& (self.precision matches Some(p) ==> p >= 1)
    }

    /// An empty histogram recording at the given precision.
    pub fn new(precision: Option<u64>) -> (r: SummaryHistogram)
        requires
            precision matches Some(p) ==> p >= 1,
        ensures
            r.wf(),
            r.precision_spec() == precision,
            r@ == Map::<u64, u64>::empty(),
            r.count_spec() == 0,
            r.bucket_seq() == Seq::<(u64, u64)>::empty(),
    {
        SummaryHistogram { precision, buckets: Vec::new(), count: 0 }
    }

    /// Adds one latency to its bucket and to the total count.
    #[verifier::rlimit(50)]
    pub fn record(&mut self, latency: u64)
        requires
            old(self).wf(),
            old(self).count_spec() < usize::MAX,
            old(self).precision_spec() matches Some(p) ==> (latency / p + 1) * p <= u64::MAX,
        ensures
            final(self).wf(),
            final(self).precision_spec() == old(self).precision_spec(),
            final(self).count_spec() == old(self).count_spec() + 1,
            ({
                let b = bucket_of(latency, old(self).precision_spec());
                final(self)@ == old(self)@.insert(
                    b,
                    (if old(self)@.contains_key(b) {
                        old(self)@[b] + 1
                    } else {
                        1
                    }) as u64,
                )
            }),
    {
        let bucket: u64 = match self.precision {
            Some(p) => {
                let d = latency / p;
                proof {
                    assert(d + 1 <= (d + 1) * p) by (nonlinear_arith)
                        requires
                            p >= 1,
                            d >= 0,
                    ;
                }
                (d + 1) * p
            },
            None => latency,
        };
        proof {
            lemma_bucket_map_ids(self.buckets@);
            lemma_counts_sum_bounds(self.buckets@);
        }
        let n = self.buckets.len();
        let mut i: usize = 0;
        while i < n && self.buckets[i].0 < bucket
            invariant
                self.wf(),
                n == self.buckets@.len(),
                i <= n,
                forall|j: int| 0 <= j < i ==> (#[trigger] self.buckets@[j]).0 < bucket,
            decreases n - i,
        {
            i = i + 1;
        }
        if i < n && self.buckets[i].0 == bucket {
            proof {
                lemma_bucket_map_ids(self.buckets@);
                lemma_counts_sum_bounds(self.buckets@);
                assert(self.buckets@[i as int].1 <= counts_sum(self.buckets@));
            }
            let cnt = self.buckets[i].1;
            let entry = (bucket, cnt + 1);
            proof {
                lemma_bucket_map_update_at(self.buckets@, i as int, entry);
                assert(self.buckets@.remove(i as int).insert(i as int, entry) =~= self.buckets@
                    .update(i as int, entry));
            }
            let ghost pre = self.buckets@;
            self.buckets.remove(i);
            self.buckets.insert(i, entry);
            proof {
                assert(self.buckets@ =~= pre.update(i as int, entry));
                assert(forall|j: int|
                    0 <= j < self.buckets@.len() && j != i ==> (#[trigger] self.buckets@[j])
                        == pre[j]);
                assert(pre =~= pre.take(i as int) + seq![pre[i as int]] + pre.skip(i as int + 1));
                assert(self.buckets@ =~= pre.take(i as int) + seq![entry] + pre.skip(i as int + 1));
                lemma_counts_sum_concat(pre.take(i as int), seq![pre[i as int]]);
                lemma_counts_sum_concat(
                    pre.take(i as int) + seq![pre[i as int]],
                    pre.skip(i as int + 1),
                );
                lemma_counts_sum_concat(pre.take(i as int), seq![entry]);
                lemma_counts_sum_concat(pre.take(i as int) + seq![entry], pre.skip(i as int + 1));
                lemma_counts_sum_singleton(pre[i as int]);
                lemma_counts_sum_singleton(entry);
            }
        } else {
            let entry = (bucket, 1u64);
            proof {
                assert(forall|j: int|
                    i <= j < self.buckets@.len() ==> (#[trigger] self.buckets@[j]).0 > bucket);
                lemma_bucket_map_insert_at(self.buckets@, i as int, entry);
            }
            let ghost pre = self.buckets@;
            self.buckets.insert(i, entry);
            proof {
                assert(forall|j: int| 0 <= j < i ==> (#[trigger] self.buckets@[j]) == pre[j]);
                assert(forall|j: int|
                    i < j < self.buckets@.len() ==> (#[trigger] self.buckets@[j]) == pre[j - 1]);
                assert(self.buckets@ =~= pre.take(i as int) + seq![entry] + pre.skip(i as int));
                assert(pre =~= pre.take(i as int) + pre.skip(i as int));
                lemma_counts_sum_concat(pre.take(i as int), pre.skip(i as int));
                lemma_counts_sum_concat(pre.take(i as int), seq![entry]);
                lemma_counts_sum_concat(pre.take(i as int) + seq![entry], pre.skip(i as int));
                lemma_counts_sum_singleton(entry);
                // the new bucket was not present, so the map gains a fresh binding
                lemma_bucket_map_ids(pre);
                if bucket_map(pre).contains_key(bucket) {
                    let j = choose|j: int| 0 <= j < pre.len() && (#[trigger] pre[j]).0 == bucket;
                }
            }
        }
        self.count = self.count + 1;
    }

    /// The first bucket, in ascending order, at which the cumulative count
    /// reaches the fraction `q_num / q_den` of the total. Fails on an empty
    /// histogram and on a quantile above one.
    pub fn value_at_quantile(&self, q_num: u64, q_den: u64) -> (r: Result<u64, SummaryError>)
        requires
            self.wf(),
            q_den >= 1,
        ensures
            r is Ok <==> (self.count_spec() > 0 && q_num <= q_den),
            r matches Ok(v) ==> quantile_scan(
                self.bucket_seq(),
                0,
                self.count_spec(),
                q_num as int,
                q_den as int,
            ) == Some(v),
            r is Err ==> r == Err::<u64, SummaryError>(
                SummaryError::QuantileNotFound { q_num, q_den },
            ),
    {
        let total = self.count as u64;
        proof {
            lemma_counts_sum_bounds(self.buckets@);
            assert(self.buckets@.skip(0) =~= self.buckets@);
            assert(self.buckets@.take(0) =~= Seq::<(u64, u64)>::empty());
        }
        let n = self.buckets.len();
        let mut acc: u64 = 0;
        let mut i: usize = 0;
        while i < n
            invariant
                self.wf(),
                n == self.buckets@.len(),
                i <= n,
                total == self.count_spec(),
                acc == counts_sum(self.buckets@.take(i as int)),
                acc + counts_sum(self.buckets@.skip(i as int)) == total,
                quantile_scan(self.bucket_seq(), 0, total as int, q_num as int, q_den as int)
                    == quantile_scan(
                    self.buckets@.skip(i as int),
                    acc as int,
                    total as int,
                    q_num as int,
                    q_den as int,
                ),
            decreases n - i,
        {
            let e = self.buckets[i];
            proof {
                assert(self.buckets@.skip(i as int)[0] == e);
                assert(self.buckets@.skip(i as int).drop_first() =~= self.buckets@.skip(
                    i as int + 1,
                ));
                lemma_counts_sum_bounds(self.buckets@.skip(i as int).drop_first());
                assert(self.buckets@.take(i as int + 1) =~= self.buckets@.take(i as int)
                    + seq![e]);
                lemma_counts_sum_concat(self.buckets@.take(i as int), seq![e]);
                lemma_counts_sum_singleton(e);
                assert(acc + e.1 <= total);
            }
            let next = acc + e.1;
            proof {
                assert((next as int) * (q_den as int) < u128::MAX) by (nonlinear_arith)
                    requires
                        next <= u64::MAX,
                        q_den <= u64::MAX,
                ;
                assert((total as int) * (q_num as int) < u128::MAX) by (nonlinear_arith)
                    requires
                        total <= u64::MAX,
                        q_num <= u64::MAX,
                ;
            }
            if (next as u128) * (q_den as u128) >= (total as u128) * (q_num as u128) {
                proof {
                    assert(total >= 1);
                    if q_num > q_den {
                        lemma_quantile_scan_overshoot(
                            self.buckets@,
                            0,
                            total as int,
                            q_num as int,
                            q_den as int,
                        );
                    }
                }
                return Ok(e.0);
            }
            acc = next;
            i = i + 1;
        }
        proof {
            assert(self.buckets@.skip(n as int) =~= Seq::<(u64, u64)>::empty());
            if self.count_spec() > 0 && q_num <= q_den {
                lemma_quantile_scan_finds(
                    self.buckets@,
                    0,
                    total as int,
                    q_num as int,
                    q_den as int,
                );
            }
        }
        Err(SummaryError::QuantileNotFound { q_num, q_den })
    }

    /// Compresses a raw latency buffer into a bucketed histogram at the
    /// given precision.
    pub fn from_manual(precision: Option<u64>, manual_hist: &ManualHistogram) -> (r: Result<
        SummaryHistogram,
        SummaryError,
    >)
        requires
            manual_hist.wf(),
            precision matches Some(p) ==> p >= 1 && (forall|i: int|
                0 <= i < manual_hist.recorded().len() ==> ((#[trigger] manual_hist.recorded()[i])
                    / p + 1) * p <= u64::MAX),
        ensures
            r is Ok,
            r matches Ok(h) ==> ({
                &&& h.wf()
                &&& h.precision_spec() == precision
                &&& h@ == summary_of(manual_hist.recorded(), precision)
                &&& h.count_spec() == manual_hist.recorded().len()
            }),
    {
        let mut hist = SummaryHistogram::new(precision);
        let samples = manual_hist.latencies_vec();
        let n = samples.len();
        let mut i: usize = 0;
        while i < n
            invariant
                hist.wf(),
                i <= n,
                n == manual_hist.recorded().len(),
                samples@ == manual_hist.recorded(),
                hist.precision_spec() == precision,
                precision matches Some(p) ==> p >= 1 && (forall|j: int|
                    0 <= j < manual_hist.recorded().len() ==> ((#[trigger] manual_hist.recorded()[j])
                        / p + 1) * p <= u64::MAX),
                hist@ == summary_of(manual_hist.recorded().take(i as int), precision),
                hist.count_spec() == i,
            decreases n - i,
        {
            let v = samples[i];
            proof {
                assert(manual_hist.recorded().take(i as int + 1).drop_last()
                    =~= manual_hist.recorded().take(i as int));
                assert(manual_hist.recorded().take(i as int + 1).last() == v);
            }
            hist.record(v);
            i = i + 1;
        }
        proof {
            assert(manual_hist.recorded().take(n as int) =~= manual_hist.recorded());
        }
        Ok(hist)
    }

    /// The configured precision.
    pub fn precision(&self) -> (r: Option<u64>)
        ensures
            r == self.precision_spec(),
    {
        self.precision
    }

    /// How many latencies have been recorded.
    pub fn count(&self) -> (r: usize)
        ensures
            r == self.count_spec(),
    {
        self.count
    }

    /// The `(bucket, count)` pairs in ascending bucket order, for external
    /// reporting.
    pub fn buckets(&self) -> (r: Vec<(u64, u64)>)
        ensures
            r@ == self.bucket_seq(),
    {
        let n = self.buckets.len();
        let mut out: Vec<(u64, u64)> = Vec::new();
        let mut i: usize = 0;
        while i < n
            invariant
                n == self.buckets@.len(),
                i <= n,
                out@ == self.buckets@.take(i as int),
            decreases n - i,
        {
            out.push(self.buckets[i]);
            proof {
                assert(out@ =~= self.buckets@.take(i as int + 1));
            }
            i = i + 1;
        }
        proof {
            assert(out@ =~= self.buckets@);
        }
        out
    }
}

impl Default for SummaryHistogram {
    /// An empty histogram with no bucketing precision: buckets are exact
    /// raw latencies.
    fn default() -> (r: SummaryHistogram)
        ensures
            r.wf(),
            r.precision_spec() == None::<u64>,
            r@ == Map::<u64, u64>::empty(),
            r.count_spec() == 0,
    {
        SummaryHistogram::new(None)
    }
}

/// The first id of the measurement window: the warmup share of the rate,
/// rounded up and saturated at the id type's top.
pub open spec fn warmup_start_id(rate_num: u64, rate_den: u64, warmup_seconds: usize) -> int {
    let x = ((rate_num as int) * (warmup_seconds as int) + rate_den - 1) / (rate_den as int);
    if x > usize::MAX {
        usize::MAX as int
    } else {
        x
    }
}

/// The last id of the measurement window: the measured share of the rate
/// (experiment minus cooldown), rounded down, saturated at the id type's
/// top, then clamped to the last recorded id.
pub open spec fn measured_end_id(
    rate_num: u64,
    rate_den: u64,
    measured_seconds: int,
    map_size: int,
) -> int {
    let x = (rate_num as int) * measured_seconds / (rate_den as int);
    let saturated = if x > usize::MAX {
        usize::MAX as int
    } else {
        x
    };
    if saturated > map_size - 1 {
        map_size - 1
    } else {
        saturated
    }
}

/// Each entry of a time-window round-trip sequence is the round trip of
/// some id in the range whose receive time is present.
proof fn lemma_time_window_rtts_elements(
    m: Map<usize, (u64, Option<u64>)>,
    lo: int,
    hi: int,
    last: u64,
)
    requires
        0 <= lo,
        hi <= usize::MAX as int + 1,
    ensures
        forall|j: int|
            #![trigger crate::histogram::time_window_rtts(m, lo, hi, last)[j]]
            0 <= j < crate::histogram::time_window_rtts(m, lo, hi, last).len() ==> exists|id: int|
                lo <= id < hi && (#[trigger] m[(id as usize)]).1 is Some
                    && crate::histogram::time_window_rtts(m, lo, hi, last)[j] == (m[(
                id as usize)].1.unwrap() - m[(id as usize)].0) as u64,
    decreases hi - lo,
{
    if hi > lo {
        lemma_time_window_rtts_elements(m, lo, hi - 1, last);
        let full = crate::histogram::time_window_rtts(m, lo, hi, last);
        let prefix = crate::histogram::time_window_rtts(m, lo, hi - 1, last);
        assert forall|j: int| #![trigger full[j]] 0 <= j < full.len() implies exists|id: int|
            lo <= id < hi && (#[trigger] m[(id as usize)]).1 is Some && full[j] == (m[(
        id as usize)].1.unwrap() - m[(id as usize)].0) as u64 by {
            if j < prefix.len() {
                assert(full[j] == prefix[j]);
                let id = choose|id: int|
                    lo <= id < hi - 1 && (#[trigger] m[(id as usize)]).1 is Some && prefix[j] == (
                    m[(id as usize)].1.unwrap() - m[(id as usize)].0) as u64;
                assert(lo <= id < hi && (#[trigger] m[(id as usize)]).1 is Some && full[j] == (m[(
                id as usize)].1.unwrap() - m[(id as usize)].0) as u64);
            } else {
                let id = hi - 1;
                assert(lo <= id < hi && (#[trigger] m[(id as usize)]).1 is Some && full[j] == (m[(
                id as usize)].1.unwrap() - m[(id as usize)].0) as u64);
            }
        }
    }
}

/// A final experiment report: the bucketed latency histogram of the
/// measurement window, the counts of requests sent and received in it, and
/// its send and receive durations in nanoseconds.
#[derive(Debug, PartialEq, Eq, Clone)]
pub struct SummaryStats {
    /// The window's latencies, bucketed at the configured precision.
    pub histogram: SummaryHistogram,
    /// How many requests the window counts as sent.
    pub total_objects_sent: usize,
    /// How many requests the window counts as received.
    pub total_objects_recv: usize,
    /// The window's send duration, in nanoseconds.
    pub send_time: u64,
    /// The window's receive duration, in nanoseconds.
    pub receive_time: u64,
}

impl SummaryStats {
    /// Builds the report for the measurement window of an experiment run
    /// at `rate_num / rate_den` requests per second for
    /// `exp_time_seconds`, trimming the first `warmup_time_seconds` and the
    /// last `cooldown_time_seconds`. The window's id range is the warmup
    /// share of the rate rounded up through the measured share rounded
    /// down, clamped to the last recorded id; the windowed analysis and its
    /// failure cases are those of
    /// [`LatencyMap::histogram_from_id_range`](crate::histogram::LatencyMap::histogram_from_id_range).
    /// A window that does not fit the experiment and a map with no
    /// requests at all are reported as errors before any id is looked up.
    pub fn new(
        rate_num: u64,
        rate_den: u64,
        exp_time_seconds: usize,
        latency_map: &crate::histogram::LatencyMap,
        warmup_time_seconds: usize,
        cooldown_time_seconds: usize,
        use_time_window: bool,
        histogram_precision: Option<u64>,
    ) -> (r: Result<SummaryStats, SummaryError>)
        requires
            latency_map.wf(),
            rate_den >= 1,
            histogram_precision matches Some(p) ==> p >= 1 && (forall|k: usize|
                latency_map@.contains_key(k) ==> ((#[trigger] latency_map@[k]).1 matches Some(e)
                    ==> ((e - latency_map@[k].0) / (p as int) + 1) * p <= u64::MAX)),
        ensures
            r == Err::<SummaryStats, SummaryError>(
                SummaryError::BadWindow {
                    warmup_seconds: warmup_time_seconds,
                    cooldown_seconds: cooldown_time_seconds,
                    experiment_seconds: exp_time_seconds,
                },
            ) <==> warmup_time_seconds + cooldown_time_seconds > exp_time_seconds,
            r == Err::<SummaryStats, SummaryError>(SummaryError::EmptyLatencyMap) <==> (
            warmup_time_seconds + cooldown_time_seconds <= exp_time_seconds
                && latency_map@.dom().len() == 0),
            warmup_time_seconds + cooldown_time_seconds <= exp_time_seconds
                && latency_map@.dom().len() >= 1 ==> ({
                let m = latency_map@;
                let sid = warmup_start_id(rate_num, rate_den, warmup_time_seconds) as usize;
                let eid = measured_end_id(
                    rate_num,
                    rate_den,
                    exp_time_seconds - cooldown_time_seconds,
                    m.dom().len() as int,
                ) as usize;
                &&& (r is Ok <==> (crate::histogram::window_ids_ok(m, sid, eid) && (
                if use_time_window {
                    crate::histogram::no_missing_id(m, sid, eid)
                } else {
                    crate::histogram::no_id_fault(m, sid, eid, m[sid].0)
                })))
                &&& (!(sid < eid) ==> r == Err::<SummaryStats, SummaryError>(
                    SummaryError::Window(
                        HistogramError::BadIdRange { start_id: sid, end_id: eid },
                    ),
                ))
                &&& (sid < eid && !m.contains_key(sid) ==> r == Err::<SummaryStats, SummaryError>(
                    SummaryError::Window(HistogramError::IdNotFound { id: sid }),
                ))
                &&& (sid < eid && m.contains_key(sid) && !m.contains_key(eid) ==> r == Err::<
                    SummaryStats,
                    SummaryError,
                >(SummaryError::Window(HistogramError::IdNotFound { id: eid })))
                &&& (sid < eid && m.contains_key(sid) && m.contains_key(eid) && m[eid].0
                    < m[sid].0 ==> r == Err::<SummaryStats, SummaryError>(
                    SummaryError::Window(
                        HistogramError::WindowEndsBeforeStart { start_id: sid, end_id: eid },
                    ),
                ))
                &&& (crate::histogram::window_ids_ok(m, sid, eid) && !use_time_window ==> (
                forall|id: usize|
                    crate::histogram::first_id_fault_at(m, sid, eid, m[sid].0, id) ==> r == Err::<
                        SummaryStats,
                        SummaryError,
                    >(SummaryError::Window(crate::histogram::id_fault_error(m, id, m[sid].0)))))
                &&& (crate::histogram::window_ids_ok(m, sid, eid) && use_time_window ==> (
                forall|id: usize|
                    crate::histogram::first_missing_at(m, sid, eid, id) ==> r == Err::<
                        SummaryStats,
                        SummaryError,
                    >(SummaryError::Window(HistogramError::IdNotFound { id }))))
                &&& (r matches Ok(st) ==> ({
                    &&& st.histogram.wf()
                    &&& st.histogram.precision_spec() == histogram_precision
                    &&& st.send_time == m[eid].0 - m[sid].0
                    &&& if use_time_window {
                        let rtts = crate::histogram::time_window_rtts(
                            m,
                            sid as int,
                            eid as int,
                            m[eid].0,
                        );
                        &&& st.histogram@ == summary_of(rtts, histogram_precision)
                        &&& st.histogram.count_spec() == rtts.len()
                        &&& st.total_objects_sent == eid - sid + 1
                        &&& st.total_objects_recv == rtts.len()
                        &&& st.receive_time == m[eid].0 - m[sid].0
                    } else {
                        let rtts = crate::histogram::id_window_rtts(m, sid as int, eid as int);
                        &&& st.histogram@ == summary_of(rtts, histogram_precision)
                        &&& st.histogram.count_spec() == rtts.len()
                        &&& st.total_objects_sent == eid - sid
                        &&& st.total_objects_recv == eid - sid
                        &&& st.receive_time == crate::histogram::max_recv_offset(
                            m,
                            sid as int,
                            eid as int,
                            m[sid].0,
                        )
                    }
                }))
            }),
    {
        if cooldown_time_seconds > exp_time_seconds || warmup_time_seconds > exp_time_seconds
            - cooldown_time_seconds {
            return Err(
                SummaryError::BadWindow {
                    warmup_seconds: warmup_time_seconds,
                    cooldown_seconds: cooldown_time_seconds,
                    experiment_seconds: exp_time_seconds,
                },
            );
        }
        let map_len = latency_map.len();
        if map_len == 0 {
            return Err(SummaryError::EmptyLatencyMap);
        }
        proof {
            assert((rate_num as int) * (warmup_time_seconds as int) + rate_den < u128::MAX)
                by (nonlinear_arith)
                requires
                    rate_num <= u64::MAX,
                    warmup_time_seconds <= u64::MAX,
                    rate_den <= u64::MAX,
            ;
        }
        let wide_start: u128 = (rate_num as u128) * (warmup_time_seconds as u128) + (
        rate_den as u128) - 1;
        let sid128: u128 = wide_start / (rate_den as u128);
        let start_id: usize = if sid128 > (usize::MAX as u128) {
            usize::MAX
        } else {
            sid128 as usize
        };
        let measured = exp_time_seconds - cooldown_time_seconds;
        proof {
            assert((rate_num as int) * (measured as int) < u128::MAX) by (nonlinear_arith)
                requires
                    rate_num <= u64::MAX,
                    measured <= u64::MAX,
            ;
        }
        let wide_end: u128 = (rate_num as u128) * (measured as u128) / (rate_den as u128);
        let mut end_id: usize = if wide_end > (usize::MAX as u128) {
            usize::MAX
        } else {
            wide_end as usize
        };
        if end_id > map_len - 1 {
            end_id = map_len - 1;
        }
        let t = match latency_map.histogram_from_id_range(start_id, end_id, use_time_window) {
            Ok(t) => t,
            Err(e) => {
                return Err(SummaryError::Window(e));
            },
        };
        let (histogram, total_sent, total_recv, send_time, recv_time) = t;
        proof {
            if let Some(p) = histogram_precision {
                crate::histogram::lemma_latency_map_times_ordered(latency_map);
                let m = latency_map@;
                if use_time_window {
                    lemma_time_window_rtts_elements(m, start_id as int, end_id as int, m[end_id].0);
                    assert forall|i: int|
                        0 <= i < histogram.recorded().len() implies ((#[trigger] histogram.recorded()[i])
                        / p + 1) * p <= u64::MAX by {
                        let rtts = crate::histogram::time_window_rtts(
                            m,
                            start_id as int,
                            end_id as int,
                            m[end_id].0,
                        );
                        let id = choose|id: int|
                            start_id as int <= id < end_id as int && (#[trigger] m[(
                            id as usize)]).1 is Some && rtts[i] == (m[(id as usize)].1.unwrap()
                                - m[(id as usize)].0) as u64;
                        assert(m.contains_key(id as usize));
                    }
                } else {
                    assert forall|i: int|
                        0 <= i < histogram.recorded().len() implies ((#[trigger] histogram.recorded()[i])
                        / p + 1) * p <= u64::MAX by {
                        let k = (start_id + i) as usize;
                        assert(!crate::histogram::id_fault(m, k, m[start_id].0));
                        assert(histogram.recorded()[i] == (m[k].1.unwrap() - m[k].0) as u64);
                    }
                }
            }
        }
        let summary_histogram = match SummaryHistogram::from_manual(
            histogram_precision,
            &histogram,
        ) {
            Ok(h) => h,
            Err(e) => {
                return Err(e);
            },
        };
        Ok(
            SummaryStats {
                histogram: summary_histogram,
                total_objects_sent: total_sent,
                total_objects_recv: total_recv,
                send_time,
                receive_time: recv_time,
            },
        )
    }
}

} // verus!

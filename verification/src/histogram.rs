//! Latency recording and analysis: a keyed store of per-request send and
//! receive times ([`LatencyMap`]) and a raw latency buffer with on-demand
//! sort and nearest-rank quantile queries ([`ManualHistogram`]).
//!
//! All instants are nanosecond counts from a caller-chosen origin. Quantiles
//! are exact rationals `q_num / q_den`; the nearest-rank index into the
//! sorted buffer is `floor(len * q_num / q_den)`.

use vstd::arithmetic::div_mod::lemma_div_is_ordered;
use vstd::arithmetic::div_mod::lemma_div_multiples_vanish;
use vstd::arithmetic::div_mod::lemma_div_pos_is_pos;
use vstd::arithmetic::div_mod::lemma_fundamental_div_mod;
use vstd::arithmetic::div_mod::lemma_multiply_divide_lt;
use vstd::arithmetic::mul::lemma_mul_inequality;
use vstd::arithmetic::mul::lemma_mul_nonnegative;
use vstd::prelude::*;
use vstd::seq_lib::to_multiset_build;
use vstd::seq_lib::to_multiset_insert;
use vstd::seq_lib::to_multiset_len;
use vstd::slice::slice_subrange;

verus! {

/// Why a histogram or latency-map operation failed. Every variant carries
/// the offending ids or values, so a caller can report them.
#[derive(Debug, PartialEq, Eq, Copy, Clone)]
pub enum HistogramError {
    /// A statistic was asked for before `sort` had been called.
    NotSorted,
    /// A receive time earlier than the matching send time was recorded.
    EndBeforeStart { id: usize, start_ns: u64, end_ns: u64 },
    /// A window was asked for with `start_id >= end_id`.
    BadIdRange { start_id: usize, end_id: usize },
    /// An id inside the requested window has no entry at all.
    IdNotFound { id: usize },
    /// An id inside an id-window has no receive time (it was dropped).
    NoRecvTime { id: usize },
    /// An id's receive time lies before the window's first send time.
    RecvBeforeWindowStart { id: usize },
    /// The window's last send time lies before its first send time.
    WindowEndsBeforeStart { start_id: usize, end_id: usize },
}

/// A sequence is in non-decreasing order.
pub open spec fn sorted_nondecreasing(s: Seq<u64>) -> bool {
    forall|i: int, j: int| 0 <= i <= j < s.len() ==> s[i] <= s[j]
}

/// The nearest-rank index for quantile `qn / qd` into a sorted buffer of
/// length `len`.
pub open spec fn quantile_index(len: int, qn: int, qd: int) -> int {
    len * qn / qd
}

/// The sum of a sequence of nanosecond values, as an unbounded integer.
pub open spec fn seq_sum(s: Seq<u64>) -> int
    decreases s.len(),
{
    if s.len() == 0 {
        0
    } else {
        seq_sum(s.drop_last()) + s.last()
    }
}

/// The nearest-rank index lies inside the buffer.
proof fn lemma_quantile_index_in_bounds(len: int, qn: int, qd: int)
    requires
        0 < len,
        0 <= qn < qd,
    ensures
        0 <= quantile_index(len, qn, qd) < len,
{
    lemma_mul_nonnegative(len, qn);
    lemma_div_pos_is_pos(len * qn, qd);
    assert(len * qn < qd * len) by (nonlinear_arith)
        requires
            0 < len,
            0 <= qn < qd,
    ;
    lemma_multiply_divide_lt(len * qn, qd, len);
}

/// Division respects the ordering of fractions: if `a / b <= c / d` as
/// rationals, the same holds after flooring.
proof fn lemma_floored_fraction_ordered(a: int, b: int, c: int, d: int)
    requires
        0 < b,
        0 < d,
        0 <= a,
        0 <= c,
        a * d <= c * b,
    ensures
        a / b <= c / d,
{
    let k = c / d;
    lemma_fundamental_div_mod(c, d);
    lemma_div_pos_is_pos(c, d);
    vstd::arithmetic::div_mod::lemma_mod_division_less_than_divisor(c, d);
    assert(c < d * (k + 1)) by (nonlinear_arith)
        requires
            c == d * k + c % d,
            c % d < d,
    ;
    assert(c * b < d * (k + 1) * b) by (nonlinear_arith)
        requires
            c < d * (k + 1),
            0 < b,
    ;
    assert(a * d <= c * b);
    assert(a < b * (k + 1)) by (nonlinear_arith)
        requires
            a * d < d * (k + 1) * b,
            0 < d,
    ;
    lemma_multiply_divide_lt(a, b, k + 1);
}

/// A raw latency sample buffer. Values are appended during a run; a sorted
/// copy is produced once by [`ManualHistogram::sort`], and quantile queries
/// read the sorted copy.
#[derive(Debug, PartialEq, Eq, Clone)]
pub struct ManualHistogram {
    /// How many of the slots in `latencies` hold recorded samples.
    pub current_count: usize,
    /// The backing buffer; only the first `current_count` slots are live.
    pub latencies: Vec<u64>,
    /// The sorted copy, empty until `sort` has run.
    pub sorted_latencies: Vec<u64>,
    /// Whether `sort` has run.
    pub is_sorted: bool,
}

impl ManualHistogram {
    /// The recorded samples, in recording order.
    pub open spec fn recorded(&self) -> Seq<u64> {
        self.latencies@.take(self.current_count as int)
    }

    /// The sorted copy produced by `sort` (empty before then).
    pub open spec fn sorted_view(&self) -> Seq<u64> {
        self.sorted_latencies@
    }

    /// Structural invariant: the live prefix fits the buffer and the sorted
    /// copy really is sorted.
    pub open spec fn wf(&self) -> bool {
        &&& self.current_count <= self.latencies@.len()
        &&& sorted_nondecreasing(self.sorted_latencies@)
    }

    /// The value the nearest-rank query returns for quantile `qn / qd`.
    pub open spec fn quantile_value(&self, qn: u64, qd: u64) -> u64 {
        self.sorted_view()[quantile_index(self.sorted_view().len() as int, qn as int, qd as int)]
    }

    /// An empty histogram; `num_values` is a capacity hint for the expected
    /// number of samples, not a bound.
    pub fn new(num_values: usize) -> (r: ManualHistogram)
        ensures
            r.wf(),
            r.recorded() == Seq::<u64>::empty(),
            r.sorted_view() == Seq::<u64>::empty(),
            !r.is_sorted,
    {
        ManualHistogram {
            current_count: 0,
            latencies: Vec::with_capacity(num_values),
            sorted_latencies: Vec::new(),
            is_sorted: false,
        }
    }

    /// A histogram whose recorded samples are exactly `latencies`.
    pub fn new_from_vec(latencies: Vec<u64>) -> (r: ManualHistogram)
        ensures
            r.wf(),
            r.recorded() == latencies@,
            r.sorted_view() == Seq::<u64>::empty(),
            !r.is_sorted,
    {
        let current_count = latencies.len();
        proof {
            assert(latencies@.take(current_count as int) =~= latencies@);
        }
        ManualHistogram { current_count, latencies, sorted_latencies: Vec::new(), is_sorted: false }
    }

    /// The recorded samples as a slice, in recording order.
    pub fn latencies_vec(&self) -> (r: &[u64])
        requires
            self.wf(),
        ensures
            r@ == self.recorded(),
    {
        proof {
            assert(self.latencies@.subrange(0, self.current_count as int) =~= self.recorded());
        }
        slice_subrange(self.latencies.as_slice(), 0, self.current_count)
    }

    /// How many samples have been recorded.
    pub fn len(&self) -> (r: usize)
        requires
            self.wf(),
        ensures
            r == self.recorded().len(),
    {
        self.current_count
    }

    /// Whether `sort` has run.
    pub fn is_sorted(&self) -> (r: bool)
        ensures
            r == self.is_sorted,
    {
        self.is_sorted
    }

    /// Appends one sample. Sorting state is not reset: the sorted copy only
    /// reflects the samples present when `sort` last ran.
    pub fn record(&mut self, val: u64)
        requires
            old(self).wf(),
            old(self).recorded().len() < usize::MAX,
        ensures
            final(self).wf(),
            final(self).recorded() == old(self).recorded().push(val),
            final(self).sorted_view() == old(self).sorted_view(),
            final(self).is_sorted == old(self).is_sorted,
    {
        if self.current_count == self.latencies.len() {
            self.latencies.push(val);
        } else {
            // overwrite the next preallocated slot in place
            self.latencies.remove(self.current_count);
            self.latencies.insert(self.current_count, val);
        }
        self.current_count = self.current_count + 1;
        proof {
            assert(final(self).recorded() =~= old(self).recorded().push(val));
        }
    }

    /// Copies the live prefix into the sorted buffer, in non-decreasing
    /// order, and marks the histogram sorted. Always succeeds; the `Result`
    /// mirrors the construction-time interface of the other operations.
    pub fn sort(&mut self) -> (r: Result<(), HistogramError>)
        requires
            old(self).wf(),
        ensures
            r is Ok,
            final(self).wf(),
            final(self).is_sorted,
            final(self).recorded() == old(self).recorded(),
            final(self).current_count == old(self).current_count,
            final(self).latencies == old(self).latencies,
            sorted_nondecreasing(final(self).sorted_view()),
            final(self).sorted_view().to_multiset() == old(self).recorded().to_multiset(),
            final(self).sorted_view().len() == old(self).recorded().len(),
    {
        let mut sorted: Vec<u64> = Vec::with_capacity(self.current_count);
        proof {
            assert(sorted@ =~= self.recorded().take(0));
        }
        let mut i: usize = 0;
        while i < self.current_count
            invariant
                self.wf(),
                i <= self.current_count,
                sorted_nondecreasing(sorted@),
                sorted@.to_multiset() == self.recorded().take(i as int).to_multiset(),
                sorted@.len() == i,
            decreases self.current_count - i,
        {
            let v = self.latencies[i];
            proof {
                assert(self.recorded().take(i as int + 1) =~= self.recorded().take(i as int).push(
                    v,
                ));
                to_multiset_build(self.recorded().take(i as int), v);
            }
            insert_sorted(&mut sorted, v);
            i = i + 1;
        }
        proof {
            assert(self.recorded().take(self.current_count as int) =~= self.recorded());
            to_multiset_len(sorted@);
            to_multiset_len(self.recorded());
        }
        self.sorted_latencies = sorted;
        self.is_sorted = true;
        Ok(())
    }

    /// The sample at the nearest-rank index for quantile `qn / qd`, read
    /// from the sorted copy. Fails if `sort` has not produced a non-empty
    /// sorted copy yet.
    pub fn value_at_quantile(&self, q_num: u64, q_den: u64) -> (r: Result<u64, HistogramError>)
        requires
            self.wf(),
            q_num < q_den,
        ensures
            self.sorted_view().len() == 0 ==> r == Err::<u64, HistogramError>(
                HistogramError::NotSorted,
            ),
            self.sorted_view().len() > 0 ==> r == Ok::<u64, HistogramError>(
                self.quantile_value(q_num, q_den),
            ),
    {
        let n = self.sorted_latencies.len();
        if n == 0 {
            return Err(HistogramError::NotSorted);
        }
        proof {
            lemma_quantile_index_in_bounds(n as int, q_num as int, q_den as int);
        }
        let n64 = n as u64;
        proof {
            assert((n64 as int) * (q_num as int) < u128::MAX) by (nonlinear_arith)
                requires
                    n64 <= u64::MAX,
                    q_num <= u64::MAX,
            ;
        }
        let wide: u128 = (n64 as u128) * (q_num as u128) / (q_den as u128);
        let index = wide as usize;
        Ok(self.sorted_latencies[index])
    }

    /// The mean of the sorted samples, rounded down to whole nanoseconds.
    /// Fails before `sort` has produced a non-empty sorted copy.
    pub fn mean(&self) -> (r: Result<u64, HistogramError>)
        requires
            self.wf(),
        ensures
            self.sorted_view().len() == 0 ==> r == Err::<u64, HistogramError>(
                HistogramError::NotSorted,
            ),
            self.sorted_view().len() > 0 ==> r == Ok::<u64, HistogramError>(
                (seq_sum(self.sorted_view()) / self.sorted_view().len() as int) as u64,
            ),
    {
        let n = self.sorted_latencies.len();
        if n == 0 {
            return Err(HistogramError::NotSorted);
        }
        let mut acc: u128 = 0;
        let mut i: usize = 0;
        while i < n
            invariant
                self.wf(),
                n == self.sorted_view().len(),
                i <= n,
                acc == seq_sum(self.sorted_view().take(i as int)),
                acc <= (i as int) * (u64::MAX as int),
            decreases n - i,
        {
            let v = self.sorted_latencies[i];
            proof {
                assert(self.sorted_view().take(i as int + 1).drop_last() =~= self.sorted_view().take(
                    i as int,
                ));
                assert(seq_sum(self.sorted_view().take(i as int + 1)) == acc + v);
            }
            acc = acc + (v as u128);
            i = i + 1;
        }
        proof {
            assert(self.sorted_view().take(n as int) =~= self.sorted_view());
            lemma_div_is_ordered(acc as int, (n as int) * (u64::MAX as int), n as int);
            lemma_div_multiples_vanish(u64::MAX as int, n as int);
        }
        Ok((acc / (n as u128)) as u64)
    }

    /// The largest sorted sample. Fails before `sort` has produced a
    /// non-empty sorted copy.
    pub fn max(&self) -> (r: Result<u64, HistogramError>)
        requires
            self.wf(),
        ensures
            self.sorted_view().len() == 0 ==> r == Err::<u64, HistogramError>(
                HistogramError::NotSorted,
            ),
            self.sorted_view().len() > 0 ==> r == Ok::<u64, HistogramError>(
                self.sorted_view().last(),
            ),
    {
        let n = self.sorted_latencies.len();
        if n == 0 {
            return Err(HistogramError::NotSorted);
        }
        Ok(self.sorted_latencies[n - 1])
    }

    /// The smallest sorted sample. Fails before `sort` has produced a
    /// non-empty sorted copy.
    pub fn min(&self) -> (r: Result<u64, HistogramError>)
        requires
            self.wf(),
        ensures
            self.sorted_view().len() == 0 ==> r == Err::<u64, HistogramError>(
                HistogramError::NotSorted,
            ),
            self.sorted_view().len() > 0 ==> r == Ok::<u64, HistogramError>(
                self.sorted_view().first(),
            ),
    {
        let n = self.sorted_latencies.len();
        if n == 0 {
            return Err(HistogramError::NotSorted);
        }
        Ok(self.sorted_latencies[0])
    }
}

impl Default for ManualHistogram {
    /// An empty, unsorted histogram with no capacity hint.
    fn default() -> (r: ManualHistogram)
        ensures
            r.wf(),
            r.recorded() == Seq::<u64>::empty(),
            r.sorted_view() == Seq::<u64>::empty(),
            !r.is_sorted,
    {
        ManualHistogram::new(0)
    }
}

/// Inserts `x` into an already-sorted vector, keeping it sorted.
fn insert_sorted(v: &mut Vec<u64>, x: u64)
    requires
        sorted_nondecreasing(old(v)@),
    ensures
        sorted_nondecreasing(final(v)@),
        final(v)@.to_multiset() == old(v)@.to_multiset().insert(x),
        final(v)@.len() == old(v)@.len() + 1,
{
    let mut j: usize = 0;
    while j < v.len() && v[j] <= x
        invariant
            sorted_nondecreasing(v@),
            j <= v@.len(),
            forall|k: int| 0 <= k < j ==> v@[k] <= x,
        decreases v@.len() - j,
    {
        j = j + 1;
    }
    proof {
        to_multiset_insert(v@, j as int, x);
    }
    v.insert(j, x);
}

/// Quantile queries on a sorted histogram are monotone in the quantile:
/// a larger quantile never yields a smaller value.
pub proof fn lemma_quantile_monotonic(
    h: &ManualHistogram,
    qn1: u64,
    qd1: u64,
    qn2: u64,
    qd2: u64,
)
    requires
        h.wf(),
        h.sorted_view().len() > 0,
        qn1 < qd1,
        qn2 < qd2,
        qn1 * qd2 <= qn2 * qd1,
    ensures
        h.quantile_value(qn1, qd1) <= h.quantile_value(qn2, qd2),
{
    let len = h.sorted_view().len() as int;
    lemma_quantile_index_in_bounds(len, qn1 as int, qd1 as int);
    lemma_quantile_index_in_bounds(len, qn2 as int, qd2 as int);
    assert((len * qn1) * qd2 <= (len * qn2) * qd1) by (nonlinear_arith)
        requires
            0 < len,
            qn1 * qd2 <= qn2 * qd1,
    ;
    lemma_mul_nonnegative(len, qn1 as int);
    lemma_mul_nonnegative(len, qn2 as int);
    lemma_floored_fraction_ordered(len * qn1, qd1 as int, len * qn2, qd2 as int);
}

/// Every quantile value of a sorted histogram lies between its minimum and
/// its maximum sample.
pub proof fn lemma_quantile_bounded(h: &ManualHistogram, qn: u64, qd: u64)
    requires
        h.wf(),
        h.sorted_view().len() > 0,
        qn < qd,
    ensures
        h.sorted_view().first() <= h.quantile_value(qn, qd),
        h.quantile_value(qn, qd) <= h.sorted_view().last(),
{
    let len = h.sorted_view().len() as int;
    lemma_quantile_index_in_bounds(len, qn as int, qd as int);
}

/// The zero quantile of a sorted histogram is its minimum sample.
pub proof fn lemma_quantile_zero_is_min(h: &ManualHistogram, qd: u64)
    requires
        h.wf(),
        h.sorted_view().len() > 0,
        qd > 0,
    ensures
        h.quantile_value(0, qd) == h.sorted_view().first(),
{
    let len = h.sorted_view().len() as int;
    assert(len * 0 == 0);
    assert(quantile_index(len, 0, qd as int) == 0);
}

/// Quantiles close enough to one reach the maximum sample: once
/// `qn / qd >= (len - 1) / len`, the nearest-rank index is the last slot.
pub proof fn lemma_quantile_near_one_is_max(h: &ManualHistogram, qn: u64, qd: u64)
    requires
        h.wf(),
        h.sorted_view().len() > 0,
        qn < qd,
        qn * h.sorted_view().len() >= (h.sorted_view().len() - 1) * qd,
    ensures
        h.quantile_value(qn, qd) == h.sorted_view().last(),
{
    let len = h.sorted_view().len() as int;
    let qni = qn as int;
    let qdi = qd as int;
    lemma_quantile_index_in_bounds(len, qni, qdi);
    assert(len * qni >= (len - 1) * qdi) by (nonlinear_arith)
        requires
            qni * len >= (len - 1) * qdi,
    ;
    lemma_mul_nonnegative(len - 1, qdi);
    lemma_div_is_ordered((len - 1) * qdi, len * qni, qdi);
    assert(((len - 1) * qdi) / qdi == len - 1) by {
        lemma_div_multiples_vanish(len - 1, qdi);
        assert((len - 1) * qdi == qdi * (len - 1)) by (nonlinear_arith);
    }
}

/// One recorded request: its id, its send time, and its receive time if the
/// response ever arrived (`None` marks a dropped request).
pub type LatencyEntry = (usize, u64, Option<u64>);

/// The map described by an association list of entries; a later entry for
/// the same id wins.
pub open spec fn entries_map(s: Seq<LatencyEntry>) -> Map<usize, (u64, Option<u64>)>
    decreases s.len(),
{
    if s.len() == 0 {
        Map::empty()
    } else {
        entries_map(s.drop_last()).insert(s.last().0, (s.last().1, s.last().2))
    }
}

/// Entry ids are strictly increasing.
pub open spec fn ids_strictly_increasing(s: Seq<LatencyEntry>) -> bool {
    forall|i: int, j: int| 0 <= i < j < s.len() ==> s[i].0 < s[j].0
}

/// Every present receive time is at or after its send time.
pub open spec fn entry_times_ordered(s: Seq<LatencyEntry>) -> bool {
    forall|i: int|
        0 <= i < s.len() ==> ((#[trigger] s[i]).2 matches Some(e) ==> s[i].1 <= e)
}

/// With strictly increasing ids, the association list and its map agree:
/// the keys are exactly the listed ids and each maps to its listed times.
proof fn lemma_entries_map_ids(s: Seq<LatencyEntry>)
    requires
        ids_strictly_increasing(s),
    ensures
        entries_map(s).dom().finite(),
        entries_map(s).dom().len() == s.len(),
        forall|k: usize| #[trigger]
            entries_map(s).contains_key(k) ==> exists|i: int|
                0 <= i < s.len() && (#[trigger] s[i]).0 == k,
        forall|i: int|
            0 <= i < s.len() ==> entries_map(s).contains_key((#[trigger] s[i]).0)
                && entries_map(s)[s[i].0] == (s[i].1, s[i].2),
    decreases s.len(),
{
    broadcast use vstd::set::axiom_set_insert_len;

    if s.len() == 0 {
        assert(entries_map(s).dom() =~= Set::<usize>::empty());
    } else {
        let pre = s.drop_last();
        let last = s.last();
        lemma_entries_map_ids(pre);
        assert(!entries_map(pre).contains_key(last.0)) by {
            if entries_map(pre).contains_key(last.0) {
                let i = choose|i: int| 0 <= i < pre.len() && (#[trigger] pre[i]).0 == last.0;
                assert(s[i].0 < last.0);
            }
        }
        assert(forall|i: int|
            0 <= i < s.len() ==> entries_map(s).contains_key((#[trigger] s[i]).0)
                && entries_map(s)[s[i].0] == (s[i].1, s[i].2)) by {
            assert(forall|i: int| 0 <= i < pre.len() ==> (#[trigger] s[i]) == pre[i]);
        }
    }
}

/// With ordered entry times, every value in the map keeps its receive time
/// at or after its send time.
proof fn lemma_entries_map_times(s: Seq<LatencyEntry>)
    requires
        entry_times_ordered(s),
    ensures
        forall|k: usize| #[trigger]
            entries_map(s).contains_key(k) ==> (entries_map(s)[k].1 matches Some(e)
                ==> entries_map(s)[k].0 <= e),
    decreases s.len(),
{
    if s.len() > 0 {
        let pre = s.drop_last();
        assert(forall|i: int| 0 <= i < pre.len() ==> (#[trigger] pre[i]) == s[i]);
        lemma_entries_map_times(pre);
        assert(s.last() == s[s.len() - 1]);
    }
}

/// Inserting an entry between the ids below it and the ids above it adds
/// exactly that binding to the map.
proof fn lemma_entries_map_insert_at(s: Seq<LatencyEntry>, i: int, e: LatencyEntry)
    requires
        0 <= i <= s.len(),
        forall|j: int| 0 <= j < i ==> (#[trigger] s[j]).0 < e.0,
        forall|j: int| i <= j < s.len() ==> (#[trigger] s[j]).0 > e.0,
    ensures
        entries_map(s.insert(i, e)) == entries_map(s).insert(e.0, (e.1, e.2)),
    decreases s.len(),
{
    if i == s.len() {
        assert(s.insert(i, e).drop_last() =~= s);
        assert(s.insert(i, e).last() == e);
    } else {
        let pre = s.drop_last();
        let last = s.last();
        assert(forall|j: int| 0 <= j < pre.len() ==> (#[trigger] pre[j]) == s[j]);
        lemma_entries_map_insert_at(pre, i, e);
        assert(s.insert(i, e).drop_last() =~= pre.insert(i, e));
        assert(s.insert(i, e).last() == last);
        assert(last.0 > e.0);
        assert(entries_map(pre).insert(e.0, (e.1, e.2)).insert(last.0, (last.1, last.2))
            =~= entries_map(pre).insert(last.0, (last.1, last.2)).insert(e.0, (e.1, e.2)));
    }
}

/// Replacing the entry that already carries an id overwrites exactly that
/// binding in the map.
proof fn lemma_entries_map_update_at(s: Seq<LatencyEntry>, i: int, e: LatencyEntry)
    requires
        0 <= i < s.len(),
        ids_strictly_increasing(s),
        s[i].0 == e.0,
    ensures
        entries_map(s.update(i, e)) == entries_map(s).insert(e.0, (e.1, e.2)),
    decreases s.len(),
{
    let pre = s.drop_last();
    let last = s.last();
    assert(forall|j: int| 0 <= j < pre.len() ==> (#[trigger] pre[j]) == s[j]);
    if i == s.len() - 1 {
        assert(s.update(i, e).drop_last() =~= pre);
        assert(s.update(i, e).last() == e);
        assert(entries_map(pre).insert(e.0, (e.1, e.2)) =~= entries_map(pre).insert(
            last.0,
            (last.1, last.2),
        ).insert(e.0, (e.1, e.2)));
    } else {
        lemma_entries_map_update_at(pre, i, e);
        assert(s.update(i, e).drop_last() =~= pre.update(i, e));
        assert(s.update(i, e).last() == last);
        assert(last.0 != e.0);
        assert(entries_map(pre).insert(e.0, (e.1, e.2)).insert(last.0, (last.1, last.2))
            =~= entries_map(pre).insert(last.0, (last.1, last.2)).insert(e.0, (e.1, e.2)));
    }
}

/// A keyed store of per-request timing: request id to send time and
/// optional receive time. A missing receive time marks a dropped request.
/// Analysis happens over id windows after recording stops.
#[derive(Debug, PartialEq, Eq, Clone)]
pub struct LatencyMap {
    entries: Vec<LatencyEntry>,
}

impl View for LatencyMap {
    type V = Map<usize, (u64, Option<u64>)>;

    closed spec fn view(&self) -> Map<usize, (u64, Option<u64>)> {
        entries_map(self.entries@)
    }
}

impl LatencyMap {
    /// Representation invariant: entries sorted by id with no duplicates,
    /// and no receive time earlier than its send time.
    pub closed spec fn wf(&self) -> bool {
        &&& ids_strictly_increasing(self.entries@)
        &&& entry_times_ordered(self.entries@)
    }

    /// An empty map.
    pub fn new() -> (r: LatencyMap)
        ensures
            r.wf(),
            r@ == Map::<usize, (u64, Option<u64>)>::empty(),
    {
        LatencyMap { entries: Vec::new() }
    }

    /// Records one request's timing, replacing any earlier record for the
    /// same id. Fails, leaving the map unchanged, when a present receive
    /// time lies before the send time.
    pub fn record(&mut self, request_id: usize, start: u64, end: Option<u64>) -> (r: Result<
        (),
        HistogramError,
    >)
        requires
            old(self).wf(),
        ensures
            final(self).wf(),
            r is Ok <==> !(end matches Some(e) && e < start),
            r is Ok ==> final(self)@ == old(self)@.insert(request_id, (start, end)),
            r is Err ==> final(self)@ == old(self)@ && (end matches Some(e) && r == Err::<
                (),
                HistogramError,
            >(HistogramError::EndBeforeStart { id: request_id, start_ns: start, end_ns: e })),
    {
        if let Some(end_time) = end {
            if end_time < start {
                return Err(
                    HistogramError::EndBeforeStart {
                        id: request_id,
                        start_ns: start,
                        end_ns: end_time,
                    },
                );
            }
        }
        let n = self.entries.len();
        let mut i: usize = 0;
        while i < n && self.entries[i].0 < request_id
            invariant
                self.wf(),
                n == self.entries@.len(),
                i <= n,
                forall|j: int| 0 <= j < i ==> (#[trigger] self.entries@[j]).0 < request_id,
            decreases n - i,
        {
            i = i + 1;
        }
        let entry = (request_id, start, end);
        if i < n && self.entries[i].0 == request_id {
            proof {
                lemma_entries_map_update_at(self.entries@, i as int, entry);
                assert(self.entries@.remove(i as int).insert(i as int, entry) =~= self.entries@
                    .update(i as int, entry));
            }
            let ghost pre = self.entries@;
            self.entries.remove(i);
            self.entries.insert(i, entry);
            proof {
                assert(self.entries@ =~= pre.update(i as int, entry));
                assert(forall|j: int|
                    0 <= j < self.entries@.len() && j != i ==> (#[trigger] self.entries@[j])
                        == pre[j]);
            }
        } else {
            proof {
                assert(forall|j: int|
                    i <= j < self.entries@.len() ==> (#[trigger] self.entries@[j]).0
                        > request_id);
                lemma_entries_map_insert_at(self.entries@, i as int, entry);
            }
            let ghost pre = self.entries@;
            self.entries.insert(i, entry);
            proof {
                assert(forall|j: int| 0 <= j < i ==> (#[trigger] self.entries@[j]) == pre[j]);
                assert(forall|j: int|
                    i < j < self.entries@.len() ==> (#[trigger] self.entries@[j]) == pre[j - 1]);
            }
        }
        Ok(())
    }

    /// The recorded times for a request id, if any.
    pub fn get(&self, request_id: usize) -> (r: Option<(u64, Option<u64>)>)
        requires
            self.wf(),
        ensures
            r is Some <==> self@.contains_key(request_id),
            r matches Some(v) ==> self@.contains_key(request_id) && v == self@[request_id],
    {
        let n = self.entries.len();
        let mut i: usize = 0;
        while i < n
            invariant
                self.wf(),
                n == self.entries@.len(),
                i <= n,
                forall|j: int| 0 <= j < i ==> (#[trigger] self.entries@[j]).0 != request_id,
            decreases n - i,
        {
            let e = self.entries[i];
            if e.0 == request_id {
                proof {
                    lemma_entries_map_ids(self.entries@);
                }
                return Some((e.1, e.2));
            }
            i = i + 1;
        }
        proof {
            lemma_entries_map_ids(self.entries@);
        }
        None
    }

    /// How many requests have been recorded.
    pub fn len(&self) -> (r: usize)
        requires
            self.wf(),
        ensures
            r == self@.dom().len(),
    {
        proof {
            lemma_entries_map_ids(self.entries@);
        }
        self.entries.len()
    }

    /// The entries in ascending id order, for external reporting.
    pub fn entries(&self) -> (r: Vec<LatencyEntry>)
        requires
            self.wf(),
        ensures
            ids_strictly_increasing(r@),
            entry_times_ordered(r@),
            entries_map(r@) == self@,
            r@.len() == self@.dom().len(),
    {
        proof {
            lemma_entries_map_ids(self.entries@);
        }
        let n = self.entries.len();
        let mut out: Vec<LatencyEntry> = Vec::new();
        let mut i: usize = 0;
        while i < n
            invariant
                n == self.entries@.len(),
                i <= n,
                out@ == self.entries@.take(i as int),
            decreases n - i,
        {
            out.push(self.entries[i]);
            proof {
                assert(out@ =~= self.entries@.take(i as int + 1));
            }
            i = i + 1;
        }
        proof {
            assert(out@ =~= self.entries@);
        }
        out
    }

    /// Builds a map from a list of send times and a list of receive times,
    /// keyed by request id: every sent id is entered, with its receive time
    /// if one is listed. Fails on the first id, in list order, whose
    /// receive time lies before its send time.
    pub fn from_sent_and_recv_times(
        sent_times: &Vec<(usize, u64)>,
        recv_times: &Vec<(usize, u64)>,
    ) -> (r: Result<LatencyMap, HistogramError>)
        ensures
            r is Ok <==> (forall|i: int|
                0 <= i < sent_times@.len() ==> !recv_fault(sent_times@, recv_times@, i)),
            r matches Ok(m) ==> m.wf() && m@ == built_map(sent_times@, recv_times@),
            forall|i: int|
                first_recv_fault_at(sent_times@, recv_times@, i) ==> r == Err::<
                    LatencyMap,
                    HistogramError,
                >(
                    HistogramError::EndBeforeStart {
                        id: sent_times@[i].0,
                        start_ns: sent_times@[i].1,
                        end_ns: lookup_time(recv_times@, sent_times@[i].0).unwrap(),
                    },
                ),
    {
        let mut map = LatencyMap::new();
        let n = sent_times.len();
        let mut i: usize = 0;
        while i < n
            invariant
                map.wf(),
                i <= n,
                n == sent_times@.len(),
                map@ == built_map(sent_times@.take(i as int), recv_times@),
                forall|j: int| 0 <= j < i ==> !recv_fault(sent_times@, recv_times@, j),
            decreases n - i,
        {
            let e = sent_times[i];
            let rt = lookup_recv(recv_times, e.0);
            proof {
                assert(sent_times@.take(i as int + 1).drop_last() =~= sent_times@.take(i as int));
                assert(sent_times@.take(i as int + 1).last() == e);
            }
            match map.record(e.0, e.1, rt) {
                Ok(_) => {},
                Err(err) => {
                    proof {
                        assert(recv_fault(sent_times@, recv_times@, i as int));
                        assert forall|i2: int|
                            first_recv_fault_at(
                                sent_times@,
                                recv_times@,
                                i2,
                            ) implies i2 == i as int by {
                            if i2 < i as int {
                                assert(!recv_fault(sent_times@, recv_times@, i2));
                            }
                            if i2 > i as int {
                                assert(!recv_fault(sent_times@, recv_times@, i as int));
                            }
                        }
                    }
                    return Err(err);
                },
            }
            i = i + 1;
        }
        proof {
            assert(sent_times@.take(n as int) =~= sent_times@);
        }
        Ok(map)
    }

    /// A windowed latency analysis over the id range `[start_id, end_id)`.
    ///
    /// On success the tuple holds: the histogram of per-id round-trip
    /// times, the count of requests sent, the count counted as received,
    /// the send duration and the receive duration, both in nanoseconds.
    ///
    /// With `use_time_window` false, every id in the range must have been
    /// received: drops are errors, the received count equals the sent count
    /// `end_id - start_id`, and the receive duration is the largest
    /// "receive time minus first send time" in the range. With
    /// `use_time_window` true, only ids received no later than `end_id`'s
    /// send time are counted, drops and late arrivals are tolerated, the
    /// sent count is the inclusive span `end_id - start_id + 1`, and both
    /// durations equal the span between the window's two send times.
    pub fn histogram_from_id_range(
        &self,
        start_id: usize,
        end_id: usize,
        use_time_window: bool,
    ) -> (r: Result<(ManualHistogram, usize, usize, u64, u64), HistogramError>)
        requires
            self.wf(),
            use_time_window ==> end_id - start_id < usize::MAX,
        ensures
            r is Ok <==> (window_ids_ok(self@, start_id, end_id) && (if use_time_window {
                no_missing_id(self@, start_id, end_id)
            } else {
                no_id_fault(self@, start_id, end_id, self@[start_id].0)
            })),
            !(start_id < end_id) ==> r == Err::<
                (ManualHistogram, usize, usize, u64, u64),
                HistogramError,
            >(HistogramError::BadIdRange { start_id, end_id }),
            start_id < end_id && !self@.contains_key(start_id) ==> r == Err::<
                (ManualHistogram, usize, usize, u64, u64),
                HistogramError,
            >(HistogramError::IdNotFound { id: start_id }),
            start_id < end_id && self@.contains_key(start_id) && !self@.contains_key(end_id)
                ==> r == Err::<(ManualHistogram, usize, usize, u64, u64), HistogramError>(
                HistogramError::IdNotFound { id: end_id },
            ),
            start_id < end_id && self@.contains_key(start_id) && self@.contains_key(end_id)
                && self@[end_id].0 < self@[start_id].0 ==> r == Err::<
                (ManualHistogram, usize, usize, u64, u64),
                HistogramError,
            >(HistogramError::WindowEndsBeforeStart { start_id, end_id }),
            window_ids_ok(self@, start_id, end_id) && !use_time_window ==> (forall|id: usize|
                first_id_fault_at(self@, start_id, end_id, self@[start_id].0, id) ==> r == Err::<
                    (ManualHistogram, usize, usize, u64, u64),
                    HistogramError,
                >(id_fault_error(self@, id, self@[start_id].0))),
            window_ids_ok(self@, start_id, end_id) && use_time_window ==> (forall|id: usize|
                first_missing_at(self@, start_id, end_id, id) ==> r == Err::<
                    (ManualHistogram, usize, usize, u64, u64),
                    HistogramError,
                >(HistogramError::IdNotFound { id })),
            r matches Ok(t) ==> ({
                let m = self@;
                &&& t.0.wf()
                &&& !t.0.is_sorted
                &&& t.0.sorted_view() == Seq::<u64>::empty()
                &&& t.3 == m[end_id].0 - m[start_id].0
                &&& if use_time_window {
                    &&& t.0.recorded() == time_window_rtts(
                        m,
                        start_id as int,
                        end_id as int,
                        m[end_id].0,
                    )
                    &&& t.1 == end_id - start_id + 1
                    &&& t.2 == time_window_rtts(
                        m,
                        start_id as int,
                        end_id as int,
                        m[end_id].0,
                    ).len()
                    &&& t.4 == m[end_id].0 - m[start_id].0
                } else {
                    &&& t.0.recorded() == id_window_rtts(m, start_id as int, end_id as int)
                    &&& t.1 == end_id - start_id
                    &&& t.2 == end_id - start_id
                    &&& t.4 == max_recv_offset(m, start_id as int, end_id as int, m[start_id].0)
                }
            }),
    {
        if start_id >= end_id {
            return Err(HistogramError::BadIdRange { start_id, end_id });
        }
        let start_entry = match self.get(start_id) {
            Some(e) => e,
            None => {
                return Err(HistogramError::IdNotFound { id: start_id });
            },
        };
        let end_entry = match self.get(end_id) {
            Some(e) => e,
            None => {
                return Err(HistogramError::IdNotFound { id: end_id });
            },
        };
        let start_time = start_entry.0;
        let last_sent_time = end_entry.0;
        if last_sent_time < start_time {
            return Err(HistogramError::WindowEndsBeforeStart { start_id, end_id });
        }
        let mut histogram = ManualHistogram::new(end_id - start_id);
        if !use_time_window {
            let mut max_offset: u64 = 0;
            let mut id = start_id;
            while id < end_id
                invariant
                    !use_time_window,
                    self.wf(),
                    window_ids_ok(self@, start_id, end_id),
                    start_time == self@[start_id].0,
                    last_sent_time == self@[end_id].0,
                    start_id <= id <= end_id,
                    no_id_fault(self@, start_id, id, start_time),
                    histogram.wf(),
                    !histogram.is_sorted,
                    histogram.sorted_view() == Seq::<u64>::empty(),
                    histogram.recorded() == id_window_rtts(self@, start_id as int, id as int),
                    max_offset == max_recv_offset(self@, start_id as int, id as int, start_time),
                decreases end_id - id,
            {
                match self.get(id) {
                    None => {
                        proof {
                            assert(id_fault(self@, id, start_time));
                            assert forall|id2: usize|
                                first_id_fault_at(
                                    self@,
                                    start_id,
                                    end_id,
                                    start_time,
                                    id2,
                                ) implies id2 == id by {
                                if id2 < id {
                                    assert(!id_fault(self@, id2, start_time));
                                }
                                if id2 > id {
                                    assert(!id_fault(self@, id, start_time));
                                }
                            }
                        }
                        return Err(HistogramError::IdNotFound { id });
                    },
                    Some((send_time, recv_opt)) => {
                        match recv_opt {
                            None => {
                                proof {
                                    assert(id_fault(self@, id, start_time));
                                    assert forall|id2: usize|
                                        first_id_fault_at(
                                            self@,
                                            start_id,
                                            end_id,
                                            start_time,
                                            id2,
                                        ) implies id2 == id by {
                                        if id2 < id {
                                            assert(!id_fault(self@, id2, start_time));
                                        }
                                        if id2 > id {
                                            assert(!id_fault(self@, id, start_time));
                                        }
                                    }
                                }
                                return Err(HistogramError::NoRecvTime { id });
                            },
                            Some(recv_time) => {
                                proof {
                                    lemma_entries_map_times(self.entries@);
                                }
                                let rtt = recv_time - send_time;
                                proof {
                                    assert(histogram.recorded().len() == id - start_id);
                                }
                                histogram.record(rtt);
                                if recv_time < start_time {
                                    proof {
                                        assert(id_fault(self@, id, start_time));
                                        assert forall|id2: usize|
                                            first_id_fault_at(
                                                self@,
                                                start_id,
                                                end_id,
                                                start_time,
                                                id2,
                                            ) implies id2 == id by {
                                            if id2 < id {
                                                assert(!id_fault(self@, id2, start_time));
                                            }
                                            if id2 > id {
                                                assert(!id_fault(self@, id, start_time));
                                            }
                                        }
                                    }
                                    return Err(HistogramError::RecvBeforeWindowStart { id });
                                }
                                let offset = recv_time - start_time;
                                if offset > max_offset {
                                    max_offset = offset;
                                }
                                proof {
                                    assert(histogram.recorded() =~= id_window_rtts(
                                        self@,
                                        start_id as int,
                                        id as int + 1,
                                    ));
                                }
                                id = id + 1;
                            },
                        }
                    },
                }
            }
            let num_sent = end_id - start_id;
            let num_received = histogram.len();
            let send_dur = last_sent_time - start_time;
            Ok((histogram, num_sent, num_received, send_dur, max_offset))
        } else {
            let mut num_received: usize = 0;
            let mut id = start_id;
            while id < end_id
                invariant
                    use_time_window,
                    self.wf(),
                    window_ids_ok(self@, start_id, end_id),
                    start_time == self@[start_id].0,
                    last_sent_time == self@[end_id].0,
                    start_id <= id <= end_id,
                    no_missing_id(self@, start_id, id),
                    histogram.wf(),
                    !histogram.is_sorted,
                    histogram.sorted_view() == Seq::<u64>::empty(),
                    histogram.recorded() == time_window_rtts(
                        self@,
                        start_id as int,
                        id as int,
                        last_sent_time,
                    ),
                    num_received == histogram.recorded().len(),
                    num_received <= id - start_id,
                decreases end_id - id,
            {
                match self.get(id) {
                    None => {
                        proof {
                            assert forall|id2: usize|
                                first_missing_at(self@, start_id, end_id, id2) implies id2
                                == id by {
                                if id2 < id {
                                    assert(self@.contains_key(id2));
                                }
                                if id2 > id {
                                    assert(self@.contains_key(id));
                                }
                            }
                        }
                        return Err(HistogramError::IdNotFound { id });
                    },
                    Some((send_time, recv_opt)) => {
                        if let Some(recv_time) = recv_opt {
                            if recv_time <= last_sent_time {
                                proof {
                                    lemma_entries_map_times(self.entries@);
                                }
                                num_received = num_received + 1;
                                let rtt = recv_time - send_time;
                                histogram.record(rtt);
                            }
                        }
                        id = id + 1;
                    },
                }
            }
            let num_sent = end_id - start_id + 1;
            let dur = last_sent_time - start_time;
            Ok((histogram, num_sent, num_received, dur, dur))
        }
    }
}

/// In a well-formed latency map, every recorded receive time is at or
/// after its send time.
pub proof fn lemma_latency_map_times_ordered(m: &LatencyMap)
    requires
        m.wf(),
    ensures
        forall|k: usize| #[trigger]
            m@.contains_key(k) ==> (m@[k].1 matches Some(e) ==> m@[k].0 <= e),
{
    lemma_entries_map_times(m.entries@);
}

/// The structural preconditions of a window query: a non-empty id range
/// whose endpoints are recorded and whose last send is not before its first.
pub open spec fn window_ids_ok(
    m: Map<usize, (u64, Option<u64>)>,
    start_id: usize,
    end_id: usize,
) -> bool {
    &&& start_id < end_id
    &&& m.contains_key(start_id)
    &&& m.contains_key(end_id)
    &&& m[start_id].0 <= m[end_id].0
}

/// What disqualifies an id inside an id-window: missing entirely, dropped
/// (no receive time), or received before the window's first send time.
pub open spec fn id_fault(m: Map<usize, (u64, Option<u64>)>, id: usize, window_start: u64) -> bool {
    ||| !m.contains_key(id)
    ||| m[id].1 is None
    ||| m[id].1.unwrap() < window_start
}

/// The error reported for a disqualified id, in the order the checks run.
pub open spec fn id_fault_error(
    m: Map<usize, (u64, Option<u64>)>,
    id: usize,
    window_start: u64,
) -> HistogramError {
    if !m.contains_key(id) {
        HistogramError::IdNotFound { id }
    } else if m[id].1 is None {
        HistogramError::NoRecvTime { id }
    } else {
        HistogramError::RecvBeforeWindowStart { id }
    }
}

/// No id in `[lo, hi)` is disqualified from an id-window.
pub open spec fn no_id_fault(
    m: Map<usize, (u64, Option<u64>)>,
    lo: usize,
    hi: usize,
    window_start: u64,
) -> bool {
    forall|id: usize| lo <= id < hi ==> !id_fault(m, id, window_start)
}

/// `id` is the first disqualified id of the range, in ascending order.
pub open spec fn first_id_fault_at(
    m: Map<usize, (u64, Option<u64>)>,
    lo: usize,
    hi: usize,
    window_start: u64,
    id: usize,
) -> bool {
    &&& lo <= id < hi
    &&& id_fault(m, id, window_start)
    &&& forall|j: usize| lo <= j < id ==> !id_fault(m, j, window_start)
}

/// Every id in `[lo, hi)` is recorded.
pub open spec fn no_missing_id(m: Map<usize, (u64, Option<u64>)>, lo: usize, hi: usize) -> bool {
    forall|id: usize| lo <= id < hi ==> m.contains_key(id)
}

/// `id` is the first unrecorded id of the range, in ascending order.
pub open spec fn first_missing_at(
    m: Map<usize, (u64, Option<u64>)>,
    lo: usize,
    hi: usize,
    id: usize,
) -> bool {
    &&& lo <= id < hi
    &&& !m.contains_key(id)
    &&& forall|j: usize| lo <= j < id ==> m.contains_key(j)
}

/// The per-id round-trip times of the ids in `[lo, hi)`, in id order.
/// Meaningful when no id in the range is disqualified.
pub open spec fn id_window_rtts(m: Map<usize, (u64, Option<u64>)>, lo: int, hi: int) -> Seq<u64> {
    Seq::new(
        (hi - lo) as nat,
        |i: int| (m[(lo + i) as usize].1.unwrap() - m[(lo + i) as usize].0) as u64,
    )
}

/// The largest "receive time minus window start" over the ids in
/// `[lo, hi)`, and zero for an empty range.
pub open spec fn max_recv_offset(
    m: Map<usize, (u64, Option<u64>)>,
    lo: int,
    hi: int,
    window_start: u64,
) -> int
    decreases hi - lo,
{
    if hi <= lo {
        0
    } else {
        let prev = max_recv_offset(m, lo, hi - 1, window_start);
        let cur = m[(hi - 1) as usize].1.unwrap() - window_start;
        if cur > prev {
            cur
        } else {
            prev
        }
    }
}

/// The round-trip times of the ids in `[lo, hi)` that were received no
/// later than `last_sent`, in id order; dropped and late ids contribute
/// nothing.
pub open spec fn time_window_rtts(
    m: Map<usize, (u64, Option<u64>)>,
    lo: int,
    hi: int,
    last_sent: u64,
) -> Seq<u64>
    decreases hi - lo,
{
    if hi <= lo {
        Seq::empty()
    } else {
        let prefix = time_window_rtts(m, lo, hi - 1, last_sent);
        let e = m[(hi - 1) as usize];
        match e.1 {
            Some(rt) => if rt <= last_sent {
                prefix.push((rt - e.0) as u64)
            } else {
                prefix
            },
            None => prefix,
        }
    }
}

/// The first send time of a sequence of `(id, time)` pairs recorded for
/// `id`, if any; mirrors a keyed lookup that stops at the first match.
pub open spec fn lookup_time(times: Seq<(usize, u64)>, id: usize) -> Option<u64>
    decreases times.len(),
{
    if times.len() == 0 {
        None
    } else if times[0].0 == id {
        Some(times[0].1)
    } else {
        lookup_time(times.drop_first(), id)
    }
}

/// The latency map described by a list of send times and a list of receive
/// times: every sent id is present, its receive time looked up by id.
pub open spec fn built_map(sent: Seq<(usize, u64)>, recv: Seq<(usize, u64)>) -> Map<
    usize,
    (u64, Option<u64>),
>
    decreases sent.len(),
{
    if sent.len() == 0 {
        Map::empty()
    } else {
        built_map(sent.drop_last(), recv).insert(
            sent.last().0,
            (sent.last().1, lookup_time(recv, sent.last().0)),
        )
    }
}

/// The pair at position `i` of the send list has a receive time earlier
/// than its send time.
pub open spec fn recv_fault(sent: Seq<(usize, u64)>, recv: Seq<(usize, u64)>, i: int) -> bool {
    lookup_time(recv, sent[i].0) matches Some(e) && e < sent[i].1
}

/// Position `i` is the first faulty pair of the send list.
pub open spec fn first_recv_fault_at(
    sent: Seq<(usize, u64)>,
    recv: Seq<(usize, u64)>,
    i: int,
) -> bool {
    &&& 0 <= i < sent.len()
    &&& recv_fault(sent, recv, i)
    &&& forall|j: int| 0 <= j < i ==> !recv_fault(sent, recv, j)
}

/// The first time recorded for `id` in `times`, scanning forward.
fn lookup_recv(times: &Vec<(usize, u64)>, id: usize) -> (r: Option<u64>)
    ensures
        r == lookup_time(times@, id),
{
    let n = times.len();
    proof {
        assert(times@.skip(0) =~= times@);
    }
    let mut i: usize = 0;
    while i < n
        invariant
            i <= n,
            n == times@.len(),
            lookup_time(times@, id) == lookup_time(times@.skip(i as int), id),
        decreases n - i,
    {
        let e = times[i];
        proof {
            assert(times@.skip(i as int)[0] == e);
            assert(times@.skip(i as int).drop_first() =~= times@.skip(i as int + 1));
        }
        if e.0 == id {
            return Some(e.1);
        }
        i = i + 1;
    }
    proof {
        assert(times@.skip(n as int) =~= Seq::<(usize, u64)>::empty());
    }
    None
}

impl Default for LatencyMap {
    /// An empty map.
    fn default() -> (r: LatencyMap)
        ensures
            r.wf(),
            r@ == Map::<usize, (u64, Option<u64>)>::empty(),
    {
        LatencyMap::new()
    }
}

/// Round trip: after recording and sorting, sweeping the quantiles at
/// regular steps `i / steps` yields a non-decreasing sequence that stays
/// between the smallest and the largest sorted sample.
pub proof fn lemma_quantile_sweep(h: &ManualHistogram, i: u64, j: u64, steps: u64)
    requires
        h.wf(),
        h.sorted_view().len() > 0,
        i <= j < steps,
    ensures
        h.quantile_value(i, steps) <= h.quantile_value(j, steps),
        h.sorted_view().first() <= h.quantile_value(i, steps),
        h.quantile_value(j, steps) <= h.sorted_view().last(),
{
    lemma_mul_inequality(i as int, j as int, steps as int);
    lemma_quantile_monotonic(h, i, steps, j, steps);
    lemma_quantile_bounded(h, i, steps);
    lemma_quantile_bounded(h, j, steps);
}

} // verus!

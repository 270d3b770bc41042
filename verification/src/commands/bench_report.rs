//! Read-outs of a run's latency histogram: the equal-width display buckets a
//! report draws. Shares of the total are computed by the renderer.
use crate::commands::bench::{
    bucket_lower, bucket_width, counts_sum, hist_bucket_bounds, BenchMetrics, LatencyHistogram,
    HIST_BUCKETS,
};
use vstd::prelude::*;

verus! {

/// One display bucket: samples whose representative value falls in
/// `[lower_ns, upper_ns)` (the last bucket also takes everything above).
#[derive(Debug, Clone, Copy, PartialEq, Eq)]
pub struct DisplayBucket {
    pub lower_ns: u64,
    pub upper_ns: u64,
    pub count: u64,
}

/// Width of each of `bc` display buckets spanning `[min, max]`, at least 1 ns.
pub open spec fn display_width(min: u64, max: u64, bc: nat) -> nat {
    let w = (max - min) as nat / bc;
    if w == 0 {
        1
    } else {
        w
    }
}

/// The value a source bucket is drawn at: the middle of its range.
pub open spec fn bucket_mid(i: nat) -> nat {
    (bucket_lower(i) + bucket_lower(i) + bucket_width(i)) / 2
}

/// The display bucket source bucket `i` lands in: its middle, clamped to the
/// observed extremes, measured in widths from the minimum, the overflow going
/// to the last display bucket.
pub open spec fn display_index(min: u64, max: u64, bc: nat, i: nat) -> nat {
    let m = bucket_mid(i);
    let c: nat = if m < min {
        min as nat
    } else if m > max {
        max as nat
    } else {
        m
    };
    let q = (c - min) as nat / display_width(min, max, bc);
    if q > bc - 1 {
        (bc - 1) as nat
    } else {
        q
    }
}

/// Samples of the first `n` source buckets that land in display bucket `j`.
pub open spec fn display_count(buckets: Seq<u64>, min: u64, max: u64, bc: nat, j: nat, n: nat) -> nat
    decreases n,
{
    if n == 0 {
        0
    } else {
        display_count(buckets, min, max, bc, j, (n - 1) as nat) + if display_index(
            min,
            max,
            bc,
            (n - 1) as nat,
        ) == j {
            buckets[n - 1] as nat
        } else {
            0
        }
    }
}

/// `out` draws `h` as `bc` display buckets: nothing for an empty histogram
/// or no buckets, one bucket holding every sample when a single value was
/// observed, else `bc` buckets of equal width from the minimum, each holding
/// the source buckets whose middle falls in it.
pub open spec fn displays(h: LatencyHistogram, bc: nat, out: Seq<DisplayBucket>) -> bool {
    if h.total == 0 || bc == 0 {
        out.len() == 0
    } else if h.min == h.max {
        out == seq![DisplayBucket { lower_ns: h.min, upper_ns: h.max, count: h.total }]
    } else {
        let w = display_width(h.min, h.max, bc);
        &&& out.len() == bc
        &&& forall|k: int|
            0 <= k < bc ==> {
                &&& (#[trigger] out[k]).lower_ns == h.min + k * w
                &&& out[k].upper_ns == h.min + (k + 1) * w
                &&& out[k].count == display_count(
                    h.buckets@,
                    h.min,
                    h.max,
                    bc,
                    k as nat,
                    HIST_BUCKETS as nat,
                )
            }
    }
}

proof fn lemma_display_count_bounded(buckets: Seq<u64>, min: u64, max: u64, bc: nat, j: nat, n: nat)
    requires
        n <= buckets.len(),
    ensures
        display_count(buckets, min, max, bc, j, n) <= counts_sum(buckets.take(n as int)),
    decreases n,
{
    if n > 0 {
        lemma_display_count_bounded(buckets, min, max, bc, j, (n - 1) as nat);
        assert(buckets.take(n as int).drop_last() =~= buckets.take(n - 1));
    }
}

proof fn lemma_prefix_sum_bounded(s: Seq<u64>, n: int)
    requires
        0 <= n <= s.len(),
    ensures
        counts_sum(s.take(n)) <= counts_sum(s),
    decreases s.len() - n,
{
    if n < s.len() {
        lemma_prefix_sum_bounded(s, n + 1);
        assert(s.take(n + 1).drop_last() =~= s.take(n));
    } else {
        assert(s.take(n) =~= s);
    }
}

/// `bc` equal-width display buckets over the observed range of `h`, each
/// source bucket counted where its middle falls. An empty histogram or no
/// buckets give nothing; a single observed value gives one bucket holding
/// every sample.
fn display_buckets(h: &LatencyHistogram, bucket_count: usize) -> (out: Vec<DisplayBucket>)
    requires
        h.wf(),
        h.total > 0 && bucket_count > 0 && h.min != h.max ==> h.min < h.max && h.min
            + bucket_count * display_width(h.min, h.max, bucket_count as nat) <= u64::MAX,
    ensures
        displays(*h, bucket_count as nat, out@),
{
    if h.total == 0 || bucket_count == 0 {
        return Vec::new();
    }
    let min = h.min;
    let max = h.max;
    if min == max {
        let mut one: Vec<DisplayBucket> = Vec::new();
        one.push(DisplayBucket { lower_ns: min, upper_ns: max, count: h.total });
        assert(one@ =~= seq![DisplayBucket { lower_ns: min, upper_ns: max, count: h.total }]);
        return one;
    }
    let ghost bc = bucket_count as nat;
    let ghost wn = display_width(min, max, bc);
    let q = (max - min) / (bucket_count as u64);
    let width: u64 = if q < 1 {
        1
    } else {
        q
    };
    assert(width == wn);
    let mut out: Vec<DisplayBucket> = Vec::new();
    let mut k: usize = 0;
    while k < bucket_count
        invariant
            k <= bucket_count,
            bc == bucket_count,
            width == display_width(min, max, bc),
            min + bucket_count * width <= u64::MAX,
            out@.len() == k,
            forall|j: int|
                0 <= j < k ==> {
                    &&& (#[trigger] out@[j]).lower_ns == min + j * width
                    &&& out@[j].upper_ns == min + (j + 1) * width
                    &&& out@[j].count == 0
                },
        decreases bucket_count - k,
    {
        assert((k + 1) * width <= bucket_count * width) by (nonlinear_arith)
            requires
                k < bucket_count,
        ;
        assert((k + 1) * width == k * width + width) by (nonlinear_arith);
        let lower = min + (k as u64) * width;
        let upper = lower + width;
        out.push(DisplayBucket { lower_ns: lower, upper_ns: upper, count: 0 });
        k = k + 1;
    }
    let mut i: usize = 0;
    while i < HIST_BUCKETS
        invariant
            h.wf(),
            i <= HIST_BUCKETS,
            bc == bucket_count,
            bucket_count > 0,
            min == h.min,
            max == h.max,
            min < max,
            width == display_width(min, max, bc),
            width >= 1,
            out@.len() == bucket_count,
            forall|j: int|
                0 <= j < bucket_count ==> {
                    &&& (#[trigger] out@[j]).lower_ns == min + j * width
                    &&& out@[j].upper_ns == min + (j + 1) * width
                    &&& out@[j].count == display_count(h.buckets@, min, max, bc, j as nat, i as nat)
                },
        decreases HIST_BUCKETS - i,
    {
        let c = h.buckets[i];
        if c != 0 {
            let (lo, hi) = hist_bucket_bounds(i);
            let mid = lo + (hi - lo) / 2;
            assert(mid == bucket_mid(i as nat));
            let clamped = if mid < min {
                min
            } else if mid > max {
                max
            } else {
                mid
            };
            let q = (clamped - min) / width;
            let last = (bucket_count - 1) as u64;
            let idx: usize = if q > last {
                bucket_count - 1
            } else {
                q as usize
            };
            assert(idx == display_index(min, max, bc, i as nat));
            proof {
                lemma_display_count_bounded(h.buckets@, min, max, bc, idx as nat, i as nat);
                lemma_prefix_sum_bounded(h.buckets@, i + 1);
                assert(h.buckets@.take(i + 1).drop_last() =~= h.buckets@.take(i as int));
            }
            let mut b = out[idx];
            b.count = b.count + c;
            out.set(idx, b);
        }
        assert forall|j: int| 0 <= j < bucket_count implies #[trigger] out@[j].count
            == display_count(h.buckets@, min, max, bc, j as nat, (i + 1) as nat) by {}
        i = i + 1;
    }
    out
}

impl BenchMetrics {
    /// The run's latency distribution as `bucket_count` display buckets.
    pub fn to_histogram(&self, bucket_count: usize) -> (out: Vec<DisplayBucket>)
        requires
            self.latency.wf(),
            self.latency.total > 0 && bucket_count > 0 && self.latency.min != self.latency.max
                ==> self.latency.min < self.latency.max && self.latency.min + bucket_count
                * display_width(self.latency.min, self.latency.max, bucket_count as nat)
                <= u64::MAX,
        ensures
            displays(self.latency, bucket_count as nat, out@),
    {
        display_buckets(&self.latency, bucket_count)
    }
}

/// Samples held by a list of display buckets.
pub open spec fn samples_in(out: Seq<DisplayBucket>) -> nat
    decreases out.len(),
{
    if out.len() == 0 {
        0
    } else {
        samples_in(out.drop_last()) + out.last().count as nat
    }
}

/// Samples of the first `n` source buckets landing in the first `m` display
/// buckets.
spec fn landed(buckets: Seq<u64>, min: u64, max: u64, bc: nat, m: nat, n: nat) -> nat
    decreases m,
{
    if m == 0 {
        0
    } else {
        landed(buckets, min, max, bc, (m - 1) as nat, n) + display_count(
            buckets,
            min,
            max,
            bc,
            (m - 1) as nat,
            n,
        )
    }
}

proof fn lemma_landed_step(buckets: Seq<u64>, min: u64, max: u64, bc: nat, m: nat, n: nat)
    requires
        n > 0,
    ensures
        landed(buckets, min, max, bc, m, n) == landed(buckets, min, max, bc, m, (n - 1) as nat)
            + if display_index(min, max, bc, (n - 1) as nat) < m {
            buckets[n - 1] as nat
        } else {
            0
        },
    decreases m,
{
    if m > 0 {
        lemma_landed_step(buckets, min, max, bc, (m - 1) as nat, n);
    }
}

proof fn lemma_landed_all(buckets: Seq<u64>, min: u64, max: u64, bc: nat, n: nat)
    requires
        bc > 0,
        n <= buckets.len(),
    ensures
        landed(buckets, min, max, bc, bc, n) == counts_sum(buckets.take(n as int)),
    decreases n,
{
    if n == 0 {
        lemma_landed_none(buckets, min, max, bc, bc);
        assert(buckets.take(0) =~= Seq::<u64>::empty());
    } else {
        lemma_landed_all(buckets, min, max, bc, (n - 1) as nat);
        lemma_landed_step(buckets, min, max, bc, bc, n);
        assert(buckets.take(n as int).drop_last() =~= buckets.take(n - 1));
    }
}

proof fn lemma_landed_none(buckets: Seq<u64>, min: u64, max: u64, bc: nat, m: nat)
    ensures
        landed(buckets, min, max, bc, m, 0) == 0,
    decreases m,
{
    if m > 0 {
        lemma_landed_none(buckets, min, max, bc, (m - 1) as nat);
    }
}

proof fn lemma_samples_in_prefix(h: LatencyHistogram, bc: nat, out: Seq<DisplayBucket>, m: nat)
    requires
        m <= bc,
        out.len() == bc,
        forall|k: int|
            0 <= k < bc ==> (#[trigger] out[k]).count == display_count(
                h.buckets@,
                h.min,
                h.max,
                bc,
                k as nat,
                HIST_BUCKETS as nat,
            ),
    ensures
        samples_in(out.take(m as int)) == landed(h.buckets@, h.min, h.max, bc, m, HIST_BUCKETS as nat),
    decreases m,
{
    if m > 0 {
        lemma_samples_in_prefix(h, bc, out, (m - 1) as nat);
        assert(out.take(m as int).drop_last() =~= out.take(m - 1));
    }
}

/// Drawing a histogram loses no sample: the display buckets together hold
/// exactly the samples recorded, whatever their number.
pub proof fn lemma_display_buckets_hold_every_sample(
    h: LatencyHistogram,
    bc: nat,
    out: Seq<DisplayBucket>,
)
    requires
        h.wf(),
        bc > 0,
        displays(h, bc, out),
    ensures
        samples_in(out) == h.total,
{
    if h.total == 0 {
    } else if h.min == h.max {
        assert(out.drop_last() =~= Seq::<DisplayBucket>::empty());
        assert(samples_in(out.drop_last()) == 0);
        assert(out.last().count == h.total);
    } else {
        lemma_samples_in_prefix(h, bc, out, bc);
        assert(out.take(bc as int) =~= out);
        lemma_landed_all(h.buckets@, h.min, h.max, bc, HIST_BUCKETS as nat);
        assert(h.buckets@.take(HIST_BUCKETS as int) =~= h.buckets@);
        assert(samples_in(out) == landed(h.buckets@, h.min, h.max, bc, bc, HIST_BUCKETS as nat));
    }
}

/// The source bucket holding a given rank of the sorted samples: its index
/// and bounds, the samples below it and its own count.
#[derive(Debug, Clone, Copy, PartialEq, Eq)]
pub struct RankBucket {
    pub index: usize,
    pub lower_ns: u64,
    pub upper_ns: u64,
    pub before: u64,
    pub count: u64,
}

/// Bucket `i` holds samples and, with every bucket before it, reaches rank
/// `target`.
pub open spec fn reaches_rank(buckets: Seq<u64>, i: int, target: u64) -> bool {
    buckets[i] != 0 && counts_sum(buckets.take(i + 1)) >= target
}

impl LatencyHistogram {
    /// The first non-empty bucket whose cumulative count reaches `target`
    /// (1-based rank into the sorted samples): the bucket a percentile is
    /// interpolated in. `None` when no bucket reaches it, that is when the
    /// histogram is empty or `target` exceeds the sample count.
    pub fn rank_bucket(&self, target: u64) -> (r: Option<RankBucket>)
        requires
            self.wf(),
        ensures
            r is Some <==> (self.total > 0 && target <= self.total),
            r matches Some(b) ==> {
                &&& b.index < HIST_BUCKETS
                &&& reaches_rank(self.buckets@, b.index as int, target)
                &&& forall|j: int|
                    0 <= j < b.index ==> !#[trigger] reaches_rank(self.buckets@, j, target)
                &&& b.lower_ns == bucket_lower(b.index as nat)
                &&& b.upper_ns == bucket_lower(b.index as nat) + bucket_width(b.index as nat)
                &&& b.before == counts_sum(self.buckets@.take(b.index as int))
                &&& b.count == self.buckets@[b.index as int]
            },
    {
        let mut cumulative: u64 = 0;
        let mut i: usize = 0;
        while i < HIST_BUCKETS
            invariant
                self.wf(),
                i <= HIST_BUCKETS,
                cumulative == counts_sum(self.buckets@.take(i as int)),
                forall|j: int| 0 <= j < i ==> !#[trigger] reaches_rank(self.buckets@, j, target),
            decreases HIST_BUCKETS - i,
        {
            let c = self.buckets[i];
            proof {
                lemma_prefix_sum_bounded(self.buckets@, i + 1);
                assert(self.buckets@.take(i + 1).drop_last() =~= self.buckets@.take(i as int));
            }
            if c != 0 && cumulative + c >= target {
                let (lower, upper) = hist_bucket_bounds(i);
                proof {
                    lemma_prefix_sum_bounded(self.buckets@, i + 1);
                }
                return Some(
                    RankBucket { index: i, lower_ns: lower, upper_ns: upper, before: cumulative, count: c },
                );
            }
            cumulative = cumulative + c;
            i = i + 1;
        }
        proof {
            assert(self.buckets@.take(HIST_BUCKETS as int) =~= self.buckets@);
            if self.total > 0 && target <= self.total {
                lemma_rank_reached(self.buckets@, target);
            }
        }
        None
    }
}

/// When the samples reach `target`, some non-empty bucket reaches it.
proof fn lemma_rank_reached(buckets: Seq<u64>, target: u64)
    requires
        counts_sum(buckets) > 0,
        target <= counts_sum(buckets),
    ensures
        exists|j: int| 0 <= j < buckets.len() && #[trigger] reaches_rank(buckets, j, target),
    decreases buckets.len(),
{
    let n = buckets.len() as int;
    assert(buckets.take(n) =~= buckets);
    let prev = buckets.drop_last();
    if buckets.last() != 0 {
        assert(reaches_rank(buckets, n - 1, target));
    } else {
        lemma_rank_reached(prev, target);
        let j = choose|j: int| 0 <= j < prev.len() && #[trigger] reaches_rank(prev, j, target);
        assert(prev.take(j + 1) =~= buckets.take(j + 1));
        assert(reaches_rank(buckets, j, target));
    }
}

} // verus!

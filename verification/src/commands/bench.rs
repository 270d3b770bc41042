//! Benchmark bookkeeping: option parsing, the load-generation decisions, the
//! bounded latency histogram and the per-run metrics accumulator. Timing,
//! floating-point rates and the network run elsewhere; what is decided here
//! is exact integer and text logic.
use crate::text::{
    ascii_lower, chars_eq, chars_of, decimal, decimal_chars, push_all, push_str, slice_chars,
    starts_with, ends_with, string_from_chars, trim_ascii, trim_ascii_lower,
};
use vstd::arithmetic::power2::{
    lemma2_to64, lemma2_to64_rest, lemma_pow2_adds, lemma_pow2_pos, lemma_pow2_strictly_increases,
    lemma_pow2_unfold, pow2,
};
use crate::keyed::{
    find_key, keys_distinct, lemma_value_absent, lemma_value_at, lemma_value_is_entry,
    lemma_value_update, value_in,
};
use vstd::prelude::*;

verus! {

broadcast use vstd::string::group_string_axioms;

#[derive(Debug, Clone, Copy, PartialEq, Eq)]
pub enum DurationStopMode {
    Close,
    Wait,
    Ignore,
}

#[derive(Debug, Clone, Copy, PartialEq, Eq)]
pub enum BenchOptionSource {
    Cli,
    BenchSection,
    Default,
}

pub open spec fn option_source_name(s: BenchOptionSource) -> Seq<char> {
    match s {
        BenchOptionSource::Cli => "cli"@,
        BenchOptionSource::BenchSection => "bench_section"@,
        BenchOptionSource::Default => "default"@,
    }
}

impl BenchOptionSource {
    pub fn as_str(self) -> (s: &'static str)
        ensures
            s@ == option_source_name(self),
    {
        match self {
            BenchOptionSource::Cli => "cli",
            BenchOptionSource::BenchSection => "bench_section",
            BenchOptionSource::Default => "default",
        }
    }
}

/// `s.trim_ascii().to_ascii_lowercase()`.
pub open spec fn folded(s: Seq<char>) -> Seq<char> {
    trim_ascii(s).map_values(|c: char| ascii_lower(c))
}

/// The `duration_stop` value `raw` names, if any.
pub open spec fn duration_stop_of(raw: Seq<char>) -> Option<DurationStopMode> {
    let k = folded(raw);
    if k == "close"@ {
        Some(DurationStopMode::Close)
    } else if k == "wait"@ {
        Some(DurationStopMode::Wait)
    } else if k == "ignore"@ {
        Some(DurationStopMode::Ignore)
    } else {
        None
    }
}

impl DurationStopMode {
    /// Parse a `duration_stop` value, case-insensitively and ignoring
    /// surrounding ASCII whitespace; anything else is refused with a message
    /// naming the value.
    pub fn parse(raw: &str) -> (res: Result<DurationStopMode, String>)
        ensures
            match res {
                Ok(m) => duration_stop_of(raw@) == Some(m),
                Err(msg) => duration_stop_of(raw@) is None && msg@ == "invalid duration-stop mode '"@
                    + folded(raw@) + "', expected close|wait|ignore"@,
            },
    {
        let k = trim_ascii_lower(raw);
        if chars_eq(&k, &chars_of("close")) {
            Ok(DurationStopMode::Close)
        } else if chars_eq(&k, &chars_of("wait")) {
            Ok(DurationStopMode::Wait)
        } else if chars_eq(&k, &chars_of("ignore")) {
            Ok(DurationStopMode::Ignore)
        } else {
            let mut msg: Vec<char> = Vec::new();
            push_str(&mut msg, "invalid duration-stop mode '");
            push_all(&mut msg, &k);
            push_str(&mut msg, "', expected close|wait|ignore");
            Err(string_from_chars(msg.as_slice()))
        }
    }
}

/// Round-robin passes in fixed-request mode: `--requests` is the total budget
/// across all documents, so each pass (one request per document) takes a share.
pub fn request_passes(total_requests: u64, doc_count: usize) -> (p: u64)
    ensures
        p as int == total_requests as int / (if doc_count == 0 {
            1int
        } else {
            doc_count as int
        }),
{
    let docs: u64 = if doc_count == 0 {
        1
    } else {
        doc_count as u64
    };
    total_requests / docs
}

/// The passes never issue more requests than the budget allows.
pub proof fn lemma_request_passes_within_budget(total_requests: u64, doc_count: nat)
    ensures
        (total_requests as int / (if doc_count == 0 {
            1int
        } else {
            doc_count as int
        })) * (if doc_count == 0 {
            1int
        } else {
            doc_count as int
        }) <= total_requests,
{
    let d: int = if doc_count == 0 {
        1
    } else {
        doc_count as int
    };
    vstd::arithmetic::div_mod::lemma_fundamental_div_mod(total_requests as int, d);
    vstd::arithmetic::div_mod::lemma_mod_pos_bound(total_requests as int, d);
}

/// A run measured nothing when requests went out and not one satisfied its document.
pub fn measured_nothing(count: u64, passed: u64) -> (b: bool)
    ensures
        b == (count > 0 && passed == 0),
{
    count > 0 && passed == 0
}

/// `ndjson` is an alias of the per-response JSON Lines format `detail-json`.
pub fn canonical_bench_format(fmt: &str) -> (out: &str)
    ensures
        out@ == if fmt@ == "ndjson"@ {
            "detail-json"@
        } else {
            fmt@
        },
{
    if crate::text::str_eq(fmt, "ndjson") {
        "detail-json"
    } else {
        fmt
    }
}

/// Load-generation model selected by `mode`.
#[derive(Debug, Clone, Copy, PartialEq, Eq)]
pub enum ExecModel {
    /// Each worker issues one request, awaits it, then paces to the next slot.
    Closed,
    /// Requests arrive on a fixed schedule regardless of completion.
    Open,
}

/// `open` and `adaptive` (case-insensitive, ASCII-trimmed) select the open
/// model; every other mode stays closed-loop.
pub fn exec_model_for(mode: &str) -> (m: ExecModel)
    ensures
        m == if folded(mode@) == "open"@ || folded(mode@) == "adaptive"@ {
            ExecModel::Open
        } else {
            ExecModel::Closed
        },
{
    let k = trim_ascii_lower(mode);
    if chars_eq(&k, &chars_of("open")) || chars_eq(&k, &chars_of("adaptive")) {
        ExecModel::Open
    } else {
        ExecModel::Closed
    }
}

/// Connection-pool slot of a closed-loop worker: its index modulo the pool
/// size (a pool of zero counts as one).
pub fn worker_connection_id(worker_index: u32, connections: u32) -> (id: u64)
    ensures
        id as int == worker_index as int % (if connections == 0 {
            1int
        } else {
            connections as int
        }),
        id < (if connections == 0 {
            1nat
        } else {
            connections as nat
        }),
{
    let c: u32 = if connections == 0 {
        1
    } else {
        connections
    };
    (worker_index % c) as u64
}

/// Runner slot of the `task_index`-th open-model request.
pub fn round_robin_index(task_index: usize, pool_size: usize) -> (i: usize)
    ensures
        i as int == task_index as int % (if pool_size == 0 {
            1int
        } else {
            pool_size as int
        }),
        i < (if pool_size == 0 {
            1nat
        } else {
            pool_size as nat
        }),
{
    let p: usize = if pool_size == 0 {
        1
    } else {
        pool_size
    };
    task_index % p
}

/// Whether a request that finished is recorded: always when it finished before
/// the deadline; after it, only in `wait` mode.
pub fn should_record_after_deadline(mode: DurationStopMode, finished_before_deadline: bool) -> (b:
    bool)
    ensures
        b == (finished_before_deadline || mode == DurationStopMode::Wait),
{
    if finished_before_deadline {
        return true;
    }
    match mode {
        DurationStopMode::Close => false,
        DurationStopMode::Wait => true,
        DurationStopMode::Ignore => false,
    }
}

pub open spec fn end_reason(
    has_duration: bool,
    max_duration_ns: Option<u128>,
    run_elapsed_ns: u128,
    shutdown_requested: bool,
) -> Seq<char> {
    if shutdown_requested {
        "user_cancelled"@
    } else if has_duration {
        "duration_reached"@
    } else if max_duration_ns matches Some(limit) && run_elapsed_ns >= limit {
        "max_duration_reached"@
    } else {
        "requests_completed"@
    }
}

/// Why a run ended; durations are in nanoseconds.
pub fn derive_end_reason(
    has_duration: bool,
    max_duration_ns: Option<u128>,
    run_elapsed_ns: u128,
    shutdown_requested: bool,
) -> (r: &'static str)
    ensures
        r@ == end_reason(has_duration, max_duration_ns, run_elapsed_ns, shutdown_requested),
{
    if shutdown_requested {
        "user_cancelled"
    } else if has_duration {
        "duration_reached"
    } else if match max_duration_ns {
        Some(limit) => run_elapsed_ns >= limit,
        None => false,
    } {
        "max_duration_reached"
    } else {
        "requests_completed"
    }
}

} // verus!

verus! {

// ---------------------------------------------------------------------------
// Log-linear latency buckets: 128 linear buckets for 0..128 ns, then 128
// sub-buckets per power-of-two octave up to 2^42 ns, where the top bucket
// saturates.

pub const HIST_BUCKETS: usize = 4608;

/// `floor(log2(v))` for `v >= 1` (and 0 for `v < 2`).
pub open spec fn octave(v: nat) -> nat
    decreases v,
{
    if v < 2 {
        0
    } else {
        1 + octave(v / 2)
    }
}

pub open spec fn clamped_octave(v: nat) -> nat {
    if octave(v) < 41 {
        octave(v)
    } else {
        41
    }
}

/// The bucket a latency of `v` ns falls in.
pub open spec fn bucket_of(v: nat) -> nat {
    if v < 128 {
        v
    } else {
        let e = clamped_octave(v);
        let sub = (v - pow2(e)) as nat / pow2((e - 7) as nat);
        (128 + (e - 7) * 128 + if sub < 127 {
            sub
        } else {
            127nat
        }) as nat
    }
}

/// Width of bucket `i`.
pub open spec fn bucket_width(i: nat) -> nat {
    if i < 128 {
        1
    } else {
        pow2(((i - 128) as nat / 128) as nat)
    }
}

/// Inclusive lower bound of bucket `i`.
pub open spec fn bucket_lower(i: nat) -> nat {
    if i < 128 {
        i
    } else {
        pow2((7 + (i - 128) as nat / 128) as nat) + ((i - 128) as nat % 128) * bucket_width(i)
    }
}

proof fn lemma_octave_is(v: nat, k: nat)
    requires
        pow2(k) <= v < pow2(k + 1),
    ensures
        octave(v) == k,
    decreases k,
{
    lemma_pow2_unfold(k + 1);
    if k > 0 {
        lemma_pow2_unfold(k);
        lemma_octave_is(v / 2, (k - 1) as nat);
    } else {
        lemma2_to64();
    }
}

proof fn lemma_octave_at_least(v: nat, k: nat)
    requires
        pow2(k) <= v,
    ensures
        octave(v) >= k,
    decreases k,
{
    if k > 0 {
        lemma_pow2_unfold(k);
        lemma_pow2_pos((k - 1) as nat);
        lemma_octave_at_least(v / 2, (k - 1) as nat);
    }
}

/// Every latency has a bucket, and below 2^42 ns its bucket holds it:
/// `bucket_lower(i) <= v < bucket_lower(i) + bucket_width(i)`. From 2^42 ns on,
/// every latency lands in the top bucket.
pub proof fn lemma_bucket_holds_value(v: nat)
    ensures
        bucket_of(v) < HIST_BUCKETS,
        v < pow2(42) ==> bucket_lower(bucket_of(v)) <= v < bucket_lower(bucket_of(v))
            + bucket_width(bucket_of(v)),
        v >= pow2(42) ==> bucket_of(v) == HIST_BUCKETS - 1,
{
    lemma2_to64();
    lemma2_to64_rest();
    if v >= 128 {
        let e = clamped_octave(v);
        if octave(v) < 7 {
            // v >= 2^7 forces octave(v) >= 7
            lemma_octave_at_least(v, 7);
        }
        assert(7 <= e <= 41);
        let k = (e - 7) as nat;
        let w = pow2(k);
        lemma_pow2_adds(7, k);
        assert(pow2(e) == 128 * w) by {
            assert(7 + k == e);
        }
        lemma_pow2_pos(k);
        // pow2(e) <= v
        if octave(v) < 41 {
            lemma_octave_floor(v);
        } else {
            lemma_pow2_strictly_increases(41, 42);
            if v < pow2(41) {
                lemma_octave_below(v, 41);
            }
        }
        assert(pow2(e) <= v);
        let d = (v - pow2(e)) as nat;
        let sub = d / w;
        vstd::arithmetic::div_mod::lemma_fundamental_div_mod(d as int, w as int);
        vstd::arithmetic::div_mod::lemma_mod_pos_bound(d as int, w as int);
        if v < pow2(42) {
            // v < 2^(e+1) = 2 * 2^e, so d < 2^e = 128 * w and sub < 128
            if octave(v) < 41 {
                lemma_octave_ceiling(v);
            } else {
                assert(e == 41);
            }
            lemma_pow2_unfold(e + 1);
            assert(d < 128 * w);
            vstd::arithmetic::div_mod::lemma_div_by_multiple_is_strongly_ordered(
                d as int,
                (128 * w) as int,
                128,
                w as int,
            );
            assert(sub < 128) by (nonlinear_arith)
                requires
                    d == w * sub + d % w,
                    0 <= d % w < w,
                    d < 128 * w,
                    w > 0,
            ;
            let i = bucket_of(v);
            let rel = (i - 128) as nat;
            if sub < 127 {
                assert(i == 128 + k * 128 + sub);
            } else {
                assert(sub == 127);
                assert(i == 128 + k * 128 + sub);
            }
            assert(rel == k * 128 + sub);
            assert(rel / 128 == k && rel % 128 == sub) by (nonlinear_arith)
                requires
                    rel == k * 128 + sub,
                    sub < 128,
            ;
            assert(bucket_width(i) == w);
            assert(bucket_lower(i) == pow2(e) + sub * w);
            assert(sub * w <= d < sub * w + w) by (nonlinear_arith)
                requires
                    d == w * sub + d % w,
                    0 <= d % w < w,
            ;
        } else {
            lemma_octave_at_least(v, 42);
            assert(e == 41);
            assert(pow2(e) * 2 == pow2(42)) by {
                lemma_pow2_unfold(42);
            }
            assert(sub >= 127) by (nonlinear_arith)
                requires
                    d == w * sub + d % w,
                    0 <= d % w < w,
                    d >= 128 * w,
                    w > 0,
            ;
        }
        assert(bucket_of(v) <= 128 + 34 * 128 + 127);
    }
}

/// The octave of `v >= 1` is its floor: `2^octave(v) <= v`.
proof fn lemma_octave_floor(v: nat)
    requires
        v >= 1,
    ensures
        pow2(octave(v)) <= v,
    decreases v,
{
    if v < 2 {
        lemma2_to64();
    } else {
        lemma_octave_floor(v / 2);
        lemma_pow2_unfold(octave(v));
    }
}

/// ... and its ceiling: `v < 2^(octave(v) + 1)`.
proof fn lemma_octave_ceiling(v: nat)
    ensures
        v < pow2(octave(v) + 1),
    decreases v,
{
    if v < 2 {
        lemma2_to64();
    } else {
        lemma_octave_ceiling(v / 2);
        lemma_pow2_unfold(octave(v) + 1);
    }
}

/// Below `2^k` the octave is below `k`.
proof fn lemma_octave_below(v: nat, k: nat)
    requires
        1 <= v < pow2(k),
    ensures
        octave(v) < k,
{
    lemma_octave_floor(v);
    if octave(v) >= k {
        if octave(v) > k {
            lemma_pow2_strictly_increases(k, octave(v));
        }
    }
}

} // verus!

verus! {

fn pow2_u64(e: u32) -> (p: u64)
    requires
        e < 64,
    ensures
        p == pow2(e as nat),
{
    proof {
        lemma2_to64();
    }
    let mut p: u64 = 1;
    let mut i: u32 = 0;
    while i < e
        invariant
            i <= e < 64,
            p == pow2(i as nat),
        decreases e - i,
    {
        proof {
            lemma_pow2_unfold((i + 1) as nat);
            lemma2_to64_rest();
            if i + 1 < 64 {
                lemma_pow2_strictly_increases((i + 1) as nat, 64);
            }
        }
        p = p * 2;
        i = i + 1;
    }
    p
}

/// Index of the bucket holding a latency of `v` ns.
pub fn hist_bucket_index(v: u64) -> (i: usize)
    ensures
        i == bucket_of(v as nat),
        i < HIST_BUCKETS,
{
    proof {
        lemma_bucket_holds_value(v as nat);
    }
    if v < 128 {
        return v as usize;
    }
    proof {
        lemma2_to64();
        lemma2_to64_rest();
        lemma_octave_at_least(v as nat, 7);
    }
    // p = 2^e, doubled while it stays at most v and e stays at most 41.
    let mut e: u32 = 7;
    let mut p: u64 = 128;
    while e < 41 && v / 2 >= p
        invariant
            7 <= e <= 41,
            p == pow2(e as nat),
            p <= v,
            e <= octave(v as nat),
        decreases 41 - e,
    {
        proof {
            lemma_pow2_unfold((e + 1) as nat);
            lemma_pow2_strictly_increases((e + 1) as nat, 42);
            lemma_octave_at_least(v as nat, (e + 1) as nat);
        }
        p = p * 2;
        e = e + 1;
    }
    proof {
        if e < 41 {
            lemma_pow2_unfold((e + 1) as nat);
            lemma_octave_is(v as nat, e as nat);
        }
        assert(e == clamped_octave(v as nat));
    }
    let w = pow2_u64(e - 7);
    proof {
        lemma_pow2_pos((e - 7) as nat);
    }
    let sub = (v - p) / w;
    let sub = if sub < 127 {
        sub
    } else {
        127
    };
    128 + (e as usize - 7) * 128 + sub as usize
}

/// Bounds of bucket `index`: inclusive lower, exclusive upper, in ns.
pub fn hist_bucket_bounds(index: usize) -> (b: (u64, u64))
    requires
        index < 7295,
    ensures
        b.0 == bucket_lower(index as nat),
        b.1 == bucket_lower(index as nat) + bucket_width(index as nat),
{
    if index < 128 {
        return (index as u64, index as u64 + 1);
    }
    let rel = index - 128;
    let k = (rel / 128) as u32;
    let sub = (rel % 128) as u64;
    let width = pow2_u64(k);
    let base = pow2_u64(k + 7);
    proof {
        lemma2_to64();
        lemma2_to64_rest();
        assert(k <= 56);
        if k < 56 {
            lemma_pow2_strictly_increases(k as nat, 56);
            lemma_pow2_strictly_increases((k + 7) as nat, 63);
        } else {
            assert(sub <= 126);
        }
        lemma_pow2_adds(k as nat, 7);
        assert(base == width * 128);
        assert(base + sub * width + width <= u64::MAX) by (nonlinear_arith)
            requires
                base == width * 128,
                k < 56 ==> width < 0x100000000000000,
                k == 56 ==> width == 0x100000000000000 && sub <= 126,
                sub < 128,
                k <= 56,
        ;
    }
    let lower = base + sub * width;
    (lower, lower + width)
}

} // verus!

verus! {

// ---------------------------------------------------------------------------
// The bounded latency histogram

/// Sum of bucket counts.
pub open spec fn counts_sum(s: Seq<u64>) -> nat
    decreases s.len(),
{
    if s.len() == 0 {
        0
    } else {
        counts_sum(s.drop_last()) + s.last() as nat
    }
}

/// A histogram as counts per bucket, the sample count and the exact extremes.
pub struct HistView {
    pub buckets: Seq<nat>,
    pub total: nat,
    pub min: nat,
    pub max: nat,
}

pub open spec fn hist_empty() -> HistView {
    HistView {
        buckets: Seq::new(HIST_BUCKETS as nat, |i: int| 0nat),
        total: 0,
        min: u64::MAX as nat,
        max: 0,
    }
}

pub open spec fn hist_record(h: HistView, v: u64) -> HistView {
    let i = bucket_of(v as nat) as int;
    HistView {
        buckets: h.buckets.update(i, h.buckets[i] + 1),
        total: h.total + 1,
        min: if (v as nat) < h.min {
            v as nat
        } else {
            h.min
        },
        max: if (v as nat) > h.max {
            v as nat
        } else {
            h.max
        },
    }
}

pub open spec fn hist_merge(h: HistView, o: HistView) -> HistView {
    HistView {
        buckets: Seq::new(h.buckets.len(), |i: int| h.buckets[i] + o.buckets[i]),
        total: h.total + o.total,
        min: if o.total > 0 && o.min < h.min {
            o.min
        } else {
            h.min
        },
        max: if o.total > 0 && o.max > h.max {
            o.max
        } else {
            h.max
        },
    }
}

/// The histogram of the samples `vs`, recorded in order into an empty one.
pub open spec fn recorded(vs: Seq<u64>) -> HistView
    decreases vs.len(),
{
    if vs.len() == 0 {
        hist_empty()
    } else {
        hist_record(recorded(vs.drop_last()), vs.last())
    }
}

proof fn lemma_recorded_shape(vs: Seq<u64>)
    ensures
        recorded(vs).buckets.len() == HIST_BUCKETS,
        recorded(vs).total == vs.len(),
        vs.len() == 0 ==> recorded(vs).min == u64::MAX && recorded(vs).max == 0,
        recorded(vs).min <= u64::MAX,
    decreases vs.len(),
{
    if vs.len() > 0 {
        lemma_recorded_shape(vs.drop_last());
        lemma_bucket_holds_value(vs.last() as nat);
    }
}

/// Merging is lossless: the merge of the histograms of two sample runs is the
/// histogram of both runs together, bucket for bucket, count and extremes.
pub proof fn lemma_merge_is_lossless(a: Seq<u64>, b: Seq<u64>)
    ensures
        hist_merge(recorded(a), recorded(b)) == recorded(a + b),
    decreases b.len(),
{
    lemma_recorded_shape(a);
    lemma_recorded_shape(b);
    if b.len() == 0 {
        assert(a + b =~= a);
        assert(hist_merge(recorded(a), recorded(b)).buckets =~= recorded(a).buckets);
    } else {
        let bp = b.drop_last();
        let x = b.last();
        lemma_merge_is_lossless(a, bp);
        lemma_recorded_shape(bp);
        lemma_recorded_shape(a + bp);
        lemma_bucket_holds_value(x as nat);
        assert((a + b).drop_last() =~= a + bp);
        assert((a + b).last() == x);
        let h = recorded(a);
        let g = recorded(bp);
        let lhs = hist_merge(h, hist_record(g, x));
        let rhs = hist_record(hist_merge(h, g), x);
        assert(lhs.buckets =~= rhs.buckets);
        assert(lhs == rhs);
    }
}

#[derive(Debug, Clone)]
pub struct LatencyHistogram {
    pub buckets: Vec<u64>,
    pub total: u64,
    pub min: u64,
    pub max: u64,
}

impl View for LatencyHistogram {
    type V = HistView;

    open spec fn view(&self) -> HistView {
        HistView {
            buckets: self.buckets@.map_values(|c: u64| c as nat),
            total: self.total as nat,
            min: self.min as nat,
            max: self.max as nat,
        }
    }
}

proof fn lemma_counts_sum_prefix(s: Seq<u64>, i: int)
    requires
        0 <= i < s.len(),
    ensures
        counts_sum(s.take(i + 1)) == counts_sum(s.take(i)) + s[i],
        counts_sum(s.take(i + 1)) <= counts_sum(s),
    decreases s.len(),
{
    assert(s.take(i + 1).drop_last() =~= s.take(i));
    if i + 1 < s.len() {
        lemma_counts_sum_prefix(s.drop_last(), i);
        assert(s.drop_last().take(i + 1) =~= s.take(i + 1));
    } else {
        assert(s.take(i + 1) =~= s);
    }
}

proof fn lemma_counts_sum_update(s: Seq<u64>, i: int, x: u64)
    requires
        0 <= i < s.len(),
    ensures
        counts_sum(s.update(i, x)) + s[i] == counts_sum(s) + x,
    decreases s.len(),
{
    if i + 1 < s.len() {
        lemma_counts_sum_update(s.drop_last(), i, x);
        assert(s.update(i, x).drop_last() =~= s.drop_last().update(i, x));
    } else {
        assert(s.update(i, x).drop_last() =~= s.drop_last());
    }
}

impl LatencyHistogram {
    /// Room for every bucket, counts kept consistent with the total.
    pub open spec fn wf(&self) -> bool {
        &&& self.buckets@.len() == HIST_BUCKETS
        &&& self.total == counts_sum(self.buckets@)
    }

    pub fn new() -> (h: LatencyHistogram)
        ensures
            h.wf(),
            h@ == hist_empty(),
    {
        let mut buckets: Vec<u64> = Vec::new();
        let mut i: usize = 0;
        while i < HIST_BUCKETS
            invariant
                i <= HIST_BUCKETS,
                buckets@ == Seq::new(i as nat, |j: int| 0u64),
                counts_sum(buckets@) == 0,
            decreases HIST_BUCKETS - i,
        {
            let ghost b0 = buckets@;
            buckets.push(0);
            assert(buckets@.drop_last() =~= b0);
            assert(buckets@ =~= Seq::new((i + 1) as nat, |j: int| 0u64));
            i = i + 1;
        }
        let h = LatencyHistogram { buckets, total: 0, min: u64::MAX, max: 0 };
        assert(h@.buckets =~= hist_empty().buckets);
        h
    }

    /// Count one sample of `v` ns.
    pub fn record(&mut self, v: u64)
        requires
            old(self).wf(),
            old(self).total < u64::MAX,
        ensures
            final(self).wf(),
            final(self)@ == hist_record(old(self)@, v),
    {
        let i = hist_bucket_index(v);
        proof {
            assert(self.buckets@.take(HIST_BUCKETS as int) =~= self.buckets@);
            lemma_counts_sum_prefix(self.buckets@, i as int);
            lemma_counts_sum_prefix(self.buckets@, HIST_BUCKETS - 1);
        }
        let c = self.buckets[i];
        proof {
            lemma_counts_sum_update(self.buckets@, i as int, (c + 1) as u64);
        }
        self.buckets.set(i, c + 1);
        self.total = self.total + 1;
        if v < self.min {
            self.min = v;
        }
        if v > self.max {
            self.max = v;
        }
        assert(self@.buckets =~= hist_record(old(self)@, v).buckets);
    }

    /// Add `other`'s samples: bucket-wise sums, totals added, extremes widened
    /// when `other` holds any sample.
    pub fn merge(&mut self, other: &LatencyHistogram)
        requires
            old(self).wf(),
            other.wf(),
            old(self).total + other.total <= u64::MAX,
        ensures
            final(self).wf(),
            final(self)@ == hist_merge(old(self)@, other@),
    {
        let ghost a = self.buckets@;
        let ghost b = other.buckets@;
        let mut out: Vec<u64> = Vec::new();
        let mut i: usize = 0;
        while i < HIST_BUCKETS
            invariant
                i <= HIST_BUCKETS,
                a == self.buckets@,
                b == other.buckets@,
                a.len() == HIST_BUCKETS,
                b.len() == HIST_BUCKETS,
                counts_sum(a) + counts_sum(b) <= u64::MAX,
                out@.len() == i,
                forall|j: int| 0 <= j < i ==> #[trigger] out@[j] == a[j] + b[j],
                counts_sum(out@) == counts_sum(a.take(i as int)) + counts_sum(b.take(i as int)),
            decreases HIST_BUCKETS - i,
        {
            proof {
                lemma_counts_sum_prefix(a, i as int);
                lemma_counts_sum_prefix(b, i as int);
            }
            let s = self.buckets[i] + other.buckets[i];
            let ghost o0 = out@;
            out.push(s);
            assert(out@.drop_last() =~= o0);
            i = i + 1;
        }
        assert(a.take(HIST_BUCKETS as int) =~= a);
        assert(b.take(HIST_BUCKETS as int) =~= b);
        let ghost old_view = self@;
        self.buckets = out;
        self.total = self.total + other.total;
        if other.total > 0 {
            if other.min < self.min {
                self.min = other.min;
            }
            if other.max > self.max {
                self.max = other.max;
            }
        }
        assert(self@.buckets =~= hist_merge(old_view, other@).buckets);
    }

    pub fn is_empty(&self) -> (b: bool)
        ensures
            b == (self.total == 0),
    {
        self.total == 0
    }
}

} // verus!

verus! {

// ---------------------------------------------------------------------------
// Error categories and status labels

/// `n` occurs in `h` at `i`, ignoring ASCII case.
pub open spec fn fold_match_at(h: Seq<char>, n: Seq<char>, i: int) -> bool {
    forall|j: int| 0 <= j < n.len() ==> ascii_lower(#[trigger] h[i + j]) == ascii_lower(n[j])
}

/// A non-empty `n` occurs somewhere in `h`, ignoring ASCII case.
pub open spec fn fold_contains(h: Seq<char>, n: Seq<char>) -> bool {
    &&& n.len() > 0
    &&& n.len() <= h.len()
    &&& exists|i: int| 0 <= i <= h.len() - n.len() && fold_match_at(h, n, i)
}

/// Case-insensitive (ASCII) substring test; an empty needle matches nothing.
pub fn contains_fold(haystack: &str, needle: &str) -> (b: bool)
    ensures
        b == fold_contains(haystack@, needle@),
{
    let h = chars_of(haystack);
    let n = chars_of(needle);
    if n.len() == 0 || n.len() > h.len() {
        return false;
    }
    let mut i: usize = 0;
    while i <= h.len() - n.len()
        invariant
            h@ == haystack@,
            n@ == needle@,
            0 < n.len() <= h.len(),
            i <= h.len() - n.len() + 1,
            forall|k: int| 0 <= k < i ==> !fold_match_at(h@, n@, k),
        decreases h.len() - n.len() + 1 - i,
    {
        let mut j: usize = 0;
        while j < n.len() && crate::text::to_ascii_lower(h[i + j]) == crate::text::to_ascii_lower(n[j])
            invariant
                0 < n.len() <= h.len(),
                i <= h.len() - n.len(),
                j <= n.len(),
                forall|q: int| 0 <= q < j ==> ascii_lower(#[trigger] h@[i + q]) == ascii_lower(n@[q]),
            decreases n.len() - j,
        {
            j = j + 1;
        }
        if j == n.len() {
            assert(fold_match_at(h@, n@, i as int));
            return true;
        }
        assert(!fold_match_at(h@, n@, i as int)) by {
            assert(ascii_lower(h@[i + j]) != ascii_lower(n@[j as int]));
        }
        i = i + 1;
    }
    false
}

/// The category an error message is counted under.
pub open spec fn error_category(m: Seq<char>) -> Seq<char> {
    if fold_contains(m, "assert"@) {
        "assert_failure"@
    } else if fold_contains(m, "timeout"@) || fold_contains(m, "deadline"@) {
        "timeout"@
    } else if fold_contains(m, "connection"@) || fold_contains(m, "refused"@) || fold_contains(
        m,
        "reset"@,
    ) {
        "connection_error"@
    } else if fold_contains(m, "unavailable"@) {
        "unavailable"@
    } else if fold_contains(m, "invalid"@) || fold_contains(m, "malformed"@) {
        "invalid_input"@
    } else {
        "other"@
    }
}

pub fn categorize_error(message: &str) -> (c: &'static str)
    ensures
        c@ == error_category(message@),
{
    if contains_fold(message, "assert") {
        "assert_failure"
    } else if contains_fold(message, "timeout") || contains_fold(message, "deadline") {
        "timeout"
    } else if contains_fold(message, "connection") || contains_fold(message, "refused")
        || contains_fold(message, "reset") {
        "connection_error"
    } else if contains_fold(message, "unavailable") {
        "unavailable"
    } else if contains_fold(message, "invalid") || contains_fold(message, "malformed") {
        "invalid_input"
    } else {
        "other"
    }
}

/// The canonical name of a numeric gRPC status code.
pub open spec fn grpc_code_name(code: u32) -> Option<Seq<char>> {
    if code == 0 {
        Some("OK"@)
    } else if code == 1 {
        Some("Cancelled"@)
    } else if code == 2 {
        Some("Unknown"@)
    } else if code == 3 {
        Some("InvalidArgument"@)
    } else if code == 4 {
        Some("DeadlineExceeded"@)
    } else if code == 5 {
        Some("NotFound"@)
    } else if code == 6 {
        Some("AlreadyExists"@)
    } else if code == 7 {
        Some("PermissionDenied"@)
    } else if code == 8 {
        Some("ResourceExhausted"@)
    } else if code == 9 {
        Some("FailedPrecondition"@)
    } else if code == 10 {
        Some("Aborted"@)
    } else if code == 11 {
        Some("OutOfRange"@)
    } else if code == 12 {
        Some("Unimplemented"@)
    } else if code == 13 {
        Some("Internal"@)
    } else if code == 14 {
        Some("Unavailable"@)
    } else if code == 15 {
        Some("DataLoss"@)
    } else if code == 16 {
        Some("Unauthenticated"@)
    } else {
        None
    }
}

/// Every standard gRPC code (0 to 16) has a name and no other code does;
/// `OK` is the name of code 0; and two codes never share a name, so a
/// status distribution keeps every code in a bucket of its own.
pub proof fn lemma_code_names_are_distinct(a: u32, b: u32)
    ensures
        (grpc_code_name(a) is Some) <==> a <= 16,
        grpc_code_name(a) == Some("OK"@) <==> a == 0,
        a <= 16 && b <= 16 && a != b ==> grpc_code_name(a) != grpc_code_name(b),
{
    reveal_strlit("OK");
    reveal_strlit("Cancelled");
    reveal_strlit("Unknown");
    reveal_strlit("InvalidArgument");
    reveal_strlit("DeadlineExceeded");
    reveal_strlit("NotFound");
    reveal_strlit("AlreadyExists");
    reveal_strlit("PermissionDenied");
    reveal_strlit("ResourceExhausted");
    reveal_strlit("FailedPrecondition");
    reveal_strlit("Aborted");
    reveal_strlit("OutOfRange");
    reveal_strlit("Unimplemented");
    reveal_strlit("Internal");
    reveal_strlit("Unavailable");
    reveal_strlit("DataLoss");
    reveal_strlit("Unauthenticated");
    if a <= 16 && b <= 16 && a != b && grpc_code_name(a) == grpc_code_name(b) {
        let x = grpc_code_name(a)->0;
        let y = grpc_code_name(b)->0;
        assert(x.len() == y.len());
        assert(x[0] == y[0]);
        assert(false);
    }
    if a <= 16 && a != 0 {
        let x = grpc_code_name(a)->0;
        assert(x.len() != 2 || x[0] != 'O');
    }
}

/// A run that ended with a gRPC code is counted under a label of that code
/// alone: two different codes, named or not, never share a status label.
pub proof fn lemma_status_labels_tell_codes_apart(a: u32, b: u32, pa: bool, pb: bool)
    ensures
        status_label(Some(a), pa) == status_label(Some(b), pb) ==> a == b,
{
    reveal_strlit("OK");
    reveal_strlit("Cancelled");
    reveal_strlit("Unknown");
    reveal_strlit("InvalidArgument");
    reveal_strlit("DeadlineExceeded");
    reveal_strlit("NotFound");
    reveal_strlit("AlreadyExists");
    reveal_strlit("PermissionDenied");
    reveal_strlit("ResourceExhausted");
    reveal_strlit("FailedPrecondition");
    reveal_strlit("Aborted");
    reveal_strlit("OutOfRange");
    reveal_strlit("Unimplemented");
    reveal_strlit("Internal");
    reveal_strlit("Unavailable");
    reveal_strlit("DataLoss");
    reveal_strlit("Unauthenticated");
    reveal_strlit("CODE_");
    lemma_code_names_are_distinct(a, b);
    if status_label(Some(a), pa) == status_label(Some(b), pb) {
        let la = status_label(Some(a), pa);
        match (grpc_code_name(a), grpc_code_name(b)) {
            (Some(x), Some(y)) => {},
            (None, None) => {
                assert(la.skip(5) =~= decimal(a as nat));
                assert(status_label(Some(b), pb).skip(5) =~= decimal(b as nat));
                crate::commands::docs::lemma_decimal_injective(a as nat, b as nat);
            },
            (Some(x), None) => {
                assert(x.len() >= 2);
                assert(x[0] != 'C' || x[1] != 'O');
                assert(la[0] == 'C' && la[1] == 'O');
            },
            (None, Some(y)) => {
                assert(y.len() >= 2);
                assert(y[0] != 'C' || y[1] != 'O');
                assert(la[0] == 'C' && la[1] == 'O');
            },
        }
    }
}

pub fn grpc_code_name_of(code: u32) -> (n: Option<&'static str>)
    ensures
        match n {
            Some(s) => grpc_code_name(code) == Some(s@),
            None => grpc_code_name(code) is None,
        },
{
    match code {
        0 => Some("OK"),
        1 => Some("Cancelled"),
        2 => Some("Unknown"),
        3 => Some("InvalidArgument"),
        4 => Some("DeadlineExceeded"),
        5 => Some("NotFound"),
        6 => Some("AlreadyExists"),
        7 => Some("PermissionDenied"),
        8 => Some("ResourceExhausted"),
        9 => Some("FailedPrecondition"),
        10 => Some("Aborted"),
        11 => Some("OutOfRange"),
        12 => Some("Unimplemented"),
        13 => Some("Internal"),
        14 => Some("Unavailable"),
        15 => Some("DataLoss"),
        16 => Some("Unauthenticated"),
        _ => None,
    }
}

/// The status bucket of a run: its gRPC code's name (`CODE_<n>` for a code
/// without one), or without a code, `OK`/`ERROR` by the run's verdict.
pub open spec fn status_label(grpc_status: Option<u32>, passed: bool) -> Seq<char> {
    match grpc_status {
        Some(code) => match grpc_code_name(code) {
            Some(n) => n,
            None => "CODE_"@ + decimal(code as nat),
        },
        None => if passed {
            "OK"@
        } else {
            "ERROR"@
        },
    }
}

pub fn grpc_status_label(grpc_status: Option<u32>, passed: bool) -> (s: String)
    ensures
        s@ == status_label(grpc_status, passed),
{
    let out = match grpc_status {
        Some(code) => match grpc_code_name_of(code) {
            Some(n) => chars_of(n),
            None => {
                let mut v = chars_of("CODE_");
                push_all(&mut v, &decimal_chars(code as u64));
                v
            },
        },
        None => if passed {
            chars_of("OK")
        } else {
            chars_of("ERROR")
        },
    };
    string_from_chars(out.as_slice())
}

} // verus!

verus! {

/// The sum of the endpoints' request counts.
pub open spec fn endpoint_sum(s: Seq<(String, PerEndpointData)>) -> int
    decreases s.len(),
{
    if s.len() == 0 {
        0
    } else {
        endpoint_sum(s.drop_last()) + s.last().1.count
    }
}

proof fn lemma_endpoint_sum_update(s: Seq<(String, PerEndpointData)>, i: int, x: (String, PerEndpointData))
    requires
        0 <= i < s.len(),
    ensures
        endpoint_sum(s.update(i, x)) == endpoint_sum(s) - s[i].1.count + x.1.count,
    decreases s.len(),
{
    let t = s.update(i, x);
    if i == s.len() - 1 {
        assert(t.drop_last() =~= s.drop_last());
    } else {
        lemma_endpoint_sum_update(s.drop_last(), i, x);
        assert(t.drop_last() =~= s.drop_last().update(i, x));
    }
}

/// The sum of the counts.
pub open spec fn counter_sum(s: Seq<(String, u64)>) -> int
    decreases s.len(),
{
    if s.len() == 0 {
        0
    } else {
        counter_sum(s.drop_last()) + s.last().1
    }
}

proof fn lemma_counter_sum_update(s: Seq<(String, u64)>, i: int, x: (String, u64))
    requires
        0 <= i < s.len(),
    ensures
        counter_sum(s.update(i, x)) == counter_sum(s) - s[i].1 + x.1,
    decreases s.len(),
{
    let t = s.update(i, x);
    if i == s.len() - 1 {
        assert(t.drop_last() =~= s.drop_last());
    } else {
        lemma_counter_sum_update(s.drop_last(), i, x);
        assert(t.drop_last() =~= s.drop_last().update(i, x));
    }
}

/// Counts keyed by label; labels keep the order they first came in.
#[derive(Debug)]
pub struct Counters {
    pub entries: Vec<(String, u64)>,
}

impl Counters {
    pub open spec fn wf(&self) -> bool {
        keys_distinct(self.entries@)
    }

    /// The count under `key`, absent counting as zero.
    pub open spec fn count(&self, key: Seq<char>) -> nat {
        match value_in(self.entries@, key) {
            Some(n) => n as nat,
            None => 0,
        }
    }

    /// No count exceeds `n`.
    pub open spec fn bounded_by(&self, n: nat) -> bool {
        forall|i: int| 0 <= i < self.entries@.len() ==> (#[trigger] self.entries@[i]).1 <= n
    }

    pub fn new() -> (c: Counters)
        ensures
            c.wf(),
            c.entries@.len() == 0,
    {
        Counters { entries: Vec::new() }
    }

    /// The count under `key`, if the label was ever counted.
    pub fn get(&self, key: &str) -> (r: Option<u64>)
        requires
            self.wf(),
        ensures
            r == value_in(self.entries@, key@),
    {
        match find_key(&self.entries, key) {
            Some(i) => {
                proof {
                    lemma_value_at(self.entries@, i as int);
                }
                Some(self.entries[i].1)
            },
            None => {
                proof {
                    lemma_value_absent(self.entries@, key@);
                }
                None
            },
        }
    }

    /// Count one more under `key`, creating the label at one when it is new.
    pub fn bump(&mut self, key: &str)
        requires
            old(self).wf(),
            old(self).count(key@) < u64::MAX,
        ensures
            final(self).wf(),
            forall|k: Seq<char>|
                #![trigger value_in(final(self).entries@, k)]
                value_in(final(self).entries@, k) == if k == key@ {
                    Some((old(self).count(key@) + 1) as u64)
                } else {
                    value_in(old(self).entries@, k)
                },
            counter_sum(final(self).entries@) == counter_sum(old(self).entries@) + 1,
    {
        self.add(key, 1);
    }

    /// Add `amount` under `key`, creating the label when it is new.
    pub fn add(&mut self, key: &str, amount: u64)
        requires
            old(self).wf(),
            old(self).count(key@) + amount <= u64::MAX,
        ensures
            final(self).wf(),
            forall|k: Seq<char>|
                #![trigger value_in(final(self).entries@, k)]
                value_in(final(self).entries@, k) == if k == key@ {
                    Some((old(self).count(key@) + amount) as u64)
                } else {
                    value_in(old(self).entries@, k)
                },
            forall|n: nat, m: nat|
                #![trigger old(self).bounded_by(n), final(self).bounded_by(m)]
                old(self).bounded_by(n) && n + amount <= m ==> final(self).bounded_by(m),
            counter_sum(final(self).entries@) == counter_sum(old(self).entries@) + amount,
    {
        let ghost s = self.entries@;
        match find_key(&self.entries, key) {
            Some(i) => {
                proof {
                    lemma_value_at(s, i as int);
                }
                let name = self.entries[i].0.clone();
                let v = self.entries[i].1;
                self.entries.set(i, (name, v + amount));
                proof {
                    assert forall|k: Seq<char>| #![trigger value_in(self.entries@, k)]
                        value_in(self.entries@, k) == if k == key@ {
                            Some((old(self).count(key@) + amount) as u64)
                        } else {
                            value_in(s, k)
                        } by {
                        lemma_value_update(s, i as int, (name, (v + amount) as u64), k);
                    }
                    lemma_value_update(s, i as int, (name, (v + amount) as u64), key@);
                    lemma_counter_sum_update(s, i as int, (name, (v + amount) as u64));
                    assert(self.entries@ == s.update(i as int, (name, (v + amount) as u64)));
                }
            },
            None => {
                proof {
                    lemma_value_absent(s, key@);
                }
                let name = string_from_chars(chars_of(key).as_slice());
                self.entries.push((name, amount));
                proof {
                    assert(self.entries@.drop_last() =~= s);
                    assert forall|a: int, b: int|
                        0 <= a < b < self.entries@.len() implies #[trigger] self.entries@[a].0@
                        != #[trigger] self.entries@[b].0@ by {
                        if b == s.len() {
                            assert(s[a].0@ != key@);
                        } else {
                            assert(s[a].0@ != s[b].0@);
                        }
                    }
                }
            },
        }
    }
}

} // verus!

verus! {

// ---------------------------------------------------------------------------
// The per-run metrics accumulator

/// Cap on the number of per-response details kept for the report.
pub const MAX_LATENCY_SAMPLES: usize = 100000;

/// Milliseconds since the Unix epoch, read from `std::time::SystemTime::now()`
/// (0 for a clock set before the epoch). Nothing is promised of the reading.
#[verifier::external_body]
fn now_millis() -> (t: u64) {
    std::time::SystemTime::now().duration_since(std::time::UNIX_EPOCH).map_or(
        0,
        |d| d.as_millis() as u64,
    )
}

/// One response, as kept for the per-response report.
#[derive(Debug)]
pub struct BenchDetail {
    pub timestamp_ms: u64,
    pub latency_ns: u64,
    pub status: String,
    pub error: Option<String>,
}

/// Counts and latencies of one endpoint.
#[derive(Debug)]
pub struct PerEndpointData {
    pub count: u64,
    pub errors: u64,
    pub latency: LatencyHistogram,
}

impl PerEndpointData {
    pub open spec fn wf(&self) -> bool {
        &&& self.latency.wf()
        &&& self.errors <= self.count
        &&& self.latency.total <= self.count
    }
}

/// The endpoint's counts and histogram, zero when it was not seen yet.
pub open spec fn endpoint_state(d: Option<PerEndpointData>) -> (nat, nat, HistView) {
    match d {
        Some(e) => (e.count as nat, e.errors as nat, e.latency@),
        None => (0, 0, hist_empty()),
    }
}

/// A status that counts as OK: `OK`, or none at all.
pub open spec fn ok_status(status: Seq<char>) -> bool {
    status == "OK"@ || status.len() == 0
}

/// The label a status is counted under.
pub open spec fn status_key(status: Seq<char>) -> Seq<char> {
    if status.len() == 0 {
        "OK"@
    } else {
        status
    }
}

/// Whether the `counter`-th request is a latency sample under `stride`:
/// a stride of `u64::MAX` samples nothing, 0 or 1 everything, `n` every n-th
/// request starting with the first.
pub open spec fn sampled(stride: u64, counter: nat) -> bool {
    stride != u64::MAX && (stride <= 1 || counter % (stride as nat) == 1)
}

#[derive(Debug)]
pub struct BenchMetrics {
    pub count: u64,
    pub ok: u64,
    pub errors: u64,
    /// Requests whose document verdict was a pass, and those whose was not
    /// (`ok`/`errors` follow the transport status).
    pub passed: u64,
    pub failed: u64,
    pub total_ns: u64,
    pub fastest_ns: u64,
    pub slowest_ns: u64,
    pub grpc_status: Counters,
    pub error_dist: Counters,
    pub latency: LatencyHistogram,
    pub per_endpoint: Vec<(String, PerEndpointData)>,
    pub details: Vec<BenchDetail>,
    pub collect_details: bool,
    /// Whether error responses enter the latency distribution.
    pub count_errors_in_latency: bool,
    /// Record one latency sample every `sample_stride` requests.
    pub sample_stride: u64,
    pub sample_counter: u64,
    /// Sampled latencies still to hold out of the overall distribution.
    pub skip_first_remaining: u32,
}

impl BenchMetrics {
    /// The accumulator's invariant: consistent counts that bound every counter.
    pub open spec fn wf(&self) -> bool {
        &&& self.latency.wf()
        &&& self.grpc_status.wf()
        &&& self.error_dist.wf()
        &&& keys_distinct(self.per_endpoint@)
        &&& forall|i: int|
            0 <= i < self.per_endpoint@.len() ==> (#[trigger] self.per_endpoint@[i]).1.wf()
                && self.per_endpoint@[i].1.count <= self.count
        &&& self.ok + self.errors == self.count
        &&& self.passed + self.failed == self.count
        &&& self.latency.total <= self.count
        &&& self.grpc_status.bounded_by(self.count as nat)
        &&& self.error_dist.bounded_by(self.count as nat)
        &&& self.sample_counter <= self.count
        &&& self.details@.len() <= MAX_LATENCY_SAMPLES
    }

    pub open spec fn endpoint_view(&self, name: Seq<char>) -> Option<PerEndpointData> {
        value_in(self.per_endpoint@, name)
    }

    /// An empty accumulator: nothing counted, every latency sampled, error
    /// latencies left out, no details kept.
    pub fn new() -> (m: BenchMetrics)
        ensures
            m.wf(),
            m.count == 0 && m.ok == 0 && m.errors == 0 && m.passed == 0 && m.failed == 0,
            m.total_ns == 0 && m.fastest_ns == 0 && m.slowest_ns == 0,
            m.grpc_status.entries@.len() == 0,
            m.error_dist.entries@.len() == 0,
            m.latency@ == hist_empty(),
            m.per_endpoint@.len() == 0,
            m.details@.len() == 0,
            !m.collect_details && !m.count_errors_in_latency,
            m.sample_stride == 0 && m.sample_counter == 0 && m.skip_first_remaining == 0,
    {
        BenchMetrics {
            count: 0,
            ok: 0,
            errors: 0,
            passed: 0,
            failed: 0,
            total_ns: 0,
            fastest_ns: 0,
            slowest_ns: 0,
            grpc_status: Counters::new(),
            error_dist: Counters::new(),
            latency: LatencyHistogram::new(),
            per_endpoint: Vec::new(),
            details: Vec::new(),
            collect_details: false,
            count_errors_in_latency: false,
            sample_stride: 0,
            sample_counter: 0,
            skip_first_remaining: 0,
        }
    }

    /// An empty accumulator whose status distribution lists `OK` and `ERROR`
    /// from the start.
    pub fn with_capacity(_hint: usize) -> (m: BenchMetrics)
        ensures
            m.wf(),
            m.count == 0 && m.total_ns == 0 && m.fastest_ns == 0 && m.slowest_ns == 0,
            value_in(m.grpc_status.entries@, "OK"@) == Some(0u64),
            value_in(m.grpc_status.entries@, "ERROR"@) == Some(0u64),
            m.error_dist.entries@.len() == 0,
            m.latency@ == hist_empty(),
            m.per_endpoint@.len() == 0,
            m.details@.len() == 0,
            !m.collect_details && !m.count_errors_in_latency,
            m.sample_stride == 0 && m.sample_counter == 0 && m.skip_first_remaining == 0,
    {
        let mut m = BenchMetrics::new();
        proof {
            reveal_strlit("OK");
            reveal_strlit("ERROR");
        }
        assert(m.grpc_status.bounded_by(0));
        m.grpc_status.add("OK", 0);
        assert(m.grpc_status.bounded_by(0));
        m.grpc_status.add("ERROR", 0);
        assert(m.grpc_status.bounded_by(0));
        m
    }

    /// A worker's accumulator, set up with the run's latency-sampling options.
    pub fn for_worker(
        hint: usize,
        count_errors_in_latency: bool,
        sample_stride: u64,
        skip_first: u32,
        collect_details: bool,
    ) -> (m: BenchMetrics)
        ensures
            m.wf(),
            m.count == 0 && m.total_ns == 0,
            value_in(m.grpc_status.entries@, "OK"@) == Some(0u64),
            value_in(m.grpc_status.entries@, "ERROR"@) == Some(0u64),
            m.latency@ == hist_empty(),
            m.details@.len() == 0,
            m.count_errors_in_latency == count_errors_in_latency,
            m.sample_stride == sample_stride,
            m.sample_counter == 0,
            m.skip_first_remaining == skip_first,
            m.collect_details == collect_details,
    {
        let mut m = BenchMetrics::with_capacity(hint);
        m.count_errors_in_latency = count_errors_in_latency;
        m.sample_stride = sample_stride;
        m.skip_first_remaining = skip_first;
        m.collect_details = collect_details;
        m
    }

    /// The counts of one endpoint, if it was seen.
    pub fn endpoint(&self, name: &str) -> (r: Option<&PerEndpointData>)
        requires
            self.wf(),
        ensures
            match r {
                Some(d) => self.endpoint_view(name@) == Some(*d),
                None => self.endpoint_view(name@) is None,
            },
    {
        match find_key(&self.per_endpoint, name) {
            Some(i) => {
                proof {
                    lemma_value_at(self.per_endpoint@, i as int);
                }
                Some(&self.per_endpoint[i].1)
            },
            None => {
                proof {
                    lemma_value_absent(self.per_endpoint@, name@);
                }
                None
            },
        }
    }
}

} // verus!

verus! {

proof fn lemma_count_bounded(c: Counters, key: Seq<char>, n: nat)
    requires
        c.bounded_by(n),
    ensures
        c.count(key) <= n,
{
    lemma_value_is_entry(c.entries@, key);
}

/// What recording one response does to the accumulator: the counters and
/// labels move by one, the response's latency reaches the histograms it is
/// sampled into, and the detail list grows while below its cap.
pub open spec fn recorded_once(
    before: BenchMetrics,
    after: BenchMetrics,
    latency_ns: u64,
    status: Seq<char>,
    error: Option<Seq<char>>,
    endpoint: Seq<char>,
    passed: bool,
) -> bool {
    &&& after.count == before.count + 1
    &&& after.ok == before.ok + if ok_status(status) {
        1int
    } else {
        0int
    }
    &&& after.errors == before.errors + if ok_status(status) {
        0int
    } else {
        1int
    }
    &&& after.passed == before.passed + if passed {
        1int
    } else {
        0int
    }
    &&& after.failed == before.failed + if passed {
        0int
    } else {
        1int
    }
    &&& forall|k: Seq<char>|
        #![trigger value_in(after.grpc_status.entries@, k)]
        value_in(after.grpc_status.entries@, k) == if k == status_key(status) {
            Some((before.grpc_status.count(k) + 1) as u64)
        } else {
            value_in(before.grpc_status.entries@, k)
        }
    &&& forall|k: Seq<char>|
        #![trigger value_in(after.error_dist.entries@, k)]
        value_in(after.error_dist.entries@, k) == match error {
            Some(e) => if k == error_category(e) {
                Some((before.error_dist.count(k) + 1) as u64)
            } else {
                value_in(before.error_dist.entries@, k)
            },
            None => value_in(before.error_dist.entries@, k),
        }
    &&& counter_sum(after.grpc_status.entries@) == counter_sum(before.grpc_status.entries@) + 1
    &&& endpoint_sum(after.per_endpoint@) == endpoint_sum(before.per_endpoint@) + 1
    &&& after.sample_counter == before.sample_counter + 1
    &&& ({
        let contributes = sampled(before.sample_stride, (before.sample_counter + 1) as nat) && (
        passed || before.count_errors_in_latency);
        let (c0, e0, h0) = endpoint_state(before.endpoint_view(endpoint));
        &&& after.endpoint_view(endpoint) matches Some(d) && d.count == c0 + 1
            && d.errors == e0 + (if ok_status(status) {
            0int
        } else {
            1int
        }) && d.latency@ == (if contributes {
            hist_record(h0, latency_ns)
        } else {
            h0
        })
        &&& if contributes && before.skip_first_remaining > 0 {
            after.skip_first_remaining == before.skip_first_remaining - 1
                && after.latency@ == before.latency@
        } else if contributes {
            after.skip_first_remaining == before.skip_first_remaining
                && after.latency@ == hist_record(before.latency@, latency_ns)
        } else {
            after.skip_first_remaining == before.skip_first_remaining
                && after.latency@ == before.latency@
        }
    })
    &&& forall|k: Seq<char>|
        k != endpoint ==> #[trigger] after.endpoint_view(k) == before.endpoint_view(k)
    &&& after.total_ns == before.total_ns + latency_ns
    &&& after.fastest_ns == if before.fastest_ns == 0 || latency_ns
        < before.fastest_ns {
        latency_ns
    } else {
        before.fastest_ns
    }
    &&& after.slowest_ns == if latency_ns > before.slowest_ns {
        latency_ns
    } else {
        before.slowest_ns
    }
    &&& if before.collect_details && before.details@.len() < MAX_LATENCY_SAMPLES {
        &&& after.details@.len() == before.details@.len() + 1
        &&& after.details@.drop_last() == before.details@
        &&& after.details@.last().latency_ns == latency_ns
        &&& after.details@.last().status@ == status
        &&& match error {
            Some(e) => after.details@.last().error matches Some(x) && x@ == e,
            None => after.details@.last().error is None,
        }
    } else {
        after.details@ == before.details@
    }
    &&& after.collect_details == before.collect_details
    &&& after.count_errors_in_latency == before.count_errors_in_latency
    &&& after.sample_stride == before.sample_stride
}

/// Every recorded response is counted once as OK or as an error, once as
/// passed or failed, once under its status and once under its endpoint: recording keeps these tallies
/// equal to the count, the overall latency distribution and the kept details
/// no larger than it, and the details within their cap.
pub proof fn lemma_record_keeps_tallies(
    before: BenchMetrics,
    after: BenchMetrics,
    latency_ns: u64,
    status: Seq<char>,
    error: Option<Seq<char>>,
    endpoint: Seq<char>,
    passed: bool,
)
    requires
        recorded_once(before, after, latency_ns, status, error, endpoint, passed),
        before.ok + before.errors == before.count,
        before.passed + before.failed == before.count,
        counter_sum(before.grpc_status.entries@) == before.count,
        endpoint_sum(before.per_endpoint@) == before.count,
        before.latency@.total <= before.count,
        before.details@.len() <= before.count,
        before.details@.len() <= MAX_LATENCY_SAMPLES,
    ensures
        after.ok + after.errors == after.count,
        after.passed + after.failed == after.count,
        counter_sum(after.grpc_status.entries@) == after.count,
        endpoint_sum(after.per_endpoint@) == after.count,
        after.latency@.total <= after.count,
        after.details@.len() <= after.count,
        after.details@.len() <= MAX_LATENCY_SAMPLES,
{
}

/// The text of an optional string slice.
pub open spec fn opt_str_view(o: Option<&str>) -> Option<Seq<char>> {
    match o {
        Some(s) => Some(s@),
        None => None,
    }
}

impl BenchMetrics {
    /// Count one response: `latency_ns` from arrival to completion, its gRPC
    /// `status` (empty meaning OK), its error message, its endpoint and whether
    /// it satisfied its document. Throughput and timing counters see every
    /// response; the latency distributions see the sampled ones, error
    /// responses only when `count_errors_in_latency` is set, and the overall
    /// distribution holds out the first `skip_first_remaining` of them.
    #[verifier::rlimit(60)]
    #[verifier::spinoff_prover]
    pub fn record(
        &mut self,
        latency_ns: u64,
        status: &str,
        error: Option<&str>,
        endpoint: &str,
        passed: bool,
    )
        requires
            old(self).wf(),
            old(self).count < u64::MAX,
            old(self).total_ns + latency_ns <= u64::MAX,
        ensures
            final(self).wf(),
            recorded_once(*old(self), *final(self), latency_ns, status@, opt_str_view(error), endpoint@, passed),
    {
        let ghost n0 = self.count as nat;
        self.count = self.count + 1;
        let is_ok = crate::text::str_eq(status, "OK") || status.is_empty();
        proof {
            reveal_strlit("OK");
        }
        if is_ok {
            self.ok = self.ok + 1;
        } else {
            self.errors = self.errors + 1;
        }
        if passed {
            self.passed = self.passed + 1;
        } else {
            self.failed = self.failed + 1;
        }
        let status_label: &str = if status.is_empty() {
            "OK"
        } else {
            status
        };
        proof {
            lemma_count_bounded(self.grpc_status, status_label@, n0);
        }
        assert(self.grpc_status.bounded_by(n0));
        self.grpc_status.add(status_label, 1);
        assert(self.grpc_status.bounded_by(n0 + 1));
        match error {
            Some(e) => {
                let cat = categorize_error(e);
                proof {
                    lemma_count_bounded(self.error_dist, cat@, n0);
                }
                assert(self.error_dist.bounded_by(n0));
                self.error_dist.add(cat, 1);
                assert(self.error_dist.bounded_by(n0 + 1));
            },
            None => {},
        }
        self.sample_counter = self.sample_counter + 1;
        let is_sampled = if self.sample_stride == u64::MAX {
            false
        } else {
            self.sample_stride <= 1 || self.sample_counter % self.sample_stride == 1
        };
        let contributes = is_sampled && (passed || self.count_errors_in_latency);
        let ghost pre = *self;
        self.record_endpoint(latency_ns, endpoint, is_ok, contributes, Ghost(n0));
        let ghost mid = *self;
        assert forall|k: Seq<char>| k != endpoint@ implies #[trigger] mid.endpoint_view(k)
            == old(self).endpoint_view(k) by {
            assert(pre.per_endpoint@ == old(self).per_endpoint@);
            assert(mid.endpoint_view(k) == pre.endpoint_view(k));
        }
        self.total_ns = self.total_ns + latency_ns;
        if self.fastest_ns == 0 || latency_ns < self.fastest_ns {
            self.fastest_ns = latency_ns;
        }
        if latency_ns > self.slowest_ns {
            self.slowest_ns = latency_ns;
        }
        if contributes {
            if self.skip_first_remaining > 0 {
                self.skip_first_remaining = self.skip_first_remaining - 1;
            } else {
                self.latency.record(latency_ns);
            }
        }
        assert(self.per_endpoint@ == mid.per_endpoint@);
        if self.collect_details && self.details.len() < MAX_LATENCY_SAMPLES {
            let detail = BenchDetail {
                timestamp_ms: now_millis(),
                latency_ns,
                status: string_from_chars(chars_of(status).as_slice()),
                error: match error {
                    Some(e) => Some(string_from_chars(chars_of(e).as_slice())),
                    None => None,
                },
            };
            let ghost d0 = self.details@;
            self.details.push(detail);
            assert(self.details@.drop_last() =~= d0);
        }
        assert forall|k: Seq<char>| k != endpoint@ implies #[trigger] self.endpoint_view(k)
            == old(self).endpoint_view(k) by {
            assert(mid.endpoint_view(k) == old(self).endpoint_view(k));
        }
    }

    /// The endpoint part of `record`.
    #[verifier::rlimit(30)]
    fn record_endpoint(
        &mut self,
        latency_ns: u64,
        endpoint: &str,
        is_ok: bool,
        contributes: bool,
        Ghost(n0): Ghost<nat>,
    )
        requires
            keys_distinct(old(self).per_endpoint@),
            forall|i: int|
                0 <= i < old(self).per_endpoint@.len() ==> (#[trigger] old(self).per_endpoint@[i]).1.wf() && old(self).per_endpoint@[i].1.count <= n0,
            n0 < u64::MAX,
        ensures
            keys_distinct(final(self).per_endpoint@),
            forall|i: int|
                0 <= i < final(self).per_endpoint@.len() ==> (#[trigger] final(self).per_endpoint@[i]).1.wf() && final(self).per_endpoint@[i].1.count <= n0 + 1,
            ({
                let (c0, e0, h0) = endpoint_state(old(self).endpoint_view(endpoint@));
                final(self).endpoint_view(endpoint@) matches Some(d) && d.count == c0 + 1
                    && d.errors == e0 + (if is_ok {
                    0int
                } else {
                    1int
                }) && d.latency@ == (if contributes {
                    hist_record(h0, latency_ns)
                } else {
                    h0
                })
            }),
            forall|k: Seq<char>|
                k != endpoint@ ==> #[trigger] final(self).endpoint_view(k) == old(self).endpoint_view(k),
            endpoint_sum(final(self).per_endpoint@) == endpoint_sum(old(self).per_endpoint@) + 1,
            final(self).count == old(self).count,
            final(self).ok == old(self).ok,
            final(self).errors == old(self).errors,
            final(self).passed == old(self).passed,
            final(self).failed == old(self).failed,
            final(self).total_ns == old(self).total_ns,
            final(self).fastest_ns == old(self).fastest_ns,
            final(self).slowest_ns == old(self).slowest_ns,
            final(self).grpc_status == old(self).grpc_status,
            final(self).error_dist == old(self).error_dist,
            final(self).latency == old(self).latency,
            final(self).details == old(self).details,
            final(self).collect_details == old(self).collect_details,
            final(self).count_errors_in_latency == old(self).count_errors_in_latency,
            final(self).sample_stride == old(self).sample_stride,
            final(self).sample_counter == old(self).sample_counter,
            final(self).skip_first_remaining == old(self).skip_first_remaining,
    {
        let ghost s = self.per_endpoint@;
        match find_key(&self.per_endpoint, endpoint) {
            Some(i) => {
                proof {
                    lemma_value_at(s, i as int);
                }
                let (name, mut data) = self.per_endpoint.remove(i);
                assert(data == s[i as int].1);
                data.count = data.count + 1;
                if !is_ok {
                    data.errors = data.errors + 1;
                }
                if contributes {
                    data.latency.record(latency_ns);
                }
                let ghost entry = (name, data);
                self.per_endpoint.insert(i, (name, data));
                proof {
                    assert(self.per_endpoint@ =~= s.update(i as int, entry));
                    lemma_endpoint_sum_update(s, i as int, entry);
                    assert forall|k: Seq<char>| k != endpoint@ implies #[trigger] value_in(
                        self.per_endpoint@,
                        k,
                    ) == value_in(s, k) by {
                        lemma_value_update(s, i as int, entry, k);
                    }
                    lemma_value_update(s, i as int, entry, endpoint@);
                    assert forall|j: int| 0 <= j < self.per_endpoint@.len() implies (
                    #[trigger] self.per_endpoint@[j]).1.wf() && self.per_endpoint@[j].1.count
                        <= n0 + 1 by {
                        if j != i {
                            assert(self.per_endpoint@[j] == s[j]);
                        }
                    }
                }
            },
            None => {
                proof {
                    lemma_value_absent(s, endpoint@);
                }
                let mut data = PerEndpointData {
                    count: 1,
                    errors: if is_ok {
                        0
                    } else {
                        1
                    },
                    latency: LatencyHistogram::new(),
                };
                if contributes {
                    data.latency.record(latency_ns);
                }
                let name = string_from_chars(chars_of(endpoint).as_slice());
                let ghost entry = (name, data);
                self.per_endpoint.push((name, data));
                proof {
                    assert(self.per_endpoint@.drop_last() =~= s);
                    assert forall|a: int, b: int|
                        0 <= a < b < self.per_endpoint@.len() implies #[trigger] self.per_endpoint@[a].0@
                        != #[trigger] self.per_endpoint@[b].0@ by {
                        if b == s.len() {
                            assert(s[a].0@ != endpoint@);
                        } else {
                            assert(s[a].0@ != s[b].0@);
                        }
                    }
                    assert forall|j: int| 0 <= j < self.per_endpoint@.len() implies (
                    #[trigger] self.per_endpoint@[j]).1.wf() && self.per_endpoint@[j].1.count
                        <= n0 + 1 by {
                        if j < s.len() {
                            assert(self.per_endpoint@[j] == s[j]);
                        }
                    }
                }
            },
        }
    }
}

} // verus!

verus! {

impl Default for LatencyHistogram {
    fn default() -> (h: LatencyHistogram)
        ensures
            h.wf(),
            h@ == hist_empty(),
    {
        LatencyHistogram::new()
    }
}

impl Default for BenchMetrics {
    fn default() -> (m: BenchMetrics)
        ensures
            m.wf(),
            m.count == 0 && m.ok == 0 && m.errors == 0 && m.passed == 0 && m.failed == 0,
            m.total_ns == 0 && m.fastest_ns == 0 && m.slowest_ns == 0,
            m.grpc_status.entries@.len() == 0,
            m.error_dist.entries@.len() == 0,
            m.latency@ == hist_empty(),
            m.per_endpoint@.len() == 0,
            m.details@.len() == 0,
            !m.collect_details && !m.count_errors_in_latency,
            m.sample_stride == 0 && m.sample_counter == 0 && m.skip_first_remaining == 0,
    {
        BenchMetrics::new()
    }
}

// ---------------------------------------------------------------------------
// Option values

/// The value of a run of decimal digits.
pub open spec fn digits_value(s: Seq<char>) -> nat
    decreases s.len(),
{
    if s.len() == 0 {
        0
    } else {
        digits_value(s.drop_last()) * 10 + (s.last() as nat - '0' as nat) as nat
    }
}

pub open spec fn all_digits(s: Seq<char>) -> bool {
    forall|i: int| 0 <= i < s.len() ==> '0' <= #[trigger] s[i] <= '9'
}

/// `u64`'s `FromStr`: an optional `+`, then one or more decimal digits whose
/// value fits.
pub open spec fn parsed_u64(s: Seq<char>) -> Option<u64> {
    let d = if s.len() > 0 && s[0] == '+' {
        s.drop_first()
    } else {
        s
    };
    if d.len() > 0 && all_digits(d) && digits_value(d) <= u64::MAX {
        Some(digits_value(d) as u64)
    } else {
        None
    }
}

/// What one open-model arrival produced. Returned from the task that ran it
/// rather than recorded there, so the driver stays the single writer of the
/// metrics.
pub struct ArrivalOutcome {
    pub lat_ns: u64,
    pub status: String,
    pub error: Option<String>,
    pub endpoint: String,
    pub passed: bool,
}

/// The text of an optional string.
pub open spec fn opt_string_view(o: Option<String>) -> Option<Seq<char>> {
    match o {
        Some(s) => Some(s@),
        None => None,
    }
}

/// Record a finished arrival; a task that produced nothing (it was cancelled
/// or panicked) leaves the metrics untouched.
pub fn record_arrival(metrics: &mut BenchMetrics, outcome: Option<ArrivalOutcome>)
    requires
        old(metrics).wf(),
        outcome matches Some(o) ==> old(metrics).count < u64::MAX && old(metrics).total_ns
            + o.lat_ns <= u64::MAX,
    ensures
        final(metrics).wf(),
        match outcome {
            Some(o) => recorded_once(
                *old(metrics),
                *final(metrics),
                o.lat_ns,
                o.status@,
                opt_string_view(o.error),
                o.endpoint@,
                o.passed,
            ),
            None => *final(metrics) == *old(metrics),
        },
{
    if let Some(o) = outcome {
        let error: Option<&str> = match &o.error {
            Some(e) => Some(e.as_str()),
            None => None,
        };
        metrics.record(o.lat_ns, o.status.as_str(), error, o.endpoint.as_str(), o.passed);
    }
}

proof fn lemma_digits_value_grows(s: Seq<char>, k: int)
    requires
        0 <= k <= s.len(),
        all_digits(s),
    ensures
        digits_value(s.take(k)) <= digits_value(s),
    decreases s.len() - k,
{
    if k < s.len() {
        lemma_digits_value_grows(s, k + 1);
        assert(s.take(k + 1).drop_last() =~= s.take(k));
    } else {
        assert(s.take(k) =~= s);
    }
}

/// `s.parse::<u64>().ok()`.
pub fn parse_u64(s: &Vec<char>) -> (r: Option<u64>)
    ensures
        r == parsed_u64(s@),
{
    let start: usize = if s.len() > 0 && s[0] == '+' {
        1
    } else {
        0
    };
    let ghost d = if s@.len() > 0 && s@[0] == '+' {
        s@.drop_first()
    } else {
        s@
    };
    assert(d =~= s@.skip(start as int));
    if start >= s.len() {
        return None;
    }
    let mut v: u64 = 0;
    let mut i = start;
    while i < s.len()
        invariant
            start <= i <= s.len(),
            d == s@.skip(start as int),
            d == (if s@.len() > 0 && s@[0] == '+' {
                s@.drop_first()
            } else {
                s@
            }),
            v == digits_value(d.take(i - start)),
            forall|j: int| 0 <= j < i - start ==> '0' <= #[trigger] d[j] <= '9',
        decreases s.len() - i,
    {
        let c = s[i];
        assert(d[i - start] == c);
        if !('0' <= c && c <= '9') {
            assert(!all_digits(d));
            assert(parsed_u64(s@) is None);
            return None;
        }
        let digit = (c as u32 - '0' as u32) as u64;
        assert(d.take(i - start + 1).drop_last() =~= d.take(i - start));
        if v > (u64::MAX - digit) / 10 {
            // The value already passes u64::MAX, and digits only make it larger.
            proof {
                assert(v * 10 + digit > u64::MAX) by (nonlinear_arith)
                    requires
                        v > (u64::MAX - digit) / 10,
                        digit <= 9,
                ;
                if all_digits(d) {
                    lemma_digits_value_grows(d, i - start + 1);
                    assert(digits_value(d) > u64::MAX);
                }
                assert(parsed_u64(s@) is None);
            }
            return None;
        }
        assert(v * 10 + digit <= u64::MAX) by (nonlinear_arith)
            requires
                v <= (u64::MAX - digit) / 10,
                digit <= 9,
        ;
        v = v * 10 + digit;
        i = i + 1;
    }
    assert(d.take(i - start) =~= d);
    Some(v)
}

/// A BENCH integer: digit separators (`_`) allowed, `default` when the value
/// is no number.
pub fn parse_bench_num(value: &str, default: u64) -> (n: u64)
    ensures
        n == match parsed_u64(crate::commands::fmt::no_underscores(value@)) {
            Some(x) => x,
            None => default,
        },
{
    let cs = chars_of(value);
    let d = crate::commands::fmt::no_underscores_chars(&cs);
    match parse_u64(&d) {
        Some(x) => x,
        None => default,
    }
}

/// The percentile inside a `p(..)`-style threshold key.
pub open spec fn percentile_key(key: Seq<char>) -> Option<Seq<char>> {
    let inner = if starts_with(key, "p("@) {
        Some(key.skip(2))
    } else if starts_with(key, "latency_ms.p("@) {
        Some(key.skip(13))
    } else if starts_with(key, "latency_ns.p("@) {
        Some(key.skip(13))
    } else {
        None
    };
    match inner {
        Some(s) => if s.len() > 0 && s.last() == ')' {
            Some(s.drop_last())
        } else {
            None
        },
        None => None,
    }
}

pub fn parse_percentile_key(key: &str) -> (r: Option<String>)
    ensures
        match r {
            Some(s) => percentile_key(key@) == Some(s@),
            None => percentile_key(key@) is None,
        },
{
    proof {
        reveal_strlit("p(");
        reveal_strlit("latency_ms.p(");
        reveal_strlit("latency_ns.p(");
    }
    let k = chars_of(key);
    let start: usize = if crate::text::chars_start_with(&k, "p(") {
        2
    } else if crate::text::chars_start_with(&k, "latency_ms.p(") {
        13
    } else if crate::text::chars_start_with(&k, "latency_ns.p(") {
        13
    } else {
        return None;
    };
    let inner = slice_chars(&k, start, k.len());
    assert(inner@ =~= k@.skip(start as int));
    if inner.len() > 0 && inner[inner.len() - 1] == ')' {
        let s = slice_chars(&inner, 0, inner.len() - 1);
        assert(s@ =~= inner@.drop_last());
        Some(string_from_chars(s.as_slice()))
    } else {
        None
    }
}

/// A threshold expression split into its comparison operator (`<=`, `>=`, `<`,
/// `>`, or none) and the trimmed rest.
pub open spec fn threshold_parts(expr: Seq<char>) -> (Seq<char>, Seq<char>) {
    let v = trim_ascii(expr);
    if starts_with(v, "<="@) {
        ("<="@, trim_ascii(v.skip(2)))
    } else if starts_with(v, ">="@) {
        (">="@, trim_ascii(v.skip(2)))
    } else if starts_with(v, "<"@) {
        ("<"@, trim_ascii(v.skip(1)))
    } else if starts_with(v, ">"@) {
        (">"@, trim_ascii(v.skip(1)))
    } else {
        (Seq::empty(), v)
    }
}

pub fn parse_threshold_expr(expr: &str) -> (r: (String, String))
    ensures
        (r.0@, r.1@) == threshold_parts(expr@),
{
    proof {
        reveal_strlit("<=");
        reveal_strlit(">=");
        reveal_strlit("<");
        reveal_strlit(">");
    }
    let e = chars_of(expr);
    let v = crate::text::trim_ascii_chars(&e);
    let (op, skip): (&str, usize) = if crate::text::chars_start_with(&v, "<=") {
        ("<=", 2)
    } else if crate::text::chars_start_with(&v, ">=") {
        (">=", 2)
    } else if crate::text::chars_start_with(&v, "<") {
        ("<", 1)
    } else if crate::text::chars_start_with(&v, ">") {
        (">", 1)
    } else {
        ("", 0)
    };
    if skip == 0 {
        proof {
            reveal_strlit("");
        }
        return (string_from_chars(chars_of("").as_slice()), string_from_chars(v.as_slice()));
    }
    let rest = slice_chars(&v, skip, v.len());
    assert(rest@ =~= v@.skip(skip as int));
    let r = crate::text::trim_ascii_chars(&rest);
    (string_from_chars(chars_of(op).as_slice()), string_from_chars(r.as_slice()))
}

pub open spec fn inverted_op(op: Seq<char>) -> Seq<char> {
    if op == "<"@ {
        ">="@
    } else if op == "<="@ {
        ">"@
    } else if op == ">"@ {
        "<="@
    } else if op == ">="@ {
        "<"@
    } else {
        "!="@
    }
}

/// The comparison that fails when `op` holds.
pub fn invert_op(op: &str) -> (r: &'static str)
    ensures
        r@ == inverted_op(op@),
{
    if crate::text::str_eq(op, "<") {
        ">="
    } else if crate::text::str_eq(op, "<=") {
        ">"
    } else if crate::text::str_eq(op, ">") {
        "<="
    } else if crate::text::str_eq(op, ">=") {
        "<"
    } else {
        "!="
    }
}

/// The non-empty trimmed items of a comma-separated list.
pub open spec fn list_items(ts: Seq<Seq<char>>) -> Seq<Seq<char>>
    decreases ts.len(),
{
    if ts.len() == 0 {
        Seq::empty()
    } else {
        list_items(ts.drop_last()) + if crate::text::trim(ts.last()).len() > 0 {
            seq![crate::text::trim(ts.last())]
        } else {
            Seq::<Seq<char>>::empty()
        }
    }
}

/// `p50, p99,,p99.9` -> `["p50", "p99", "p99.9"]`.
pub fn parse_latency_percentiles(s: &str) -> (out: Vec<String>)
    ensures
        crate::parser::strs(out@) == list_items(crate::parser::split_on(s@, ',')),
{
    let cs = chars_of(s);
    let parts = crate::parser::split_on_exec(&cs, ',');
    let ghost pv = crate::text::views(parts@);
    let mut out: Vec<String> = Vec::new();
    let mut i: usize = 0;
    while i < parts.len()
        invariant
            i <= parts.len(),
            pv == crate::text::views(parts@),
            pv == crate::parser::split_on(s@, ','),
            crate::parser::strs(out@) == list_items(pv.take(i as int)),
        decreases parts.len() - i,
    {
        let t = crate::text::trim_chars(&parts[i]);
        assert(pv.take(i + 1).drop_last() =~= pv.take(i as int));
        if t.len() > 0 {
            let ghost o0 = out@;
            let st = string_from_chars(t.as_slice());
            out.push(st);
            assert(crate::parser::strs(out@) =~= crate::parser::strs(o0).push(t@));
        }
        i = i + 1;
    }
    assert(pv.take(i as int) =~= pv);
    out
}

} // verus!

verus! {

/// Counts under one label from two accumulators, summed.
pub open spec fn combine_counts(x: Option<u64>, y: Option<u64>) -> Option<u64> {
    match (x, y) {
        (None, None) => None,
        (Some(a), None) => Some(a),
        (None, Some(b)) => Some(b),
        (Some(a), Some(b)) => Some((a + b) as u64),
    }
}

/// One endpoint's counts and histogram after merging two accumulators: sums
/// where both saw it, one side's merged into an empty record where only it did.
pub open spec fn combine_endpoints(x: Option<PerEndpointData>, y: Option<PerEndpointData>) -> Option<
    (nat, nat, HistView),
> {
    match (x, y) {
        (None, None) => None,
        (Some(a), None) => Some((a.count as nat, a.errors as nat, a.latency@)),
        (None, Some(b)) => Some((b.count as nat, b.errors as nat, hist_merge(hist_empty(), b.latency@))),
        (Some(a), Some(b)) => Some(
            (
                (a.count + b.count) as nat,
                (a.errors + b.errors) as nat,
                hist_merge(a.latency@, b.latency@),
            ),
        ),
    }
}

proof fn lemma_bounded_from_counts(c: Counters, n: nat)
    requires
        c.wf(),
        forall|k: Seq<char>| #[trigger] c.count(k) <= n,
    ensures
        c.bounded_by(n),
{
    assert forall|i: int| 0 <= i < c.entries@.len() implies (#[trigger] c.entries@[i]).1 <= n by {
        lemma_value_at(c.entries@, i);
        assert(c.count(c.entries@[i].0@) <= n);
    }
}

/// Add every count of `other` into `c`.
fn merge_counters(c: &mut Counters, other: &Counters, Ghost(na): Ghost<nat>, Ghost(nb): Ghost<nat>)
    requires
        old(c).wf(),
        other.wf(),
        old(c).bounded_by(na),
        other.bounded_by(nb),
        na + nb <= u64::MAX,
    ensures
        final(c).wf(),
        final(c).bounded_by(na + nb),
        forall|k: Seq<char>|
            #![trigger value_in(final(c).entries@, k)]
            value_in(final(c).entries@, k) == combine_counts(
                value_in(old(c).entries@, k),
                value_in(other.entries@, k),
            ),
{
    let ghost a = c.entries@;
    let ghost b = other.entries@;
    let mut i: usize = 0;
    assert forall|k: Seq<char>| #![trigger value_in(c.entries@, k)] value_in(c.entries@, k)
        == combine_counts(value_in(a, k), value_in(b.take(0), k)) by {
        assert(b.take(0).len() == 0);
        match value_in(a, k) {
            Some(_) => {},
            None => {},
        }
    }
    while i < other.entries.len()
        invariant
            i <= b.len(),
            b == other.entries@,
            other.wf(),
            other.bounded_by(nb),
            old(c).bounded_by(na),
            a == old(c).entries@,
            keys_distinct(a),
            na + nb <= u64::MAX,
            c.wf(),
            forall|k: Seq<char>|
                #![trigger value_in(c.entries@, k)]
                value_in(c.entries@, k) == combine_counts(value_in(a, k), value_in(b.take(i as int), k)),
        decreases b.len() - i,
    {
        let key = &other.entries[i].0;
        let v = other.entries[i].1;
        let ghost kk = key@;
        proof {
            assert(b.take(i + 1).drop_last() =~= b.take(i as int));
            assert forall|j: int| 0 <= j < b.take(i as int).len() implies (
            #[trigger] b.take(i as int)[j]).0@ != kk by {
                assert(b[j].0@ != b[i as int].0@);
            }
            lemma_value_absent(b.take(i as int), kk);
            lemma_value_is_entry(a, kk);
            assert(value_in(c.entries@, kk) == value_in(a, kk));
            assert(c.count(kk) <= na);
            assert(v <= nb);
        }
        c.add(key.as_str(), v);
        proof {
            assert forall|k: Seq<char>| #![trigger value_in(c.entries@, k)] value_in(c.entries@, k)
                == combine_counts(value_in(a, k), value_in(b.take(i + 1), k)) by {
                if k == kk {
                    match value_in(a, k) {
                        Some(_) => {},
                        None => {},
                    }
                }
            }
        }
        i = i + 1;
    }
    proof {
        assert(b.take(i as int) =~= b);
        assert forall|k: Seq<char>| #[trigger] c.count(k) <= na + nb by {
            lemma_value_is_entry(a, k);
            lemma_value_is_entry(b, k);
        }
        lemma_bounded_from_counts(*c, na + nb);
    }
}

} // verus!

verus! {

/// `r` is the merge of one endpoint's records `x` and `y`.
pub open spec fn endpoint_merged(
    r: Option<PerEndpointData>,
    x: Option<PerEndpointData>,
    y: Option<PerEndpointData>,
) -> bool {
    match combine_endpoints(x, y) {
        None => r is None,
        Some((c, e, h)) => r matches Some(d) && d.count == c && d.errors == e && d.latency@ == h,
    }
}

pub open spec fn endpoints_bounded(s: Seq<(String, PerEndpointData)>, n: nat) -> bool {
    forall|i: int| 0 <= i < s.len() ==> (#[trigger] s[i]).1.wf() && s[i].1.count <= n
}

/// Merge every endpoint record of `other` into `eps`.
fn merge_endpoints(
    eps: &mut Vec<(String, PerEndpointData)>,
    other: &Vec<(String, PerEndpointData)>,
    Ghost(na): Ghost<nat>,
    Ghost(nb): Ghost<nat>,
)
    requires
        keys_distinct(old(eps)@),
        keys_distinct(other@),
        endpoints_bounded(old(eps)@, na),
        endpoints_bounded(other@, nb),
        na + nb <= u64::MAX,
    ensures
        keys_distinct(final(eps)@),
        endpoints_bounded(final(eps)@, na + nb),
        forall|k: Seq<char>|
            #![trigger value_in(final(eps)@, k)]
            endpoint_merged(value_in(final(eps)@, k), value_in(old(eps)@, k), value_in(other@, k)),
{
    let ghost a = eps@;
    let ghost b = other@;
    let mut i: usize = 0;
    assert forall|k: Seq<char>| #![trigger value_in(eps@, k)] endpoint_merged(
        value_in(eps@, k),
        value_in(a, k),
        value_in(b.take(0), k),
    ) by {
        assert(b.take(0).len() == 0);
        match value_in(a, k) {
            Some(_) => {},
            None => {},
        }
    }
    while i < other.len()
        invariant
            i <= b.len(),
            b == other@,
            a == old(eps)@,
            keys_distinct(a),
            keys_distinct(b),
            endpoints_bounded(a, na),
            endpoints_bounded(b, nb),
            na + nb <= u64::MAX,
            keys_distinct(eps@),
            endpoints_bounded(eps@, na + nb),
            forall|k: Seq<char>|
                #![trigger value_in(eps@, k)]
                endpoint_merged(value_in(eps@, k), value_in(a, k), value_in(b.take(i as int), k)),
        decreases b.len() - i,
    {
        let key = &other[i].0;
        let y = &other[i].1;
        let ghost kk = key@;
        let ghost s = eps@;
        proof {
            assert(b.take(i + 1).drop_last() =~= b.take(i as int));
            assert forall|j: int| 0 <= j < b.take(i as int).len() implies (
            #[trigger] b.take(i as int)[j]).0@ != kk by {
                assert(b[j].0@ != b[i as int].0@);
            }
            lemma_value_absent(b.take(i as int), kk);
            lemma_value_is_entry(a, kk);
            assert(y.wf() && y.count <= nb);
        }
        match find_key(eps, key.as_str()) {
            Some(j) => {
                proof {
                    lemma_value_at(s, j as int);
                    // the record under kk is still the one `eps` started with
                    assert(endpoint_merged(value_in(s, kk), value_in(a, kk), None));
                }
                let (name, mut d) = eps.remove(j);
                assert(d == s[j as int].1);
                d.count = d.count + y.count;
                d.errors = d.errors + y.errors;
                d.latency.merge(&y.latency);
                let ghost entry = (name, d);
                eps.insert(j, (name, d));
                proof {
                    assert(eps@ =~= s.update(j as int, entry));
                    assert forall|k: Seq<char>| #![trigger value_in(eps@, k)] endpoint_merged(
                        value_in(eps@, k),
                        value_in(a, k),
                        value_in(b.take(i + 1), k),
                    ) by {
                        lemma_value_update(s, j as int, entry, k);
                    }
                    lemma_value_update(s, j as int, entry, kk);
                    assert forall|q: int| 0 <= q < eps@.len() implies (#[trigger] eps@[q]).1.wf()
                        && eps@[q].1.count <= na + nb by {
                        if q != j {
                            assert(eps@[q] == s[q]);
                        }
                    }
                }
            },
            None => {
                proof {
                    lemma_value_absent(s, kk);
                }
                let mut h = LatencyHistogram::new();
                h.merge(&y.latency);
                let d = PerEndpointData { count: y.count, errors: y.errors, latency: h };
                let name = string_from_chars(chars_of(key.as_str()).as_slice());
                let ghost entry = (name, d);
                eps.push((name, d));
                proof {
                    assert(eps@.drop_last() =~= s);
                    assert forall|p: int, q: int|
                        0 <= p < q < eps@.len() implies #[trigger] eps@[p].0@
                        != #[trigger] eps@[q].0@ by {
                        if q == s.len() {
                            assert(s[p].0@ != kk);
                        } else {
                            assert(s[p].0@ != s[q].0@);
                        }
                    }
                    assert forall|q: int| 0 <= q < eps@.len() implies (#[trigger] eps@[q]).1.wf()
                        && eps@[q].1.count <= na + nb by {
                        if q < s.len() {
                            assert(eps@[q] == s[q]);
                        }
                    }
                    assert forall|k: Seq<char>| #![trigger value_in(eps@, k)] endpoint_merged(
                        value_in(eps@, k),
                        value_in(a, k),
                        value_in(b.take(i + 1), k),
                    ) by {
                        if k != kk {
                            assert(value_in(eps@, k) == value_in(s, k));
                        }
                    }
                }
            },
        }
        i = i + 1;
    }
    assert(b.take(i as int) =~= b);
}

} // verus!

verus! {

impl BenchMetrics {
    /// Fold a worker's accumulator into this one: counts and sums add up,
    /// the extremes widen, counters and per-endpoint records merge label by
    /// label, the latency histograms merge bucket by bucket, and the details
    /// are appended up to the cap.
    #[verifier::rlimit(40)]
    pub fn merge_from(&mut self, other: BenchMetrics)
        requires
            old(self).wf(),
            other.wf(),
            old(self).count + other.count <= u64::MAX,
            old(self).total_ns + other.total_ns <= u64::MAX,
        ensures
            final(self).wf(),
            final(self).count == old(self).count + other.count,
            final(self).ok == old(self).ok + other.ok,
            final(self).errors == old(self).errors + other.errors,
            final(self).passed == old(self).passed + other.passed,
            final(self).failed == old(self).failed + other.failed,
            final(self).total_ns == old(self).total_ns + other.total_ns,
            final(self).fastest_ns == if old(self).fastest_ns == 0 || (other.fastest_ns > 0
                && other.fastest_ns < old(self).fastest_ns) {
                other.fastest_ns
            } else {
                old(self).fastest_ns
            },
            final(self).slowest_ns == if other.slowest_ns > old(self).slowest_ns {
                other.slowest_ns
            } else {
                old(self).slowest_ns
            },
            forall|k: Seq<char>|
                #![trigger value_in(final(self).grpc_status.entries@, k)]
                value_in(final(self).grpc_status.entries@, k) == combine_counts(
                    value_in(old(self).grpc_status.entries@, k),
                    value_in(other.grpc_status.entries@, k),
                ),
            forall|k: Seq<char>|
                #![trigger value_in(final(self).error_dist.entries@, k)]
                value_in(final(self).error_dist.entries@, k) == combine_counts(
                    value_in(old(self).error_dist.entries@, k),
                    value_in(other.error_dist.entries@, k),
                ),
            final(self).latency@ == hist_merge(old(self).latency@, other.latency@),
            forall|k: Seq<char>|
                #![trigger final(self).endpoint_view(k)]
                endpoint_merged(
                    final(self).endpoint_view(k),
                    old(self).endpoint_view(k),
                    other.endpoint_view(k),
                ),
            final(self).details@ == (old(self).details@ + other.details@).take(
                if old(self).details@.len() + other.details@.len() > MAX_LATENCY_SAMPLES {
                    MAX_LATENCY_SAMPLES as int
                } else {
                    (old(self).details@.len() + other.details@.len()) as int
                },
            ),
            final(self).collect_details == old(self).collect_details,
            final(self).count_errors_in_latency == old(self).count_errors_in_latency,
            final(self).sample_stride == old(self).sample_stride,
            final(self).sample_counter == old(self).sample_counter,
            final(self).skip_first_remaining == old(self).skip_first_remaining,
    {
        let ghost na = self.count as nat;
        let ghost nb = other.count as nat;
        let mut other = other;
        self.count = self.count + other.count;
        self.ok = self.ok + other.ok;
        self.errors = self.errors + other.errors;
        self.passed = self.passed + other.passed;
        self.failed = self.failed + other.failed;
        self.total_ns = self.total_ns + other.total_ns;
        if self.fastest_ns == 0 || (other.fastest_ns > 0 && other.fastest_ns < self.fastest_ns) {
            self.fastest_ns = other.fastest_ns;
        }
        if other.slowest_ns > self.slowest_ns {
            self.slowest_ns = other.slowest_ns;
        }
        merge_counters(&mut self.grpc_status, &other.grpc_status, Ghost(na), Ghost(nb));
        merge_counters(&mut self.error_dist, &other.error_dist, Ghost(na), Ghost(nb));
        self.latency.merge(&other.latency);
        merge_endpoints(&mut self.per_endpoint, &other.per_endpoint, Ghost(na), Ghost(nb));
        let ghost d0 = self.details@;
        let ghost d1 = other.details@;
        self.details.append(&mut other.details);
        if self.details.len() > MAX_LATENCY_SAMPLES {
            self.details.truncate(MAX_LATENCY_SAMPLES);
        }
        assert(self.details@ =~= (d0 + d1).take(
            if d0.len() + d1.len() > MAX_LATENCY_SAMPLES {
                MAX_LATENCY_SAMPLES as int
            } else {
                (d0.len() + d1.len()) as int
            },
        ));
    }
}

} // verus!

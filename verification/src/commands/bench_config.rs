//! A benchmark's configuration as a BENCH section sets it: every key the
//! section writes, the source each option came from, and the thresholds.
//! Durations and rates are kept as written, by key; reading them as seconds
//! and fractions is floating point and happens outside this crate.
use crate::commands::bench::{
    duration_stop_of, folded, list_items, parsed_u64, parse_bench_num, parse_latency_percentiles,
    BenchOptionSource, DurationStopMode,
};
use crate::commands::fmt::{ascii_lowercase, no_underscores};
use crate::keyed::{find_key, keys_distinct, lemma_value_absent, lemma_value_at, lemma_value_update, value_in};
use crate::commands::bench_plan::{default_connection_count, default_connections};
use crate::text::{decimal, decimal_chars, push_all, push_str, chars_of, chars_start_with, slice_chars, starts_with, string_from_chars, str_eq, to_ascii_lower, trim, trim_chars};
use vstd::prelude::*;

verus! {

broadcast use vstd::string::group_string_axioms;

/// Set `key` to `value`, adding the key when it is new.
pub fn put<V>(entries: &mut Vec<(String, V)>, key: &str, value: V)
    requires
        keys_distinct(old(entries)@),
    ensures
        keys_distinct(final(entries)@),
        forall|k: Seq<char>|
            #![trigger value_in(final(entries)@, k)]
            value_in(final(entries)@, k) == if k == key@ {
                Some(value)
            } else {
                value_in(old(entries)@, k)
            },
{
    let ghost s = entries@;
    match find_key(entries, key) {
        Some(i) => {
            proof {
                lemma_value_at(s, i as int);
            }
            let name = entries[i].0.clone();
            let ghost x = (name, value);
            entries.set(i, (name, value));
            proof {
                assert(entries@ == s.update(i as int, x));
                assert forall|k: Seq<char>| #![trigger value_in(entries@, k)]
                    value_in(entries@, k) == if k == key@ {
                        Some(value)
                    } else {
                        value_in(s, k)
                    } by {
                    lemma_value_update(s, i as int, x, k);
                }
                lemma_value_update(s, i as int, x, key@);
            }
        },
        None => {
            proof {
                lemma_value_absent(s, key@);
            }
            let name = string_from_chars(chars_of(key).as_slice());
            entries.push((name, value));
            proof {
                assert(entries@.drop_last() =~= s);
                assert forall|a: int, b: int|
                    0 <= a < b < entries@.len() implies #[trigger] entries@[a].0@
                    != #[trigger] entries@[b].0@ by {
                    if b == s.len() {
                        assert(s[a].0@ != key@);
                    } else {
                        assert(s[a].0@ != s[b].0@);
                    }
                }
            }
        },
    }
}

/// The value written last under `key`.
pub fn lookup(bench: &Vec<(String, String)>, key: &str) -> (r: Option<String>)
    ensures
        r == value_in(bench@, key@),
{
    let mut i = bench.len();
    assert(bench@.take(i as int) =~= bench@);
    while i > 0
        invariant
            i <= bench@.len(),
            value_in(bench@, key@) == value_in(bench@.take(i as int), key@),
        decreases i,
    {
        let ghost t = bench@.take(i as int);
        assert(t.drop_last() =~= bench@.take(i - 1));
        if str_eq(bench[i - 1].0.as_str(), key) {
            return Some(bench[i - 1].1.clone());
        }
        i = i - 1;
    }
    None
}

/// The BENCH keys read as durations or rates.
pub open spec fn timing_keys() -> Seq<Seq<char>> {
    seq![
        "duration"@, "ramp_up"@, "warmup"@, "cool_down"@, "max_duration"@, "max_rps"@,
        "load_profile"@, "load_midpoint"@, "load_amplitude"@, "load_frequency"@,
        "load_spike_target"@, "load_spike_after"@, "load_spike_duration"@, "load_start"@,
        "load_step"@, "load_end"@, "load_step_duration"@, "concurrency_step_duration"@,
        "load_max_duration"@, "request_timeout"@, "connect_timeout"@, "keepalive"@,
        "sample_rate"@, "progress_interval"@, "cache_ttl"@
    ]
}

fn is_timing_key(k: &str) -> (b: bool)
    ensures
        b == timing_keys().contains(k@),
{
    let keys = [
        "duration", "ramp_up", "warmup", "cool_down", "max_duration", "max_rps", "load_profile",
        "load_midpoint", "load_amplitude", "load_frequency", "load_spike_target",
        "load_spike_after", "load_spike_duration", "load_start", "load_step", "load_end",
        "load_step_duration", "concurrency_step_duration", "load_max_duration",
        "request_timeout", "connect_timeout", "keepalive", "sample_rate", "progress_interval",
        "cache_ttl",
    ];
    assert(keys@.map_values(|s: &str| s@) =~= timing_keys());
    let mut i: usize = 0;
    while i < 25
        invariant
            i <= 25,
            keys@.len() == 25,
            keys@.map_values(|s: &str| s@) == timing_keys(),
            forall|j: int| 0 <= j < i ==> timing_keys()[j] != k@,
        decreases 25 - i,
    {
        if str_eq(keys[i], k) {
            assert(timing_keys()[i as int] == keys@[i as int]@);
            return true;
        }
        assert(timing_keys()[i as int] == keys@[i as int]@);
        i = i + 1;
    }
    false
}

/// The prefix of a threshold key.
pub open spec fn threshold_prefix() -> Seq<char> {
    "thresholds."@
}

/// An unsigned BENCH number that must fit in `u32`, `default` otherwise.
pub open spec fn u32_num(v: Seq<char>, default: u32) -> u32 {
    match parsed_u64(no_underscores(v)) {
        Some(x) => if x <= u32::MAX {
            x as u32
        } else {
            default
        },
        None => default,
    }
}

fn parse_u32_num(v: &str, default: u32) -> (n: u32)
    ensures
        n == u32_num(v@, default),
{
    let x = parse_bench_num(v, default as u64);
    if x <= u32::MAX as u64 {
        x as u32
    } else {
        default
    }
}

/// An unsigned BENCH number, `default` when the value is no number.
pub open spec fn u64_num(v: Seq<char>, default: u64) -> u64 {
    match parsed_u64(no_underscores(v)) {
        Some(x) => x,
        None => default,
    }
}

/// A BENCH switch: on when written `true` or `1`.
pub open spec fn switch_on(v: Seq<char>) -> bool {
    v == "true"@ || v == "1"@
}

fn is_switch_on(v: &str) -> (b: bool)
    ensures
        b == switch_on(v@),
{
    str_eq(v, "true") || str_eq(v, "1")
}

/// A benchmark's configuration, as far as it is decided in this crate.
pub struct BenchConfig {
    pub profile: String,
    pub mode: String,
    pub concurrency: u32,
    pub requests: Option<u64>,
    pub warmup_mode: String,
    pub load_schedule: String,
    pub concurrency_schedule: String,
    pub concurrency_start: Option<u32>,
    pub concurrency_end: Option<u32>,
    pub concurrency_step: Option<u32>,
    pub connections: u32,
    pub cpus: Option<u64>,
    pub name: Option<String>,
    pub assert_mode: String,
    pub no_assert: bool,
    pub duration_stop: DurationStopMode,
    pub skip_first: u32,
    pub count_errors_in_latency: bool,
    pub latency_percentiles: Vec<String>,
    pub cache: bool,
    /// Durations and rates as written, by key.
    pub timing: Vec<(String, String)>,
    /// Threshold expressions, by metric.
    pub thresholds: Vec<(String, String)>,
    /// Where each option's value came from, by option.
    pub option_sources: Vec<(String, BenchOptionSource)>,
}

/// The options whose source is tracked from the start, as defaults.
pub open spec fn tracked_by_default() -> Seq<Seq<char>> {
    seq![
        "concurrency"@, "connections"@, "load_schedule"@, "load_start"@, "load_step"@,
        "load_end"@, "load_step_duration"@, "load_max_duration"@, "progress_interval"@
    ]
}

impl BenchConfig {
    pub open spec fn wf(&self) -> bool {
        &&& keys_distinct(self.timing@)
        &&& keys_distinct(self.thresholds@)
        &&& keys_distinct(self.option_sources@)
    }

    /// The defaults: the functional profile in fixed mode, one worker and one
    /// connection, a hundred requests, the standard percentiles, and the
    /// default source recorded for the tracked options.
    pub fn new() -> (c: BenchConfig)
        ensures
            c.wf(),
            c.profile@ == "functional"@,
            c.mode@ == "fixed"@,
            c.concurrency == 1,
            c.requests == Some(100u64),
            c.warmup_mode@ == "warmup"@,
            c.load_schedule@ == "const"@,
            c.concurrency_schedule@ == "const"@,
            c.concurrency_start is None && c.concurrency_end is None && c.concurrency_step is None,
            c.connections == 1,
            c.cpus is None,
            c.name is None,
            c.assert_mode@ == "collect_all"@,
            !c.no_assert,
            c.duration_stop == DurationStopMode::Wait,
            c.skip_first == 0,
            !c.count_errors_in_latency,
            crate::parser::strs(c.latency_percentiles@) == seq!["p50"@, "p90"@, "p95"@, "p99"@],
            c.cache,
            c.timing@.len() == 0,
            c.thresholds@.len() == 0,
            forall|k: Seq<char>| #[trigger]
                value_in(c.option_sources@, k) == if tracked_by_default().contains(k) {
                    Some(BenchOptionSource::Default)
                } else {
                    None
                },
    {
        let mut sources: Vec<(String, BenchOptionSource)> = Vec::new();
        let names = [
            "concurrency", "connections", "load_schedule", "load_start", "load_step", "load_end",
            "load_step_duration", "load_max_duration", "progress_interval",
        ];
        assert(names@.map_values(|s: &str| s@) =~= tracked_by_default());
        let mut i: usize = 0;
        while i < 9
            invariant
                i <= 9,
                names@.len() == 9,
                names@.map_values(|s: &str| s@) == tracked_by_default(),
                keys_distinct(sources@),
                forall|k: Seq<char>| #[trigger]
                    value_in(sources@, k) == if tracked_by_default().take(i as int).contains(k) {
                        Some(BenchOptionSource::Default)
                    } else {
                        None
                    },
            decreases 9 - i,
        {
            put(&mut sources, names[i], BenchOptionSource::Default);
            proof {
                let d = tracked_by_default();
                assert(d[i as int] == names@[i as int]@);
                assert forall|k: Seq<char>| #[trigger] d.take(i + 1).contains(k) == (d.take(
                    i as int,
                ).contains(k) || k == d[i as int]) by {
                    if d.take(i + 1).contains(k) && k != d[i as int] {
                        let j = choose|j: int| 0 <= j < i + 1 && #[trigger] d.take(i + 1)[j] == k;
                        assert(d.take(i as int)[j] == k);
                    }
                    if d.take(i as int).contains(k) {
                        let j = choose|j: int| 0 <= j < i && #[trigger] d.take(i as int)[j] == k;
                        assert(d.take(i + 1)[j] == k);
                    }
                    if k == d[i as int] {
                        assert(d.take(i + 1)[i as int] == k);
                    }
                }
            }
            i = i + 1;
        }
        assert(tracked_by_default().take(9) =~= tracked_by_default());
        let mut pct: Vec<String> = Vec::new();
        pct.push(string_from_chars(chars_of("p50").as_slice()));
        pct.push(string_from_chars(chars_of("p90").as_slice()));
        pct.push(string_from_chars(chars_of("p95").as_slice()));
        pct.push(string_from_chars(chars_of("p99").as_slice()));
        assert(crate::parser::strs(pct@) =~= seq!["p50"@, "p90"@, "p95"@, "p99"@]);
        BenchConfig {
            profile: string_from_chars(chars_of("functional").as_slice()),
            mode: string_from_chars(chars_of("fixed").as_slice()),
            concurrency: 1,
            requests: Some(100),
            warmup_mode: string_from_chars(chars_of("warmup").as_slice()),
            load_schedule: string_from_chars(chars_of("const").as_slice()),
            concurrency_schedule: string_from_chars(chars_of("const").as_slice()),
            concurrency_start: None,
            concurrency_end: None,
            concurrency_step: None,
            connections: 1,
            cpus: None,
            name: None,
            assert_mode: string_from_chars(chars_of("collect_all").as_slice()),
            no_assert: false,
            duration_stop: DurationStopMode::Wait,
            skip_first: 0,
            count_errors_in_latency: false,
            latency_percentiles: pct,
            cache: true,
            timing: Vec::new(),
            thresholds: Vec::new(),
            option_sources: sources,
        }
    }
}

/// What the section's keys themselves record: each key's source, the
/// durations and rates as written, and the thresholds.
fn apply_keys(cfg: &mut BenchConfig, bench: &Vec<(String, String)>)
    requires
        old(cfg).wf(),
    ensures
        final(cfg).wf(),
        forall|k: Seq<char>| #[trigger]
            value_in(final(cfg).option_sources@, k) == if value_in(bench@, k) is Some {
                Some(BenchOptionSource::BenchSection)
            } else {
                value_in(old(cfg).option_sources@, k)
            },
        forall|k: Seq<char>| #[trigger]
            value_in(final(cfg).timing@, k) == if timing_keys().contains(k) && value_in(
                bench@,
                k,
            ) is Some {
                value_in(bench@, k)
            } else {
                value_in(old(cfg).timing@, k)
            },
        forall|m: Seq<char>| #[trigger]
            value_in(final(cfg).thresholds@, m) == if value_in(bench@, threshold_prefix() + m) is Some {
                value_in(bench@, threshold_prefix() + m)
            } else {
                value_in(old(cfg).thresholds@, m)
            },
        final(cfg).profile == old(cfg).profile,
        final(cfg).mode == old(cfg).mode,
        final(cfg).concurrency == old(cfg).concurrency,
        final(cfg).requests == old(cfg).requests,
        final(cfg).warmup_mode == old(cfg).warmup_mode,
        final(cfg).load_schedule == old(cfg).load_schedule,
        final(cfg).concurrency_schedule == old(cfg).concurrency_schedule,
        final(cfg).concurrency_start == old(cfg).concurrency_start,
        final(cfg).concurrency_end == old(cfg).concurrency_end,
        final(cfg).concurrency_step == old(cfg).concurrency_step,
        final(cfg).connections == old(cfg).connections,
        final(cfg).cpus == old(cfg).cpus,
        final(cfg).name == old(cfg).name,
        final(cfg).assert_mode == old(cfg).assert_mode,
        final(cfg).no_assert == old(cfg).no_assert,
        final(cfg).duration_stop == old(cfg).duration_stop,
        final(cfg).skip_first == old(cfg).skip_first,
        final(cfg).count_errors_in_latency == old(cfg).count_errors_in_latency,
        final(cfg).latency_percentiles == old(cfg).latency_percentiles,
        final(cfg).cache == old(cfg).cache,
{
    proof {
        reveal_strlit("thresholds.");
    }
    let ghost c0 = *cfg;
    let mut i: usize = 0;
    while i < bench.len()
        invariant
            i <= bench@.len(),
            cfg.wf(),
            forall|k: Seq<char>| #[trigger]
                value_in(cfg.option_sources@, k) == if value_in(bench@.take(i as int), k) is Some {
                    Some(BenchOptionSource::BenchSection)
                } else {
                    value_in(c0.option_sources@, k)
                },
            forall|k: Seq<char>| #[trigger]
                value_in(cfg.timing@, k) == if timing_keys().contains(k) && value_in(
                    bench@.take(i as int),
                    k,
                ) is Some {
                    value_in(bench@.take(i as int), k)
                } else {
                    value_in(c0.timing@, k)
                },
            forall|m: Seq<char>| #[trigger]
                value_in(cfg.thresholds@, m) == if value_in(bench@.take(i as int), threshold_prefix() + m) is Some {
                    value_in(bench@.take(i as int), threshold_prefix() + m)
                } else {
                    value_in(c0.thresholds@, m)
                },
            cfg.profile == c0.profile,
            cfg.mode == c0.mode,
            cfg.concurrency == c0.concurrency,
            cfg.requests == c0.requests,
            cfg.warmup_mode == c0.warmup_mode,
            cfg.load_schedule == c0.load_schedule,
            cfg.concurrency_schedule == c0.concurrency_schedule,
            cfg.concurrency_start == c0.concurrency_start,
            cfg.concurrency_end == c0.concurrency_end,
            cfg.concurrency_step == c0.concurrency_step,
            cfg.connections == c0.connections,
            cfg.cpus == c0.cpus,
            cfg.name == c0.name,
            cfg.assert_mode == c0.assert_mode,
            cfg.no_assert == c0.no_assert,
            cfg.duration_stop == c0.duration_stop,
            cfg.skip_first == c0.skip_first,
            cfg.count_errors_in_latency == c0.count_errors_in_latency,
            cfg.latency_percentiles == c0.latency_percentiles,
            cfg.cache == c0.cache,
        decreases bench@.len() - i,
    {
        let ghost t1 = bench@.take(i + 1);
        assert(t1.drop_last() =~= bench@.take(i as int));
        assert(t1.last() == bench@[i as int]);
        let key = bench[i].0.as_str();
        let value = &bench[i].1;
        put(&mut cfg.option_sources, key, BenchOptionSource::BenchSection);
        if is_timing_key(key) {
            put(&mut cfg.timing, key, value.clone());
        }
        let kc = chars_of(key);
        proof {
            reveal_strlit("thresholds.");
            assert(threshold_prefix().len() == 11);
        }
        if chars_start_with(&kc, "thresholds.") {
            let metric = slice_chars(&kc, 11, kc.len());
            let mname = string_from_chars(metric.as_slice());
            put(&mut cfg.thresholds, mname.as_str(), value.clone());
            proof {
                assert(kc@ =~= threshold_prefix() + metric@) by {
                    assert(kc@.take(11) =~= threshold_prefix());
                }
                assert forall|m: Seq<char>| (threshold_prefix() + m == kc@) == (m == metric@) by {
                    if threshold_prefix() + m == kc@ {
                        assert(m =~= kc@.skip(11));
                    }
                }
            }
        } else {
            proof {
                assert forall|m: Seq<char>| threshold_prefix() + m != kc@ by {
                    if threshold_prefix() + m == kc@ {
                        assert(kc@.take(11) =~= threshold_prefix());
                    }
                }
            }
        }
        i = i + 1;
    }
    assert(bench@.take(bench@.len() as int) =~= bench@);
}

/// The text a string option takes: what the section wrote, or what it was.
pub open spec fn set_text(bench: Seq<(String, String)>, key: Seq<char>, before: Seq<char>) -> Seq<char> {
    match value_in(bench, key) {
        Some(v) => v@,
        None => before,
    }
}

fn text_or(bench: &Vec<(String, String)>, key: &str, before: &String) -> (r: String)
    ensures
        r@ == set_text(bench@, key@, before@),
{
    match lookup(bench, key) {
        Some(v) => v,
        None => before.clone(),
    }
}

fn schedule_or(bench: &Vec<(String, String)>, before: &String) -> (r: String)
    ensures
        r@ == match value_in(bench@, "concurrency_schedule"@) {
            Some(v) => ascii_lowercase(trim(v@)),
            None => before@,
        },
{
    match lookup(bench, "concurrency_schedule") {
        Some(v) => {
            let t = trim_chars(&chars_of(v.as_str()));
            let mut low: Vec<char> = Vec::new();
            let mut j: usize = 0;
            while j < t.len()
                invariant
                    j <= t@.len(),
                    low@ == t@.take(j as int).map_values(|c: char| crate::text::ascii_lower(c)),
                decreases t@.len() - j,
            {
                low.push(to_ascii_lower(t[j]));
                j = j + 1;
                assert(low@ =~= t@.take(j as int).map_values(|c: char| crate::text::ascii_lower(c)));
            }
            assert(t@.take(t@.len() as int) =~= t@);
            string_from_chars(low.as_slice())
        },
        None => before.clone(),
    }
}

fn u32_or(bench: &Vec<(String, String)>, key: &str, default: u32, before: u32) -> (r: u32)
    ensures
        r == match value_in(bench@, key@) {
            Some(v) => u32_num(v@, default),
            None => before,
        },
{
    match lookup(bench, key) {
        Some(v) => parse_u32_num(v.as_str(), default),
        None => before,
    }
}

fn some_u32_or(bench: &Vec<(String, String)>, key: &str, before: Option<u32>) -> (r: Option<u32>)
    ensures
        r == match value_in(bench@, key@) {
            Some(v) => Some(u32_num(v@, 1)),
            None => before,
        },
{
    match lookup(bench, key) {
        Some(v) => Some(parse_u32_num(v.as_str(), 1)),
        None => before,
    }
}

fn some_u64_or(bench: &Vec<(String, String)>, key: &str, default: u64, before: Option<u64>) -> (r: Option<u64>)
    ensures
        r == match value_in(bench@, key@) {
            Some(v) => Some(u64_num(v@, default)),
            None => before,
        },
{
    match lookup(bench, key) {
        Some(v) => Some(parse_bench_num(v.as_str(), default)),
        None => before,
    }
}

fn switch_or(bench: &Vec<(String, String)>, key: &str, before: bool) -> (r: bool)
    ensures
        r == match value_in(bench@, key@) {
            Some(v) => switch_on(v@),
            None => before,
        },
{
    match lookup(bench, key) {
        Some(v) => is_switch_on(v.as_str()),
        None => before,
    }
}

#[verifier::rlimit(100)]
#[verifier::spinoff_prover]
/// Apply the BENCH section's entries (`bench`, each key once) onto `cfg`:
/// every key the section writes records the section as its source; a
/// `duration_stop` that names no mode is refused, with nothing applied.
pub fn apply_bench_section(cfg: &mut BenchConfig, bench: &Vec<(String, String)>) -> (r: Result<
    (),
    String,
>)
    requires
        old(cfg).wf(),
    ensures
        final(cfg).wf(),
        r is Err <==> (value_in(bench@, "duration_stop"@) matches Some(v) && duration_stop_of(v@) is None),
        r matches Err(msg) ==> (value_in(bench@, "duration_stop"@) matches Some(v) && msg@
            == "invalid duration-stop mode '"@ + folded(v@) + "', expected close|wait|ignore"@),
        r is Ok ==> {
            let b = bench@;
            let c0 = *old(cfg);
            let c = *final(cfg);
            &&& c.mode@ == set_text(b, "mode"@, c0.mode@)
            &&& c.profile@ == set_text(b, "profile"@, c0.profile@)
            &&& c.warmup_mode@ == set_text(b, "warmup_mode"@, c0.warmup_mode@)
            &&& c.load_schedule@ == set_text(b, "load_schedule"@, c0.load_schedule@)
            &&& c.assert_mode@ == set_text(b, "assert_mode"@, c0.assert_mode@)
            &&& c.concurrency_schedule@ == match value_in(b, "concurrency_schedule"@) {
                Some(v) => ascii_lowercase(trim(v@)),
                None => c0.concurrency_schedule@,
            }
            &&& c.concurrency == match value_in(b, "concurrency"@) {
                Some(v) => u32_num(v@, 1),
                None => c0.concurrency,
            }
            &&& c.connections == match value_in(b, "connections"@) {
                Some(v) => u32_num(v@, 1),
                None => c0.connections,
            }
            &&& c.skip_first == match value_in(b, "skip_first"@) {
                Some(v) => u32_num(v@, 0),
                None => c0.skip_first,
            }
            &&& c.requests == match value_in(b, "requests"@) {
                Some(v) => Some(u64_num(v@, 100)),
                None => c0.requests,
            }
            &&& c.cpus == match value_in(b, "cpus"@) {
                Some(v) => Some(u64_num(v@, 1)),
                None => c0.cpus,
            }
            &&& c.concurrency_start == match value_in(b, "concurrency_start"@) {
                Some(v) => Some(u32_num(v@, 1)),
                None => c0.concurrency_start,
            }
            &&& c.concurrency_end == match value_in(b, "concurrency_end"@) {
                Some(v) => Some(u32_num(v@, 1)),
                None => c0.concurrency_end,
            }
            &&& c.concurrency_step == match value_in(b, "concurrency_step"@) {
                Some(v) => Some(u32_num(v@, 1)),
                None => c0.concurrency_step,
            }
            &&& c.name == match value_in(b, "name"@) {
                Some(v) => Some(v),
                None => c0.name,
            }
            &&& c.no_assert == match value_in(b, "no_assert"@) {
                Some(v) => switch_on(v@),
                None => c0.no_assert,
            }
            &&& c.count_errors_in_latency == match value_in(b, "count_errors_in_latency"@) {
                Some(v) => switch_on(v@),
                None => c0.count_errors_in_latency,
            }
            &&& c.cache == match value_in(b, "cache"@) {
                Some(v) => switch_on(v@),
                None => c0.cache,
            }
            &&& c.duration_stop == match value_in(b, "duration_stop"@) {
                Some(v) => duration_stop_of(v@).unwrap(),
                None => c0.duration_stop,
            }
            &&& (value_in(b, "latency_percentiles"@) matches Some(v) ==> crate::parser::strs(
                c.latency_percentiles@,
            ) == list_items(crate::parser::split_on(v@, ',')))
            &&& (value_in(b, "latency_percentiles"@) is None ==> c.latency_percentiles
                == c0.latency_percentiles)
            &&& forall|k: Seq<char>| #[trigger]
                value_in(c.option_sources@, k) == if value_in(b, k) is Some {
                    Some(BenchOptionSource::BenchSection)
                } else {
                    value_in(c0.option_sources@, k)
                }
            &&& forall|k: Seq<char>| #[trigger]
                value_in(c.timing@, k) == if timing_keys().contains(k) && value_in(b, k) is Some {
                    value_in(b, k)
                } else {
                    value_in(c0.timing@, k)
                }
            &&& forall|m: Seq<char>| #[trigger]
                value_in(c.thresholds@, m) == if value_in(b, threshold_prefix() + m) is Some {
                    value_in(b, threshold_prefix() + m)
                } else {
                    value_in(c0.thresholds@, m)
                }
        },
{
    let stop = match lookup(bench, "duration_stop") {
        Some(v) => match DurationStopMode::parse(v.as_str()) {
            Ok(m) => Some(m),
            Err(e) => {
                return Err(e);
            },
        },
        None => None,
    };
    apply_keys(cfg, bench);
    cfg.mode = text_or(bench, "mode", &cfg.mode);
    cfg.profile = text_or(bench, "profile", &cfg.profile);
    cfg.warmup_mode = text_or(bench, "warmup_mode", &cfg.warmup_mode);
    cfg.load_schedule = text_or(bench, "load_schedule", &cfg.load_schedule);
    cfg.assert_mode = text_or(bench, "assert_mode", &cfg.assert_mode);
    cfg.concurrency_schedule = schedule_or(bench, &cfg.concurrency_schedule);
    cfg.concurrency = u32_or(bench, "concurrency", 1, cfg.concurrency);
    cfg.connections = u32_or(bench, "connections", 1, cfg.connections);
    cfg.skip_first = u32_or(bench, "skip_first", 0, cfg.skip_first);
    cfg.requests = some_u64_or(bench, "requests", 100, cfg.requests);
    cfg.cpus = some_u64_or(bench, "cpus", 1, cfg.cpus);
    cfg.concurrency_start = some_u32_or(bench, "concurrency_start", cfg.concurrency_start);
    cfg.concurrency_end = some_u32_or(bench, "concurrency_end", cfg.concurrency_end);
    cfg.concurrency_step = some_u32_or(bench, "concurrency_step", cfg.concurrency_step);
    let name = lookup(bench, "name");
    if name.is_some() {
        cfg.name = name;
    }
    cfg.no_assert = switch_or(bench, "no_assert", cfg.no_assert);
    cfg.count_errors_in_latency = switch_or(bench, "count_errors_in_latency", cfg.count_errors_in_latency);
    cfg.cache = switch_or(bench, "cache", cfg.cache);
    if let Some(m) = stop {
        cfg.duration_stop = m;
    }
    if let Some(v) = lookup(bench, "latency_percentiles") {
        cfg.latency_percentiles = parse_latency_percentiles(v.as_str());
    }
    Ok(())
}

/// The worker count a section sets: one unless it says otherwise.
pub open spec fn section_concurrency(bench: Seq<(String, String)>) -> u32 {
    match value_in(bench, "concurrency"@) {
        Some(v) => u32_num(v@, 1),
        None => 1,
    }
}

/// The pool size a section sets; unset, it follows the worker count and the
/// host's parallelism.
pub open spec fn section_connections(bench: Seq<(String, String)>, parallelism: usize) -> int {
    match value_in(bench, "connections"@) {
        Some(v) => u32_num(v@, 1) as int,
        None => default_connection_count(section_concurrency(bench), parallelism),
    }
}

/// The refusal of a pool larger than the worker count.
pub open spec fn too_many_connections(connections: nat, concurrency: nat) -> Seq<char> {
    "connections ("@ + decimal(connections) + ") cannot exceed concurrency ("@ + decimal(concurrency)
        + ")"@
}

/// The configuration a BENCH section (or none) gives over the defaults: an
/// unset pool size follows the worker count and `parallelism`; a pool of
/// zero, or larger than the worker count, is refused, as is a
/// `duration_stop` that names no mode; a duration leaves no request count.
pub fn from_bench_section(bench: Option<&Vec<(String, String)>>, parallelism: usize) -> (r: Result<
    BenchConfig,
    String,
>)
    ensures
        ({
            let b: Seq<(String, String)> = match bench {
                Some(x) => x@,
                None => Seq::empty(),
            };
            let stop_bad = value_in(b, "duration_stop"@) matches Some(v) && duration_stop_of(v@) is None;
            let conc = section_concurrency(b);
            let conn = section_connections(b, parallelism);
            &&& (r is Err <==> (stop_bad || conn == 0 || conn > conc))
            &&& (!stop_bad && conn == 0 ==> (r matches Err(m) && m@ == "connections must be greater than 0"@))
            &&& (!stop_bad && conn > conc ==> (r matches Err(m) && m@ == too_many_connections(
                conn as nat,
                conc as nat,
            )))
            &&& (r matches Ok(c) ==> {
                &&& c.wf()
                &&& c.concurrency == conc
                &&& c.connections == conn
                &&& c.requests == if value_in(b, "duration"@) is Some {
                    None
                } else {
                    match value_in(b, "requests"@) {
                        Some(v) => Some(u64_num(v@, 100)),
                        None => Some(100u64),
                    }
                }
                &&& forall|k: Seq<char>| #[trigger]
                    value_in(c.option_sources@, k) == if value_in(b, k) is Some {
                        Some(BenchOptionSource::BenchSection)
                    } else if tracked_by_default().contains(k) {
                        Some(BenchOptionSource::Default)
                    } else {
                        None
                    }
                &&& forall|k: Seq<char>| #[trigger]
                    value_in(c.timing@, k) == if timing_keys().contains(k) {
                        value_in(b, k)
                    } else {
                        None
                    }
                &&& forall|m: Seq<char>| #[trigger]
                    value_in(c.thresholds@, m) == value_in(b, threshold_prefix() + m)
            })
        }),
{
    let empty: Vec<(String, String)> = Vec::new();
    let b = match bench {
        Some(x) => x,
        None => &empty,
    };
    let mut cfg = BenchConfig::new();
    proof {
        reveal_strlit("connections");
        assert(tracked_by_default()[1] == "connections"@);
        assert(tracked_by_default().contains("connections"@));
        assert(value_in(cfg.timing@, "duration"@) is None);
    }
    match apply_bench_section(&mut cfg, b) {
        Ok(()) => {},
        Err(e) => {
            return Err(e);
        },
    }
    proof {
        assert forall|k: Seq<char>| #[trigger] value_in(cfg.timing@, k) == if timing_keys().contains(k) {
            value_in(b@, k)
        } else {
            None
        } by {
            assert(value_in(Seq::<(String, String)>::empty(), k) is None);
        }
    }
    let defaulted = match lookup(b, "connections") {
        Some(_) => false,
        None => true,
    };
    if defaulted {
        cfg.connections = default_connections(cfg.concurrency, parallelism);
    }
    if cfg.connections == 0 {
        return Err(string_from_chars(chars_of("connections must be greater than 0").as_slice()));
    }
    if cfg.connections > cfg.concurrency {
        let mut msg = chars_of("connections (");
        push_all(&mut msg, &decimal_chars(cfg.connections as u64));
        push_str(&mut msg, ") cannot exceed concurrency (");
        push_all(&mut msg, &decimal_chars(cfg.concurrency as u64));
        push_str(&mut msg, ")");
        return Err(string_from_chars(msg.as_slice()));
    }
    if lookup(b, "duration").is_some() {
        cfg.requests = None;
    }
    Ok(cfg)
}

} // verus!

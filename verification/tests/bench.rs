use grpctestify::commands::bench::{
    canonical_bench_format, categorize_error, contains_fold, derive_end_reason, exec_model_for,
    grpc_status_label, hist_bucket_bounds, hist_bucket_index, invert_op, measured_nothing,
    parse_bench_num, parse_latency_percentiles, parse_percentile_key, parse_threshold_expr,
    record_arrival, request_passes, round_robin_index, ArrivalOutcome, should_record_after_deadline, worker_connection_id,
    BenchMetrics, BenchOptionSource, DurationStopMode, ExecModel, LatencyHistogram, HIST_BUCKETS,
    MAX_LATENCY_SAMPLES,
};
use std::time::{Duration, Instant};

#[test]
fn measured_nothing_flags_a_fully_failed_run() {
    assert!(measured_nothing(100, 0));
}

#[test]
fn measured_nothing_allows_a_run_that_expects_an_error() {
    assert!(!measured_nothing(100, 100));
}

#[test]
fn measured_nothing_allows_partial_success() {
    assert!(!measured_nothing(100, 1));
}

#[test]
fn measured_nothing_allows_an_empty_run() {
    assert!(!measured_nothing(0, 0));
}

#[test]
fn exec_model_dispatch() {
    assert_eq!(exec_model_for("open"), ExecModel::Open);
    assert_eq!(exec_model_for("adaptive"), ExecModel::Open);
    assert_eq!(exec_model_for(" OPEN "), ExecModel::Open);
    assert_eq!(exec_model_for("closed"), ExecModel::Closed);
    assert_eq!(exec_model_for("fixed"), ExecModel::Closed);
    assert_eq!(exec_model_for("closed-loop"), ExecModel::Closed);
    assert_eq!(exec_model_for("closed_loop"), ExecModel::Closed);
    assert_eq!(exec_model_for("stepping"), ExecModel::Closed);
}

#[test]
fn request_passes_honours_total_budget() {
    assert_eq!(request_passes(100, 3), 33);
    assert_eq!(request_passes(100, 1), 100);
    assert_eq!(request_passes(100, 0), 100);
}

#[test]
fn ndjson_format_is_alias_for_detail_json() {
    assert_eq!(canonical_bench_format("ndjson"), "detail-json");
    assert_eq!(canonical_bench_format("detail-json"), "detail-json");
    assert_eq!(canonical_bench_format("json"), "json");
    assert_eq!(canonical_bench_format("console"), "console");
}

#[test]
fn should_record_after_deadline_modes() {
    let start = Instant::now();
    let deadline = start + Duration::from_millis(1);
    let finished_after = deadline + Duration::from_millis(1);

    assert!(!should_record_after_deadline(
        DurationStopMode::Close,
        finished_after < deadline
    ));
    assert!(should_record_after_deadline(
        DurationStopMode::Wait,
        finished_after < deadline
    ));
    assert!(!should_record_after_deadline(
        DurationStopMode::Ignore,
        finished_after < deadline
    ));
}

#[test]
fn derive_end_reason_variants() {
    assert_eq!(
        derive_end_reason(true, None, Duration::from_secs(5).as_nanos(), false),
        "duration_reached"
    );
    assert_eq!(
        derive_end_reason(false, None, Duration::from_secs(5).as_nanos(), true),
        "user_cancelled"
    );
    assert_eq!(
        derive_end_reason(
            false,
            Some(Duration::from_secs(2).as_nanos()),
            Duration::from_secs(3).as_nanos(),
            false
        ),
        "max_duration_reached"
    );
    assert_eq!(
        derive_end_reason(
            false,
            Some(Duration::from_secs(5).as_nanos()),
            Duration::from_secs(3).as_nanos(),
            false
        ),
        "requests_completed"
    );
}

#[test]
fn worker_connection_id_assignment() {
    let ids: Vec<u64> = (0..4).map(|w| worker_connection_id(w, 2)).collect();
    assert_eq!(ids, vec![0, 1, 0, 1]);

    let ids: Vec<u64> = (0..4).map(|w| worker_connection_id(w, 4)).collect();
    assert_eq!(ids, vec![0, 1, 2, 3]);
    let distinct: std::collections::BTreeSet<u64> = ids.iter().copied().collect();
    assert_eq!(distinct.len(), 4, "N connections -> N distinct channel ids");

    assert_eq!(worker_connection_id(3, 0), 0);
}

#[test]
fn round_robin_index_picks_k_mod_n() {
    let picks: Vec<usize> = (0..7).map(|k| round_robin_index(k, 3)).collect();
    assert_eq!(picks, vec![0, 1, 2, 0, 1, 2, 0]);
    assert_eq!(round_robin_index(5, 0), 0);
}

#[test]
fn duration_stop_mode_parses_case_insensitively() {
    assert_eq!(DurationStopMode::parse(" Close "), Ok(DurationStopMode::Close));
    assert_eq!(DurationStopMode::parse("WAIT"), Ok(DurationStopMode::Wait));
    assert_eq!(DurationStopMode::parse("ignore"), Ok(DurationStopMode::Ignore));
    assert_eq!(
        DurationStopMode::parse(" Later"),
        Err("invalid duration-stop mode 'later', expected close|wait|ignore".to_string())
    );
}

#[test]
fn option_sources_have_stable_names() {
    assert_eq!(BenchOptionSource::Cli.as_str(), "cli");
    assert_eq!(BenchOptionSource::BenchSection.as_str(), "bench_section");
    assert_eq!(BenchOptionSource::Default.as_str(), "default");
}

#[test]
fn details_are_collected_only_for_the_per_response_format() {
    let mut m = BenchMetrics::for_worker(0, false, 1, 0, false);
    m.record(1, "OK", None, "svc/method", true);
    assert!(m.details.is_empty());

    let mut m = BenchMetrics::for_worker(0, false, 1, 0, true);
    m.record(1, "OK", None, "svc/method", true);
    assert_eq!(m.details.len(), 1);
}

#[test]
fn parse_bench_num_accepts_digit_separators() {
    assert_eq!(parse_bench_num("1_000", 1), 1000);
    assert_eq!(parse_bench_num("1_000_000", 100), 1_000_000);
    assert_eq!(parse_bench_num("10_000", 0), 10_000);
    assert_eq!(parse_bench_num("42", 1), 42);
    assert_eq!(parse_bench_num("nope", 7), 7);
}

#[test]
fn histogram_memory_is_bounded() {
    let mut metrics = BenchMetrics::default();
    let n = MAX_LATENCY_SAMPLES + 10;
    for i in 0..n {
        metrics.record(i as u64, "OK", None, "test", true);
    }
    assert_eq!(metrics.latency.buckets.len(), HIST_BUCKETS);
    assert_eq!(metrics.latency.total, n as u64);
    assert_eq!(metrics.count, n as u64);
}

#[test]
fn mean_is_exact() {
    let mut m = BenchMetrics::default();
    for v in [10u64, 20, 30, 40, 100] {
        m.record(v, "OK", None, "e", true);
    }
    assert_eq!(m.total_ns / m.count, 40);
}

#[test]
fn test_parse_percentile_key() {
    assert_eq!(parse_percentile_key("p(95)"), Some("95".to_string()));
    assert_eq!(
        parse_percentile_key("latency_ms.p(99.9)"),
        Some("99.9".to_string())
    );
    assert_eq!(
        parse_percentile_key("latency_ns.p(99)"),
        Some("99".to_string())
    );
    assert_eq!(parse_percentile_key("p95"), None);
}

#[test]
fn skip_first_saturates_without_panic() {
    let mut m = BenchMetrics {
        skip_first_remaining: 10,
        ..Default::default()
    };
    m.record(1, "OK", None, "e", true);
    m.record(2, "OK", None, "e", true);
    assert_eq!(m.latency.total, 0);
    let mut m2 = BenchMetrics::default();
    for v in [1, 2, 3] {
        m2.record(v, "OK", None, "e", true);
    }
    assert_eq!(m2.latency.total, 3);
}

#[test]
fn count_errors_excluded_from_latency_by_default() {
    let mut m = BenchMetrics::default();
    m.record(100, "OK", None, "e", true);
    m.record(9999, "ERROR", Some("boom"), "e", false);
    assert_eq!(m.latency.total, 1);
    assert_eq!(m.latency.buckets[100], 1);
    assert_eq!(m.endpoint("e").unwrap().latency.total, 1);
    assert_eq!(m.count, 2);
    assert_eq!(m.errors, 1);
    assert_eq!(m.slowest_ns, 9999);
}

#[test]
fn count_errors_included_when_flag_set() {
    let mut m = BenchMetrics {
        count_errors_in_latency: true,
        ..Default::default()
    };
    m.record(100, "OK", None, "e", true);
    m.record(200, "ERROR", Some("boom"), "e", false);
    assert_eq!(m.latency.total, 2);
    assert_eq!(m.latency.buckets[100], 1);
    assert_eq!(m.latency.buckets[200], 1);
    assert_eq!(m.endpoint("e").unwrap().latency.total, 2);
}

#[test]
fn grpc_status_label_mapping() {
    assert_eq!(grpc_status_label(Some(0), true), "OK");
    assert_eq!(grpc_status_label(Some(14), false), "Unavailable");
    assert_eq!(grpc_status_label(Some(5), true), "NotFound");
    assert_eq!(grpc_status_label(None, true), "OK");
    assert_eq!(grpc_status_label(None, false), "ERROR");
}

#[test]
fn record_buckets_by_real_status() {
    let mut m = BenchMetrics::with_capacity(4);
    m.record(10, "OK", None, "svc/M", true);
    m.record(20, "OK", None, "svc/M", true);
    m.record(30, "Unavailable", Some("boom"), "svc/M", false);

    assert_eq!(m.grpc_status.get("OK"), Some(2));
    assert_eq!(m.grpc_status.get("Unavailable"), Some(1));
    assert_eq!(m.ok, 2);
    assert_eq!(m.errors, 1);
}

#[test]
fn skip_first_holds_out_leading_samples_from_the_overall_distribution() {
    let mut m = BenchMetrics {
        skip_first_remaining: 2,
        ..Default::default()
    };
    for v in [9999, 9998, 10, 11, 12] {
        m.record(v, "OK", None, "e", true);
    }
    assert_eq!(m.latency.total, 3);
    assert_eq!(m.latency.min, 10);
    assert_eq!(m.latency.max, 12);
    assert_eq!(m.endpoint("e").unwrap().latency.total, 5);
}

#[test]
fn a_stride_of_two_samples_every_other_request() {
    let mut m = BenchMetrics {
        sample_stride: 2,
        ..Default::default()
    };
    for i in 0..6 {
        m.record(i, "OK", None, "e", true);
    }
    assert_eq!(m.latency.total, 3);
    assert_eq!(m.latency.buckets[0], 1);
    assert_eq!(m.latency.buckets[2], 1);
    assert_eq!(m.latency.buckets[4], 1);
    assert_eq!(m.count, 6);
}

#[test]
fn a_stride_of_max_samples_nothing() {
    let mut m = BenchMetrics {
        sample_stride: u64::MAX,
        ..Default::default()
    };
    for i in 0..4 {
        m.record(i, "OK", None, "e", true);
    }
    assert_eq!(m.latency.total, 0);
    assert_eq!(m.count, 4);
}

#[test]
fn histogram_merge_matches_recording_everything() {
    let mut whole = LatencyHistogram::default();
    let mut a = LatencyHistogram::default();
    let mut b = LatencyHistogram::default();
    for v in 1..=5_000u64 {
        a.record(v * 7);
        whole.record(v * 7);
    }
    for v in 5_001..=10_000u64 {
        b.record(v * 7);
        whole.record(v * 7);
    }
    a.merge(&b);
    assert_eq!(a.total, whole.total);
    assert_eq!(a.min, whole.min);
    assert_eq!(a.max, whole.max);
    assert_eq!(a.buckets, whole.buckets);
}

#[test]
fn every_latency_lands_in_a_bucket_that_holds_it() {
    for v in [0u64, 1, 127, 128, 129, 255, 256, 1000, 123_456_789, (1u64 << 42) - 1] {
        let i = hist_bucket_index(v);
        let (lo, hi) = hist_bucket_bounds(i);
        assert!(lo <= v && v < hi, "{v} not in bucket {i} = [{lo}, {hi})");
    }
    assert_eq!(hist_bucket_index(1u64 << 42), HIST_BUCKETS - 1);
    assert_eq!(hist_bucket_index(u64::MAX), HIST_BUCKETS - 1);
    assert_eq!(hist_bucket_bounds(128), (128, 129));
    assert_eq!(hist_bucket_bounds(256), (256, 258));
}

#[test]
fn errors_are_categorized_case_insensitively() {
    assert_eq!(categorize_error("Assertion failed"), "assert_failure");
    assert_eq!(categorize_error("DEADLINE exceeded"), "timeout");
    assert_eq!(categorize_error("connection refused"), "connection_error");
    assert_eq!(categorize_error("service Unavailable"), "unavailable");
    assert_eq!(categorize_error("malformed body"), "invalid_input");
    assert_eq!(categorize_error("boom"), "other");
    assert!(contains_fold("abcDEF", "cde"));
    assert!(!contains_fold("abc", ""));
    assert!(!contains_fold("ab", "abc"));
}

#[test]
fn threshold_expressions_split_into_operator_and_value() {
    assert_eq!(
        parse_threshold_expr(" <= 250ms "),
        ("<=".to_string(), "250ms".to_string())
    );
    assert_eq!(parse_threshold_expr(">5"), (">".to_string(), "5".to_string()));
    assert_eq!(parse_threshold_expr("42"), ("".to_string(), "42".to_string()));
    assert_eq!(invert_op("<"), ">=");
    assert_eq!(invert_op("<="), ">");
    assert_eq!(invert_op(">"), "<=");
    assert_eq!(invert_op(">="), "<");
    assert_eq!(invert_op("=="), "!=");
    assert_eq!(
        parse_latency_percentiles(" p50, p99,,p99.9 "),
        vec!["p50".to_string(), "p99".to_string(), "p99.9".to_string()]
    );
}

#[test]
fn unknown_grpc_codes_are_named_by_number() {
    assert_eq!(grpc_status_label(Some(42), false), "CODE_42");
}

#[test]
fn merging_worker_metrics_adds_every_count() {
    let mut a = BenchMetrics::with_capacity(0);
    a.record(10, "OK", None, "svc/A", true);
    a.record(50, "Unavailable", Some("connection reset"), "svc/B", false);
    let mut b = BenchMetrics::with_capacity(0);
    b.record(5, "OK", None, "svc/A", true);
    b.record(70, "OK", None, "svc/C", true);
    a.merge_from(b);
    assert_eq!(a.count, 4);
    assert_eq!(a.ok, 3);
    assert_eq!(a.errors, 1);
    assert_eq!(a.passed, 3);
    assert_eq!(a.failed, 1);
    assert_eq!(a.total_ns, 135);
    assert_eq!(a.fastest_ns, 5);
    assert_eq!(a.slowest_ns, 70);
    assert_eq!(a.grpc_status.get("OK"), Some(3));
    assert_eq!(a.grpc_status.get("ERROR"), Some(0));
    assert_eq!(a.grpc_status.get("Unavailable"), Some(1));
    assert_eq!(a.error_dist.get("connection_error"), Some(1));
    assert_eq!(a.endpoint("svc/A").unwrap().count, 2);
    assert_eq!(a.endpoint("svc/B").unwrap().errors, 1);
    assert_eq!(a.endpoint("svc/C").unwrap().latency.total, 1);
    assert_eq!(a.latency.total, 3);
}

#[test]
fn record_arrival_counts_a_finished_arrival_and_ignores_a_lost_one() {
    let mut m = BenchMetrics::with_capacity(4);
    record_arrival(&mut m, None);
    assert_eq!(m.count, 0);
    record_arrival(
        &mut m,
        Some(ArrivalOutcome {
            lat_ns: 40,
            status: "Unavailable".to_string(),
            error: Some("connection refused".to_string()),
            endpoint: "svc/M".to_string(),
            passed: false,
        }),
    );
    assert_eq!(m.count, 1);
    assert_eq!(m.errors, 1);
    assert_eq!(m.failed, 1);
    assert_eq!(m.total_ns, 40);
    assert_eq!(m.grpc_status.get("Unavailable"), Some(1));
    assert_eq!(m.endpoint("svc/M").map(|e| e.count), Some(1));
}

fn metrics_with_latencies(samples: &[u64]) -> BenchMetrics {
    let mut m = BenchMetrics::default();
    for &s in samples {
        m.latency.record(s);
    }
    m
}

#[test]
fn to_histogram_zero_width_no_panic() {
    let metrics = metrics_with_latencies(&[10, 10, 11, 12, 12]);
    // (max-min)/bucket_count = (12-10)/10 = 0 in integer math -> was a panic.
    let buckets = metrics.to_histogram(10);
    assert!(!buckets.is_empty());
    let total: u64 = buckets.iter().map(|b| b.count).sum();
    assert_eq!(total, 5);
}

#[test]
fn to_histogram_spans_the_observed_range_in_equal_widths() {
    let metrics = metrics_with_latencies(&[0, 25, 50, 99, 100]);
    let buckets = metrics.to_histogram(4);
    assert_eq!(buckets.len(), 4);
    assert_eq!((buckets[0].lower_ns, buckets[0].upper_ns), (0, 25));
    assert_eq!((buckets[3].lower_ns, buckets[3].upper_ns), (75, 100));
    let counts: Vec<u64> = buckets.iter().map(|b| b.count).collect();
    assert_eq!(counts, vec![1, 1, 1, 2]);
}

#[test]
fn to_histogram_of_one_value_is_one_bucket() {
    let metrics = metrics_with_latencies(&[7, 7, 7]);
    let buckets = metrics.to_histogram(10);
    assert_eq!(buckets.len(), 1);
    assert_eq!((buckets[0].lower_ns, buckets[0].upper_ns, buckets[0].count), (7, 7, 3));
}

#[test]
fn to_histogram_of_nothing_is_empty() {
    assert!(BenchMetrics::default().to_histogram(10).is_empty());
    assert!(metrics_with_latencies(&[1, 2]).to_histogram(0).is_empty());
}

#[test]
fn rank_bucket_finds_the_bucket_of_each_rank() {
    let metrics = metrics_with_latencies(&[10, 20, 20, 30]);
    let h = &metrics.latency;
    let first = h.rank_bucket(1).unwrap();
    assert_eq!((first.lower_ns, first.before, first.count), (10, 0, 1));
    let second = h.rank_bucket(3).unwrap();
    assert_eq!((second.lower_ns, second.upper_ns, second.before, second.count), (20, 21, 1, 2));
    let last = h.rank_bucket(4).unwrap();
    assert_eq!((last.lower_ns, last.before), (30, 3));
    assert!(h.rank_bucket(5).is_none());
    assert!(BenchMetrics::default().latency.rank_bucket(1).is_none());
}

#[test]
fn bump_counts_a_label_from_one() {
    let mut m = BenchMetrics::with_capacity(1);
    m.error_dist.bump("timeout");
    m.error_dist.bump("timeout");
    m.error_dist.bump("refused");
    assert_eq!(m.error_dist.get("timeout"), Some(2));
    assert_eq!(m.error_dist.get("refused"), Some(1));
}

#[test]
fn every_recorded_response_is_tallied_once() {
    let mut m = BenchMetrics::with_capacity(4);
    m.record(5, "OK", None, "e", true);
    m.record(6, "Unavailable", Some("down"), "e", false);
    m.record(7, "", None, "e", false);
    assert_eq!(m.ok + m.errors, m.count);
    assert_eq!(m.passed + m.failed, m.count);
    assert_eq!((m.ok, m.errors, m.passed, m.failed), (2, 1, 1, 2));
}

#[test]
fn status_and_endpoint_counts_sum_to_the_count() {
    let mut m = BenchMetrics::with_capacity(4);
    m.record(5, "OK", None, "a", true);
    m.record(6, "Unavailable", Some("down"), "b", false);
    m.record(7, "OK", None, "a", true);
    m.record(8, "", None, "c", true);
    let statuses: u64 = m.grpc_status.entries.iter().map(|(_, n)| *n).sum();
    let endpoints: u64 = m.per_endpoint.iter().map(|(_, d)| d.count).sum();
    assert_eq!(statuses, m.count);
    assert_eq!(endpoints, m.count);
    assert_eq!(m.count, 4);
    assert!(m.latency.total <= m.count);
}

#[test]
fn histogram_merge_is_lossless() {
    let mut whole = LatencyHistogram::default();
    let mut a = LatencyHistogram::default();
    let mut b = LatencyHistogram::default();
    for v in 1..=50_000u64 {
        a.record(v);
        whole.record(v);
    }
    for v in 50_001..=100_000u64 {
        b.record(v);
        whole.record(v);
    }
    a.merge(&b);
    assert_eq!(a.total, whole.total);
    assert_eq!(a.min, whole.min);
    assert_eq!(a.max, whole.max);
    assert_eq!(a.buckets, whole.buckets);
    // The ranks of p50, p90, p95, p99 and p99.9 of 100 000 samples land in the
    // same buckets of both histograms.
    for rank in [50_000u64, 90_000, 95_000, 99_000, 99_900] {
        assert_eq!(a.rank_bucket(rank), whole.rank_bucket(rank), "rank {rank}");
    }
}

#[test]
fn skip_first_discards_leading_samples() {
    let mut m = BenchMetrics { skip_first_remaining: 2, ..Default::default() };
    for v in [9999, 9998, 10, 11, 12] {
        m.record(v, "OK", None, "e", true);
    }
    // The two warm-up outliers never enter the global histogram.
    assert_eq!(m.latency.total, 3);
    assert_eq!(m.latency.min, 10);
    assert_eq!(m.latency.max, 12);
    // The top rank lands in the bucket of the largest kept sample.
    assert_eq!(m.latency.rank_bucket(3).map(|b| b.lower_ns), Some(12));
    // Per-endpoint stats keep every sample (skip gates only the global one).
    assert_eq!(m.endpoint("e").map(|e| e.latency.total), Some(5));
}

#[test]
fn sample_rate_records_every_nth() {
    // A rate of 0.5 is a stride of 2.
    let mut m = BenchMetrics { sample_stride: 2, ..Default::default() };
    for i in 0..6 {
        m.record(i, "OK", None, "e", true);
    }
    // stride 2 -> records requests 1,3,5 (i = 0,2,4); all 6 still counted.
    assert_eq!(m.latency.total, 3);
    assert_eq!(m.latency.buckets[0], 1);
    assert_eq!(m.latency.buckets[2], 1);
    assert_eq!(m.latency.buckets[4], 1);
    assert_eq!(m.count, 6);
}

#[test]
fn sample_rate_full_records_all() {
    // A rate of 1.0 is a stride of 1.
    let mut m = BenchMetrics { sample_stride: 1, ..Default::default() };
    for i in 0..4 {
        m.record(i, "OK", None, "e", true);
    }
    assert_eq!(m.latency.total, 4);
}

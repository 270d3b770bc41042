use grpctestify::commands::bench::{BenchOptionSource, DurationStopMode};
use grpctestify::commands::bench_config::{apply_bench_section, from_bench_section, BenchConfig};
use grpctestify::commands::bench_plan::default_connections;

fn section(items: &[(&str, &str)]) -> Vec<(String, String)> {
    items.iter().map(|(k, v)| (k.to_string(), v.to_string())).collect()
}

fn source_of(c: &BenchConfig, key: &str) -> Option<BenchOptionSource> {
    c.option_sources.iter().find(|(k, _)| k == key).map(|(_, s)| *s)
}

#[test]
fn an_explicit_connection_count_is_never_overridden() {
    let bench = section(&[("concurrency", "300"), ("connections", "1")]);
    let config = from_bench_section(Some(&bench), 16).unwrap();
    assert_eq!(config.connections, 1);
    assert_eq!(source_of(&config, "connections"), Some(BenchOptionSource::BenchSection));
}

#[test]
fn an_unset_connection_count_follows_concurrency() {
    let bench = section(&[("concurrency", "300")]);
    let config = from_bench_section(Some(&bench), 16).unwrap();
    assert_eq!(config.connections, default_connections(300, 16));
    assert_eq!(source_of(&config, "connections"), Some(BenchOptionSource::Default));
}

#[test]
fn a_pool_larger_than_the_workers_is_refused() {
    let bench = section(&[("concurrency", "2"), ("connections", "4")]);
    assert_eq!(
        from_bench_section(Some(&bench), 16).err(),
        Some("connections (4) cannot exceed concurrency (2)".to_string())
    );
    let zero = section(&[("connections", "0")]);
    assert_eq!(
        from_bench_section(Some(&zero), 16).err(),
        Some("connections must be greater than 0".to_string())
    );
}

#[test]
fn a_duration_leaves_no_request_count() {
    let bench = section(&[("requests", "1_000"), ("duration", "10s")]);
    let config = from_bench_section(Some(&bench), 4).unwrap();
    assert_eq!(config.requests, None);
    assert_eq!(config.timing, section(&[("duration", "10s")]));
    let counted = from_bench_section(Some(&section(&[("requests", "1_000")])), 4).unwrap();
    assert_eq!(counted.requests, Some(1000));
}

#[test]
fn an_invalid_duration_stop_is_refused() {
    let bench = section(&[("duration_stop", " Sideways ")]);
    assert_eq!(
        from_bench_section(Some(&bench), 4).err(),
        Some("invalid duration-stop mode 'sideways', expected close|wait|ignore".to_string())
    );
}

#[test]
fn the_section_sets_options_sources_and_thresholds() {
    let mut c = BenchConfig::new();
    let bench = section(&[
        ("mode", "open"),
        ("concurrency_schedule", "  STEP "),
        ("concurrency_start", "nope"),
        ("no_assert", "1"),
        ("duration_stop", "CLOSE"),
        ("latency_percentiles", "p50, p99"),
        ("thresholds.p99", "< 200ms"),
        ("max_rps", "1_000"),
    ]);
    assert_eq!(apply_bench_section(&mut c, &bench), Ok(()));
    assert_eq!(c.mode, "open");
    assert_eq!(c.concurrency_schedule, "step");
    assert_eq!(c.concurrency_start, Some(1));
    assert!(c.no_assert);
    assert_eq!(c.duration_stop, DurationStopMode::Close);
    assert_eq!(c.latency_percentiles, vec!["p50".to_string(), "p99".to_string()]);
    assert_eq!(c.thresholds, section(&[("p99", "< 200ms")]));
    assert_eq!(c.timing, section(&[("max_rps", "1_000")]));
    assert_eq!(source_of(&c, "mode"), Some(BenchOptionSource::BenchSection));
    assert_eq!(source_of(&c, "load_start"), Some(BenchOptionSource::Default));
    assert_eq!(source_of(&c, "profile"), None);
    assert_eq!(c.profile, "functional");
}

use grpctestify::commands::explain::{sorted_bench_key_values, sorted_key_values};

fn pairs(items: &[(&str, &str)]) -> Vec<(String, String)> {
    items.iter().map(|(k, v)| (k.to_string(), v.to_string())).collect()
}

#[test]
fn key_values_print_by_key() {
    let out = sorted_key_values(pairs(&[("timeout", "5"), ("retry", "2"), ("compression", "gzip")]));
    assert_eq!(out, pairs(&[("compression", "gzip"), ("retry", "2"), ("timeout", "5")]));
}

#[test]
fn bench_values_print_in_canonical_order_then_by_key() {
    let out = sorted_bench_key_values(pairs(&[
        ("duration", "10s"),
        ("zz_unknown", "1"),
        ("mode", "open"),
        ("aa_unknown", "2"),
        ("concurrency", "8"),
    ]));
    let keys: Vec<&str> = out.iter().map(|(k, _)| k.as_str()).collect();
    assert_eq!(keys, vec!["mode", "concurrency", "duration", "aa_unknown", "zz_unknown"]);
}

#[test]
fn listing_is_the_same_for_every_walk_order() {
    let walk_a = pairs(&[("rps", "100"), ("mode", "open"), ("warmup", "2s"), ("x_extra", "1")]);
    let walk_b = pairs(&[("x_extra", "1"), ("warmup", "2s"), ("rps", "100"), ("mode", "open")]);
    assert_eq!(
        sorted_bench_key_values(walk_a.clone()),
        sorted_bench_key_values(walk_b.clone())
    );
    assert_eq!(sorted_key_values(walk_a), sorted_key_values(walk_b));
}

use grpctestify::commands::truncate_str;

#[test]
fn truncate_str_short_string_unchanged() {
    assert_eq!(truncate_str("hi", 10), "hi");
}

#[test]
fn truncate_str_exact_length_unchanged() {
    assert_eq!(truncate_str("hello", 5), "hello");
}

#[test]
fn truncate_str_long_string_truncated() {
    assert_eq!(truncate_str("hello world", 8), "hello...");
}

#[test]
fn truncate_str_max_len_less_than_3_returns_original() {
    // Must not panic; returns original string when max_len < 3.
    assert_eq!(truncate_str("hello", 2), "hello");
    assert_eq!(truncate_str("hello", 0), "hello");
}

#[test]
fn truncate_str_keeps_a_multibyte_prefix_whole() {
    // "ééé" is six bytes; cutting at a char boundary keeps whole characters.
    assert_eq!(truncate_str("éééé", 7), "éé...");
}

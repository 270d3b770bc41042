use grpctestify::commands::check::{
    preamble_section_order, rhai_boolean_plugin_names, rhai_plugin_names, validation_hint,
    PluginInfo,
};
use grpctestify::parser::{GctfDocument, Section, SectionContent, SectionType};

fn doc_with_sections(sections: Vec<Section>) -> GctfDocument {
    GctfDocument {
        file_path: "test.gctf".to_string(),
        sections,
    }
}

fn kv_section(ty: SectionType, kv: &[(&str, &str)]) -> Section {
    let raw: Vec<String> = kv.iter().map(|(k, v)| format!("{k}: {v}")).collect();
    Section {
        section_type: ty,
        content: SectionContent::KeyValues,
        inline_options: Vec::new(),
        raw_content: raw.join("\n"),
        start_line: 0,
        end_line: 0,
        attributes: Vec::new(),
    }
}

fn body_section(ty: SectionType) -> Section {
    Section {
        section_type: ty,
        content: SectionContent::Empty,
        inline_options: Vec::new(),
        raw_content: String::new(),
        start_line: 0,
        end_line: 0,
        attributes: Vec::new(),
    }
}

#[test]
fn check_preamble_order_clean() {
    let doc = doc_with_sections(vec![
        kv_section(SectionType::Meta, &[]),
        kv_section(SectionType::Bench, &[("mode", "fixed")]),
        kv_section(SectionType::Address, &[("addr", "localhost")]),
        kv_section(SectionType::Endpoint, &[("ep", "svc/method")]),
        kv_section(SectionType::Options, &[("timeout", "10")]),
    ]);
    let issues = preamble_section_order(&doc);
    assert!(issues.is_empty(), "Expected no ordering issues, got {:?}", issues);
}

#[test]
fn check_preamble_order_violation_options_before_bench() {
    let doc = doc_with_sections(vec![
        kv_section(SectionType::Options, &[]),
        kv_section(SectionType::Bench, &[("mode", "fixed")]),
    ]);
    let issues = preamble_section_order(&doc);
    assert_eq!(issues.len(), 1);
    assert!(issues[0].1.contains("BENCH should come before OPTIONS"));
}

#[test]
fn check_preamble_order_violation_address_before_bench() {
    let doc = doc_with_sections(vec![
        kv_section(SectionType::Address, &[]),
        kv_section(SectionType::Bench, &[]),
    ]);
    let issues = preamble_section_order(&doc);
    assert_eq!(issues.len(), 1);
    assert!(issues[0].1.contains("BENCH should come before ADDRESS"));
}

#[test]
fn check_preamble_order_multiple_violations() {
    let doc = doc_with_sections(vec![
        kv_section(SectionType::Options, &[]),
        kv_section(SectionType::Address, &[]),
        kv_section(SectionType::Bench, &[]),
    ]);
    let issues = preamble_section_order(&doc);
    assert_eq!(issues.len(), 2);
}

#[test]
fn check_preamble_order_body_sections_unaffected() {
    let doc = doc_with_sections(vec![
        kv_section(SectionType::Meta, &[]),
        kv_section(SectionType::Options, &[]),
        body_section(SectionType::Request),
        body_section(SectionType::Response),
    ]);
    let issues = preamble_section_order(&doc);
    assert!(issues.is_empty());
}

#[test]
fn section_order_hint_promises_fmt_autofix() {
    let doc = doc_with_sections(vec![
        kv_section(SectionType::Address, &[]),
        kv_section(SectionType::Bench, &[]),
    ]);
    let issues = preamble_section_order(&doc);
    let hint = &issues[0].2;
    assert!(hint.contains("fmt --write"), "fmt now reorders preamble sections for real: {hint}");
}

#[test]
fn order_warnings_point_at_the_misplaced_header() {
    let mut bench = kv_section(SectionType::Bench, &[]);
    bench.start_line = 6;
    let doc = doc_with_sections(vec![kv_section(SectionType::Tls, &[]), bench]);
    let issues = preamble_section_order(&doc);
    assert_eq!(issues[0].0, 7);
    assert_eq!(issues[0].1, "BENCH should come before TLS");
}

#[test]
fn validation_messages_get_their_hints() {
    assert_eq!(
        validation_hint("line 3: OPTIONS.timeout must be a positive integer, got -1"),
        Some("Set timeout to a positive integer, e.g. `timeout: 30`")
    );
    assert_eq!(
        validation_hint("Attribute #[no-retry] is deprecated"),
        Some("Use `#[no_retry(...)]` instead of `#[no-retry(...)]`")
    );
    assert_eq!(validation_hint("something else"), None);
}

#[test]
fn plugin_names_are_listed_once_and_filtered_by_signature() {
    let plugin = |name: &str, boolean: bool| PluginInfo {
        name: name.to_string(),
        returns_bool: boolean,
        safe_for_rewrite: true,
        deterministic: true,
        idempotent: true,
    };
    let plugins = vec![plugin("a", true), plugin("b", false), plugin("a", true)];
    let mut all = rhai_plugin_names(&plugins);
    all.sort();
    assert_eq!(all, vec!["a".to_string(), "b".to_string()]);
    assert_eq!(rhai_boolean_plugin_names(&plugins), vec!["a".to_string()]);
}

use grpctestify::commands::docs::{
    call_shape, md_cell, md_code, one_line, page_file, page_files, path_group, service_key,
    tool_of, unresolved_names,
};

fn file_of<'a>(files: &'a [(String, String)], group: &str) -> Option<&'a str> {
    files.iter().find(|(g, _)| g == group).map(|(_, f)| f.as_str())
}

#[test]
fn service_key_joins_package_and_service() {
    assert_eq!(service_key("users", "UserService"), "users.UserService");
}

#[test]
fn service_key_bare_service_when_no_package() {
    assert_eq!(service_key("", "Calculator"), "Calculator");
}

#[test]
fn the_shape_counts_the_messages_a_run_sends() {
    assert_eq!(call_shape(1, 1, false).as_deref(), Some("unary"));
    assert_eq!(call_shape(3, 1, false).as_deref(), Some("client streaming"));
    assert_eq!(call_shape(1, 4, false).as_deref(), Some("server streaming"));
    assert_eq!(
        call_shape(2, 2, false).as_deref(),
        Some("bidirectional streaming")
    );
    assert_eq!(
        call_shape(1, 0, true).as_deref(),
        Some("unary, expects an error")
    );
    assert_eq!(call_shape(1, 0, false), None);
}

#[test]
fn the_names_a_line_still_carries_are_listed_once_in_order() {
    assert_eq!(
        unresolved_names(&["a {{one}} b {{two}}", "c {{one}}"]),
        vec!["one".to_string(), "two".to_string()],
    );
    assert!(unresolved_names(&["nothing here", "{{unclosed"]).is_empty());
}

#[test]
fn a_path_is_filed_by_its_root_however_it_is_written() {
    assert_eq!(path_group("/v1/users"), "/v1");
    assert_eq!(path_group("v1/users"), "/v1");
    assert_eq!(path_group("/v1/users?full=true"), "/v1");
    assert_eq!(path_group("https://api.example.com/v1/users"), "/v1");
    assert_eq!(path_group("/data.json"), "/data.json");
    assert_eq!(path_group("/"), "/");
    assert_eq!(page_file("/v1"), "v1.md");
    assert_eq!(page_file("/"), "root.md");
    assert_eq!(page_file("pkg.Svc"), "pkg.Svc.md");
    assert_eq!(page_file("/a|b"), "a-b.md");
    assert_eq!(page_file("/v1/users"), "v1-users.md");
}

#[test]
fn a_value_cannot_break_the_markdown_it_is_written_into() {
    assert_eq!(md_code("plain"), "`plain`");
    assert_eq!(md_code("has `one` inside"), "``has `one` inside``");
    assert_eq!(md_code("``two``"), "``` ``two`` ```");
    assert_eq!(md_cell("a|b"), "a\\|b");
    assert_eq!(md_cell("line1\nline2"), "line1 line2");
}

#[test]
fn values_are_flattened_and_tools_named() {
    assert_eq!(one_line("  two\nlines\r "), "two lines");
    assert_eq!(md_cell("a\\b"), "a\\\\b");
    assert_eq!(tool_of("grpcurl -plaintext x"), "grpcurl");
    assert_eq!(tool_of("   "), "sh");
    assert_eq!(unresolved_names(&["{{ a }} {{}} {{a}}"]), vec!["a".to_string()]);
}

#[test]
fn two_pages_never_claim_one_file() {
    let files = page_files(&vec!["/v1".to_string(), "v1".to_string(), "pkg.Svc".to_string()]);
    assert_eq!(file_of(&files, "/v1"), Some("v1.md"));
    assert_eq!(file_of(&files, "v1"), Some("v1-2.md"));
    assert_eq!(file_of(&files, "pkg.Svc"), Some("pkg.Svc.md"));
    let mut names: Vec<&String> = files.iter().map(|(_, f)| f).collect();
    names.sort();
    names.dedup();
    assert_eq!(names.len(), 3);
}

#[test]
fn numbered_names_skip_ones_already_taken() {
    let files = page_files(&vec![
        "a".to_string(),
        "a-2".to_string(),
        "/a".to_string(),
        "a.md".to_string(),
    ]);
    assert_eq!(file_of(&files, "a"), Some("a.md"));
    assert_eq!(file_of(&files, "a-2"), Some("a-2.md"));
    assert_eq!(file_of(&files, "/a"), Some("a-3.md"));
    assert_eq!(file_of(&files, "a.md"), Some("a.md.md"));
}

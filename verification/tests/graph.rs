use grpctestify::commands::graph::{mermaid_escape, node_label, render_mermaid, render_text, GraphGroup};

fn group(dir: &str, setup: Option<&str>, tests: &[&str], teardown: Option<&str>) -> GraphGroup {
    GraphGroup {
        dir: dir.to_string(),
        setup: setup.map(str::to_string),
        tests: tests.iter().map(|t| t.to_string()).collect(),
        teardown: teardown.map(str::to_string),
    }
}

#[test]
fn render_text_orders_setup_tests_teardown() {
    let groups = vec![group(
        "tests/users",
        Some("_setup.gctf"),
        &["get.gctf", "list.gctf"],
        Some("_teardown.gctf"),
    )];
    let text = render_text(&groups);
    let setup_pos = text.find("_setup.gctf (setup)").unwrap();
    let get_pos = text.find("get.gctf").unwrap();
    let list_pos = text.find("list.gctf").unwrap();
    let teardown_pos = text.find("_teardown.gctf (teardown)").unwrap();
    assert!(setup_pos < get_pos);
    assert!(get_pos < list_pos);
    assert!(list_pos < teardown_pos);
    assert!(text.trim_end().ends_with("_teardown.gctf (teardown)"));
}

#[test]
fn render_text_directory_without_fixtures_lists_tests_only() {
    let groups = vec![group("tests/plain", None, &["a.gctf"], None)];
    let text = render_text(&groups);
    assert!(!text.contains("setup"));
    assert!(!text.contains("teardown"));
    assert!(text.contains("a.gctf"));
}

#[test]
fn render_mermaid_links_setup_to_tests_to_teardown() {
    let groups = vec![group(
        "tests/users",
        Some("_setup.gctf"),
        &["get.gctf"],
        Some("_teardown.gctf"),
    )];
    let mermaid = render_mermaid(&groups);
    assert!(mermaid.starts_with("```mermaid\nflowchart TD\n"));
    assert!(mermaid.contains("n0 --> n1"));
    assert!(mermaid.contains("n1 --> n2"));
    assert!(mermaid.trim_end().ends_with("```"));
}

#[test]
fn render_mermaid_setup_links_directly_to_teardown_when_no_tests() {
    let groups = vec![group(
        "tests/empty",
        Some("_setup.gctf"),
        &[],
        Some("_teardown.gctf"),
    )];
    let mermaid = render_mermaid(&groups);
    assert!(mermaid.contains("n0 --> n1"));
}

#[test]
fn render_text_draws_branches_and_a_root_dot() {
    let groups = vec![group("", None, &["a.gctf", "b.gctf"], None)];
    assert_eq!(render_text(&groups), ".\n├─ a.gctf\n└─ b.gctf\n\n");
}

#[test]
fn render_mermaid_numbers_subgraphs_and_nodes_across_directories() {
    let groups = vec![
        group("a", None, &["x.gctf"], None),
        group("b", Some("s.gctf"), &["y \"q\".gctf"], None),
    ];
    let mermaid = render_mermaid(&groups);
    assert_eq!(
        mermaid,
        "```mermaid\nflowchart TD\n  subgraph s0[\"a\"]\n    n0[\"x.gctf\"]\n  end\n  subgraph s1[\"b\"]\n    n1[\"s.gctf\"]\n    n2[\"y &quot;q&quot;.gctf\"]\n    n1 --> n2\n  end\n```\n"
    );
}

#[test]
fn labels_name_the_steps_of_a_chain() {
    let steps = vec!["AddItem".to_string(), "Checkout".to_string()];
    assert_eq!(node_label("chain.gctf", &steps), "chain.gctf (AddItem → Checkout)");
    assert_eq!(node_label("single.gctf", &vec!["AddItem".to_string()]), "single.gctf");
    assert_eq!(mermaid_escape("a\"b"), "a&quot;b");
}

use grpctestify::commands::docs::render_pages;
use grpctestify::commands::docs_render::{
    render_dataset, render_index, render_sequence_diagram, render_service_page, render_step,
    render_step_elsewhere, FlowStep, MethodFlow,
};

fn step() -> FlowStep {
    FlowStep {
        endpoint: None,
        group: None,
        call_line: None,
        grpcurl_line: None,
        method: None,
        requests: Vec::new(),
        responses: Vec::new(),
        error: None,
        asserts: Vec::new(),
        extracts: Vec::new(),
        runtime: Vec::new(),
        shape: None,
        headers: Vec::new(),
        dataset: Vec::new(),
    }
}

fn pair(a: &str, b: &str) -> (String, String) {
    (a.to_string(), b.to_string())
}

#[test]
fn render_sequence_diagram_marks_error_steps_distinctly() {
    let mut get = step();
    get.method = Some("Get".to_string());
    get.responses = vec!["{}".to_string()];
    let mut delete = step();
    delete.method = Some("Delete".to_string());
    delete.error = Some("{\n  \"code\": 5\n}".to_string());
    let diagram = render_sequence_diagram(&vec![get, delete]);
    assert!(diagram.contains("Client->>Server: Get"));
    assert!(diagram.contains("Client->>Server: Delete"));
    assert!(diagram.contains("Server-->>Client: response"));
    assert!(diagram.contains("Server-->>Client: error"));
    assert!(diagram.starts_with("```mermaid\nsequenceDiagram\n"));
    assert!(diagram.ends_with("```\n\n"));
}

#[test]
fn render_dataset_counts_and_tables_the_rows() {
    let rows = vec![vec![pair("who", "Ada")], vec![pair("who", "Grace")]];
    let md = render_dataset(&rows);
    assert!(md.starts_with("Runs once per `DATASET` row — 2 rows:\n\n"), "{md}");
    assert!(md.contains("| `who` |\n|---|\n"), "{md}");
    assert!(md.contains("| Ada |") && md.contains("| Grace |"), "{md}");
    assert!(md.contains("substituting `{{dataset.<column>}}` as it goes."), "{md}");
}

#[test]
fn render_dataset_escapes_a_cell_and_says_one_row() {
    let md = render_dataset(&vec![vec![pair("who", "a|b")]]);
    assert!(md.contains("— 1 row:"), "one row is not `1 rows`: {md}");
    assert!(md.contains("| a\\|b |"), "{md}");
}

#[test]
fn a_dataset_lists_every_column_once_and_leaves_missing_cells_empty() {
    let rows = vec![
        vec![pair("a", "1"), pair("b", "2")],
        vec![pair("b", "3"), pair("c", "4")],
    ];
    let md = render_dataset(&rows);
    assert!(md.contains("| `a` | `b` | `c` |\n|---|---|---|\n"), "{md}");
    assert!(md.contains("| 1 | 2 |  |\n"), "{md}");
    assert!(md.contains("|  | 3 | 4 |\n"), "{md}");
    assert_eq!(render_dataset(&Vec::new()), "");
}

#[test]
fn render_step_lists_the_settings_a_run_applies() {
    let mut s = step();
    s.runtime = vec![pair("timeout", "5 s"), pair("retries", "3, 1 s apart")];
    let md = render_step(&s);
    assert!(md.contains("- timeout: `5 s`"), "{md}");
    assert!(md.contains("- retries: `3, 1 s apart`"), "{md}");
    assert!(md.contains("`grpctestify run` applies the rest"), "{md}");
    assert!(md.contains("The timeout is on the lines above."), "{md}");

    let mut only_timeout = step();
    only_timeout.runtime = vec![pair("timeout", "5 s")];
    assert_eq!(render_step(&only_timeout), "Runs with:\n\n- timeout: `5 s`\n\n");
}

#[test]
fn render_step_of_an_empty_step_is_empty() {
    assert_eq!(render_step(&step()), "");
}

#[test]
fn render_step_names_the_shape_and_the_unfilled_placeholders() {
    let mut s = step();
    s.endpoint = Some("feed.Svc/Watch".to_string());
    s.shape = Some("server streaming".to_string());
    s.call_line = Some(
        "grpctestify call feed.Svc/Watch -H 'authorization: Bearer {{token}}'".to_string(),
    );
    s.grpcurl_line = Some(
        "grpcurl -plaintext -H 'authorization: Bearer {{token}}' -d '{}' localhost:4770 feed.Svc/Watch"
            .to_string(),
    );
    let md = render_step(&s);
    assert!(md.contains("`feed.Svc/Watch` — server streaming"), "{md}");
    assert!(md.contains("still name `{{token}}`"), "{md}");
    assert!(md.contains("The lines above still name `{{token}}` — `grpctestify run` reads it"), "{md}");
    assert!(md.contains("Call it with `grpctestify`:\n\n```sh\ngrpctestify call"), "{md}");
    assert!(md.contains("The same call with `grpcurl`:\n\n```sh\ngrpcurl -plaintext"), "{md}");

    let mut one = step();
    one.grpcurl_line = Some("grpcurl -d '{\"a\":\"{{x}}\"}' h:1 S/M".to_string());
    let md = render_step(&one);
    assert!(md.contains("The line above still names `{{x}}` — `grpctestify run` reads it"), "{md}");
}

#[test]
fn a_curl_call_does_not_name_a_grpc_shape() {
    let mut s = step();
    s.endpoint = Some("GET /health".to_string());
    s.shape = Some("unary".to_string());
    s.call_line = Some("curl -sS http://h/health".to_string());
    let md = render_step(&s);
    assert!(md.starts_with("**Endpoint:** `GET /health`\n\n"), "{md}");
    assert!(md.contains("Call it with `curl`:\n\n```sh\ncurl -sS http://h/health\n```\n\n"), "{md}");
}

#[test]
fn messages_are_written_one_block_each() {
    let mut s = step();
    s.requests = vec!["{}".to_string()];
    s.responses = vec!["{\n  \"n\": 1\n}".to_string(), "{\n  \"n\": 2\n}".to_string()];
    s.error = None;
    s.asserts = vec![".n > 0".to_string()];
    s.extracts = vec![pair("n", ".n")];
    let md = render_step(&s);
    assert!(md.contains("Request:\n\n```json\n{}\n```\n\n"), "{md}");
    assert!(md.contains("Response — 2 messages, in order:\n\n```json\n{\n  \"n\": 1\n}\n```\n\n```json\n"), "{md}");
    assert!(md.contains("Asserts:\n\n- `.n > 0`\n\n"), "{md}");
    assert!(md.contains("Extracts, for the steps after this one:\n\n- `{{n}}` = `.n`\n\n"), "{md}");
}

#[test]
fn render_service_page_links_a_step_filed_elsewhere() {
    let mut health = step();
    health.endpoint = Some("GET /api/health".to_string());
    health.group = Some("/api".to_string());
    health.method = Some("GET /api/health".to_string());
    health.extracts = vec![pair("who", ".status")];
    let mut call = step();
    call.endpoint = Some("pkg.Svc/M".to_string());
    call.group = Some("pkg.Svc".to_string());
    call.method = Some("M".to_string());
    call.responses = vec!["{}".to_string()];
    let flow = MethodFlow {
        file: "checkout.apif".to_string(),
        title: "checkout".to_string(),
        summary: None,
        tags: Vec::new(),
        owner: None,
        links: Vec::new(),
        steps: vec![health, call],
    };
    let files = vec![pair("/api", "api.md"), pair("pkg.Svc", "pkg.Svc.md")];
    let md = render_service_page("pkg.Svc", &vec![flow], None, &files);
    assert!(md.starts_with("# pkg.Svc\n\n## checkout\n\n"), "{md}");
    assert!(md.contains("Run the file:\n\n```sh\ngrpctestify run checkout.apif\n```\n\n"), "{md}");
    assert!(md.contains("### Step 1\n\n**Endpoint:** `GET /api/health` — documented under [/api](api.md)\n\n"), "{md}");
    assert!(md.contains("Binds, for the steps after it:\n\n- `{{who}}` = `.status`\n\n"), "{md}");
    assert!(md.contains("### Step 2\n\n**Endpoint:** `pkg.Svc/M`\n\nResponse:\n\n"), "{md}");
    assert!(md.ends_with("---\n\n"), "{md}");
}

#[test]
fn render_service_page_writes_the_file_metadata_and_headers() {
    let mut s = step();
    s.headers = vec![pair("x-weird", "has `backtick` inside")];
    let flow = MethodFlow {
        file: "a.gctf".to_string(),
        title: "two\nlines".to_string(),
        summary: Some("Checks a thing.".to_string()),
        tags: vec!["smoke".to_string(), "api".to_string()],
        owner: Some("team-a".to_string()),
        links: vec!["https://example.com/doc".to_string()],
        steps: vec![s],
    };
    let md = render_service_page("svc", &vec![flow], Some("**Coverage:** 2/5 methods called (40.0%)\n"), &Vec::new());
    assert!(md.starts_with("# svc\n\n**Coverage:** 2/5 methods called (40.0%)\n\n## two lines\n\n"), "{md}");
    assert!(md.contains("Checks a thing.\n\nTags: `smoke`, `api`\n\nOwner: team-a\n\n"), "{md}");
    assert!(md.contains("Links:\n\n- <https://example.com/doc>\n\n"), "{md}");
    assert!(md.contains("Headers:\n\n- `x-weird`: ``has `backtick` inside``\n\n"), "{md}");
}

#[test]
fn a_step_elsewhere_without_a_page_name_uses_its_own() {
    let mut s = step();
    s.endpoint = Some("o.Other/Get".to_string());
    s.group = Some("o.Other".to_string());
    let md = render_step_elsewhere(&s, &Vec::new());
    assert_eq!(md, "**Endpoint:** `o.Other/Get` — documented under [o.Other](o.Other.md)\n\n");
}

fn flow_of(file: &str, steps: Vec<FlowStep>) -> MethodFlow {
    MethodFlow {
        file: file.to_string(),
        title: file.to_string(),
        summary: None,
        tags: Vec::new(),
        owner: None,
        links: Vec::new(),
        steps,
    }
}

fn http_group() -> (String, Vec<MethodFlow>) {
    let mut s = step();
    s.group = Some("/v1".to_string());
    s.method = Some("GET /v1/users".to_string());
    s.call_line = Some("curl -sS https://api.example.com/v1/users".to_string());
    ("/v1".to_string(), vec![flow_of("users.httf", vec![s])])
}

fn grpc_group() -> (String, Vec<MethodFlow>) {
    let mut s = step();
    s.group = Some("greet.Greeter".to_string());
    s.method = Some("Hello".to_string());
    s.grpcurl_line = Some("grpcurl -plaintext -d '{}' localhost:4770 greet.Greeter/Hello".to_string());
    let mut again = step();
    again.group = Some("greet.Greeter".to_string());
    again.method = Some("Hello".to_string());
    again.grpcurl_line = Some("grpcurl -d '{}' h:1 greet.Greeter/Hello".to_string());
    (
        "greet.Greeter".to_string(),
        vec![flow_of("greet.gctf", vec![s]), flow_of("greet2.gctf", vec![again])],
    )
}

#[test]
fn render_index_heads_the_table_after_what_it_lists() {
    let none: Vec<(String, String)> = Vec::new();
    let files = vec![pair("/v1", "v1.md"), pair("greet.Greeter", "greet.Greeter.md")];
    assert!(render_index(&vec![http_group()], None, &none, &files)
        .contains("| Path | Endpoints | Tests |"));
    assert!(render_index(&vec![grpc_group()], None, &none, &files)
        .contains("| Service | Methods | Tests |"));
    let both = render_index(&vec![http_group(), grpc_group()], None, &none, &files);
    assert!(both.contains("| Service or path | Methods | Tests |"), "{both}");
    assert!(both.contains("| [/v1](v1.md) | 1 | 1 |\n"), "{both}");
    assert!(both.contains("| [greet.Greeter](greet.Greeter.md) | 1 | 2 |\n"), "{both}");
    assert!(both.starts_with("# API Documentation\n\nGenerated by `grpctestify docs`.\n\n| "), "{both}");
}

#[test]
fn render_index_names_the_unread_files_and_the_reason() {
    let unread = vec![pair("dir/broken.gctf", "unknown section 'WAT'\nat line 1")];
    let index = render_index(
        &vec![grpc_group()],
        Some("**Overall coverage:** 1/2 methods called (50.0%)"),
        &unread,
        &Vec::new(),
    );
    assert!(index.contains("**Overall coverage:** 1/2 methods called (50.0%)\n\n| Service"), "{index}");
    assert!(index.contains("\n## Not documented\n\nOne file could not be read:\n\n"), "{index}");
    assert!(index.contains("- `dir/broken.gctf` — unknown section 'WAT' at line 1\n\n"), "{index}");
    assert!(index.contains("](greet.Greeter.md)"), "{index}");
}

#[test]
fn render_index_escapes_a_group_name_in_its_cell() {
    let mut s = step();
    s.group = Some("/a|b".to_string());
    let group = ("/a|b".to_string(), vec![flow_of("pipe.httf", vec![s])]);
    let files = vec![pair("/a|b", "a-b.md")];
    let index = render_index(&vec![group], None, &Vec::new(), &files);
    assert!(index.contains("| [/a\\|b](a-b.md) |"), "{index}");
}

#[test]
fn render_pages_writes_an_index_and_one_page_per_group() {
    let none: Vec<(String, String)> = Vec::new();
    assert!(render_pages(&Vec::new(), None, &none, &none).is_empty());

    let coverage = vec![pair("greet.Greeter", "**Coverage:** 1/2 methods called (50.0%)\n")];
    let pages = render_pages(&vec![http_group(), grpc_group()], None, &coverage, &none);
    let names: Vec<&str> = pages.iter().map(|p| p.name.as_str()).collect();
    assert_eq!(names, vec!["index.md", "v1.md", "greet.Greeter.md"]);
    assert!(pages[0].markdown.contains("| [greet.Greeter](greet.Greeter.md) | 1 | 2 |"));
    assert!(pages[1].markdown.starts_with("# /v1\n\n## users.httf\n\n"), "{}", pages[1].markdown);
    assert!(pages[2]
        .markdown
        .starts_with("# greet.Greeter\n\n**Coverage:** 1/2 methods called (50.0%)\n\n## greet.gctf"));

    let unread = vec![pair("broken.gctf", "no sections")];
    let only_index = render_pages(&Vec::new(), None, &none, &unread);
    assert_eq!(only_index.len(), 1);
    assert!(only_index[0].markdown.contains("One file could not be read"));
}

use grpctestify::commands::docs_group::{
    collect_flows_by_service, file_under, flow_pages, FlowSource,
};
use grpctestify::commands::docs_render::{FlowStep, MethodFlow};

fn step(group: Option<&str>) -> FlowStep {
    FlowStep {
        endpoint: None,
        group: group.map(|g| g.to_string()),
        call_line: None,
        grpcurl_line: None,
        method: None,
        requests: Vec::new(),
        responses: Vec::new(),
        error: None,
        asserts: Vec::new(),
        extracts: Vec::new(),
        runtime: Vec::new(),
        shape: None,
        headers: Vec::new(),
        dataset: Vec::new(),
    }
}

fn source(
    file: &str,
    groups: &[Option<&str>],
    host: Option<&str>,
    package: &str,
    services: &[&str],
) -> FlowSource {
    FlowSource {
        flow: MethodFlow {
            file: file.to_string(),
            title: file.to_string(),
            summary: None,
            tags: Vec::new(),
            owner: None,
            links: Vec::new(),
            steps: groups.iter().map(|g| step(*g)).collect(),
        },
        http_host: host.map(|h| h.to_string()),
        package: package.to_string(),
        services: services.iter().map(|s| s.to_string()).collect(),
    }
}

fn strings(v: &[&str]) -> Vec<String> {
    v.iter().map(|s| s.to_string()).collect()
}

#[test]
fn flow_pages_follow_the_steps_in_order_once_each() {
    let src = source(
        "a.gctf",
        &[Some("pkg.B"), Some("pkg.A"), Some("pkg.A"), None, Some("pkg.B")],
        None,
        "pkg",
        &["A"],
    );
    assert_eq!(flow_pages(&src), strings(&["pkg.B", "pkg.A"]));
}

#[test]
fn flow_pages_fall_back_to_host_then_services() {
    let src = source("a.gctf", &[None], Some("api.local"), "shop.v1", &["Cart", "Order", "Cart"]);
    assert_eq!(
        flow_pages(&src),
        strings(&["api.local", "shop.v1.Cart", "shop.v1.Order"])
    );
}

#[test]
fn flow_pages_without_a_package_use_the_bare_service() {
    let src = source("a.gctf", &[], None, "", &["Health"]);
    assert_eq!(flow_pages(&src), strings(&["Health"]));
}

#[test]
fn a_file_naming_no_service_and_no_host_is_on_no_page() {
    let src = source("a.gctf", &[Some("pkg.A")], None, "pkg", &[]);
    assert!(flow_pages(&src).is_empty());
}

#[test]
fn file_under_keeps_pages_in_ascending_order() {
    let mut pages: Vec<(String, Vec<usize>)> = Vec::new();
    file_under(&mut pages, &"m".to_string(), 0);
    file_under(&mut pages, &"b".to_string(), 1);
    file_under(&mut pages, &"z".to_string(), 2);
    file_under(&mut pages, &"m".to_string(), 3);
    assert_eq!(
        pages,
        vec![
            ("b".to_string(), vec![1]),
            ("m".to_string(), vec![0, 3]),
            ("z".to_string(), vec![2]),
        ]
    );
}

#[test]
fn collect_flows_by_service_lists_each_page_with_its_files() {
    let srcs = vec![
        source("one.gctf", &[Some("shop.Order")], None, "shop", &["Order"]),
        source("two.gctf", &[None], None, "shop", &["Cart", "Order"]),
        source("three.gctf", &[None], None, "", &[]),
        source("four.gctf", &[Some("GET /users")], Some("GET /users"), "", &[]),
    ];
    let pages = collect_flows_by_service(&srcs);
    assert_eq!(
        pages,
        vec![
            ("GET /users".to_string(), vec![3]),
            ("shop.Cart".to_string(), vec![1]),
            ("shop.Order".to_string(), vec![0, 1]),
        ]
    );
}

#[test]
fn a_page_lists_its_files_by_title() {
    let srcs = vec![
        source("zeta.gctf", &[None], None, "pkg", &["Svc"]),
        source("alpha.gctf", &[None], None, "pkg", &["Svc"]),
        source("mid.gctf", &[None], None, "pkg", &["Svc"]),
    ];
    let pages = collect_flows_by_service(&srcs);
    assert_eq!(pages, vec![("pkg.Svc".to_string(), vec![1, 2, 0])]);
}

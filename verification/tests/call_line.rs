use grpctestify::commands::call_line::{
    curl_line, grpctestify_call, grpctestify_call_file, grpcurl_line, CallSpec, TlsPaths,
};

#[test]
fn a_call_line_carries_what_call_can_take() {
    let line = grpctestify_call(CallSpec {
        endpoint: "pkg.Svc/M",
        address: Some("localhost:4770"),
        protocol: Some("grpc"),
        body: Some("{\"a\":1}"),
        ..Default::default()
    });
    assert_eq!(
        line,
        "grpctestify call -e 'pkg.Svc/M' --address 'localhost:4770' -d '{\"a\":1}'"
    );
}

#[test]
fn the_transport_is_named_only_when_it_is_not_the_default() {
    assert!(!grpctestify_call(CallSpec {
        endpoint: "a/B",
        protocol: Some("grpc"),
        ..Default::default()
    })
    .contains("--protocol"));
    assert!(grpctestify_call(CallSpec {
        endpoint: "a/B",
        protocol: Some("grpc-web"),
        ..Default::default()
    })
    .contains("--protocol grpc-web"));
}

#[test]
fn headers_are_carried_not_counted() {
    let headers = [
        ("authorization".to_string(), "Bearer x y".to_string()),
        ("x-tenant".to_string(), "acme".to_string()),
    ];
    let line = grpctestify_call(CallSpec {
        endpoint: "a/B",
        headers: &headers,
        ..Default::default()
    });
    assert!(line.contains("-H 'authorization: Bearer x y'"), "{line}");
    assert!(line.contains("-H 'x-tenant: acme'"), "{line}");
    assert!(!line.contains("not flags"), "{line}");
}

#[test]
fn a_call_line_for_a_file_names_the_file() {
    assert_eq!(
        grpctestify_call_file("auth/login.gctf", 1),
        "grpctestify call 'auth/login.gctf'"
    );
    assert_eq!(
        grpctestify_call_file("chain.gctf", 3),
        "grpctestify call 'chain.gctf' --doc-index 3"
    );
}

#[test]
fn a_nameless_header_is_left_out() {
    let headers = [(" ".to_string(), "nothing".to_string())];
    assert!(!grpctestify_call(CallSpec {
        endpoint: "a/B",
        headers: &headers,
        ..Default::default()
    })
    .contains("-H"));
}

#[test]
fn a_grpcurl_line_names_the_target_last_as_grpcurl_wants_it() {
    assert_eq!(
        grpcurl_line(CallSpec {
            endpoint: "pkg.Svc/M",
            address: Some("localhost:4770"),
            body: Some("{\"a\":1}"),
            plaintext: true,
            ..Default::default()
        }),
        "grpcurl -plaintext -d '{\"a\":1}' localhost:4770 pkg.Svc/M"
    );
    assert!(!grpcurl_line(CallSpec {
        endpoint: "a/B",
        address: Some("h:1"),
        ..Default::default()
    })
    .contains("-plaintext"));

    let full = grpcurl_line(CallSpec {
        endpoint: "a/B",
        address: Some("h:1"),
        headers: &[("authorization".to_string(), "Bearer t".to_string())],
        protoset: Some("/tmp/schema.bin"),
        plaintext: true,
        ..Default::default()
    });
    assert!(full.contains("-protoset '/tmp/schema.bin'"), "{full}");
    assert!(full.contains("-H 'authorization: Bearer t'"), "{full}");
}

#[test]
fn a_quote_inside_a_body_cannot_break_out_of_the_shell() {
    let line = grpctestify_call(CallSpec {
        endpoint: "a/B",
        body: Some("{\"s\":\"it's\"}"),
        ..Default::default()
    });
    assert!(line.contains("'{\"s\":\"it'\\''s\"}'"), "{line}");
}

#[test]
fn a_curl_line_is_spelled_the_way_the_workbench_spells_it() {
    assert_eq!(
        curl_line(
            "POST",
            "https://api.example.com/v1/users",
            &[("content-type".to_string(), "application/json".to_string())],
            Some("{\"name\":\"Ada\"}"),
            None,
        ),
        "curl -L -X POST 'https://api.example.com/v1/users' -H 'content-type: application/json' -d '{\"name\":\"Ada\"}'",
    );
    assert_eq!(
        curl_line("GET", "https://x.test/f", &[], None, None),
        "curl -L 'https://x.test/f'"
    );
}

#[test]
fn tls_paths_and_time_limits_are_spelled_per_tool() {
    let spec = CallSpec {
        endpoint: "a/B",
        address: Some("h:1"),
        tls: TlsPaths {
            ca: Some("ca.pem"),
            cert: Some("  "),
            key: Some("k.pem"),
        },
        max_time: Some(30),
        insecure: true,
        plaintext: true,
        ..Default::default()
    };
    assert_eq!(
        grpctestify_call(spec),
        "grpctestify call -e 'a/B' --address 'h:1' --insecure --tls-ca 'ca.pem' --tls-key 'k.pem' --max-time 30"
    );
    assert_eq!(
        grpcurl_line(spec),
        "grpcurl -plaintext -cacert 'ca.pem' -key 'k.pem' -max-time 30 h:1 a/B"
    );
    assert_eq!(
        curl_line("get", "u", &[(" ".to_string(), "v".to_string())], Some(" "), Some(7)),
        "curl -L 'u' -H ' : v' --max-time 7"
    );
}

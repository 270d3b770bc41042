use grpctestify::commands::call::{
    call_tls_config, dial_address, error_notice, flags_an_http_call_cannot_honour, header_pairs,
    http_endpoint, resolve_call_timeout_seconds,
};
use grpctestify::commands::TlsConfig;

#[test]
fn an_endpoint_with_a_method_is_an_http_call() {
    assert_eq!(
        http_endpoint("GET /v1/users"),
        Some(("GET".to_string(), "/v1/users".to_string()))
    );
    assert_eq!(
        http_endpoint("propfind /dav/"),
        Some(("PROPFIND".to_string(), "/dav/".to_string()))
    );
    assert_eq!(http_endpoint("users.UserService/GetUser"), None);
    assert_eq!(http_endpoint("GET"), None);
}

#[test]
fn a_header_flag_without_a_colon_names_no_header() {
    let pairs = header_pairs(&vec![
        "authorization: Bearer t0ken".to_string(),
        "x-empty:".to_string(),
        "nonsense".to_string(),
        ": value".to_string(),
    ]);
    assert_eq!(
        pairs,
        vec![
            ("authorization".to_string(), "Bearer t0ken".to_string()),
            ("x-empty".to_string(), String::new()),
        ]
    );
}

#[test]
fn max_time_below_connect_timeout_is_honored() {
    assert_eq!(resolve_call_timeout_seconds(30, 1), 1);
    assert_eq!(resolve_call_timeout_seconds(30, 5), 5);
}

#[test]
fn the_address_flag_outranks_the_file() {
    assert_eq!(
        dial_address(Some("flag-host:9000"), "file-host:4770"),
        "flag-host:9000"
    );
    assert_eq!(dial_address(None, "file-host:4770"), "file-host:4770");
}

#[test]
fn overall_deadline_is_max_time() {
    assert_eq!(resolve_call_timeout_seconds(30, 60), 60);
    assert_eq!(resolve_call_timeout_seconds(10, 10), 10);
    assert_eq!(resolve_call_timeout_seconds(120, 5), 5);
}

#[test]
fn grpc_only_flags_are_named_when_the_target_is_http() {
    assert!(flags_an_http_call_cannot_honour(false, false, false, false, false, "grpc").is_empty());
    assert_eq!(
        flags_an_http_call_cannot_honour(true, true, true, true, true, "grpc-web"),
        vec![
            "--insecure",
            "--plaintext",
            "--tls-ca",
            "--tls-cert",
            "--tls-key",
            "--protocol",
        ]
    );
}

#[test]
fn show_error_says_which_status_came_back_without_needing_fail() {
    assert_eq!(error_notice(false, true, false, 404), None, "silence stays silent");
    assert_eq!(
        error_notice(true, true, false, 404).as_deref(),
        Some("* HTTP 404: the answer is an error")
    );
    assert_eq!(error_notice(true, true, false, 204), None);
    assert!(error_notice(false, true, true, 500).is_some());
    assert!(error_notice(false, false, false, 500).is_some());
}

#[test]
fn tls_flags_override_the_document_and_insecure_turns_verification_off() {
    let doc = TlsConfig {
        ca_cert_path: Some("doc-ca.pem".to_string()),
        client_cert_path: None,
        client_key_path: None,
        server_name: Some("api".to_string()),
        insecure_skip_verify: false,
    };
    assert_eq!(call_tls_config(false, None, None, None, false, Some(doc.clone())), Some(doc.clone()));
    assert_eq!(call_tls_config(true, None, None, None, false, Some(doc.clone())), None);
    let flagged = call_tls_config(false, Some("ca.pem"), None, None, false, Some(doc.clone())).unwrap();
    assert_eq!(flagged.ca_cert_path.as_deref(), Some("ca.pem"));
    assert_eq!(flagged.server_name, None);
    let insecure = call_tls_config(true, None, None, None, true, Some(doc)).unwrap();
    assert!(insecure.insecure_skip_verify);
    assert_eq!(insecure.ca_cert_path, None);
    assert!(call_tls_config(false, None, None, None, false, None).is_none());
}

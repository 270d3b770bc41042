use grpctestify::commands::bench_aggregate::csv_field;
use grpctestify::commands::grpcurl::{
    build_grpcurl_command, grpcurl_address_parts, invocation_path_from, path_for_invocation,
    shell_quote, ProtoPaths,
};
use grpctestify::commands::TlsConfig;

#[test]
fn test_grpcurl_address_parts() {
    assert_eq!(
        grpcurl_address_parts("https://svc:443"),
        ("svc:443".to_string(), false)
    );
    assert_eq!(
        grpcurl_address_parts("http://svc:80"),
        ("svc:80".to_string(), true)
    );
    assert_eq!(
        grpcurl_address_parts("localhost:50051"),
        ("localhost:50051".to_string(), true)
    );
}

#[test]
fn test_shell_quote() {
    assert_eq!(shell_quote("a b"), "'a b'");
    assert_eq!(shell_quote("a'b"), "'a'\\''b'");
}

#[test]
fn an_empty_value_is_an_empty_shell_word() {
    assert_eq!(shell_quote(""), "''");
}

#[test]
fn paths_below_the_working_directory_are_written_relative() {
    assert_eq!(
        path_for_invocation("/work/certs/ca.pem", "/work"),
        "certs/ca.pem"
    );
    assert_eq!(path_for_invocation("/etc/ca.pem", "/work"), "/etc/ca.pem");
    assert_eq!(path_for_invocation("/work", "/work"), "/work");
    assert_eq!(invocation_path_from("C:\\x\\y", Some("x\\y")), "x/y");
    assert_eq!(invocation_path_from("C:\\x\\y", None), "C:/x/y");
}

#[test]
fn csv_quotes_a_run_name_containing_a_comma() {
    assert_eq!(csv_field("a,b"), "\"a,b\"");
    assert_eq!(csv_field("plain"), "plain");
}

#[test]
fn csv_doubles_quotes_inside_a_quoted_field() {
    assert_eq!(csv_field("say \"hi\""), "\"say \"\"hi\"\"\"");
    assert_eq!(csv_field("two\nlines"), "\"two\nlines\"");
}

fn no_headers() -> Vec<(String, String)> {
    Vec::new()
}

#[test]
fn build_grpcurl_command_for_a_plain_file() {
    let out = build_grpcurl_command(
        Some("pkg.Svc/Get"),
        "localhost:50051",
        None,
        false,
        None,
        &no_headers(),
        &vec!["{\"id\":1}".to_string()],
        "t.gctf",
        "/work",
        0,
        1,
    )
    .unwrap();
    assert_eq!(
        out.command,
        "grpcurl -plaintext -d '{\"id\":1}' 'localhost:50051' 'pkg.Svc/Get'"
    );
    assert_eq!(out.address, "localhost:50051");
    assert_eq!(out.endpoint, "pkg.Svc/Get");
    assert_eq!(out.file, "t.gctf");
}

#[test]
fn build_grpcurl_command_refuses_a_file_without_a_method() {
    let err = build_grpcurl_command(
        None, "localhost:1", None, false, None, &no_headers(), &Vec::new(), "t.gctf", "/", 0, 0,
    )
    .unwrap_err();
    assert_eq!(err, "Missing ENDPOINT section");
}

#[test]
fn build_grpcurl_command_writes_tls_schema_and_sorted_headers() {
    let tls = TlsConfig {
        ca_cert_path: Some("/work/certs/ca.pem".to_string()),
        client_cert_path: None,
        client_key_path: None,
        server_name: Some("api.example.com".to_string()),
        insecure_skip_verify: true,
    };
    let proto = ProtoPaths {
        descriptor: None,
        import_paths: vec!["/work/protos".to_string()],
        files: vec!["/elsewhere/a.proto".to_string()],
    };
    let headers = vec![
        ("x-b".to_string(), "2".to_string()),
        ("authorization".to_string(), "Bearer t".to_string()),
    ];
    let out = build_grpcurl_command(
        Some("pkg.Svc/Get"),
        "https://api.example.com:443",
        Some(&tls),
        true,
        Some(&proto),
        &headers,
        &Vec::new(),
        "t.gctf",
        "/work",
        0,
        0,
    )
    .unwrap();
    assert_eq!(
        out.command,
        "grpcurl -gzip -cacert 'certs/ca.pem' -servername 'api.example.com' -insecure \
         -import-path 'protos' -proto '/elsewhere/a.proto' \
         -H 'authorization: Bearer t' -H 'x-b: 2' -d '{}' 'api.example.com:443' 'pkg.Svc/Get'"
    );
    assert_eq!(out.address, "api.example.com:443");
}

#[test]
fn build_grpcurl_command_prefers_a_descriptor_set_and_picks_the_request() {
    let proto = ProtoPaths {
        descriptor: Some("/work/api.protoset".to_string()),
        import_paths: vec!["/work/protos".to_string()],
        files: Vec::new(),
    };
    let requests = vec!["{\"n\":1}".to_string(), "{\"n\":2}".to_string()];
    let second = build_grpcurl_command(
        Some("S/M"), "h:1", None, false, Some(&proto), &no_headers(), &requests, "f", "/work", 0, 2,
    )
    .unwrap();
    assert_eq!(
        second.command,
        "grpcurl -plaintext -protoset 'api.protoset' -d '{\"n\":2}' 'h:1' 'S/M'"
    );
    let past_the_end = build_grpcurl_command(
        Some("S/M"), "h:1", None, false, None, &no_headers(), &requests, "f", "/work", 0, 9,
    )
    .unwrap();
    assert!(past_the_end.command.contains("-d '{\"n\":2}'"));
    let first = build_grpcurl_command(
        Some("S/M"), "h:1", None, false, None, &no_headers(), &requests, "f", "/work", 0, 0,
    )
    .unwrap();
    assert!(first.command.contains("-d '{\"n\":1}'"));
}

/// How a POSIX shell reads one word made of quoted runs and backslash escapes.
fn read_like_a_shell(t: &str) -> String {
    let mut out = String::new();
    let mut quoted = false;
    let mut it = t.chars().peekable();
    while let Some(c) = it.next() {
        if quoted {
            if c == '\'' {
                quoted = false;
            } else {
                out.push(c);
            }
        } else if c == '\'' {
            quoted = true;
        } else if c == '\\' && it.peek().is_some() {
            out.push(it.next().unwrap());
        } else {
            out.push(c);
        }
    }
    out
}

#[test]
fn a_quoted_value_reads_back_as_itself() {
    for value in ["", "plain", "it's", "''", "a\\b", "$HOME `x` \"y\"", "'\\''"] {
        assert_eq!(read_like_a_shell(&shell_quote(value)), value, "{value}");
    }
}

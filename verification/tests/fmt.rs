use grpctestify::commands::fmt::{format_gctf_content, group_digits, normalize_numeric_literals};

const HDR: &str = "--- ENDPOINT ---\ntest.Service/Method\n\n--- REQUEST ---\n{}\n\n";

fn to_crlf(input: &str) -> String {
    input.replace('\n', "\r\n")
}

/// `fmt(fmt(x)) == fmt(x)`.
fn assert_idempotent(src: &str) -> String {
    let once = format_gctf_content(src, "t.gctf").unwrap();
    let twice = format_gctf_content(&once, "t.gctf").unwrap();
    assert_eq!(
        once, twice,
        "not idempotent\n--- once ---\n{}\n--- twice ---\n{}",
        once, twice
    );
    once
}

#[test]
fn fmt_json5_grammar_round_trip() {
    let body = "{\n  \u{438}\u{43c}\u{44f}: 1,\n  $d: 2,\n  plus: +1.5,\n  dot: .5,\n  trail: 5.,\n  hex: 0X1F,\n  inf: -Infinity,\n  esc: 'it\\'s \"q\"',\n  arr: [1, 2,],\n}\n";
    let src = format!("{HDR}--- RESPONSE ---\n{body}");
    let out = assert_idempotent(&src);
    for expected in [
        "\"\u{438}\u{43c}\u{44f}\": 1",
        "\"$d\": 2",
        "\"plus\": +1.5",
        "\"dot\": .5",
        "\"trail\": 5.",
        "\"hex\": 0X1F",
        "\"inf\": -Infinity",
        "\"esc\": \"it's \\\"q\\\"\"",
    ] {
        assert!(out.contains(expected), "missing {expected}: {out}");
    }
    assert!(!out.contains(",\n  ]"), "trailing comma must go: {out}");
}

#[test]
fn fmt_keeps_an_empty_extract_section() {
    let src = format!("{HDR}--- EXTRACT ---\n\n--- ASSERTS ---\n.a == 1\n");
    let out = assert_idempotent(&src);
    assert!(out.contains("--- EXTRACT ---"), "section must survive: {out}");
}

#[test]
fn fmt_json_comment_after_brace_idempotent() {
    let src = format!("{}--- RESPONSE ---\n{{ // opener\n  \"a\": 1\n}}\n", HDR);
    let out = assert_idempotent(&src);
    assert!(
        out.contains("{ // opener\n  \"a\": 1\n}"),
        "comment must stay on the brace line: {out}"
    );
    assert!(!out.contains("{\n  \n"), "no spurious blank line: {out}");
}

#[test]
fn fmt_json_trailing_comment_stays_on_its_line() {
    let src = format!(
        "{HDR}--- RESPONSE ---\n{{\n  \"ids\": [\n    \"a\", // first\n    \"b\" // second\n  ]\n}}\n"
    );
    let out = assert_idempotent(&src);
    assert!(
        out.contains("\"a\", // first"),
        "trailing comment must not move to the next line: {out}"
    );
    assert!(out.contains("\"b\" // second"), "{out}");
}

#[test]
fn fmt_json_consecutive_comments_stay_separate() {
    let src = format!("{HDR}--- RESPONSE ---\n{{\n  // first\n  // second\n  \"a\": 1\n}}\n");
    let out = assert_idempotent(&src);
    assert!(
        out.contains("// first\n  // second\n"),
        "each comment keeps its own line: {out}"
    );
}

#[test]
fn fmt_json_empty_containers_stay_compact() {
    let src = format!(
        "{HDR}--- RESPONSE ---\n{{\n  \"o\": {{}},\n  \"a\": [], // none\n  \"b\": 1\n}}\n"
    );
    let out = assert_idempotent(&src);
    assert!(out.contains("\"o\": {},"), "empty object stays compact: {out}");
    assert!(out.contains("\"a\": [], // none"), "{out}");
}

#[test]
fn fmt_does_not_group_digits_inside_comments() {
    let src = format!("{HDR}--- RESPONSE ---\n{{\n  \"a\": 1000000 // limit is 1000000\n}}\n");
    let out = assert_idempotent(&src);
    assert!(out.contains("\"a\": 1000000 // limit is 1000000"), "{out}");
}

#[test]
fn fmt_does_not_group_digits_inside_uuids_or_literals() {
    let src = format!(
        "{HDR}--- RESPONSE ---\n{{\n  // 00000000-0000-0000-0000-000000000000\n  \"id\": 1,\n  \"hex\": 0xFF,\n  \"exp\": 1e3\n}}\n"
    );
    let out = assert_idempotent(&src);
    assert!(
        out.contains("// 00000000-0000-0000-0000-000000000000"),
        "UUID digits untouched: {out}"
    );
    assert!(out.contains("\"hex\": 0xFF"), "hex literal untouched: {out}");
    assert!(out.contains("\"exp\": 1e3"), "exponent untouched: {out}");
}

#[test]
fn fmt_trailing_zero_fraction_keeps_one_digit() {
    let src = format!(
        "{HDR}--- RESPONSE ---\n{{\n  \"a\": 1.000000,\n  \"b\": 2.500, // note\n  \"c\": 3.0\n}}\n"
    );
    let out = assert_idempotent(&src);
    assert!(out.contains("\"a\": 1.0,"), "{out}");
    assert!(out.contains("\"b\": 2.5, // note"), "{out}");
    assert!(out.contains("\"c\": 3.0"), "{out}");
}

#[test]
fn fmt_single_quoted_string_contents_survive() {
    let src = format!("{HDR}--- RESPONSE ---\n{{\n  'url': 'http://x/y#z' // note\n}}\n");
    let out = assert_idempotent(&src);
    assert!(
        out.contains("\"url\": \"http://x/y#z\" // note"),
        "contents must survive, only the quotes change: {out}"
    );
}

#[test]
fn fmt_single_quoted_string_requoting_escapes() {
    let src = format!("{HDR}--- RESPONSE ---\n{{\n  'a': 'it\\'s \"x\"', // note\n  'b': 1\n}}\n");
    let out = assert_idempotent(&src);
    assert!(out.contains(r#""a": "it's \"x\"", // note"#), "{out}");
}

#[test]
fn fmt_json5_canonicalizes_syntax_not_literals() {
    let src = format!(
        "{HDR}--- RESPONSE ---\n{{\n  name: 'World', // hi\n  meta: {{ id: 0xFF, }},\n  flag: true,\n}}\n"
    );
    let out = assert_idempotent(&src);
    assert!(out.contains("\"name\": \"World\", // hi"), "{out}");
    assert!(out.contains("\"id\": 0xFF"), "hex literal survives: {out}");
    assert!(out.contains("\"flag\": true"), "{out}");
    assert!(!out.contains(",\n}"), "no trailing comma left: {out}");
}

#[test]
fn fmt_does_not_remint_json_literals() {
    let src = format!(
        "{HDR}--- RESPONSE ---\n{{\n  \"hex\": 0xFF,\n  \"exp\": 1e3,\n  \"inf\": Infinity,\n  \"nan\": NaN,\n  \"dup\": 1,\n  \"dup\": 2\n}}\n"
    );
    let out = assert_idempotent(&src);
    for expected in [
        "\"hex\": 0xFF",
        "\"exp\": 1e3",
        "\"inf\": Infinity",
        "\"nan\": NaN",
        "\"dup\": 1",
        "\"dup\": 2",
    ] {
        assert!(out.contains(expected), "lost {expected}: {out}");
    }
}

#[test]
fn fmt_inline_block_comment_keeps_a_space() {
    let src = format!("{HDR}--- RESPONSE ---\n{{\n  /* has */ \"a\": 1\n}}\n");
    let out = assert_idempotent(&src);
    assert!(out.contains("/* has */ \"a\": 1"), "{out}");
}

#[test]
fn fmt_drops_trailing_comma_behind_a_comment() {
    let src = format!(
        "{HDR}--- RESPONSE ---\n{{\n  \"a\": [\n    1, // one\n    2, // two\n  ],\n}}\n"
    );
    let out = assert_idempotent(&src);
    assert!(out.contains("2 // two"), "trailing comma must go: {out}");
    assert!(!out.contains(",\n  ]"), "{out}");
    assert!(!out.contains(",\n}"), "{out}");
}

#[test]
fn fmt_does_not_group_digits_inside_strings() {
    let src = format!(
        "{HDR}--- RESPONSE ---\n{{\n  \"units\": \"1000000\",\n  \"esc\": \"q\\\" 1000000 end\"\n}}\n"
    );
    let out = assert_idempotent(&src);
    assert!(out.contains("\"units\": \"1000000\""), "{out}");
    assert!(out.contains("1000000 end"), "{out}");
}

#[test]
fn fmt_key_value_section_keeps_comments() {
    let src = "--- ENDPOINT ---\ntest.Service/Method\n\n--- REQUEST_HEADERS ---\n// staging only\nauthorization: Bearer x\nx-trace: 1\n\n--- REQUEST ---\n{}\n";
    let out = assert_idempotent(src);
    assert!(
        out.contains("// staging only\nauthorization: Bearer x"),
        "comment must ride along with the key it documents: {out}"
    );
}

#[test]
fn fmt_options_comment_travels_with_its_key() {
    let src = format!(
        "{HDR}--- OPTIONS ---\n// why we wait\ntimeout: 30\n// retry policy\nretries: 2\n"
    );
    let out = assert_idempotent(&src);
    assert!(out.contains("// retry policy\nretries: 2"), "{out}");
    assert!(out.contains("// why we wait\ntimeout: 30"), "{out}");
}

#[test]
fn fmt_json_block_comment_not_glued() {
    let src = format!("{}--- RESPONSE ---\n{{\n  /* block */\n  \"a\": 1\n}}\n", HDR);
    let out = assert_idempotent(&src);
    assert!(
        out.contains("/* block */\n  \"a\": 1"),
        "block comment must not be glued to the next key: {out}"
    );
}

#[test]
fn fmt_json_hash_comment_idempotent() {
    let src = format!("{}--- RESPONSE ---\n{{\n  # note\n  \"a\": 1\n}}\n", HDR);
    let out = assert_idempotent(&src);
    assert!(out.contains("{\n  // note\n  \"a\": 1\n}"), "{out}");
}

#[test]
fn group_digits_groups_in_threes_from_the_right() {
    assert_eq!(group_digits("100"), "100");
    assert_eq!(group_digits("1000"), "1_000");
    assert_eq!(group_digits("1234567"), "1_234_567");
    assert_eq!(group_digits("1_00"), "100");
}

#[test]
fn group_numeric_literals_leaves_strings_and_identifiers_alone() {
    let input = r#"{"amount": 1000000, "id_1_2": 3, "note": "order_1_000_2"}"#;
    let out = normalize_numeric_literals(input, true);
    assert_eq!(
        out,
        r#"{"amount": 1_000_000, "id_1_2": 3, "note": "order_1_000_2"}"#
    );
}

#[test]
fn fmt_leaves_json_payload_numbers_ungrouped() {
    let src = format!("{HDR}--- RESPONSE ---\n{{\n  \"amount\": 1000000,\n  \"code\": 42\n}}\n");
    let out = assert_idempotent(&src);
    assert!(
        out.contains("\"amount\": 1000000"),
        "payload digits must stay ungrouped: {out}"
    );
    assert!(!out.contains("1_000_000"), "{out}");
    assert!(out.contains("\"code\": 42"), "{out}");
}

#[test]
fn fmt_asserts_numeric_literal_grouped() {
    let src = format!("{HDR}--- ASSERTS ---\n.amount == 1000000\n");
    let out = assert_idempotent(&src);
    assert!(
        out.contains(".amount == 1_000_000"),
        "expected grouped ASSERTS literal: {out}"
    );
}

#[test]
fn fmt_meta_yaml_hash_comment_preserved() {
    let src = "--- META ---\n# a comment\nname: demo\n\n--- ENDPOINT ---\ntest.Service/Method\n\n--- REQUEST ---\n{}\n\n--- RESPONSE ---\n{}\n";
    let out = assert_idempotent(src);
    assert!(
        out.contains("--- META ---\n# a comment\nname: demo"),
        "META `#` comment must stay `#`, not become `//`: {out}"
    );
    assert!(!out.contains("// a comment"), "must not convert to //: {out}");
}

#[test]
fn fmt_asserts_ternary_idempotent() {
    let src = format!(
        "{}--- RESPONSE with_asserts ---\n{{}}\n\n--- ASSERTS ---\nif .x == 1 then true else false end\n",
        HDR
    );
    let out = assert_idempotent(&src);
    assert!(
        out.contains("if .x == 1 then true else false end"),
        "non-round-trippable assertion must be preserved verbatim: {out}"
    );
}

#[test]
fn fmt_hash_comments_to_slashes() {
    let source = r#"--- ENDPOINT ---
grpc.health.v1.Health/Check

--- REQUEST ---
{
  "service": "gripmock"
}

--- RESPONSE ---
 # Protected behavior: even if a stub tries gripmock -> NOT_SERVING,
# runtime must ignore it and return real status.
{
  "status": "SERVING"
}
"#;

    let formatted = format_gctf_content(source, "test.gctf").unwrap();
    let expected = r#"--- ENDPOINT ---
grpc.health.v1.Health/Check

--- REQUEST ---
{
  "service": "gripmock"
}

--- RESPONSE ---
// Protected behavior: even if a stub tries gripmock -> NOT_SERVING,
// runtime must ignore it and return real status.
{
  "status": "SERVING"
}
"#;
    assert_eq!(formatted, expected);
}

#[test]
fn fmt_jsonlines_preserves_comments() {
    let source = r#"--- ENDPOINT ---
grpc.health.v1.Health/Watch

--- REQUEST ---
{
  "service": "examples.health.watch"
}

--- RESPONSE with_asserts=true ---
# Delay applies before first message
{
  "status": "NOT_SERVING"
}
// Then service recovers
{
  "status": "SERVING"
}

--- ASSERTS ---
@scope.message_count() == 2
"#;

    let formatted = format_gctf_content(source, "test.gctf").unwrap();
    let expected = r#"--- ENDPOINT ---
grpc.health.v1.Health/Watch

--- REQUEST ---
{
  "service": "examples.health.watch"
}

--- RESPONSE with_asserts ---
// Delay applies before first message
{
  "status": "NOT_SERVING"
}
// Then service recovers
{
  "status": "SERVING"
}

--- ASSERTS ---
@scope.message_count() == 2
"#;

    assert_eq!(formatted, expected);
}

#[test]
fn fmt_hash_inside_string_not_comment() {
    let source = r#"--- ENDPOINT ---
test.Service/Method

--- REQUEST ---
{
  "value": "abc#def"
}

--- RESPONSE ---
{
  "ok": true
}
"#;

    let formatted = format_gctf_content(source, "test.gctf").unwrap();
    let expected = r#"--- ENDPOINT ---
test.Service/Method

--- REQUEST ---
{
  "value": "abc#def"
}

--- RESPONSE ---
{
  "ok": true
}
"#;
    assert_eq!(formatted, expected);
}

#[test]
fn fmt_collapses_extra_blank_lines() {
    let source = r#"--- ENDPOINT ---
grpc.health.v1.Health/Check

--- REQUEST ---
{
  "service": "gripmock"
}

--- RESPONSE with_asserts=true ---
{
  "status": "NOT_SERVING"
}
{
  "status": "SERVING"
}


--- ASSERTS ---
@scope.message_count() == 2
"#;

    let formatted = format_gctf_content(source, "test.gctf").unwrap();
    let expected = r#"--- ENDPOINT ---
grpc.health.v1.Health/Check

--- REQUEST ---
{
  "service": "gripmock"
}

--- RESPONSE with_asserts ---
{
  "status": "NOT_SERVING"
}
{
  "status": "SERVING"
}

--- ASSERTS ---
@scope.message_count() == 2
"#;
    assert_eq!(formatted, expected);
}

#[test]
fn fmt_inserts_blank_line_before_asserts() {
    let source = r#"--- ENDPOINT ---
grpc.health.v1.Health/Check

--- REQUEST ---
{
  "service": "gripmock"
}

--- RESPONSE with_asserts=true ---
{
  "status": "NOT_SERVING"
}
{
  "status": "SERVING"
}
--- ASSERTS --- 
@scope.message_count() == 2
"#;

    let formatted = format_gctf_content(source, "test.gctf").unwrap();
    let expected = r#"--- ENDPOINT ---
grpc.health.v1.Health/Check

--- REQUEST ---
{
  "service": "gripmock"
}

--- RESPONSE with_asserts ---
{
  "status": "NOT_SERVING"
}
{
  "status": "SERVING"
}

--- ASSERTS ---
@scope.message_count() == 2
"#;
    assert_eq!(formatted, expected);
}

#[test]
fn fmt_crlf_to_lf_between_sections() {
    let source_lf = r#"--- ENDPOINT ---
grpc.health.v1.Health/Check

--- REQUEST ---
{
  "service": "gripmock"
}

--- RESPONSE with_asserts=true ---
{
  "status": "NOT_SERVING"
}
{
  "status": "SERVING"
}
--- ASSERTS ---
@scope.message_count() == 2
"#;
    let source = to_crlf(source_lf);

    let formatted = format_gctf_content(&source, "test.gctf").unwrap();
    let expected = r#"--- ENDPOINT ---
grpc.health.v1.Health/Check

--- REQUEST ---
{
  "service": "gripmock"
}

--- RESPONSE with_asserts ---
{
  "status": "NOT_SERVING"
}
{
  "status": "SERVING"
}

--- ASSERTS ---
@scope.message_count() == 2
"#;
    assert_eq!(formatted, expected);
}

#[test]
fn fmt_ends_with_newline() {
    let source = r#"--- ENDPOINT ---
test.Service/Method

--- REQUEST ---
{}

--- RESPONSE ---
{}"#;
    let formatted = format_gctf_content(source, "test.gctf").unwrap();
    assert!(formatted.ends_with('\n'));
    let expected = r#"--- ENDPOINT ---
test.Service/Method

--- REQUEST ---
{}

--- RESPONSE ---
{}
"#;
    assert_eq!(formatted, expected);
}

#[test]
fn fmt_crlf_to_lf_and_ends_with_newline() {
    let source_lf = r#"--- ENDPOINT ---
test.Service/Method

--- REQUEST ---
{}

--- RESPONSE ---
{}"#;
    let source = to_crlf(source_lf);
    let formatted = format_gctf_content(&source, "test.gctf").unwrap();
    assert!(formatted.ends_with('\n'));
    assert!(!formatted.contains("\r\n"));
    let expected = r#"--- ENDPOINT ---
test.Service/Method

--- REQUEST ---
{}

--- RESPONSE ---
{}
"#;
    assert_eq!(formatted, expected);
}

#[test]
fn fmt_section_address() {
    let source = r#"--- ADDRESS ---
localhost:4770

--- ENDPOINT ---
test.Service/Method

--- REQUEST ---
{}

--- RESPONSE ---
{}"#;
    let formatted = format_gctf_content(source, "test.gctf").unwrap();
    let expected = r#"--- ADDRESS ---
localhost:4770

--- ENDPOINT ---
test.Service/Method

--- REQUEST ---
{}

--- RESPONSE ---
{}
"#;
    assert_eq!(formatted, expected);
}

#[test]
fn fmt_section_endpoint() {
    let source = r#"--- ENDPOINT ---
grpc.health.v1.Health/Check

--- REQUEST ---
{}

--- RESPONSE ---
{}"#;
    let formatted = format_gctf_content(source, "test.gctf").unwrap();
    let expected = r#"--- ENDPOINT ---
grpc.health.v1.Health/Check

--- REQUEST ---
{}

--- RESPONSE ---
{}
"#;
    assert_eq!(formatted, expected);
}

#[test]
fn fmt_section_request() {
    let source = r#"--- ENDPOINT ---
test.Service/Method

--- REQUEST ---
{
  "id": 123,
  "name": "test"
}

--- RESPONSE ---
{}"#;
    let formatted = format_gctf_content(source, "test.gctf").unwrap();
    let expected = r#"--- ENDPOINT ---
test.Service/Method

--- REQUEST ---
{
  "id": 123,
  "name": "test"
}

--- RESPONSE ---
{}
"#;
    assert_eq!(formatted, expected);
}

#[test]
fn fmt_section_response_with_inline_option_with_asserts() {
    let source = r#"--- ENDPOINT ---
test.Service/Method

--- REQUEST ---
{}

--- RESPONSE with_asserts=true ---
{
  "status": "ok"
}

--- ASSERTS ---
.status == "ok""#;
    let formatted = format_gctf_content(source, "test.gctf").unwrap();
    let expected = r#"--- ENDPOINT ---
test.Service/Method

--- REQUEST ---
{}

--- RESPONSE with_asserts ---
{
  "status": "ok"
}

--- ASSERTS ---
.status == "ok"
"#;
    assert_eq!(formatted, expected);
}

#[test]
fn fmt_section_response_with_inline_option_partial() {
    let source = r#"--- ENDPOINT ---
test.Service/Method

--- REQUEST ---
{}

--- RESPONSE partial=true ---
{
  "id": 1,
  "name": "test",
  "extra": "ignored"
}
"#;
    let formatted = format_gctf_content(source, "test.gctf").unwrap();
    let expected = r#"--- ENDPOINT ---
test.Service/Method

--- REQUEST ---
{}

--- RESPONSE partial ---
{
  "id": 1,
  "name": "test",
  "extra": "ignored"
}
"#;
    assert_eq!(formatted, expected);
}

#[test]
fn fmt_section_response_with_inline_option_tolerance() {
    let source = r#"--- ENDPOINT ---
test.Service/Method

--- REQUEST ---
{}

--- RESPONSE tolerance=0.01 ---
{
  "value": 3.1415926
}
"#;
    let formatted = format_gctf_content(source, "test.gctf").unwrap();
    let expected = r#"--- ENDPOINT ---
test.Service/Method

--- REQUEST ---
{}

--- RESPONSE tolerance=0.01 ---
{
  "value": 3.1415926
}
"#;
    assert_eq!(formatted, expected);
}

#[test]
fn fmt_section_response_with_inline_option_redact() {
    let source = r#"--- ENDPOINT ---
test.Service/Method

--- REQUEST ---
{}

--- RESPONSE redact=["token","secret"] ---
{
  "token": "abc123",
  "secret": "xyz789",
  "public": "visible"
}
"#;
    let formatted = format_gctf_content(source, "test.gctf").unwrap();
    let expected = r#"--- ENDPOINT ---
test.Service/Method

--- REQUEST ---
{}

--- RESPONSE redact=["secret","token"] ---
{
  "token": "abc123",
  "secret": "xyz789",
  "public": "visible"
}
"#;
    assert_eq!(formatted, expected);
}

#[test]
fn fmt_section_response_with_inline_option_unordered_arrays() {
    let source = r#"--- ENDPOINT ---
test.Service/Method

--- REQUEST ---
{}

--- RESPONSE unordered_arrays=true ---
{
  "items": [3, 1, 2]
}
"#;
    let formatted = format_gctf_content(source, "test.gctf").unwrap();
    let expected = r#"--- ENDPOINT ---
test.Service/Method

--- REQUEST ---
{}

--- RESPONSE unordered_arrays ---
{
  "items": [
    3,
    1,
    2
  ]
}
"#;
    assert_eq!(formatted, expected);
}

#[test]
fn fmt_section_response_with_multiple_inline_options() {
    let source = r#"--- ENDPOINT ---
test.Service/Method

--- REQUEST ---
{}

--- RESPONSE with_asserts=true partial=true tolerance=0.1 ---
{
  "status": "ok"
}

--- ASSERTS ---
.status == "ok"
"#;
    let formatted = format_gctf_content(source, "test.gctf").unwrap();
    let expected = r#"--- ENDPOINT ---
test.Service/Method

--- REQUEST ---
{}

--- RESPONSE partial tolerance=0.1 with_asserts ---
{
  "status": "ok"
}

--- ASSERTS ---
.status == "ok"
"#;
    assert_eq!(formatted, expected);
}

#[test]
fn fmt_section_error() {
    let source = r#"--- ENDPOINT ---
test.Service/Method

--- REQUEST ---
{}

--- ERROR ---
{
  "code": 3,
  "message": "Invalid argument"
}
"#;
    let formatted = format_gctf_content(source, "test.gctf").unwrap();
    let expected = r#"--- ENDPOINT ---
test.Service/Method

--- REQUEST ---
{}

--- ERROR ---
{
  "code": 3,
  "message": "Invalid argument"
}
"#;
    assert_eq!(formatted, expected);
}

#[test]
fn fmt_section_error_with_inline_options() {
    let source = r#"--- ENDPOINT ---
test.Service/Method

--- REQUEST ---
{}

--- ERROR with_asserts=true ---
{
  "code": 3
}

--- ASSERTS ---
.code == 3
"#;
    let formatted = format_gctf_content(source, "test.gctf").unwrap();
    let expected = r#"--- ENDPOINT ---
test.Service/Method

--- REQUEST ---
{}

--- ERROR with_asserts ---
{
  "code": 3
}

--- ASSERTS ---
.code == 3
"#;
    assert_eq!(formatted, expected);
}

#[test]
fn fmt_section_error_with_partial_and_with_asserts_options() {
    let source = r#"--- ENDPOINT ---
test.Service/Method

--- REQUEST ---
{}

--- ERROR with_asserts=true partial=true ---
{
  "code": 5
}

--- ASSERTS ---
.code == 5
"#;
    let formatted = format_gctf_content(source, "test.gctf").unwrap();
    let expected = r#"--- ENDPOINT ---
test.Service/Method

--- REQUEST ---
{}

--- ERROR partial with_asserts ---
{
  "code": 5
}

--- ASSERTS ---
.code == 5
"#;
    assert_eq!(formatted, expected);
}

#[test]
fn fmt_section_request_headers() {
    let source = r#"--- ENDPOINT ---
test.Service/Method

--- REQUEST_HEADERS ---
Content-Type: application/json
Authorization: Bearer token123

--- REQUEST ---
{}

--- RESPONSE ---
{}"#;
    let formatted = format_gctf_content(source, "test.gctf").unwrap();
    let expected = r#"--- ENDPOINT ---
test.Service/Method

--- REQUEST_HEADERS ---
Authorization: Bearer token123
Content-Type: application/json

--- REQUEST ---
{}

--- RESPONSE ---
{}
"#;
    assert_eq!(formatted, expected);
}

#[test]
fn fmt_section_asserts() {
    let source = r#"--- ENDPOINT ---
test.Service/Method

--- REQUEST ---
{}

--- RESPONSE with_asserts=true ---
{
  "status": "ok",
  "count": 42
}

--- ASSERTS ---
.status == "ok"
.count == 42
.count > 10
"#;
    let formatted = format_gctf_content(source, "test.gctf").unwrap();
    let expected = r#"--- ENDPOINT ---
test.Service/Method

--- REQUEST ---
{}

--- RESPONSE with_asserts ---
{
  "status": "ok",
  "count": 42
}

--- ASSERTS ---
.status == "ok"
.count == 42
.count > 10
"#;
    assert_eq!(formatted, expected);
}

#[test]
fn fmt_section_proto() {
    let source = r#"--- ENDPOINT ---
test.Service/Method

--- PROTO ---
files: service.proto
import_path: /proto

--- REQUEST ---
{}

--- RESPONSE ---
{}"#;
    let formatted = format_gctf_content(source, "test.gctf").unwrap();
    let expected = r#"--- ENDPOINT ---
test.Service/Method

--- PROTO ---
files: service.proto
import_path: /proto

--- REQUEST ---
{}

--- RESPONSE ---
{}
"#;
    assert_eq!(formatted, expected);
}

#[test]
fn fmt_section_tls() {
    let source = r#"--- ENDPOINT ---
test.Service/Method

--- TLS ---
insecure: false
ca_cert: /path/to/ca.crt
server_name: example.com

--- REQUEST ---
{}

--- RESPONSE ---
{}"#;
    let formatted = format_gctf_content(source, "test.gctf").unwrap();
    let expected = r#"--- ENDPOINT ---
test.Service/Method

--- TLS ---
ca_cert: /path/to/ca.crt
insecure: false
server_name: example.com

--- REQUEST ---
{}

--- RESPONSE ---
{}
"#;
    assert_eq!(formatted, expected);
}

#[test]
fn fmt_section_options() {
    let source = r#"--- ENDPOINT ---
test.Service/Method

--- OPTIONS ---
timeout: 30
dry_run: true
retry_count: 3

--- REQUEST ---
{}

--- RESPONSE ---
{}"#;
    let formatted = format_gctf_content(source, "test.gctf").unwrap();
    let expected = r#"--- ENDPOINT ---
test.Service/Method

--- OPTIONS ---
dry_run: true
retry_count: 3
timeout: 30

--- REQUEST ---
{}

--- RESPONSE ---
{}
"#;
    assert_eq!(formatted, expected);
}

#[test]
fn fmt_section_extract() {
    let source = r#"--- ENDPOINT ---
test.Service/Method

--- REQUEST ---
{}

--- RESPONSE ---
{
  "id": 123,
  "token": "abc456"
}

--- EXTRACT ---
user_id: .id
auth_token: .token
"#;
    let formatted = format_gctf_content(source, "test.gctf").unwrap();
    let expected = r#"--- ENDPOINT ---
test.Service/Method

--- REQUEST ---
{}

--- RESPONSE ---
{
  "id": 123,
  "token": "abc456"
}

--- EXTRACT ---
user_id: .id
auth_token: .token
"#;
    assert_eq!(formatted, expected);
}

#[test]
fn fmt_extract_with_type_annotation() {
    let source = r#"--- ENDPOINT ---
test.Service/Method

--- REQUEST ---
{}

--- RESPONSE ---
{"price": 42}

--- EXTRACT ---
total:number = .price
"#;
    let formatted = format_gctf_content(source, "test.gctf").unwrap();
    let expected = r#"--- ENDPOINT ---
test.Service/Method

--- REQUEST ---
{}

--- RESPONSE ---
{
  "price": 42
}

--- EXTRACT ---
total:number = .price
"#;
    assert_eq!(
        formatted, expected,
        "Type annotation in EXTRACT should be preserved as total:number = .price"
    );
}

#[test]
fn fmt_all_sections_in_order() {
    let source = r#"--- ADDRESS ---
localhost:4770

--- ENDPOINT ---
grpc.health.v1.Health/Check

--- REQUEST_HEADERS ---
Content-Type: application/json
Authorization: Bearer token

--- PROTO ---
files: health.proto

--- TLS ---
insecure: false

--- OPTIONS ---
timeout: 10

--- REQUEST ---
{
  "service": "grpc.health.v1.Health"
}

--- RESPONSE ---
{
  "status": "SERVING"
}

--- ERROR ---
{
  "code": 5,
  "message": "Service not found"
}

--- ASSERTS ---
.status == "SERVING"

--- EXTRACT ---
status_code: .status
"#;
    let formatted = format_gctf_content(source, "test.gctf").unwrap();
    let expected = r#"--- ADDRESS ---
localhost:4770

--- ENDPOINT ---
grpc.health.v1.Health/Check

--- REQUEST_HEADERS ---
Authorization: Bearer token
Content-Type: application/json

--- PROTO ---
files: health.proto

--- TLS ---
insecure: false

--- OPTIONS ---
timeout: 10

--- REQUEST ---
{
  "service": "grpc.health.v1.Health"
}

--- RESPONSE ---
{
  "status": "SERVING"
}

--- ERROR ---
{
  "code": 5,
  "message": "Service not found"
}

--- ASSERTS ---
.status == "SERVING"

--- EXTRACT ---
status_code: .status
"#;
    assert_eq!(formatted, expected);
}

#[test]
fn fmt_inline_options_all_boolean_combinations() {
    let combinations = [
        ("", ""),
        ("with_asserts=true", "with_asserts"),
        ("partial=true", "partial"),
        ("unordered_arrays=true", "unordered_arrays"),
        ("with_asserts=true partial=true", "partial with_asserts"),
        (
            "with_asserts=true unordered_arrays=true",
            "unordered_arrays with_asserts",
        ),
        (
            "partial=true unordered_arrays=true",
            "partial unordered_arrays",
        ),
        (
            "with_asserts=true partial=true unordered_arrays=true",
            "partial unordered_arrays with_asserts",
        ),
    ];

    for (input_opts, expected_opts) in combinations {
        let source = format!(
            r#"--- ENDPOINT ---
test.Service/Method

--- REQUEST ---
{{}}

--- RESPONSE{} ---
{{"status": "ok"}}
"#,
            if input_opts.is_empty() {
                String::new()
            } else {
                format!(" {}", input_opts)
            }
        );

        let expected = format!(
            r#"--- ENDPOINT ---
test.Service/Method

--- REQUEST ---
{{}}

--- RESPONSE{} ---
{{
  "status": "ok"
}}
"#,
            if expected_opts.is_empty() {
                String::new()
            } else {
                format!(" {}", expected_opts)
            }
        );

        let formatted = format_gctf_content(&source, "test.gctf").unwrap();
        assert_eq!(formatted, expected, "Failed for options: {}", input_opts);
    }
}

#[test]
fn fmt_detached_comments_preserved() {
    let source = r#"// This is a detached comment before the endpoint
--- ENDPOINT ---
test.Service/Method

// Another detached comment
--- REQUEST ---
{}

// Comment before response
--- RESPONSE ---
{}
"#;
    let formatted = format_gctf_content(source, "test.gctf").unwrap();
    // Preamble/body boundary (ENDPOINT → REQUEST) is re-homed for
    // reorder safety, so that comment now attaches directly to REQUEST;
    // body-to-body (REQUEST → RESPONSE) is untouched.
    let expected = r#"// This is a detached comment before the endpoint
--- ENDPOINT ---
test.Service/Method

// Another detached comment
--- REQUEST ---
{}
// Comment before response

--- RESPONSE ---
{}
"#;
    assert_eq!(formatted, expected);
}

#[test]
fn fmt_attribute_between_sections_no_duplicated_or_phantom_lines() {
    // Regression: a `#[attr]` line between two sections used to make the
    // *preceding* section's parsed `end_line` overshoot past it, which
    // made `format_gctf_chain`'s block-reassembly re-copy a stray raw
    // line (extra blank line, or in the worst case a duplicated content
    // line) around the attribute boundary.
    let source = r#"--- ENDPOINT ---
grpc.health.v1.Health/Check

--- REQUEST ---
{}

#[timeout(5)]
--- RESPONSE ---
{"status": "SERVING"}
"#;
    let once = format_gctf_content(source, "test.gctf").unwrap();
    let twice = format_gctf_content(&once, "test.gctf").unwrap();
    assert_eq!(once, twice, "fmt must be idempotent: {once}");
    assert_eq!(
        once.matches("timeout").count(),
        1,
        "attribute must appear exactly once: {once}"
    );
    assert_eq!(
        once.matches("SERVING").count(),
        1,
        "RESPONSE body must not be duplicated: {once}"
    );
}

#[test]
fn fmt_reorders_scrambled_preamble_to_canonical() {
    let source = r#"--- META ---
name: my test

--- ENDPOINT ---
pkg.Svc/Method

--- ADDRESS ---
localhost:4770

--- BENCH ---
mode: fixed

--- REQUEST ---
{}

--- RESPONSE ---
{}
"#;
    let formatted = format_gctf_content(source, "test.gctf").unwrap();
    let positions: Vec<usize> = ["META", "BENCH", "ADDRESS", "ENDPOINT"]
        .iter()
        .map(|s| formatted.find(&format!("--- {s} ---")).unwrap())
        .collect();
    let mut sorted = positions.clone();
    sorted.sort();
    assert_eq!(
        positions, sorted,
        "sections not in canonical order: {formatted}"
    );
}

#[test]
fn fmt_reorders_dataset_before_address_and_endpoint() {
    let source = r#"--- OPTIONS ---
timeout: 5

--- ADDRESS ---
localhost:4770

--- DATASET ---
- id: '1'

--- ENDPOINT ---
pkg.Svc/Method

--- REQUEST ---
{}

--- RESPONSE ---
{}
"#;
    let formatted = format_gctf_content(source, "test.gctf").unwrap();
    let positions: Vec<usize> = ["DATASET", "ADDRESS", "ENDPOINT", "OPTIONS"]
        .iter()
        .map(|s| formatted.find(&format!("--- {s} ---")).unwrap())
        .collect();
    let mut sorted = positions.clone();
    sorted.sort();
    assert_eq!(
        positions, sorted,
        "DATASET must sort before ADDRESS/ENDPOINT/OPTIONS: {formatted}"
    );
}

#[test]
fn fmt_preserves_hash_comments_inside_dataset() {
    let source = r#"--- ENDPOINT ---
pkg.Svc/Method

--- DATASET ---
# real users only
- id: '1'  # ada

--- REQUEST ---
{}

--- RESPONSE ---
{}
"#;
    let formatted = format_gctf_content(source, "test.gctf").unwrap();
    assert!(
        formatted.contains("# real users only"),
        "YAML comment must survive fmt, not become `//`: {formatted}"
    );
    assert!(
        formatted.contains("# ada"),
        "trailing YAML comment must survive fmt: {formatted}"
    );
    assert!(!formatted.contains("// real users only"));
}

#[test]
fn fmt_reorder_is_idempotent() {
    let source = r#"--- ENDPOINT ---
pkg.Svc/Method

--- ADDRESS ---
localhost:4770

--- META ---
name: my test

--- REQUEST ---
{}

--- RESPONSE ---
{}
"#;
    let once = format_gctf_content(source, "test.gctf").unwrap();
    let twice = format_gctf_content(&once, "test.gctf").unwrap();
    assert_eq!(once, twice);
}

// Regression: a comment documenting a specific preamble section must
// travel with that section when reordering moves it, not stay behind
// with whatever section now precedes it (the parser attributes a
// trailing comment to the preceding section's raw content, not the one
// it visually precedes).
#[test]
fn fmt_reorder_carries_comment_with_its_section() {
    let source = r#"--- META ---
name: my test

--- ENDPOINT ---
pkg.Svc/Method

--- ADDRESS ---
localhost:4770

// documents the bench profile
--- BENCH ---
mode: fixed

--- REQUEST ---
{}

--- RESPONSE ---
{}
"#;
    let formatted = format_gctf_content(source, "test.gctf").unwrap();
    let comment_pos = formatted.find("// documents the bench profile").unwrap();
    let bench_pos = formatted.find("--- BENCH ---").unwrap();
    let address_pos = formatted.find("--- ADDRESS ---").unwrap();
    assert!(
        comment_pos < bench_pos && bench_pos < comment_pos + 40,
        "comment must sit directly above BENCH: {formatted}"
    );
    assert!(
        bench_pos < address_pos,
        "BENCH must now precede ADDRESS: {formatted}"
    );
}

// Regression: BENCH.sources: is a nested YAML list — formatting must not
// scatter it into sorted, unindented top-level keys.
#[test]
fn fmt_bench_sources_nested_yaml_survives() {
    let source = r#"--- BENCH ---
duration: 30s
mode: fixed
sources:
  - name: users
    file: data/users.csv
  - name: orders
    file: data/orders.csv

--- ENDPOINT ---
pkg.Svc/Method

--- REQUEST ---
{}

--- RESPONSE ---
{}
"#;
    let formatted = format_gctf_content(source, "test.gctf").unwrap();
    assert!(
        formatted.contains("sources:\n  - name: users\n    file: data/users.csv\n  - name: orders\n    file: data/orders.csv\n"),
        "sources: list must stay intact and indented: {formatted}"
    );
    let twice = format_gctf_content(&formatted, "test.gctf").unwrap();
    assert_eq!(formatted, twice, "must be idempotent");
}

// Regression: BENCH keys must sort by the canonical `bench_key_rank`
// order (matching `check` and the other BENCH serializer in
// apif-parser), not alphabetically — `mode` before `duration`, etc.
#[test]
fn fmt_bench_keys_sort_canonically_not_alphabetically() {
    let source = r#"--- BENCH ---
duration: 30s
concurrency: 16
mode: fixed
requests: 5000
profile: smoke

--- ENDPOINT ---
pkg.Svc/Method

--- REQUEST ---
{}

--- RESPONSE ---
{}
"#;
    let formatted = format_gctf_content(source, "test.gctf").unwrap();
    let positions: Vec<usize> = ["mode", "profile", "concurrency", "requests", "duration"]
        .iter()
        .map(|k| formatted.find(&format!("{k}:")).unwrap())
        .collect();
    let mut sorted = positions.clone();
    sorted.sort();
    assert_eq!(
        positions, sorted,
        "BENCH keys not in canonical order: {formatted}"
    );
}

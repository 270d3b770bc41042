use grpctestify::commands::fmt::{format_gctf_content, needs_format, normalize_eol_for_compare};

#[test]
fn crlf_compares_as_lf() {
    assert_eq!(normalize_eol_for_compare("a\r\nb\r\n"), "a\nb\n");
    assert_eq!(normalize_eol_for_compare("a\rb"), "a\rb");
    assert_eq!(normalize_eol_for_compare("\r\r\n"), "\r\n");
    assert_eq!(normalize_eol_for_compare(""), "");
}

#[test]
fn a_crlf_copy_of_formatted_text_needs_no_format() {
    let src = "--- ENDPOINT ---\nsvc.S/M\n\n--- REQUEST ---\n{}\n";
    let formatted = format_gctf_content(src, "t.gctf").unwrap();
    let crlf = formatted.replace('\n', "\r\n");
    assert!(!needs_format(&crlf, &formatted));
    assert!(needs_format("--- ENDPOINT ---\nsvc.S/M\n", &formatted));
}

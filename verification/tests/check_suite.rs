use grpctestify::commands::check_suite::{count_document, suite_diagnostics, SuiteTally};
use grpctestify::parser::parse_gctf_from_str;

fn empty() -> SuiteTally {
    SuiteTally { total_docs: 0, grpc_docs: 0, with_error: 0, with_asserts: 0 }
}

#[test]
fn a_suite_without_error_or_asserts_gets_both_notes() {
    let doc = parse_gctf_from_str("--- ENDPOINT ---\nsvc.S/M\n--- REQUEST ---\n{}\n--- RESPONSE ---\n{}\n", "a.gctf").unwrap();
    let t = count_document(empty(), &doc, true);
    assert_eq!((t.total_docs, t.grpc_docs, t.with_error, t.with_asserts), (1, 1, 0, 0));
    let notes = suite_diagnostics(&t);
    assert_eq!(notes.len(), 2);
    assert_eq!(notes[0].code, "NO_ERROR_CASE_COVERAGE");
    assert_eq!(notes[0].message, "No test in this suite exercises an ERROR case (0/1 documents have an ERROR section)");
    assert_eq!(notes[0].file, "<suite>");
    assert_eq!(notes[1].code, "NO_ASSERTS_COVERAGE");
    assert_eq!(
        notes[1].message,
        "No test in this suite has an ASSERTS section (0/1 documents) \u{2014} every test relies on exact RESPONSE/ERROR body matching"
    );
}

#[test]
fn a_covered_suite_gets_no_notes() {
    let doc = parse_gctf_from_str("--- ENDPOINT ---\nsvc.S/M\n--- REQUEST ---\n{}\n--- ERROR ---\n{}\n--- ASSERTS ---\n.code == 5\n", "a.gctf").unwrap();
    let t = count_document(empty(), &doc, true);
    assert_eq!((t.with_error, t.with_asserts), (1, 1));
    assert!(suite_diagnostics(&t).is_empty());
    assert!(suite_diagnostics(&empty()).is_empty());
}

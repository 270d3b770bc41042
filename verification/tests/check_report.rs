use grpctestify::commands::check_report::{
    build_summary, sort_diagnostics, sort_report_diagnostics, Diagnostic, DiagnosticSeverity,
};

fn diag(file: &str, line: usize, code: &str, message: &str, severity: DiagnosticSeverity) -> Diagnostic {
    Diagnostic {
        file: file.to_string(),
        line,
        code: code.to_string(),
        message: message.to_string(),
        severity,
        hint: None,
    }
}

#[test]
fn diagnostics_read_by_file_line_code_and_message() {
    let mut ds = vec![
        diag("b.gctf", 1, "E1", "x", DiagnosticSeverity::Error),
        diag("a.gctf", 10, "E1", "x", DiagnosticSeverity::Error),
        diag("a.gctf", 2, "W9", "later code", DiagnosticSeverity::Warning),
        diag("a.gctf", 2, "W1", "b", DiagnosticSeverity::Warning),
        diag("a.gctf", 2, "W1", "a", DiagnosticSeverity::Warning),
    ];
    sort_diagnostics(&mut ds);
    let order: Vec<(String, usize, String, String)> = ds
        .iter()
        .map(|d| (d.file.clone(), d.line, d.code.clone(), d.message.clone()))
        .collect();
    assert_eq!(
        order,
        vec![
            ("a.gctf".to_string(), 2, "W1".to_string(), "a".to_string()),
            ("a.gctf".to_string(), 2, "W1".to_string(), "b".to_string()),
            ("a.gctf".to_string(), 2, "W9".to_string(), "later code".to_string()),
            ("a.gctf".to_string(), 10, "E1".to_string(), "x".to_string()),
            ("b.gctf".to_string(), 1, "E1".to_string(), "x".to_string()),
        ]
    );
}

#[test]
fn equal_diagnostics_keep_the_order_they_were_found_in() {
    let mut first = diag("a", 1, "C", "m", DiagnosticSeverity::Error);
    first.hint = Some("first".to_string());
    let mut second = diag("a", 1, "C", "m", DiagnosticSeverity::Error);
    second.hint = Some("second".to_string());
    let mut ds = vec![first, second];
    sort_diagnostics(&mut ds);
    assert_eq!(ds[0].hint.as_deref(), Some("first"));
    assert_eq!(ds[1].hint.as_deref(), Some("second"));
}

#[test]
fn the_summary_counts_errors_and_warnings() {
    let ds = vec![
        diag("a", 1, "E", "m", DiagnosticSeverity::Error),
        diag("a", 2, "W", "m", DiagnosticSeverity::Warning),
        diag("a", 3, "W", "m", DiagnosticSeverity::Warning),
        diag("a", 4, "I", "m", DiagnosticSeverity::Info),
        diag("a", 5, "H", "m", DiagnosticSeverity::Hint),
    ];
    let s = build_summary(&ds, 3, 1);
    assert_eq!((s.total_files, s.files_with_errors, s.total_errors, s.total_warnings), (3, 1, 1, 2));
}

#[test]
fn report_diagnostics_read_by_line_whatever_the_file() {
    let mut ds = vec![
        diag("a.gctf", 9, "E1", "x", DiagnosticSeverity::Error),
        diag("b.gctf", 3, "E2", "y", DiagnosticSeverity::Error),
        diag("a.gctf", 3, "E1", "z", DiagnosticSeverity::Error),
    ];
    sort_report_diagnostics(&mut ds);
    let order: Vec<(usize, String)> = ds.iter().map(|d| (d.line, d.code.clone())).collect();
    assert_eq!(order, vec![(3, "E1".to_string()), (3, "E2".to_string()), (9, "E1".to_string())]);
}

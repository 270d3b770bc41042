use grpctestify::commands::fmt::format_gctf_content;

fn twice(src: &str) -> (String, String) {
    let once = format_gctf_content(src, "t.gctf").unwrap();
    let again = format_gctf_content(&once, "t.gctf").unwrap();
    (once, again)
}

#[test]
fn an_options_section_formats_once() {
    let src = "--- ENDPOINT ---\nsvc.S/M\n\n--- OPTIONS ---\n  # slow backend\n  Retry-Delay :  2\ntimeout:30\nnot a key\n";
    let (once, again) = twice(src);
    assert!(once.contains("Retry_Delay: 2\ntimeout: 30\nnot a key"), "{once}");
    assert_eq!(once, again);
}

#[test]
fn a_bench_section_formats_once() {
    let src = "--- BENCH ---\nsources:\n  - file: a.csv\nduration:10s\n# the mode\nmode: open\n--- ENDPOINT ---\nsvc.S/M\n";
    let (once, again) = twice(src);
    assert!(once.contains("mode: open"), "{once}");
    assert_eq!(once, again);
}

#[test]
fn an_extract_section_formats_once() {
    let src = "--- ENDPOINT ---\nsvc.S/M\n\n--- EXTRACT ---\nid:String=.id\n  token =  .auth.token\n";
    let (once, again) = twice(src);
    assert!(once.contains("id:String = .id"), "{once}");
    assert!(once.contains("  token = .auth.token"), "{once}");
    assert_eq!(once, again);
}

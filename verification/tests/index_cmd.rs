use grpctestify::commands::index_cmd::{index_state_from, is_bench_file, IndexState};

#[test]
fn an_index_is_judged_by_its_file_and_its_age() {
    assert_eq!(index_state_from(false, true, None, None), IndexState::Missing);
    assert_eq!(index_state_from(true, false, Some(Some(5)), Some(Some(1))), IndexState::Corrupted);
    assert_eq!(index_state_from(true, true, None, Some(Some(1))), IndexState::Corrupted);
    assert_eq!(index_state_from(true, true, Some(Some(5)), None), IndexState::Corrupted);
    assert_eq!(index_state_from(true, true, Some(Some(1)), Some(Some(5))), IndexState::Stale);
    assert_eq!(index_state_from(true, true, Some(Some(-7)), Some(Some(-2))), IndexState::Stale);
    assert_eq!(index_state_from(true, true, Some(Some(5)), Some(Some(5))), IndexState::Fresh);
    assert_eq!(index_state_from(true, true, Some(None), Some(Some(5))), IndexState::Fresh);
}

#[test]
fn bench_sources_are_gctf_files() {
    assert!(is_bench_file("suite/load.gctf"));
    assert!(is_bench_file("LOAD.GCTF"));
    assert!(!is_bench_file("users.httf"));
    assert!(!is_bench_file("notes"));
    assert!(!is_bench_file(".gctf"));
}

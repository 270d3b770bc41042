use grpctestify::commands::bench::ExecModel;
use grpctestify::commands::bench_plan::{
    concurrency_levels, default_connections, has_target_rate, plan_level, request_timeout_seconds,
    split_passes, LevelRun, MAX_DEFAULT_CONNECTIONS,
};

#[test]
fn concurrency_levels_default_to_a_single_level() {
    assert_eq!(concurrency_levels("", 8, None, None, None).unwrap(), vec![8]);
}

#[test]
fn concurrency_levels_step_up_and_down() {
    let up = concurrency_levels("step", 0, Some(1), Some(9), Some(4));
    assert_eq!(up.unwrap(), vec![1, 5, 9]);

    // A ramp-down is expressed by an end below the start, not a negative
    // step — the level count is a `u32`.
    let down = concurrency_levels("step", 0, Some(10), Some(4), Some(3));
    assert_eq!(down.unwrap(), vec![10, 7, 4]);
}

#[test]
fn concurrency_levels_clamp_the_last_step_to_the_end() {
    // 1 -> 5 -> 9 -> 10, not 1 -> 5 -> 9 -> 13.
    let levels = concurrency_levels("line", 0, Some(1), Some(10), Some(4));
    assert_eq!(levels.unwrap(), vec![1, 5, 9, 10]);
}

#[test]
fn concurrency_levels_reject_an_unbounded_sweep() {
    let err = concurrency_levels("line", 0, Some(1), Some(100_000), None).unwrap_err();
    assert!(err.contains("levels"), "got: {err}");
}

#[test]
fn concurrency_levels_reject_an_unknown_schedule() {
    let err = concurrency_levels("sine", 0, None, None, None).unwrap_err();
    assert!(err.contains("const, step, line"), "got: {err}");
}

#[test]
fn concurrency_levels_name_the_unknown_schedule_trimmed() {
    let err = concurrency_levels("  sine\t", 4, None, None, None).unwrap_err();
    assert_eq!(
        err,
        "unknown concurrency_schedule 'sine'; expected one of: const, step, line"
    );
}

#[test]
fn concurrency_levels_refuse_a_zero_level() {
    let err = concurrency_levels("step", 0, Some(1), None, None).unwrap_err();
    assert_eq!(err, "concurrency levels must be greater than 0");
    let err = concurrency_levels("line", 5, Some(0), None, None).unwrap_err();
    assert_eq!(err, "concurrency levels must be greater than 0");
}

#[test]
fn concurrency_levels_step_without_a_step_jumps_to_the_end() {
    assert_eq!(concurrency_levels("step", 0, Some(2), Some(50), None).unwrap(), vec![2, 50]);
    assert_eq!(concurrency_levels(" step ", 7, None, None, None).unwrap(), vec![7]);
}

#[test]
fn concurrency_levels_line_walks_one_worker_at_a_time() {
    assert_eq!(concurrency_levels("line", 0, Some(5), Some(2), None).unwrap(), vec![5, 4, 3, 2]);
}

#[test]
fn concurrency_levels_accept_sixty_five_levels_and_refuse_sixty_six() {
    let ok = concurrency_levels("line", 0, Some(1), Some(65), None).unwrap();
    assert_eq!(ok.len(), 65);
    assert_eq!(ok[64], 65);
    let err = concurrency_levels("line", 0, Some(1), Some(66), None).unwrap_err();
    assert_eq!(
        err,
        "concurrency schedule produces more than 64 levels; raise concurrency_step"
    );
}

#[test]
fn concurrency_levels_reach_the_top_of_the_range() {
    let levels = concurrency_levels("step", 0, Some(1), Some(u32::MAX), Some(u32::MAX - 1)).unwrap();
    assert_eq!(levels, vec![1, u32::MAX]);
}

#[test]
fn test_has_target_rate() {
    assert!(!has_target_rate(false, false, "const"));
    assert!(has_target_rate(true, false, "const"));
    assert!(has_target_rate(false, true, "const"));
    assert!(has_target_rate(false, false, "step"));
    assert!(!has_target_rate(false, false, "  CONST "));
}

#[test]
fn default_connections_follow_concurrency_up_to_the_host() {
    assert_eq!(default_connections(3, 16), 3);
    assert_eq!(default_connections(300, 4), 4);
    assert_eq!(default_connections(300, 64), MAX_DEFAULT_CONNECTIONS);
    assert_eq!(default_connections(0, 16), 1);
    assert_eq!(default_connections(5, 0), 1);
}

#[test]
fn request_timeout_defaults_to_the_run_duration() {
    assert_eq!(request_timeout_seconds(None, Some(10)), 10);
}

#[test]
fn request_timeout_overrides_the_run_duration() {
    assert_eq!(request_timeout_seconds(Some(120), Some(10)), 120);
}

#[test]
fn request_timeout_never_reaches_zero() {
    // A one-millisecond timeout is zero whole seconds.
    assert_eq!(request_timeout_seconds(Some(0), None), 1);
}

#[test]
fn request_timeout_falls_back_to_thirty_seconds() {
    assert_eq!(request_timeout_seconds(None, None), 30);
}

/// Host parallelism as different machines report it.
const HOSTS: [usize; 5] = [1, 2, 4, 16, 64];

#[test]
fn the_default_pool_never_exceeds_the_worker_count() {
    for cores in HOSTS {
        assert_eq!(default_connections(0, cores), 1);
        assert_eq!(default_connections(1, cores), 1);
        assert_eq!(default_connections(2, cores), 2.min(cores as u32));
    }
}

#[test]
fn the_default_pool_stays_within_its_bounds() {
    for parallelism in HOSTS {
        let cores = parallelism as u32;
        for concurrency in [0, 1, 2, 7, 99, 101, 1_000, u32::MAX] {
            let n = default_connections(concurrency, parallelism);
            assert!(n >= 1);
            assert!(n <= concurrency.max(1), "{n} > concurrency {concurrency}");
            assert!(n <= MAX_DEFAULT_CONNECTIONS);
            assert!(n <= cores.max(1), "{n} > {cores} cores");
        }
        assert_eq!(
            default_connections(u32::MAX, parallelism),
            MAX_DEFAULT_CONNECTIONS.min(cores.max(1))
        );
    }
}

#[test]
fn split_passes_gives_the_remainder_to_the_last_worker() {
    assert_eq!(split_passes(10, 3), vec![3, 3, 4]);
    assert_eq!(split_passes(2, 4), vec![0, 0, 0, 2]);
    assert_eq!(split_passes(7, 1), vec![7]);
    let shares = split_passes(1_000_003, 7);
    assert_eq!(shares.iter().sum::<u64>(), 1_000_003);
}

#[test]
fn plan_level_runs_the_open_model_only_with_a_rate() {
    assert_eq!(plan_level(ExecModel::Open, true, true, 0, 2, 4), Ok(LevelRun::OpenForDuration));
    assert_eq!(
        plan_level(ExecModel::Open, true, false, 100, 3, 4),
        Ok(LevelRun::OpenForPasses(33))
    );
    assert_eq!(
        plan_level(ExecModel::Open, false, true, 0, 2, 4),
        Ok(LevelRun::ClosedForDuration)
    );
}

#[test]
fn plan_level_splits_the_request_budget_over_workers() {
    assert_eq!(
        plan_level(ExecModel::Closed, false, false, 100, 3, 2),
        Ok(LevelRun::ClosedForPasses(vec![16, 17]))
    );
    assert_eq!(plan_level(ExecModel::Closed, false, false, 0, 3, 2), Ok(LevelRun::Idle));
}

#[test]
fn plan_level_refuses_a_budget_below_the_document_count() {
    assert_eq!(
        plan_level(ExecModel::Closed, true, false, 2, 5, 1),
        Err("requests (2) is below the number of selected documents (5) \u{2014} `--requests` is the total budget across all of them, so this would issue no requests at all. Raise it to at least 5, or select fewer files.".to_string())
    );
}

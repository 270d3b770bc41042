use grpctestify::commands::health::{
    failure_summary, resolve_tls_config, target_services, HealthResult,
};

#[test]
fn no_flags_stays_plaintext() {
    assert!(resolve_tls_config(false, false).is_none());
}

#[test]
fn tls_flag_requests_verified_tls() {
    let cfg = resolve_tls_config(true, false).unwrap();
    assert!(!cfg.insecure_skip_verify);
}

#[test]
fn insecure_flag_requests_unverified_tls() {
    let cfg = resolve_tls_config(false, true).unwrap();
    assert!(cfg.insecure_skip_verify);
}

#[test]
fn tls_and_insecure_together_stays_unverified() {
    let cfg = resolve_tls_config(true, true).unwrap();
    assert!(cfg.insecure_skip_verify, "--insecure wins when both are set");
}

#[test]
fn no_service_flags_checks_overall_only() {
    assert_eq!(target_services(&Vec::new()), vec![String::new()]);
}

#[test]
fn repeated_service_flags_check_each_named_service() {
    let services = vec!["svc.A".to_string(), "svc.B".to_string()];
    assert_eq!(
        target_services(&services),
        vec!["svc.A".to_string(), "svc.B".to_string()]
    );
}

#[test]
fn failure_summary_lists_only_non_serving_targets() {
    let results = vec![
        HealthResult {
            service: "a".to_string(),
            status: "SERVING".to_string(),
            duration_ms: 1,
        },
        HealthResult {
            service: "b".to_string(),
            status: "NOT_SERVING".to_string(),
            duration_ms: 1,
        },
    ];
    assert_eq!(failure_summary(&results), "b=NOT_SERVING");
}

#[test]
fn the_server_as_a_whole_is_called_overall() {
    let results = vec![
        HealthResult {
            service: String::new(),
            status: "UNREACHABLE".to_string(),
            duration_ms: 0,
        },
        HealthResult {
            service: "c".to_string(),
            status: "UNKNOWN".to_string(),
            duration_ms: 0,
        },
    ];
    assert_eq!(failure_summary(&results), "overall=UNREACHABLE, c=UNKNOWN");
    assert!(!results[0].is_serving());
    assert_eq!(results[0].display_target(), "overall");
}

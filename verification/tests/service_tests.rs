use cliproxy_desktop::service::{total_requests_or_zero, usage_import_wanted};
use cliproxy_desktop::service::{
    auth_dir_plan, bootstrap_active_version, management_url, newest_first_order,
    pid_from_lsof_output, pid_matches_managed_runtime, should_write_usage_backup, stop_step,
    usage_backup_restorable, usage_total_requests, AuthDirPlan, StopAction, StopEvent,
    StopFailure, StopState, STOP_POLLS,
};

#[test]
fn usage_totals_are_read_from_json() {
    assert_eq!(usage_total_requests(br#"{"usage":{"total_requests":12}}"#), 12);
    assert_eq!(usage_total_requests(br#"{"usage":{"total_requests":"12"}}"#), 0);
    assert_eq!(usage_total_requests(b"not json"), 0);
    assert_eq!(usage_total_requests(b""), 0);
}

#[test]
fn backups_are_written_when_useful() {
    assert!(should_write_usage_backup(br#"{"usage":{"total_requests":3}}"#, true));
    assert!(!should_write_usage_backup(br#"{"usage":{"total_requests":0}}"#, true));
    assert!(should_write_usage_backup(br#"{"usage":{"total_requests":0}}"#, false));
    assert!(should_write_usage_backup(b"", false));
    assert!(usage_backup_restorable(br#"{"usage":{"total_requests":3}}"#));
    assert!(!usage_backup_restorable(b""));
    assert!(!usage_backup_restorable(br#"{"usage":{}}"#));
}

#[test]
fn lsof_pid_is_the_first_p_line() {
    assert_eq!(pid_from_lsof_output("p1234\nfcwd\n"), Some(1234));
    assert_eq!(pid_from_lsof_output("f1\npx\np77\r\n"), Some(77));
    assert_eq!(pid_from_lsof_output("p99999999999\n"), None);
    assert_eq!(pid_from_lsof_output(""), None);
}

#[test]
fn managed_commands_name_the_runtime_and_our_paths() {
    let rt = "/data/runtimes";
    let cfg = "/data/workspace/config.yaml";
    assert!(pid_matches_managed_runtime(Some("/data/runtimes/1/cli-proxy-api --config x"), rt, cfg));
    assert!(pid_matches_managed_runtime(Some("cli-proxy-api --config /data/workspace/config.yaml"), rt, cfg));
    assert!(!pid_matches_managed_runtime(Some("/usr/bin/cli-proxy-api"), rt, cfg));
    assert!(!pid_matches_managed_runtime(Some("/data/runtimes/other"), rt, cfg));
    assert!(!pid_matches_managed_runtime(None, rt, cfg));
}

#[test]
fn auth_dirs_resolve_home_and_slashes() {
    match auth_dir_plan("  ") {
        AuthDirPlan::Home(p) => assert_eq!(p, ".cli-proxy-api"),
        _ => panic!("expected home"),
    }
    match auth_dir_plan("~") {
        AuthDirPlan::Home(p) => assert_eq!(p, ""),
        _ => panic!("expected home"),
    }
    match auth_dir_plan("~\\/auth\\x") {
        AuthDirPlan::Home(p) => assert_eq!(p, "auth/x"),
        _ => panic!("expected home"),
    }
    match auth_dir_plan("C:\\auth") {
        AuthDirPlan::Path(p) => assert_eq!(p, "C:/auth"),
        _ => panic!("expected path"),
    }
    match auth_dir_plan("~user") {
        AuthDirPlan::Path(p) => assert_eq!(p, "~user"),
        _ => panic!("expected path"),
    }
}

#[test]
fn management_page_address() {
    assert_eq!(management_url(Some(8317), Some("0.0.0.0")), Some("http://127.0.0.1:8317/management.html".to_string()));
    assert_eq!(management_url(Some(8), Some("::1")), Some("http://[::1]:8/management.html".to_string()));
    assert_eq!(management_url(None, Some("h")), None);
}

#[test]
fn active_version_is_kept_or_replaced() {
    let ids = vec!["b".to_string(), "a".to_string()];
    assert_eq!(bootstrap_active_version(Some("a"), &ids), None);
    assert_eq!(bootstrap_active_version(Some("c"), &ids), Some("b".to_string()));
    assert_eq!(bootstrap_active_version(None, &ids), Some("b".to_string()));
    assert_eq!(bootstrap_active_version(None, &[]), None);
}

#[test]
fn runtimes_are_listed_newest_first_and_stably() {
    assert_eq!(newest_first_order(&[5, 9, 5, 1, 9]), vec![1, 4, 0, 2, 3]);
    assert_eq!(newest_first_order(&[]), Vec::<usize>::new());
}

#[test]
fn stopping_a_running_process_escalates_to_kill() {
    let (s, a) = stop_step(StopState::Start, StopEvent::Begin);
    assert_eq!(a, StopAction::CheckRunning);
    let (s, a) = stop_step(s, StopEvent::Running(true));
    assert_eq!(a, StopAction::SendTerm);
    let (mut s, a) = stop_step(s, StopEvent::Sent(true));
    assert_eq!(a, StopAction::CheckRunning);
    let mut checks = 0;
    loop {
        checks += 1;
        let (next, action) = stop_step(s, StopEvent::Running(true));
        s = next;
        if action == StopAction::PauseThenKill {
            break;
        }
        assert_eq!(action, StopAction::PauseThenCheck);
    }
    assert_eq!(checks, STOP_POLLS);
    assert_eq!(stop_step(s, StopEvent::Sent(false)), (StopState::Failed(StopFailure::KillRefused), StopAction::Finish));
}

#[test]
fn stopping_ends_early() {
    assert_eq!(stop_step(StopState::Start, StopEvent::Running(false)), (StopState::Stopped, StopAction::Finish));
    assert_eq!(
        stop_step(StopState::Terminating, StopEvent::Sent(false)),
        (StopState::Failed(StopFailure::TermRefused), StopAction::Finish)
    );
    assert_eq!(stop_step(StopState::Waiting(3), StopEvent::Running(false)), (StopState::Stopped, StopAction::Finish));
}

#[test]
fn usage_decisions_from_found_counts() {
    assert_eq!(total_requests_or_zero(Some(7)), 7);
    assert_eq!(total_requests_or_zero(Some(-2)), -2);
    assert_eq!(total_requests_or_zero(None), 0);
    assert!(usage_import_wanted(10, 3));
    assert!(usage_import_wanted(10, -1));
    assert!(!usage_import_wanted(10, 0));
    assert!(!usage_import_wanted(0, 3));
}

#[test]
fn usage_count_is_read_at_its_pointer_only() {
    assert_eq!(usage_total_requests(br#"{"usage":{"requests":5}}"#), 0);
    assert_eq!(usage_total_requests(br#"{"total_requests":5}"#), 0);
    assert_eq!(usage_total_requests(br#"{"usage":{"total_requests":-4,"requests":9}}"#), -4);
    assert_eq!(usage_total_requests(br#"{"usage":{"total_requests":7.5}}"#), 0);
    assert!(!should_write_usage_backup(br#"{"usage":{"total_requests":-1}}"#, true));
    assert!(!should_write_usage_backup(br#"{"usage":{"requests":5}}"#, true));
    assert!(usage_backup_restorable(br#"{"usage":{"total_requests":-1}}"#));
    assert!(!usage_backup_restorable(b"[1, 2]"));
}

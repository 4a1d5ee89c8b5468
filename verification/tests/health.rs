use moadim_ui::health::{bulk_outcome, Health, HealthDeps, Toast, ToastKind};

#[test]
fn health_defaults_are_empty() {
    let h = Health::default();
    assert_eq!(h.status, "");
    assert!(!h.running);
    assert_eq!(h.uptime_secs, None);
    assert_eq!(h.dependencies, None);
    assert_eq!(HealthDeps::default(), HealthDeps { tmux: false, python3: false });
}

#[test]
fn health_and_toast_clone_keep_their_fields() {
    let h = Health {
        status: "ok".into(),
        uptime_secs: Some(5),
        running: true,
        version: Some("1.2.3".into()),
        git_sha: None,
        dependencies: Some(HealthDeps { tmux: true, python3: false }),
    };
    assert_eq!(h.clone(), h);
    let t = Toast { id: 7, msg: "saved".into(), kind: ToastKind::Success };
    assert_eq!(t.clone(), t);
    assert_ne!(ToastKind::Success, ToastKind::Failure);
}

#[test]
fn bulk_outcome_summarises_successes_and_failures() {
    assert_eq!(bulk_outcome(3, 0, "enabled", "job"), ("3 job(s) enabled".to_string(), ToastKind::Success));
    assert_eq!(bulk_outcome(2, 1, "deleted", "routine"), ("2 deleted, 1 failed".to_string(), ToastKind::Failure));
    assert_eq!(bulk_outcome(0, 0, "disabled", "routine"), ("0 routine(s) disabled".to_string(), ToastKind::Success));
}
